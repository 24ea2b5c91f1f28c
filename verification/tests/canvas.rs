use jot::canvas::{
    before_after, before_after_fits, build_composite_filter, compose, composite_args,
    count_frames_args,
    default_output_path, drawtext_expr, duration_texts, duration_texts_from, enable_suffix,
    encode_args, escape_drawtext, even, frame_count, is_image, matched_font, media_size,
    media_size_from, parse_rational, probe_args, scale_to_h, scale_to_w, scene_font_family,
    timing_setpts, to_ffmpeg_color, work_files, BeforeAfterOptions, Canvas, Layer, LayerKind,
    LoopMode, MediaInfo, OutputKind, ProbeError, Scene, Stack, Stage, Timing, Transform,
};
use jot::config::GifQuality;
use jot::json::JsonValue;
use jot::paths::System;

fn transform(x: i32, y: i32, w: u32, h: u32) -> Transform {
    Transform { x, y, w, h, rotation: 0, opacity: 1_000_000 }
}

fn clip(source: &str, loop_mode: LoopMode, x: i32) -> Layer {
    Layer {
        kind: LayerKind::Clip {
            source: source.to_string(),
            loop_mode,
            trim_start: 0,
            trim_end: None,
        },
        transform: transform(x, 20, 180, 160),
        timing: Timing::default(),
    }
}

fn sample_scene() -> Scene {
    Scene {
        canvas: Canvas {
            width: 400,
            height: 200,
            background: "#101014".to_string(),
            fps: 20,
            duration: 5_000_000,
        },
        layers: vec![
            clip("/tmp/a.gif", LoopMode::Freeze, 10),
            clip("/tmp/b.gif", LoopMode::Loop, 210),
            Layer {
                kind: LayerKind::Text {
                    content: "Antes".to_string(),
                    font: "Sans Bold".to_string(),
                    size: 22,
                    color: "#ffffff".to_string(),
                    box_color: None,
                },
                transform: transform(10, 0, 180, 20),
                timing: Timing::default(),
            },
        ],
    }
}

#[test]
fn builder_inputs_and_overlays() {
    let scene = sample_scene();
    let (inputs, filter, map) = build_composite_filter(&scene, &None);
    assert_eq!(inputs.len(), 2);
    assert!(inputs[1].pre_args.iter().any(|a| a == "-stream_loop"));
    assert!(inputs[0].pre_args.is_empty());
    assert!(filter.contains("color=c=0x101014:s=400x200:r=20:d=5.000[base]"));
    assert_eq!(filter.matches("overlay=").count(), 2);
    assert!(filter.contains("drawtext="));
    assert!(filter.contains("format=rgb24[comp]"));
    assert!(!filter.contains("palettegen"));
    assert!(filter.contains("tpad=stop_mode=clone:stop_duration=5.000"));
    assert_eq!(map, "comp");
}

#[test]
fn trim_emits_trim_filter_and_drops_stream_loop() {
    let mut scene = sample_scene();
    if let LayerKind::Clip { trim_start, trim_end, .. } = &mut scene.layers[1].kind {
        *trim_start = 1_500_000;
        *trim_end = Some(4_000_000);
    }
    let (inputs, filter, _) = build_composite_filter(&scene, &None);
    assert!(filter.contains("trim=start=1.500:end=4.000"));
    assert!(!inputs[1].pre_args.iter().any(|a| a == "-stream_loop"));
    assert_eq!(filter.matches("trim=start=").count(), 1);
}

#[test]
fn base_source_is_finite() {
    let scene = sample_scene();
    let (_, filter, _) = build_composite_filter(&scene, &None);
    assert!(filter.contains(":d=5.000[base]"));
}

#[test]
fn color_conversion() {
    assert_eq!(to_ffmpeg_color("#0e0e12"), "0x0e0e12");
    assert_eq!(to_ffmpeg_color("#000000@0.5"), "0x000000@0.5");
    assert_eq!(to_ffmpeg_color("white"), "white");
}

#[test]
fn even_rounds_down() {
    assert_eq!(even(481), 480);
    assert_eq!(even(480), 480);
    assert_eq!(even(0), 2);
}

#[test]
fn whole_graph_of_a_small_scene() {
    let scene = sample_scene();
    let font = Some("/usr/share/fonts/a.ttf".to_string());
    let (_, filter, _) = build_composite_filter(&scene, &font);
    assert_eq!(
        filter,
        "color=c=0x101014:s=400x200:r=20:d=5.000[base];\
         [0:v]fps=20,scale=180:160:flags=lanczos,setsar=1,format=rgba,\
         tpad=stop_mode=clone:stop_duration=5.000,setpts=PTS-STARTPTS[v0];\
         [base][v0]overlay=10:20:eof_action=repeat[o0];\
         [1:v]fps=20,scale=180:160:flags=lanczos,setsar=1,format=rgba,setpts=PTS-STARTPTS[v1];\
         [o0][v1]overlay=210:20:eof_action=repeat[o1];\
         [o1]drawtext=fontfile='/usr/share/fonts/a.ttf':text='Antes':fontsize=22:\
         fontcolor=0xffffff:x=10+(180-text_w)/2:y=0+(20-text_h)/2[o2];\
         [o2]format=rgb24[comp]"
    );
}

#[test]
fn images_and_rectangles_in_a_graph() {
    let mut image = clip("x", LoopMode::Once, -3);
    image.kind = LayerKind::Image { source: "/tmp/x.png".to_string() };
    image.transform.opacity = 500_000;
    image.timing = Timing { start: 1_250_000, duration: Some(2_000_000) };
    let mut rect = clip("x", LoopMode::Once, 4);
    rect.kind = LayerKind::Rect { color: "#ff0000".to_string() };
    let scene = Scene {
        canvas: Canvas {
            width: 10,
            height: 20,
            background: "black".to_string(),
            fps: 0,
            duration: 2_000_000,
        },
        layers: vec![rect, image],
    };
    let (inputs, filter, _) = build_composite_filter(&scene, &None);
    assert_eq!(inputs.len(), 1);
    assert_eq!(inputs[0].path, "/tmp/x.png");
    assert_eq!(inputs[0].pre_args, vec!["-loop".to_string(), "1".to_string()]);
    assert_eq!(
        filter,
        "color=c=black:s=10x20:r=1:d=2.000[base];\
         [base]drawbox=x=4:y=20:w=180:h=160:color=0xff0000:t=fill[o0];\
         [0:v]fps=1,scale=180:160:flags=lanczos,setsar=1,format=rgba,\
         colorchannelmixer=aa=0.500,setpts=PTS-STARTPTS+1.250/TB[v1];\
         [o0][v1]overlay=-3:20:eof_action=repeat:enable='between(t,1.250,3.250)'[o1];\
         [o1]format=rgb24[comp]"
    );
}

#[test]
fn timed_layers_are_delayed_and_shown_from_then_on() {
    let mut layer = clip("x", LoopMode::Once, 0);
    assert_eq!(timing_setpts(&layer), ",setpts=PTS-STARTPTS");
    assert_eq!(enable_suffix(&layer), "");
    layer.timing.start = 500_000;
    assert_eq!(timing_setpts(&layer), ",setpts=PTS-STARTPTS+0.500/TB");
    assert_eq!(enable_suffix(&layer), ":enable='gte(t,0.500)'");
}

#[test]
fn text_is_escaped_for_drawtext() {
    assert_eq!(escape_drawtext("50% of\\ it's"), "50\\% of\\\\ it\u{2019}s");
    let t = transform(1, 2, 3, 4);
    assert_eq!(
        drawtext_expr("a", "Sans", 9, "red", &Some("#00ff00@0.5".to_string()), &t, &None),
        "drawtext=font='Sans':text='a':fontsize=9:fontcolor=red:x=1+(3-text_w)/2:\
         y=2+(4-text_h)/2:box=1:boxcolor=0x00ff00@0.5:boxborderw=10"
    );
}

#[test]
fn still_images_are_known_by_their_ending() {
    assert!(is_image("/tmp/a.PNG", System::Unix));
    assert!(is_image("b.jpeg", System::Unix));
    assert!(is_image("b.tiff/", System::Unix));
    assert!(!is_image("b.gif", System::Unix));
    assert!(!is_image(".png", System::Unix));
    assert!(!is_image("", System::Unix));
    assert!(!is_image("png", System::Unix));
}

#[test]
fn sizes_keep_the_aspect() {
    let info = MediaInfo { width: 1920, height: 1080, duration: 0 };
    assert_eq!(scale_to_h(info, 480), 853);
    assert_eq!(scale_to_w(info, 480), 270);
    let flat = MediaInfo { width: 5, height: 0, duration: 0 };
    assert_eq!(scale_to_h(flat, 7), 7);
    let half = MediaInfo { width: 3, height: 2, duration: 0 };
    assert_eq!(scale_to_h(half, 1), 2);
    let huge = MediaInfo { width: u32::MAX, height: 1, duration: 0 };
    assert_eq!(scale_to_h(huge, 2), u32::MAX);
}

#[test]
fn clips_stand_side_by_side() {
    let a = MediaInfo { width: 1920, height: 1080, duration: 3_000_000 };
    let b = MediaInfo { width: 1000, height: 1000, duration: 4_500_000 };
    let opts = BeforeAfterOptions::default();
    assert!(before_after_fits(a, b, &opts));
    let s = before_after("/a.mp4", "/b.png", a, b, &opts, System::Unix);
    assert_eq!(s.canvas.width, 18 + 852 + 16 + 480 + 18);
    assert_eq!(s.canvas.height, 18 + 44 + 480 + 18);
    assert_eq!(s.canvas.duration, 4_500_000);
    assert_eq!(s.canvas.fps, 24);
    assert_eq!(s.layers.len(), 4);
    assert!(matches!(&s.layers[0].kind, LayerKind::Clip { source, loop_mode: LoopMode::Freeze, .. }
        if source == "/a.mp4"));
    assert!(matches!(&s.layers[1].kind, LayerKind::Image { source } if source == "/b.png"));
    assert_eq!((s.layers[1].transform.x, s.layers[1].transform.y), (886, 62));
    assert!(matches!(&s.layers[3].kind, LayerKind::Text { content, .. } if content == "Depois"));
    assert_eq!(s.layers[3].transform.y, 18);
}

#[test]
fn the_longer_clip_sets_the_length() {
    let lasting = |duration| MediaInfo { width: 100, height: 50, duration };
    let length = |a, b| {
        let opts = BeforeAfterOptions::default();
        before_after("/a", "/b", lasting(a), lasting(b), &opts, System::Unix).canvas.duration
    };
    assert_eq!(length(0, 0), 2_000_000);
    assert_eq!(length(50_000, 0), 50_000);
    assert_eq!(length(1, 40_000), 40_000);
    assert_eq!(length(3_000_000, 1), 3_000_000);
}

#[test]
fn trimmed_loops_repeat() {
    let mut scene = sample_scene();
    let repeat = ",loop=loop=-1:size=32767:start=0,setpts=PTS-STARTPTS[v1]";
    let (inputs, filter, _) = build_composite_filter(&scene, &None);
    assert!(!filter.contains(",loop="));
    assert_eq!(inputs[1].pre_args, vec!["-stream_loop".to_string(), "-1".to_string()]);
    if let LayerKind::Clip { trim_start, .. } = &mut scene.layers[1].kind {
        *trim_start = 1_500_000;
    }
    let (inputs, filter, _) = build_composite_filter(&scene, &None);
    assert!(filter.contains(repeat));
    assert_eq!(filter.matches(",loop=").count(), 1);
    assert!(inputs[1].pre_args.is_empty());
}

#[test]
fn clips_stand_one_above_the_other() {
    let a = MediaInfo { width: 100, height: 50, duration: 0 };
    let opts = BeforeAfterOptions {
        stack: Stack::Vertical,
        labels: None,
        target_size: 101,
        fps: 0,
        ..BeforeAfterOptions::default()
    };
    let s = before_after("/a.png", "/b.png", a, a, &opts, System::Unix);
    assert_eq!((s.canvas.width, s.canvas.height), (136, 152));
    assert_eq!(s.canvas.duration, 2_000_000);
    assert_eq!(s.canvas.fps, 1);
    assert_eq!(s.layers.len(), 2);
    assert_eq!(s.layers[1].transform.y, 18 + 50 + 16);
}

#[test]
fn a_canvas_that_cannot_be_addressed_is_refused() {
    let a = MediaInfo { width: u32::MAX, height: 1, duration: 0 };
    assert!(!before_after_fits(a, a, &BeforeAfterOptions::default()));
}

#[test]
fn output_files() {
    assert_eq!(OutputKind::Gif.ext(), "gif");
    assert_eq!(OutputKind::Mp4.ext(), "mp4");
    assert_eq!(
        default_output_path("/v/gif", "2026-07-27-120000", OutputKind::Mp4, System::Unix),
        "/v/gif/jot-compare-2026-07-27-120000.mp4"
    );
    let (video, palette) = work_files("/c/", "s", System::Unix);
    assert_eq!(video, "/c/jot-compose-s.mp4");
    assert_eq!(palette, "/c/jot-compose-s-palette.png");
}

#[test]
fn fonts_come_from_the_first_text() {
    assert_eq!(scene_font_family(&sample_scene()).as_deref(), Some("Sans Bold"));
    let mut scene = sample_scene();
    scene.layers.pop();
    assert_eq!(scene_font_family(&scene), None);
    assert_eq!(matched_font(true, " /f.ttf\n").as_deref(), Some("/f.ttf"));
    assert_eq!(matched_font(true, " \n"), None);
    assert_eq!(matched_font(false, "/f.ttf"), None);
}

#[test]
fn arguments_of_a_composite_pass() {
    let scene = sample_scene();
    let (inputs, _, map) = build_composite_filter(&scene, &None);
    let encode = encode_args(GifQuality::Balanced);
    assert_eq!(encode[6], "-crf");
    assert_eq!(encode[7], "22");
    let args = composite_args(&inputs, "F", &map, 5_000_000, &encode, "/out.mp4");
    let expected = [
        "-y", "-loglevel", "error", "-i", "/tmp/a.gif", "-stream_loop", "-1", "-i", "/tmp/b.gif",
        "-filter_complex", "F", "-map", "[comp]", "-t", "5.000",
    ];
    assert_eq!(&args[..expected.len()], &expected[..]);
    assert_eq!(args.last().map(|s| s.as_str()), Some("/out.mp4"));
    assert_eq!(args.len(), expected.len() + encode.len() + 1);
}

#[test]
fn media_are_measured_from_the_answer() {
    let answer = r#"{"streams":[{"width":640,"height":"480","duration":"2.5",
        "avg_frame_rate":"30000/1001","nb_read_frames":"75"}],"format":{"duration":3}}"#;
    assert_eq!(media_size(answer), Ok((640, 480)));
    assert_eq!(duration_texts(answer), vec!["2.5".to_string(), "3".to_string()]);
    assert_eq!(
        frame_count(answer),
        Some(("75".to_string(), "30000".to_string(), "1001".to_string()))
    );
    assert_eq!(media_size("no json"), Err(ProbeError::NotJson));
    assert_eq!(media_size(r#"{"streams":[]}"#), Err(ProbeError::NoStream));
    assert_eq!(media_size("{}"), Err(ProbeError::NoStream));
    assert_eq!(media_size(r#"{"streams":[{"height":1}]}"#), Err(ProbeError::NoWidth));
    assert_eq!(media_size(r#"{"streams":[{"width":1,"height":-1}]}"#), Err(ProbeError::NoHeight));
    assert_eq!(media_size(r#"{"streams":[{"width":4294967297,"height":2}]}"#), Ok((1, 2)));
    assert_eq!(frame_count(r#"{"streams":[{"nb_read_frames":"75"}]}"#), None);
    assert!(duration_texts("{}").is_empty());
    assert_eq!(
        media_size_from(
            &JsonValue::Array(1),
            &JsonValue::Number("7".to_string()),
            &JsonValue::Text("8".to_string())
        ),
        Ok((7, 8))
    );
    assert_eq!(
        duration_texts_from(&JsonValue::Missing, &JsonValue::Number("1.5".to_string())),
        vec!["1.5".to_string()]
    );
}

#[test]
fn fractions_are_split_at_the_first_slash() {
    assert_eq!(parse_rational("24/1"), Some(("24".to_string(), "1".to_string())));
    assert_eq!(parse_rational("1/2/3"), Some(("1".to_string(), "2/3".to_string())));
    assert_eq!(parse_rational("24"), None);
}

#[test]
fn questions_to_ffprobe() {
    assert_eq!(probe_args("/a.gif").last().map(|s| s.as_str()), Some("/a.gif"));
    assert_eq!(
        probe_args("x")[5],
        "stream=width,height,duration,avg_frame_rate:format=duration"
    );
    assert!(count_frames_args("x").contains(&"-count_frames".to_string()));
}

#[test]
fn only_the_output_stays() {
    let scene = sample_scene();
    let (passes, scratch) =
        compose(
            &scene,
            &None,
            OutputKind::Gif,
            GifQuality::High,
            "/c",
            "s",
            "/v/o.gif",
            System::Unix,
        );
    let stages: Vec<Stage> = passes.iter().map(|p| p.stage).collect();
    assert_eq!(stages, vec![Stage::Composite, Stage::Palettegen, Stage::Paletteuse]);
    let written: Vec<&str> = passes.iter().filter_map(|p| p.args.last()).map(|s| s.as_str()).collect();
    assert_eq!(
        written,
        vec!["/c/jot-compose-s.mp4", "/c/jot-compose-s-palette.png", "/v/o.gif"]
    );
    assert_eq!(scratch, vec!["/c/jot-compose-s.mp4", "/c/jot-compose-s-palette.png"]);
    assert_eq!(passes[1].args[6], "fps=20,format=rgb24,palettegen=stats_mode=full");
    let (passes, scratch) =
        compose(
            &scene,
            &None,
            OutputKind::Mp4,
            GifQuality::High,
            "/c",
            "s",
            "/v/o.mp4",
            System::Unix,
        );
    assert_eq!(passes.len(), 1);
    assert_eq!(passes[0].stage.name(), "composite");
    assert_eq!(passes[0].args.last().map(|s| s.as_str()), Some("/v/o.mp4"));
    assert!(scratch.is_empty());
    assert_eq!(Stage::Palettegen.name(), "palettegen");
    assert_eq!(Stage::Paletteuse.name(), "paletteuse");
}

#[test]
fn clips_that_play_once_vanish() {
    let mut scene = sample_scene();
    scene.layers = vec![clip("/tmp/a.gif", LoopMode::Once, 1)];
    let (_, filter, _) = build_composite_filter(&scene, &None);
    assert!(filter.contains("[base][v0]overlay=1:20:eof_action=pass[o0]"));
    assert!(!filter.contains("tpad"));
}

#[test]
fn drawn_layers_appear_in_their_time() {
    let mut scene = sample_scene();
    let timing = Timing { start: 1_000_000, duration: Some(500_000) };
    let mut text = scene.layers.remove(2);
    text.timing = timing;
    let mut rect = clip("x", LoopMode::Once, 4);
    rect.kind = LayerKind::Rect { color: "red".to_string() };
    rect.timing = Timing { start: 2_000_000, duration: None };
    scene.layers = vec![text, rect];
    let (inputs, filter, _) = build_composite_filter(&scene, &None);
    assert!(inputs.is_empty());
    assert!(filter.contains("(20-text_h)/2:enable='between(t,1.000,1.500)'[o0]"));
    assert!(filter.contains(":color=red:t=fill:enable='gte(t,2.000)'[o1]"));
}

#[test]
fn unpadded_clips_still_fit() {
    let info = MediaInfo { width: 3, height: 3, duration: 0 };
    let opts = BeforeAfterOptions {
        padding: 0,
        gap: 2,
        label_height: 4,
        target_size: 10,
        ..BeforeAfterOptions::default()
    };
    let s = before_after("/a.png", "/b.png", info, info, &opts, System::Unix);
    assert_eq!((s.canvas.width, s.canvas.height), (22, 14));
    let last = &s.layers[1].transform;
    assert_eq!(last.x as u32 + last.w, s.canvas.width);
    assert_eq!(last.y as u32 + last.h, s.canvas.height);
}
