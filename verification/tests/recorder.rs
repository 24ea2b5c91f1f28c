use jot::config::GifQuality;
use jot::gif_recorder::{
    goes_on, Inbox,
    capture_args, capture_name, capture_palettegen_args, capture_paletteuse_args, convert_step,
    finish_session, gif_name, gif_output_dir, grace_step, missing_tools_summary, palette_name,
    palettegen_args, paletteuse_args, quality_crf, quality_dither, quality_palette_stats,
    recording_seconds, recording_step, require_tool, run_checked, slurp_region, stage_outcome,
    tool_candidates, ConvertOutcome, ConvertStep, GraceStep, RecorderCmd, RecorderEvent, RecordingStep,
};
use jot::json::JsonValue;
use jot::paths::System;
use jot::recorder_window::{
    done_label, find_position, fmt_timer, look, monitor_geometry_for, move_argument,
    overlay_place, overlay_step, parse_region, pick_overlay_anchor, read_clients,
    window_position, Client, Geometry, OverlayStep, UiState,
};

#[test]
fn quality_presets() {
    assert_eq!(quality_crf(GifQuality::High), 17);
    assert_eq!(quality_crf(GifQuality::Balanced), 22);
    assert_eq!(quality_crf(GifQuality::Compact), 28);
    assert_eq!(quality_palette_stats(GifQuality::High), "full");
    assert_eq!(quality_palette_stats(GifQuality::Compact), "diff");
    assert_eq!(quality_dither(GifQuality::Balanced), "sierra2_4a");
    assert_eq!(quality_dither(GifQuality::Compact), "bayer:bayer_scale=3");
}

#[test]
fn steps_while_recording() {
    let step = |inbox, exited, now, last| recording_step(inbox, exited, now, last);
    let stop = Inbox::Command(RecorderCmd::Stop);
    let cancel = Inbox::Command(RecorderCmd::Cancel);
    assert_eq!(step(stop, true, 9, 0), RecordingStep::Stop);
    assert_eq!(step(cancel, true, 9, 0), RecordingStep::Cancel);
    assert_eq!(step(Inbox::Closed, false, 9, 0), RecordingStep::Cancel);
    assert_eq!(step(Inbox::Nothing, true, 9, 0), RecordingStep::Exited);
    assert_eq!(step(Inbox::Nothing, false, 9, 8), RecordingStep::Tick { seconds: 9 });
    assert_eq!(step(Inbox::Nothing, false, 9, 9), RecordingStep::Wait);
    assert_eq!(recording_seconds(0), 1);
    assert_eq!(recording_seconds(5), 5);
}

#[test]
fn steps_while_converting() {
    let stop = Inbox::Command(RecorderCmd::Stop);
    let cancel = Inbox::Command(RecorderCmd::Cancel);
    assert_eq!(convert_step(cancel, true), ConvertStep::Cancel);
    assert_eq!(convert_step(Inbox::Closed, true), ConvertStep::Cancel);
    assert_eq!(convert_step(stop, true), ConvertStep::Finished);
    assert_eq!(convert_step(stop, false), ConvertStep::Wait);
    assert_eq!(convert_step(Inbox::Nothing, false), ConvertStep::Wait);
    assert!(goes_on(&ConvertOutcome::Done));
    assert!(!goes_on(&ConvertOutcome::Cancelled));
    assert!(!goes_on(&ConvertOutcome::Failed("x".to_string())));
}

#[test]
fn steps_of_an_interrupted_process() {
    assert_eq!(grace_step(true, 9000, 400), GraceStep::Ended);
    assert_eq!(grace_step(false, 400, 400), GraceStep::Kill);
    assert_eq!(grace_step(false, 399, 400), GraceStep::Wait);
}

#[test]
fn ends_of_a_session() {
    assert!(matches!(finish_session(ConvertOutcome::Done, "/g.gif", 4),
        (RecorderEvent::Done { gif_path, seconds: 4 }, true) if gif_path == "/g.gif"));
    assert!(matches!(
        finish_session(ConvertOutcome::Cancelled, "/g.gif", 4),
        (RecorderEvent::Cancelled, false)
    ));
    assert!(matches!(finish_session(ConvertOutcome::Failed("no".to_string()), "/g.gif", 4),
        (RecorderEvent::Error(e), false) if e == "no"));
}

#[test]
fn regions_that_slurp_prints() {
    assert_eq!(slurp_region(true, " 1,2 3x4\n").as_deref(), Some("1,2 3x4"));
    assert_eq!(slurp_region(false, "1,2 3x4"), None);
    assert_eq!(slurp_region(true, "\n"), None);
    assert_eq!(parse_region("10,-20 300x400"), Some((10, -20, 300, 400)));
    assert_eq!(parse_region("  +1,2\t3x4 5"), Some((1, 2, 3, 4)));
    assert_eq!(parse_region("1,2"), None);
    assert_eq!(parse_region("1 2x3"), None);
    assert_eq!(parse_region("1,2 3x"), None);
    assert_eq!(parse_region("1,2 99999999999x1"), None);
}

#[test]
fn tools_that_are_missing() {
    assert_eq!(missing_tools_summary(true, true, true), None);
    assert_eq!(
        missing_tools_summary(false, true, false).as_deref(),
        Some("Missing: slurp, ffmpeg. Install: sudo pacman -S slurp ffmpeg")
    );
    assert_eq!(require_tool("ffmpeg", true), Ok(()));
    assert_eq!(
        require_tool("ffmpeg", false),
        Err("`ffmpeg` is not installed. Install it with: sudo pacman -S ffmpeg".to_string())
    );
    let unix = System::Unix;
    let windows = System::Windows;
    assert_eq!(tool_candidates("/bin::/usr/bin/", "x", unix), vec!["/bin/x", "x", "/usr/bin/x"]);
    assert_eq!(tool_candidates("", "x", unix), vec!["x"]);
    assert_eq!(
        tool_candidates("C:\\bin;D:\\\"a;b\"\\c;;E:", "x", windows),
        vec!["C:\\bin\\x", "D:\\a;b\\c\\x", "x", "E:x"]
    );
    assert_eq!(tool_candidates("", "x", windows), vec!["x"]);
    assert_eq!(tool_candidates("a;", "x", windows), vec!["a\\x", "x"]);
    assert_eq!(tool_candidates("a\";b", "x", windows), vec!["a;b\\x"]);
}

#[test]
fn files_of_a_recording() {
    let some = |s: &str| Some(s.to_string());
    assert_eq!(gif_output_dir(some("/v"), some("/h"), System::Unix), some("/v/gif"));
    assert_eq!(gif_output_dir(None, some("/h"), System::Unix), some("/h/Videos/gif"));
    assert_eq!(gif_output_dir(None, None, System::Unix), None);
    assert_eq!(capture_name("s"), "jot-s-source.mp4");
    assert_eq!(palette_name("s"), "jot-s-palette.png");
    assert_eq!(gif_name("s"), "jot-s.gif");
}

#[test]
fn arguments_of_the_recorder() {
    assert_eq!(
        capture_args("1,2 3x4", "/m.mp4", 24, GifQuality::High),
        vec!["-g", "1,2 3x4", "-f", "/m.mp4", "-r", "24", "-c", "libx264", "-p",
            "preset=ultrafast", "-p", "crf=17"]
    );
    assert_eq!(
        capture_palettegen_args("/m", "/p", 20, GifQuality::High)[6],
        "fps=20,colorspace=all=bt709:iall=bt709:range=pc:irange=tv,format=rgb24,\
         palettegen=stats_mode=full"
    );
    assert_eq!(
        capture_paletteuse_args("/m", "/p", "/g", 20, GifQuality::Compact)[8],
        "fps=20,colorspace=all=bt709:iall=bt709:range=pc:irange=tv,format=rgb24[v];\
         [v][1:v]paletteuse=dither=bayer:bayer_scale=3:diff_mode=rectangle"
    );
    assert_eq!(
        palettegen_args("/s", "/p", 12, "", GifQuality::Compact),
        vec!["-y", "-loglevel", "error", "-i", "/s", "-vf",
            "fps=12,format=rgb24,palettegen=stats_mode=diff", "/p"]
    );
    assert_eq!(paletteuse_args("/s", "/p", "/o", 12, "", GifQuality::High).len(), 10);
}

#[test]
fn events_on_the_overlay() {
    assert!(matches!(
        overlay_step(&RecorderEvent::Converting),
        OverlayStep::Show(UiState::Converting)
    ));
    assert!(matches!(overlay_step(&RecorderEvent::Tick { seconds: 3 }), OverlayStep::Timer(3)));
    assert!(matches!(overlay_step(&RecorderEvent::Cancelled), OverlayStep::Close(None)));
    assert!(matches!(overlay_step(&RecorderEvent::Error("x".to_string())),
        OverlayStep::Close(Some(e)) if e == "x"));
    assert!(look(UiState::Recording).timer);
    assert!(look(UiState::Converting).spinner);
    assert!(!look(UiState::Done).timer);
    assert_eq!(look(UiState::Selecting).class, "jot-recorder-recording");
    assert_eq!(fmt_timer(125), "2:05");
    assert_eq!(done_label(7, 2_500_000), "7s · 2441 KB");
}

#[test]
fn the_overlay_keeps_away_from_the_region() {
    let monitors = vec![
        Geometry { x: 0, y: 0, w: 1920, h: 1080 },
        Geometry { x: 1920, y: 0, w: 1000, h: 800 },
    ];
    assert_eq!(pick_overlay_anchor("0,0 100x100", &monitors), Some((1660, 1020)));
    assert_eq!(pick_overlay_anchor("2800,700 50x50", &monitors), Some((1940, 20)));
    assert_eq!(pick_overlay_anchor("860,510 200x60", &monitors), Some((1660, 1020)));
    assert_eq!(pick_overlay_anchor("nonsense", &monitors), None);
    assert_eq!(pick_overlay_anchor("0,0 1x1", &vec![]), None);
    assert_eq!(monitor_geometry_for(&monitors, 5000, 5000), Some(monitors[0]));
    assert_eq!(monitor_geometry_for(&monitors, 1920, 0), Some(monitors[1]));
    assert_eq!(overlay_place(Some(1), Some(2), "x", &monitors), Some((1, 2)));
    assert_eq!(overlay_place(Some(1), None, "0,0 9x9", &monitors), Some((1660, 1020)));
    assert_eq!(move_argument("Jot Recorder", -5, 7), "exact -5 7,title:^(Jot Recorder)$");
}

#[test]
fn positions_in_the_compositors_list() {
    let doc = r#"[{"title":"a","at":[1,2]},{"title":"b","at":[-7,4294967300]},{"title":"c","at":[1]},
        {"title":"d"},{"x":1},{"title":"e","at":[1,2]}]"#;
    assert_eq!(window_position(doc, "a"), Some((1, 2)));
    assert_eq!(window_position(doc, "b"), Some((-7, 4)));
    assert_eq!(window_position(doc, "c"), None);
    assert_eq!(window_position(doc, "d"), None);
    assert_eq!(window_position(doc, "e"), Some((1, 2)));
    assert_eq!(window_position(doc, "f"), None);
    assert_eq!(window_position("{}", "a"), None);
    assert_eq!(window_position("", "a"), None);
    assert_eq!(read_clients(doc).map(|c| c.len()), Some(6));
    let client = Client {
        title: JsonValue::Text("t".to_string()),
        at: JsonValue::Array(2),
        x: JsonValue::Number("2147483648".to_string()),
        y: JsonValue::Number("-4294967297".to_string()),
    };
    assert_eq!(find_position(&vec![client], "t"), Some((i32::MIN, -1)));
}

#[test]
fn stages_that_fail() {
    assert_eq!(run_checked("composite", true, "x"), Ok(()));
    assert_eq!(
        run_checked("composite", false, " no such file\n"),
        Err("ffmpeg composite failed: no such file".to_string())
    );
    assert!(matches!(stage_outcome("palettegen", &None), ConvertOutcome::Cancelled));
    assert!(matches!(
        stage_outcome("palettegen", &Some((true, String::new()))),
        ConvertOutcome::Done
    ));
    assert!(matches!(stage_outcome("palettegen", &Some((false, "e".to_string()))),
        ConvertOutcome::Failed(m) if m == "ffmpeg palettegen failed: e"));
}

#[test]
fn the_overlay_is_clear_of_a_large_region() {
    let monitors = vec![Geometry { x: 0, y: 0, w: 1000, h: 800 }];
    let (x, y) = pick_overlay_anchor("0,0 1000x700", &monitors).unwrap();
    assert_eq!((x, y), (740, 740));
    assert!(y >= 700);
    let (x, y) = pick_overlay_anchor("300,0 700x800", &monitors).unwrap();
    assert!(x + 240 <= 300);
    assert_eq!((x, y), (20, 740));
}
