use jot::app::{activation, command_line, resolve_path, Activation, Launch};
use jot::canvas::{
    before_after, BeforeAfterOptions, LayerKind, MediaInfo, Stack,
};
use jot::clock::{day_stamp, file_timestamp, row_time, saved_label, Moment};
use jot::compare_editor::{
    comparison_options, frame_index, next_playhead, play_length, preview_args, preview_fps,
    preview_frames, with_trims, TrimState, PREVIEW_STEP, FrameRate,
};
use jot::config::{
    config_path, fps_from_index, fps_index, quality_from_index, quality_index, theme_from_index,
    theme_index, Config, GifQuality, Theme,
};
use jot::maintenance::{
    backup_name, backup_target, rotate_backups, vacuum_orphan_images, Sweep,
};
use jot::paths::System;
use jot::themes::{font_rules, is_dark, stylesheet};

fn texts(v: &[&str]) -> Vec<String> {
    v.iter().map(|s| s.to_string()).collect()
}

fn day(year: i32, month: u32, day: u32) -> Moment {
    Moment { year, month, day, hour: 9, minute: 5, second: 7 }
}

#[test]
fn sweeps_remove_orphans_only() {
    let bodies = texts(&["![image](/old/home/a.png)", "text"]);
    let files = texts(&["a.png", "b.png", "A.PNG"]);
    assert!(matches!(vacuum_orphan_images(&bodies, &files, false),
        Sweep::Remove(v) if v == texts(&["b.png", "A.PNG"])));
    assert!(matches!(vacuum_orphan_images(&bodies, &files, true),
        Sweep::Remove(v) if v == texts(&["b.png"])));
    assert!(matches!(vacuum_orphan_images(&texts(&["none"]), &files, false),
        Sweep::Remove(v) if v == files));
}

#[test]
fn a_sweep_that_recognises_nothing_is_refused() {
    let files = texts(&["a.png"]);
    assert!(matches!(
        vacuum_orphan_images(&texts(&["![image](broken"]), &files, false),
        Sweep::Refused
    ));
    assert!(matches!(
        vacuum_orphan_images(&texts(&["![image](dir/)"]), &files, false),
        Sweep::Refused
    ));
}

#[test]
fn stamps_of_a_moment() {
    assert_eq!(day_stamp(day(2026, 7, 2)).as_deref(), Some("2026-07-02"));
    assert_eq!(day_stamp(day(7, 12, 31)).as_deref(), Some("0007-12-31"));
    assert_eq!(file_timestamp(day(2026, 7, 2)).as_deref(), Some("2026-07-02-090507"));
    assert_eq!(day_stamp(day(2023, 2, 29)), None);
    assert!(day_stamp(day(2024, 2, 29)).is_some());
    assert!(day_stamp(day(1900, 2, 29)).is_none());
    assert!(day_stamp(day(2000, 2, 29)).is_some());
    assert_eq!(day_stamp(day(2023, 13, 1)), None);
    assert_eq!(day_stamp(day(2023, 4, 31)), None);
    assert_eq!(day_stamp(day(10_000, 1, 1)).as_deref(), Some("+10000-01-01"));
    assert_eq!(day_stamp(day(-1, 1, 1)).as_deref(), Some("-0001-01-01"));
    assert_eq!(day_stamp(day(-1000, 1, 1)).as_deref(), Some("-1000-01-01"));
    assert_eq!(day_stamp(day(262_142, 12, 31)).as_deref(), Some("+262142-12-31"));
    assert_eq!(day_stamp(day(-262_143, 1, 1)).as_deref(), Some("-262143-01-01"));
    assert_eq!(day_stamp(day(262_143, 1, 1)), None);
    assert_eq!(day_stamp(day(-262_144, 12, 31)), None);
    assert_eq!(file_timestamp(Moment { hour: 24, ..day(2026, 7, 2) }), None);
    assert_eq!(file_timestamp(Moment { second: 60, ..day(2026, 7, 2) }), None);
}

#[test]
fn one_backup_a_day() {
    let today = day(2026, 7, 27);
    assert_eq!(backup_name(today).as_deref(), Some("notes-2026-07-27.db"));
    let none = texts(&[]);
    assert_eq!(
        backup_target("/b", today, true, &none, System::Unix).as_deref(),
        Some("/b/notes-2026-07-27.db")
    );
    assert_eq!(backup_target("/b", today, false, &none, System::Unix), None);
    let taken = texts(&["notes-2026-07-27.db"]);
    assert_eq!(backup_target("/b", today, true, &taken, System::Unix), None);
    assert_eq!(backup_target("/b", day(2026, 0, 1), true, &none, System::Unix), None);
}

#[test]
fn the_last_backups_stay() {
    let mut names = texts(&["readme", "notes-x.txt", "db"]);
    for d in [9, 3, 1, 8, 2, 7, 4, 6, 5] {
        names.push(backup_name(day(2026, 7, d)).unwrap());
    }
    assert_eq!(
        rotate_backups(&names),
        texts(&["notes-2026-07-01.db", "notes-2026-07-02.db"])
    );
    assert!(rotate_backups(&names[..9].to_vec()).is_empty());
}

#[test]
fn command_lines() {
    let cwd = Some("/w".to_string());
    assert!(matches!(command_line(&texts(&[]), &cwd, System::Unix), Launch::Activate));
    assert!(matches!(
        command_line(&texts(&["--compare", "--record-gif"]), &cwd, System::Unix),
        Launch::RecordGif
    ));
    let files = texts(&["x", "--compare", "a", "--y", "/b", "c"]);
    assert!(matches!(command_line(&files, &cwd, System::Unix),
        Launch::Compare { before, after } if before == "/w/a" && after == "/b"));
    assert!(matches!(command_line(&texts(&["a", "b", "--compare", "c"]), &cwd, System::Unix),
        Launch::CompareUsage));
    assert_eq!(resolve_path(&None, "a", System::Unix), "a");
    assert_eq!(resolve_path(&cwd, "a/b", System::Unix), "/w/a/b");
    assert_eq!(resolve_path(&cwd, "/a", System::Unix), "/a");
    let cwd = Some("D:\\w".to_string());
    assert_eq!(resolve_path(&cwd, "a", System::Windows), "D:\\w\\a");
    assert_eq!(resolve_path(&cwd, "C:\\a", System::Windows), "C:\\a");
    assert_eq!(resolve_path(&cwd, "C:a", System::Windows), "C:a");
    assert_eq!(resolve_path(&cwd, "\\a", System::Windows), "D:\\a");
    assert_eq!(resolve_path(&None, "\\a", System::Windows), "\\a");
}

#[test]
fn activations() {
    assert_eq!(activation(false, false, false, true), Activation::Build);
    assert_eq!(activation(true, false, true, true), Activation::Build);
    assert_eq!(activation(true, true, true, true), Activation::Hide);
    assert_eq!(activation(true, true, false, true), Activation::Present);
    assert_eq!(activation(true, true, true, false), Activation::Present);
}

#[test]
fn settings_and_their_lists() {
    let c = Config::default();
    assert_eq!((c.opacity, c.width, c.height, c.font_size), (940_000, 820, 620, 15));
    assert_eq!(c.gif_quality, GifQuality::Balanced);
    for t in [Theme::Dark, Theme::Light, Theme::System] {
        assert_eq!(theme_from_index(theme_index(t)), t);
    }
    for q in [GifQuality::High, GifQuality::Balanced, GifQuality::Compact] {
        assert_eq!(quality_from_index(quality_index(q)), q);
    }
    for fps in [12, 15, 20, 24, 30] {
        assert_eq!(fps_from_index(fps_index(fps)), fps);
    }
    assert_eq!(fps_index(25), 3);
    assert_eq!(theme_from_index(9), Theme::System);
    assert_eq!(quality_from_index(9), GifQuality::Balanced);
    assert_eq!(config_path("/c", System::Unix), "/c/jot/config.toml");
}

#[test]
fn stylesheets() {
    assert!(is_dark(Theme::System, true));
    assert!(!is_dark(Theme::Light, true));
    assert!(is_dark(Theme::Dark, false));
    assert_eq!(
        stylesheet("BASE", true, 940_000),
        "BASE\n/* opacity override (per-instance, regenerated on slider drag) */\n\
         window.jot-window { background-color: alpha(#0f1014, 0.940); }\n"
    );
    assert!(stylesheet("", false, 1).contains("alpha(#f7f7fa, 0.050)"));
    assert!(stylesheet("", false, 2_000_000).contains(", 1.000)"));
    assert_eq!(
        font_rules(15),
        ".jot-editor { font-size: 15px; } .jot-editor text { font-size: 15px; }"
    );
}

#[test]
fn trims_stay_in_their_clip() {
    let mut t = TrimState::new();
    t.grab(5);
    t.drag_by(100);
    assert_eq!((t.start(), t.end()), (0, 0));
    t.set_duration(10_000_000);
    assert_eq!(t.duration(), 10_000_000);
    t.grab(5_000_000);
    t.drag_by(2_000_000);
    assert_eq!((t.start(), t.end()), (2_000_000, 10_000_000));
    t.drag_by(50_000_000);
    assert_eq!(t.start(), 9_800_000);
    t.drag_by(-1);
    assert_eq!(t.start(), 0);
    t.release();
    t.drag_by(7);
    assert_eq!(t.start(), 0);
    t.grab(9_000_000);
    t.drag_by(i64::MIN);
    assert_eq!(t.end(), 200_000);
    assert_eq!(t.shown_time(50_000), 50_000);
    assert_eq!(t.shown_time(9_999_999), 200_000);
    assert_eq!(play_length(t, TrimState::new()), 200_000);
    assert_eq!(next_playhead(0, 0), 0);
    assert_eq!(next_playhead(0, 10), PREVIEW_STEP);
    assert_eq!(next_playhead(600_000, 10), 0);
}

#[test]
fn exported_scenes_are_cut() {
    let opts = comparison_options(1, false, 30);
    assert_eq!(opts.stack, Stack::Vertical);
    assert!(opts.labels.is_none());
    assert!(comparison_options(0, true, 30).labels.is_some());
    let info = MediaInfo { width: 10, height: 10, duration: 9_000_000 };
    let opts = BeforeAfterOptions::default();
    let scene = before_after("/a.mp4", "/b.png", info, info, &opts, System::Unix);
    let cut = with_trims(scene.clone(), (1_000_000, 3_000_000), (0, 8_000_000));
    assert_eq!(cut.canvas.duration, 2_000_000);
    assert!(matches!(
        cut.layers[0].kind,
        LayerKind::Clip { trim_start: 1_000_000, trim_end: Some(3_000_000), .. }
    ));
    assert!(matches!(cut.layers[1].kind, LayerKind::Image { .. }));
    assert_eq!(cut.layers.len(), 4);
    let same = with_trims(scene, (5, 5), (0, 0));
    assert_eq!(same.canvas.duration, 9_000_000);
}

#[test]
fn moments_in_short() {
    let monday = day(2026, 7, 27);
    assert_eq!(row_time(monday).as_deref(), Some("27 Jul · 09:05"));
    assert_eq!(saved_label(monday).as_deref(), Some("Saved Mon 27 Jul · 09:05"));
    assert_eq!(saved_label(day(2000, 2, 29)).as_deref(), Some("Saved Tue 29 Feb · 09:05"));
    assert_eq!(saved_label(day(0, 1, 1)).as_deref(), Some("Saved Sat 01 Jan · 09:05"));
    assert_eq!(saved_label(day(9999, 12, 31)).as_deref(), Some("Saved Fri 31 Dec · 09:05"));
    assert_eq!(row_time(day(2026, 2, 29)), None);
    assert_eq!(row_time(Moment { minute: 60, ..monday }), None);
    assert_eq!(saved_label(day(-1, 1, 1)).as_deref(), Some("Saved Fri 01 Jan · 09:05"));
    assert_eq!(saved_label(day(-4, 2, 29)).as_deref(), Some("Saved Thu 29 Feb · 09:05"));
    assert_eq!(saved_label(day(-262_143, 1, 1)).as_deref(), Some("Saved Thu 01 Jan · 09:05"));
    assert_eq!(saved_label(day(262_142, 12, 31)).as_deref(), Some("Saved Mon 31 Dec · 09:05"));
    assert_eq!(row_time(day(262_143, 1, 1)), None);
}

#[test]
fn short_clips_cannot_be_trimmed() {
    let mut t = TrimState::new();
    assert!(t.can_drag());
    t.set_duration(40_000);
    assert_eq!((t.start(), t.end()), (0, 40_000));
    assert!(t.can_drag());
    t.grab(0);
    assert!(!t.can_drag());
    t.release();
    assert!(t.can_drag());
    t.set_duration(60_000);
    assert_eq!((t.duration(), t.end()), (60_000, 40_000));
    t.grab(60_000);
    assert!(t.can_drag());
    t.drag_by(1_000_000);
    assert_eq!(t.end(), 60_000);
}

#[test]
fn previews_keep_few_frames() {
    assert_eq!(preview_fps(0), FrameRate { frames: 12, micros: 1_000_000 });
    assert_eq!(preview_fps(12_500_000), FrameRate { frames: 12, micros: 1_000_000 });
    assert_eq!(preview_fps(12_500_001), FrameRate { frames: 150, micros: 12_500_001 });
    assert_eq!(preview_fps(300_000_000), FrameRate { frames: 150, micros: 300_000_000 });
    assert_eq!(
        preview_args("/a.mp4", 70_000_000, "/p/f_%05d.png"),
        texts(&["-y", "-loglevel", "error", "-i", "/a.mp4", "-vf", "fps=2.1429,scale=-2:480",
            "-frames:v", "150", "/p/f_%05d.png"])
    );
    assert_eq!(preview_args("x", 1, "y")[6], "fps=12.0000,scale=-2:480");
    assert_eq!(preview_args("x", 300_000_000, "y")[6], "fps=0.5000,scale=-2:480");
    assert_eq!(preview_args("x", u64::MAX, "y")[6], "fps=0.0001,scale=-2:480");
}

#[test]
fn frames_play_in_order() {
    assert_eq!(
        preview_frames(&texts(&["f_2.png", "x.txt", "f_1.png", ".png", "f_3.PNG"])),
        texts(&["f_1.png", "f_2.png"])
    );
    assert_eq!(frame_index(0, 5_000_000, 5), 0);
    assert_eq!(frame_index(41_667, 5_000_000, 5), 1);
    assert_eq!(frame_index(41_666, 5_000_000, 5), 0);
    assert_eq!(frame_index(1_000_000, 5_000_000, 5), 4);
    assert_eq!(frame_index(51_076_000, 77_000_000, 150), 99);
    assert_eq!(frame_index(300_000_000, 300_000_000, 150), 149);
    assert_eq!(frame_index(u64::MAX, u64::MAX, 5), 4);
    assert_eq!(frame_index(0, 0, 1), 0);
}
