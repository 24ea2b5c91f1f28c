use jot::body::BodyPart;
use jot::note::{Note, Timestamp};
use jot::paths::System;
use jot::sidebar::note_row;
use jot::tags::{
    collect_note_tags, collect_note_tags_with_counts, moved_selection, normalize_note_color,
    normalize_note_tag, note_color_css_class, note_colors, note_matches_tag_filter, picked_tag,
    tag_picker_rows, tag_picker_rows_for, tag_tabs, TagPickerAction,
};
use jot::window::{
    adjacent_embed, copy_block_label, copy_block_payload, copy_block_starts,
    copy_blocks_before_char_offset, drop_kind_of, dropped_file, dropped_text_body,
    extract_body_for_save, find_urls, has_child_anchors, has_unrendered_copy_block,
    image_file_name, parse_markdown_body, part_insert, pasted_image_source, pastes_image,
    placeholder, is_paste, removes_backward, rendered_cursor, scale_to_fit, shortcut,
    shown_links, shown_title, DropKind, Key, Shortcut,
};

fn note(tag: &str) -> Note {
    Note {
        id: 1,
        title: String::new(),
        body: String::new(),
        tag: tag.to_string(),
        color: String::new(),
        created_at: Timestamp { secs: 0, nanos: 0 },
        updated_at: Timestamp { secs: 0, nanos: 0 },
        pinned: false,
    }
}

#[test]
fn parses_copy_blocks_alongside_text_and_images() {
    assert_eq!(
        parse_markdown_body("before {copy}hello{/copy}\n![image](/tmp/a.png)"),
        vec![
            BodyPart::Text("before ".to_string()),
            BodyPart::CopyBlock("hello".to_string()),
            BodyPart::Text("\n".to_string()),
            BodyPart::Image("/tmp/a.png".to_string()),
        ]
    );
}

#[test]
fn leaves_unclosed_copy_blocks_as_text() {
    assert_eq!(
        parse_markdown_body("{copy}hello"),
        vec![BodyPart::Text("{copy}hello".to_string())]
    );
}

#[test]
fn normalizes_multiline_copy_payload_edges() {
    assert_eq!(copy_block_payload("\nhello\n"), "hello");
    assert_eq!(copy_block_payload("\r\nhello\r\n"), "hello");
    assert_eq!(copy_block_payload("hello\nworld"), "hello\nworld");
}

#[test]
fn counts_copy_anchors_inserted_before_cursor() {
    let body = "a {copy}one{/copy} b {copy}two{/copy}";
    assert_eq!(copy_blocks_before_char_offset(body, 1), 0);
    assert_eq!(copy_blocks_before_char_offset(body, 20), 1);
    assert_eq!(
        copy_blocks_before_char_offset(body, body.chars().count() as i32),
        2
    );
}

#[test]
fn normalizes_tags_and_colors_for_filters() {
    assert_eq!(normalize_note_tag("  Work\n"), "Work");
    assert_eq!(normalize_note_color("purple"), "purple");
    assert_eq!(normalize_note_color("chartreuse"), "");

    let notes = vec![note("Work"), note("work"), note(""), note("Personal")];
    let (tags, has_untagged) = collect_note_tags(&notes);
    assert_eq!(tags, vec!["Personal".to_string(), "Work".to_string()]);
    assert!(has_untagged);
    assert!(note_matches_tag_filter(&notes[0], Some("work")));
    assert!(note_matches_tag_filter(&notes[2], Some("")));
    assert!(note_matches_tag_filter(&notes[3], None));
}

#[test]
fn saving_gives_the_loaded_body_back() {
    let body = "x ![image](/a.png) {copy}c{/copy} ![image](/gone.png)\n";
    let mut text = String::new();
    for (i, part) in parse_markdown_body(body).iter().enumerate() {
        let insert = part_insert(part, i == 1);
        if insert.anchor {
            text.push('\u{FFFC}');
        }
        text.push_str(&insert.source);
    }
    assert_eq!(text.matches('\u{FFFC}').count(), 2);
    assert!(has_child_anchors(&text));
    let saved = extract_body_for_save(&text);
    assert_eq!(saved, body);
    assert!(!has_child_anchors(&saved));
    assert_eq!(pasted_image_source("/a.png"), "\n![image](/a.png)\n");
}

#[test]
fn copy_blocks_and_their_widgets() {
    assert_eq!(copy_block_starts("é{copy}a{/copy}{copy}"), vec![1]);
    assert_eq!(copy_blocks_before_char_offset("{copy}a{/copy}", -5), 0);
    assert_eq!(rendered_cursor("{copy}a{/copy} x", 15, 100), 16);
    assert_eq!(rendered_cursor("{copy}a{/copy} x", 15, 3), 3);
    assert_eq!(copy_block_payload("\n"), "");
    assert_eq!(copy_block_payload("\n\na\n\n"), "\na\n");
    assert_eq!(copy_block_label(""), "(empty)");
    assert_eq!(copy_block_label("a"), "a");
    let text = "{copy}a{/copy}";
    assert!(has_unrendered_copy_block(text, &vec![false; text.len()]));
    assert!(!has_unrendered_copy_block(text, &vec![true; text.len()]));
    assert!(!has_unrendered_copy_block("{copy}a", &vec![false; 7]));
}

#[test]
fn links_in_a_text() {
    let text = "é http://a.b/c?d. (https://x.y) http:// https://q!?";
    let found: Vec<String> = find_urls(text)
        .iter()
        .map(|&(at, len)| text.chars().skip(at).take(len).collect())
        .collect();
    assert_eq!(found, vec!["http://a.b/c?d", "https://x.y", "https://q"]);
    assert!(find_urls("http").is_empty());
}

#[test]
fn widgets_are_deleted_whole() {
    let text: Vec<char> = "ab\u{FFFC}src c".chars().collect();
    let hidden = vec![false, false, false, true, true, true, false, false];
    assert_eq!(adjacent_embed(&text, &hidden, 6, true), Some((2, 6)));
    assert_eq!(adjacent_embed(&text, &hidden, 2, false), Some((2, 6)));
    assert_eq!(adjacent_embed(&text, &hidden, 4, false), Some((2, 6)));
    assert_eq!(adjacent_embed(&text, &hidden, 2, true), None);
    assert_eq!(adjacent_embed(&text, &hidden, 0, true), None);
    assert_eq!(adjacent_embed(&text, &hidden, 8, false), None);
    assert_eq!(adjacent_embed(&vec!['a'], &vec![true], 0, false), None);
}

#[test]
fn titles_and_placeholders() {
    assert_eq!(shown_title("\n# Hi"), "Hi");
    assert_eq!(shown_title(" \n"), "Untitled note");
    assert_eq!(placeholder(false, 9), Some("Pick a note or hit Ctrl+N to start"));
    assert_eq!(placeholder(true, 0), Some("Start typing…"));
    assert_eq!(placeholder(true, 1), None);
}

#[test]
fn dropped_files_by_their_ending() {
    assert_eq!(dropped_file("/a/B.JPEG", System::Unix), (DropKind::Image, "jpeg".to_string()));
    assert_eq!(dropped_file("x.md", System::Unix), (DropKind::Text, "md".to_string()));
    assert_eq!(dropped_file("x", System::Unix), (DropKind::Other, String::new()));
    assert_eq!(drop_kind_of("webp"), DropKind::Image);
    assert_eq!(drop_kind_of("TXT"), DropKind::Other);
    assert_eq!(image_file_name("u-1", "png"), "u-1.png");
    assert_eq!(dropped_text_body("/a/plan.txt", "# Title\nx", System::Unix), "# Title\nx");
    assert_eq!(dropped_text_body("/a/plan.txt", "\n", System::Unix), "plan\n\n\n");
    assert_eq!(dropped_text_body("..", "", System::Unix), "Note\n\n");
}

#[test]
fn tags_are_counted() {
    let notes = vec![note("b"), note("A"), note("B"), note(" "), note("c")];
    assert_eq!(
        collect_note_tags_with_counts(&notes),
        vec![("b".to_string(), 2), ("A".to_string(), 1), ("c".to_string(), 1)]
    );
    let long = "x".repeat(50);
    assert_eq!(normalize_note_tag(&long).len(), 40);
    assert_eq!(normalize_note_tag("a\u{7}b"), "ab");
    assert!(!note_matches_tag_filter(&notes[0], Some("")));
    assert!(!note_matches_tag_filter(&notes[0], Some("c")));
}

#[test]
fn tabs_over_the_list() {
    let notes = vec![note("b"), note(""), note("A")];
    let (tabs, active) = tag_tabs(&notes, &Some("a".to_string()));
    let shown: Vec<(&str, bool)> = tabs.iter().map(|t| (t.label.as_str(), t.active)).collect();
    assert_eq!(shown, vec![("All", false), ("Untagged", false), ("A", true), ("b", false)]);
    assert_eq!(active.as_deref(), Some("a"));
    assert_eq!(tabs[1].filter.as_deref(), Some(""));
    let (tabs, active) = tag_tabs(&vec![note("b")], &Some("gone".to_string()));
    assert_eq!(active, None);
    assert!(tabs[0].active);
    assert_eq!(tabs.len(), 2);
    let (_, active) = tag_tabs(&vec![note("b")], &Some(String::new()));
    assert_eq!(active, None);
}

fn actions(query: &str) -> Vec<String> {
    let notes = vec![note("Work"), note("work"), note("Home")];
    tag_picker_rows(&notes, "work", query)
        .iter()
        .map(|r| match &r.action {
            TagPickerAction::Apply(t) => format!("apply {t} {} {}", r.count, r.is_current),
            TagPickerAction::Create(t) => format!("create {t}"),
        })
        .collect()
}

#[test]
fn rows_of_the_tag_picker() {
    assert_eq!(
        actions(""),
        vec!["apply  0 false", "apply Work 2 true", "apply Home 1 false"]
    );
    assert_eq!(actions(" WOR "), vec!["apply Work 2 true", "create WOR"]);
    assert_eq!(actions("work"), vec!["apply Work 2 true"]);
    assert_eq!(actions("no"), vec!["apply  0 false", "create no"]);
    assert_eq!(actions("\u{1}"), Vec::<String>::new());
    let tags = vec![("É".to_string(), 1)];
    let lower = vec!["é".to_string()];
    let rows = tag_picker_rows_for(&tags, &lower, "É", "é", "", "");
    assert_eq!(rows.len(), 1);
    assert_eq!(picked_tag(&TagPickerAction::Create(" x ".to_string())), "x");
    assert_eq!(picked_tag(&TagPickerAction::Apply("y".to_string())), "y");
}

#[test]
fn the_selection_stays_in_the_list() {
    assert_eq!(moved_selection(None, 1), 0);
    assert_eq!(moved_selection(Some(0), -1), 0);
    assert_eq!(moved_selection(Some(3), 2), 5);
    assert_eq!(moved_selection(Some(i32::MAX), 1), i32::MAX);
}

#[test]
fn colors_of_notes() {
    assert_eq!(note_color_css_class("red"), "jot-color-red");
    assert_eq!(note_color_css_class("beige"), "jot-color-default");
    assert_eq!(normalize_note_color(" pink "), "pink");
    assert_eq!(note_colors().len(), 8);
    assert_eq!(note_colors()[7], ("pink", "Pink"));
}

#[test]
fn links_in_hidden_text_are_not_shown() {
    let text = "http://a http://b";
    let mut hidden = vec![false; text.len()];
    assert_eq!(shown_links(text, &hidden), vec![(0, 8), (9, 8)]);
    hidden[0] = true;
    assert_eq!(shown_links(text, &hidden), vec![(9, 8)]);
}

#[test]
fn clipboards_with_images() {
    let types = |v: &[&str]| v.iter().map(|s| s.to_string()).collect::<Vec<String>>();
    assert!(pastes_image(true, &types(&[])));
    assert!(pastes_image(false, &types(&["text/plain", "image/png"])));
    assert!(!pastes_image(false, &types(&["text/plain", "ximage/png"])));
}

#[test]
fn rows_of_the_list() {
    let mut n = note(" Work ");
    n.title = "T".to_string();
    n.body = "T\nsecond".to_string();
    n.color = "red".to_string();
    let row = note_row(&n);
    assert_eq!(row.title, "T");
    assert_eq!(row.snippet.as_deref(), Some("second"));
    assert_eq!(row.tag.as_deref(), Some("#Work"));
    assert_eq!(row.color_class, "jot-color-red");
    assert_eq!((row.pinned, row.pin_hint), (false, "Pin to top"));
    let mut empty = note("");
    empty.pinned = true;
    let row = note_row(&empty);
    assert_eq!(row.title, "Untitled note");
    assert!(row.snippet.is_none() && row.tag.is_none());
    assert_eq!((row.color_class.as_str(), row.pin_hint), ("jot-color-default", "Unpin"));
}

#[test]
fn images_are_shown_at_a_sensible_size() {
    assert_eq!(scale_to_fit(0, 90, 400, 260, (1, 1)), (160, 160));
    assert_eq!(scale_to_fit(90, -1, 100, 260, (1, 1)), (100, 160));
    assert_eq!(scale_to_fit(400, 260, 400, 260, (1, 1)), (400, 260));
    assert_eq!(scale_to_fit(800, 400, 400, 260, (400, 200)), (400, 200));
    assert_eq!(scale_to_fit(8000, 100, 400, 260, (400, 5)), (400, 40));
}

#[test]
fn shortcuts_need_ctrl() {
    assert_eq!(shortcut(Key::Escape, false, false, false), Some(Shortcut::Hide));
    assert_eq!(shortcut(Key::N, true, false, false), Some(Shortcut::NewNote));
    assert_eq!(shortcut(Key::N, false, false, false), None);
    assert_eq!(shortcut(Key::D, true, false, false), Some(Shortcut::DeleteNote));
    assert_eq!(shortcut(Key::F, true, true, false), Some(Shortcut::Search));
    assert_eq!(shortcut(Key::V, true, false, true), None);
    assert!(is_paste(Key::V, true));
    assert!(!is_paste(Key::V, false));
    assert_eq!(removes_backward(Key::BackSpace, false, false), Some(true));
    assert_eq!(removes_backward(Key::Delete, false, false), Some(false));
    assert_eq!(removes_backward(Key::Delete, true, false), None);
    assert_eq!(removes_backward(Key::BackSpace, false, true), None);
    assert_eq!(removes_backward(Key::Z, false, false), None);
}

#[test]
fn undo_brings_deleted_notes_back_first() {
    assert_eq!(shortcut(Key::Z, true, false, true), Some(Shortcut::UndoDelete));
    assert_eq!(shortcut(Key::Z, true, false, false), Some(Shortcut::UndoText));
    assert_eq!(shortcut(Key::Z, true, true, true), None);
    assert_eq!(shortcut(Key::Z, false, false, true), None);
}
