use jot::editor::{sort_notes, State, TEXT_UNDO_LIMIT, UNDO_STACK_LIMIT};
use jot::note::{holds, is_image_line, strip_markdown_markers, Note, Timestamp};

fn at(secs: i64) -> Timestamp {
    Timestamp { secs, nanos: 0 }
}

fn note(id: i64, body: &str, updated: i64, pinned: bool) -> Note {
    Note {
        id,
        title: Note::derive_title(body),
        body: body.to_string(),
        tag: String::new(),
        color: String::new(),
        created_at: at(0),
        updated_at: at(updated),
        pinned,
    }
}

fn ids(notes: &Vec<Note>) -> Vec<i64> {
    notes.iter().map(|n| n.id).collect()
}

#[test]
fn titles_come_from_the_first_line_that_says_something() {
    assert_eq!(Note::derive_title("\n ![image](/a.png) \n## **Bold** `x`\nrest"), "Bold x");
    assert_eq!(Note::derive_title("- item"), "item");
    assert_eq!(Note::derive_title("**\n__\nreal"), "real");
    assert_eq!(Note::derive_title("***\r\nreal"), "*");
    assert_eq!(Note::derive_title(""), "");
    assert_eq!(Note::derive_title(&"é".repeat(100)), "é".repeat(80));
}

#[test]
fn snippets_follow_the_first_line() {
    let n = note(1, "T\n\n![image](x)\n*snip*\nmore", 0, false);
    assert_eq!(n.snippet(), "snip");
    assert_eq!(note(1, "T", 0, false).snippet(), "");
    assert_eq!(note(1, &format!("T\n{}", "a".repeat(200)), 0, false).snippet().len(), 120);
}

#[test]
fn titles_on_display() {
    let mut n = note(1, "Hello", 0, false);
    assert_eq!(n.display_title(), "Hello");
    n.title = " ".to_string();
    assert_eq!(n.display_title(), "Untitled note");
}

#[test]
fn search_ignores_case() {
    let n = note(1, "Hello\nÄPFEL", 0, false);
    assert!(n.matches("hELL"));
    assert!(n.matches("äpf"));
    assert!(n.matches(""));
    assert!(!n.matches("pear"));
    let chars = |s: &str| s.chars().collect::<Vec<char>>();
    assert!(holds(&chars("abc"), &chars(""), &chars("bc")));
    assert!(!holds(&chars("abc"), &chars("x"), &chars("cb")));
}

#[test]
fn markers_are_stripped() {
    assert_eq!(strip_markdown_markers("### foo"), "foo");
    assert_eq!(strip_markdown_markers("**foo**"), "foo");
    assert_eq!(strip_markdown_markers("*foo*"), "foo");
    assert_eq!(strip_markdown_markers("_*foo*_"), "foo");
    assert_eq!(strip_markdown_markers("* `a` b"), "a b");
    assert_eq!(strip_markdown_markers("*"), "*");
    assert!(is_image_line("![image](a)"));
    assert!(!is_image_line("![image](a) b"));
}

#[test]
fn notes_are_sorted_stably() {
    let notes = vec![note(1, "", 5, false), note(2, "", 9, false), note(3, "", 5, true)];
    assert_eq!(ids(&sort_notes(notes)), vec![3, 2, 1]);
    let notes = vec![note(1, "", 5, false), note(2, "", 5, false), note(3, "", 5, false)];
    assert_eq!(ids(&sort_notes(notes)), vec![1, 2, 3]);
    assert!(Timestamp { secs: 1, nanos: 1 }.is_before(Timestamp { secs: 1, nanos: 2 }));
    assert!(!at(1).is_before(at(1)));
}

#[test]
fn opening_and_saving() {
    let mut s = State::new(vec![note(1, "one", 1, false), note(2, "two", 0, true)]);
    assert_eq!(s.pending_save("x"), None);
    assert_eq!(s.open_note(9), None);
    assert_eq!(s.open_note(1), Some(("one".to_string(), at(1))));
    assert_eq!(s.open_note(1), None);
    assert_eq!(s.current_id(), Some(1));
    assert_eq!(s.pending_save("one"), None);
    assert_eq!(s.pending_save("# new"), Some((1, "new".to_string())));
    s.apply_save(1, "# new", at(50));
    assert_eq!(s.pending_save("# new"), None);
    assert_eq!(ids(s.notes()), vec![2, 1]);
    assert_eq!(s.current_note().unwrap().title, "new");
    s.apply_pin(1, true);
    assert_eq!(ids(s.notes()), vec![1, 2]);
}

#[test]
fn a_deleted_note_comes_back_as_it_was_on_screen() {
    let mut s = State::new(vec![note(1, "one", 1, false), note(2, "two", 5, false)]);
    assert_eq!(s.remove_current("x"), None);
    assert_eq!(s.metadata(), None);
    assert!(!s.has_deleted());
    s.open_note(1);
    assert_eq!(s.remove_current("live"), Some(2));
    assert_eq!(ids(s.notes()), vec![2]);
    assert_eq!(s.current_id(), None);
    assert!(s.has_deleted());
    let back = s.take_deleted().unwrap();
    assert_eq!((back.id, back.title.as_str(), back.body.as_str()), (1, "live", "live"));
    assert!(s.take_deleted().is_none());
    s.put_back_deleted(back);
    let back = s.take_deleted().unwrap();
    s.restore_note(back);
    assert_eq!(ids(s.notes()), vec![2, 1]);
}

#[test]
fn only_so_many_deletions_can_be_undone() {
    let n = UNDO_STACK_LIMIT as i64 + 5;
    let mut s = State::new((0..n).map(|i| note(i, "b", i, false)).collect());
    for i in 0..n {
        s.open_note(i);
        s.remove_current("b");
    }
    let mut count = 0;
    let mut last = 0;
    while let Some(x) = s.take_deleted() {
        count += 1;
        last = x.id;
    }
    assert_eq!(count, UNDO_STACK_LIMIT);
    assert_eq!(last, 5);
}

#[test]
fn text_can_be_undone() {
    let mut s = State::new(vec![note(1, "one", 1, false), note(2, "two", 0, false)]);
    assert!(s.take_text_undo("x").is_none());
    s.open_note(1);
    s.push_text_snapshot(1, "one");
    s.push_text_snapshot(1, "one more");
    s.push_text_snapshot(2, "foreign");
    let t = s.take_text_undo("one more").unwrap();
    assert_eq!((t.note_id, t.body.as_str()), (1, "one"));
    assert!(s.take_text_undo("one").is_none());
    for i in 0..200 {
        s.push_text_snapshot(1, &format!("{i}"));
    }
    let mut count = 0;
    while s.take_text_undo("none of them").is_some() {
        count += 1;
    }
    assert_eq!(count, TEXT_UNDO_LIMIT);
}

#[test]
fn tags_colors_and_the_visible_list() {
    let mut s = State::new(vec![note(1, "Alpha", 1, false), note(2, "Beta", 0, false)]);
    assert_eq!(s.pending_tag("x"), None);
    assert_eq!(s.current_note_tag(), "");
    s.open_note(2);
    assert_eq!(s.pending_tag("x"), Some(2));
    s.apply_tag(2, " x ");
    assert_eq!(s.pending_tag(" x "), None);
    assert_eq!(s.current_note_tag(), "x");
    assert_eq!(s.pending_color("nope"), None);
    assert_eq!(s.pending_color("red"), Some((2, "red".to_string())));
    s.apply_color(2, "red");
    assert_eq!(s.pending_color(" red "), None);
    assert_eq!(s.metadata(), Some((" x ".to_string(), "red".to_string())));
    assert_eq!(ids(&s.visible_notes()), vec![1, 2]);
    s.set_filter(" ALPH ".to_string());
    assert_eq!(ids(&s.visible_notes()), vec![1]);
    s.set_active_tag(Some("X".to_string()));
    assert_eq!(s.active_tag().as_deref(), Some("X"));
    assert!(s.visible_notes().is_empty());
    s.set_filter(String::new());
    assert_eq!(ids(&s.visible_notes()), vec![2]);
    s.set_notes(vec![note(8, "", 0, false)]);
    assert_eq!(ids(s.notes()), vec![8]);
}

#[test]
fn pinned_notes_stay_above_new_and_restored_ones() {
    let mut s = State::new(vec![note(1, "p", 1, true), note(2, "b", 5, false)]);
    s.add_note(note(7, "", 9, false));
    assert_eq!(ids(s.notes()), vec![1, 7, 2]);
    s.add_note(note(8, "", 9, false));
    assert_eq!(ids(s.notes()), vec![1, 8, 7, 2]);
    s.open_note(7);
    assert_eq!(s.remove_current("x"), Some(1));
    let back = s.take_deleted().unwrap();
    s.restore_note(back);
    assert_eq!(ids(s.notes()), vec![1, 8, 7, 2]);
    s.open_note(1);
    s.remove_current("p");
    let back = s.take_deleted().unwrap();
    s.restore_note(back);
    assert_eq!(ids(s.notes()), vec![1, 8, 7, 2]);
}
