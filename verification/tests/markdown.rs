use jot::json::{json_i32, json_u32, json_written, JsonValue};
use jot::markdown_tags::{
    find_close, find_close_pair, find_fenced_code, refresh_markdown_tags,
    reveal_markers_at_cursor, scan, Kind,
};
use jot::paths::{name_extension, name_stem, path_file_name, path_join, System};
use jot::text::{
    chars_of, eq_ignore_ascii_case, joined, lines_of, parse_i32, parse_i64, parse_natural,
    precedes, push_thousandths, split_on, string_of, trimmed_text,
};

fn spans(text: &str) -> Vec<(Kind, (usize, usize), Vec<(usize, usize)>)> {
    scan(text).into_iter().map(|s| (s.kind, s.full, s.markers)).collect()
}

#[test]
fn inline_markers() {
    assert_eq!(spans("a **b** c"), vec![(Kind::Bold, (2, 7), vec![(2, 4), (5, 7)])]);
    assert_eq!(spans("*i* `c`").len(), 2);
    assert!(spans("plain * text").is_empty());
}

#[test]
fn headings_and_fences() {
    assert_eq!(spans("# T")[0].0, Kind::H1);
    assert_eq!(spans("## T")[0].0, Kind::H2);
    let text = "```\n**x**\n```\n";
    let found = spans(text);
    assert_eq!(found.len(), 1);
    assert_eq!(found[0].0, Kind::CodeBlock);
    assert_eq!(find_fenced_code(&chars_of(text)).len(), 1);
}

#[test]
fn spans_in_hidden_text_are_left_out() {
    let text = "**a** **b**";
    let mut excluded = vec![false; text.len()];
    excluded[0] = true;
    let kept = refresh_markdown_tags(text, &excluded);
    assert_eq!(kept.len(), 1);
    assert_eq!(kept[0].full, (6, 11));
}

#[test]
fn markers_on_the_cursors_line_are_revealed() {
    let hidden = vec![true, true, false, true, false, true];
    assert_eq!(reveal_markers_at_cursor(&hidden, 0, 4), vec![(0, 2), (3, 4)]);
}

#[test]
fn closing_delimiters() {
    let v = chars_of("ab*c**");
    assert_eq!(find_close(&v, 0, '*'), Some(2));
    assert_eq!(find_close_pair(&v, 0, '*'), Some(4));
    assert_eq!(find_close(&chars_of("ab\n*"), 0, '*'), None);
}

#[test]
fn paths_and_their_parts() {
    assert_eq!(path_file_name("/a/b.c/", System::Unix).as_deref(), Some("b.c"));
    assert_eq!(path_file_name("a/.", System::Unix), Some("a".to_string()));
    assert_eq!(path_file_name("a/..", System::Unix), None);
    assert_eq!(path_file_name("/", System::Unix), None);
    assert_eq!(name_extension("a.b.c").as_deref(), Some("c"));
    assert_eq!(name_extension(".rc"), None);
    assert_eq!(name_extension("a.").as_deref(), Some(""));
    assert_eq!(name_stem("a.b.c"), "a.b");
    assert_eq!(name_stem(".rc"), ".rc");
    assert_eq!(path_join("", "x", System::Unix), "x");
    assert_eq!(path_join("/a", "x", System::Unix), "/a/x");
    assert_eq!(path_join("/a/", "x", System::Unix), "/a/x");
    assert_eq!(path_join("/a", "/x", System::Unix), "/x");
}

#[test]
fn texts_are_taken_apart() {
    let lines: Vec<String> = lines_of(&chars_of("a\r\n\nb")).iter().map(string_of).collect();
    assert_eq!(lines, vec!["a", "", "b"]);
    let parts: Vec<String> = split_on(&chars_of("a::b"), ':').iter().map(string_of).collect();
    assert_eq!(parts, vec!["a", "", "b"]);
    assert_eq!(joined(&vec!["a".to_string(), "b".to_string()], ", "), "a, b");
    assert_eq!(trimmed_text("\u{2003} x\t"), "x");
    assert!(eq_ignore_ascii_case("AbÉ", "aBÉ"));
    assert!(!eq_ignore_ascii_case("é", "É"));
    assert!(precedes(&chars_of("a"), &chars_of("ab")));
    assert!(!precedes(&chars_of("b"), &chars_of("ab")));
}

#[test]
fn numbers_are_read_and_written() {
    assert_eq!(parse_i32(&chars_of("-2147483648")), Some(i32::MIN));
    assert_eq!(parse_i32(&chars_of("2147483648")), None);
    assert_eq!(parse_i32(&chars_of("+7")), Some(7));
    assert_eq!(parse_i32(&chars_of("")), None);
    assert_eq!(parse_i64(&chars_of("-9223372036854775808")), Some(i64::MIN));
    assert_eq!(parse_i64(&chars_of("9223372036854775808")), None);
    assert_eq!(parse_natural(&chars_of("256"), 255), None);
    assert_eq!(parse_natural(&chars_of("255"), 255), Some(255));
    let mut s = String::new();
    push_thousandths(&mut s, 1_234_567);
    assert_eq!(s, "1.235");
}

#[test]
fn json_values_as_numbers() {
    let n = |s: &str| JsonValue::Number(s.to_string());
    assert_eq!(json_u32(&n("7")), Some(7));
    assert_eq!(json_u32(&n("1.5")), None);
    assert_eq!(json_u32(&JsonValue::Text("4294967296".to_string())), None);
    assert_eq!(json_u32(&JsonValue::Bool(true)), None);
    assert_eq!(json_i32(&n("-7")), Some(-7));
    assert_eq!(json_i32(&n("9223372036854775807")), Some(-1));
    assert_eq!(json_i32(&JsonValue::Text("7".to_string())), None);
    assert_eq!(json_written(&n("1e3")).as_deref(), Some("1e3"));
    assert_eq!(json_written(&JsonValue::Null), None);
}

#[test]
fn spans_lie_apart() {
    let text = "# One\n- a **b** `c`\n```\n# no\n```\n* d _e_\n```\nf";
    let chars: Vec<char> = text.chars().collect();
    let spans = scan(text);
    let of = |kind: Kind| -> Vec<(usize, usize)> {
        spans.iter().filter(|x| x.kind == kind).map(|x| x.full).collect()
    };
    assert_eq!(of(Kind::H1), vec![(0, 5)]);
    assert_eq!(of(Kind::List), vec![(6, 19), (33, 40)]);
    assert_eq!(of(Kind::CodeBlock), vec![(20, 32), (41, 46)]);
    assert_eq!(of(Kind::Bold), vec![(10, 15)]);
    for x in &spans {
        assert!(x.markers.iter().all(|m| m.0 < m.1));
        if matches!(x.kind, Kind::H1 | Kind::List | Kind::CodeBlock) {
            assert!(x.full.0 == 0 || chars[x.full.0 - 1] == '\n');
            assert!(x.full.1 == chars.len() || chars[x.full.1] == '\n');
        }
    }
}
