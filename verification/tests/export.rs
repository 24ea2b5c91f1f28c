use jot::body::BodyPart;
use jot::clock::Moment;
use jot::export::{
    bundle_image, bundled_link, collision_name, collision_name_with, export_dir_name,
    export_names, export_names_from, file_slug_from, frontmatter, frontmatter_with,
    image_base_name, md_file_name, md_path, parse_markdown_body, render_body, slugify_title,
    slugify_title_on, yaml_escape, Target, MAX_SLUG_LEN,
};
use jot::note::{Note, Timestamp};
use jot::paths::System;

fn note(id: i64, title: &str) -> Note {
    Note {
        id,
        title: title.to_string(),
        body: String::new(),
        tag: "work".to_string(),
        color: "purple".to_string(),
        created_at: Timestamp { secs: 1_431_648_000, nanos: 0 },
        updated_at: Timestamp { secs: 1_431_648_001, nanos: 0 },
        pinned: true,
    }
}

#[test]
fn frontmatter_includes_tag_and_color() {
    let fm = frontmatter(&note(42, "Deploy")).unwrap();
    assert!(fm.contains("tag: work\n"));
    assert!(fm.contains("color: purple\n"));
    assert!(fm.contains("pinned: true\n"));
}

#[test]
fn frontmatter_writes_both_times_in_utc() {
    assert_eq!(
        frontmatter(&note(42, "Deploy")).unwrap(),
        "---\ntitle: Deploy\ntag: work\ncolor: purple\nupdated: 2015-05-15 00:00:01 UTC\n\
         created: 2015-05-15 00:00:00 UTC\npinned: true\n---\n\n"
    );
    let mut never = note(1, "x");
    never.created_at = Timestamp { secs: i64::MAX, nanos: 0 };
    assert_eq!(frontmatter(&never), None);
    let fm = frontmatter_with(&never, "U", "C");
    assert!(fm.contains("updated: U\ncreated: C\n"));
}

#[test]
fn slug_is_truncated_and_never_bare() {
    let long = "a".repeat(200);
    let slug = slugify_title(&long, 7);
    assert!(slug.len() <= MAX_SLUG_LEN, "{slug}");
    assert!(!slug.ends_with('-'), "{slug}");

    assert_eq!(slugify_title("!!!", 7), "note-7");
}

#[test]
fn slugs_of_titles() {
    assert_eq!(slugify_title("My Test String!!!1!1", 1), "my-test-string-1-1");
    assert_eq!(slugify_title("Æúű--cool?", 1), "aeuu-cool");
    assert_eq!(slugify_title("", -3), "note--3");
    assert_eq!(slugify_title("con", 5), "con");
    assert_eq!(slugify_title_on("con", 5, true), "con-5");
    assert_eq!(slugify_title_on("console", 5, true), "console");
    let cut = format!("{}-{}", "a".repeat(63), "b".repeat(9));
    assert_eq!(file_slug_from(&cut, 1, false), "a".repeat(63));
}

#[test]
fn md_path_normalises_windows_separators() {
    assert_eq!(
        md_path(r"C:\Users\u\AppData\Local\jot\images\a.png"),
        "C:/Users/u/AppData/Local/jot/images/a.png"
    );
    assert_eq!(
        md_path("/home/u/.local/share/jot/images/a.png"),
        "/home/u/.local/share/jot/images/a.png"
    );
}

#[test]
fn yaml_values_are_quoted_where_they_must_be() {
    assert_eq!(yaml_escape("plain \\ text"), "plain \\ text");
    assert_eq!(yaml_escape("a: \"b\" \\"), "\"a: \\\"b\\\" \\\\\"");
    assert_eq!(yaml_escape("it's"), "\"it's\"");
    assert_eq!(yaml_escape("#x"), "\"#x\"");
    assert_eq!(yaml_escape("a\nb"), "\"a\nb\"");
    assert_eq!(yaml_escape(""), "");
}

#[test]
fn bodies_are_rendered_with_their_links() {
    let parts = parse_markdown_body("a ![image](C:\\x.png) {copy}b{/copy} ![image](/y.png)");
    assert_eq!(
        parts,
        vec![
            BodyPart::Text("a ".to_string()),
            BodyPart::Image("C:\\x.png".to_string()),
            BodyPart::Text(" {copy}b{/copy} ".to_string()),
            BodyPart::Image("/y.png".to_string()),
        ]
    );
    let copies = vec![None, None, None, Some("images/y.png".to_string())];
    assert_eq!(
        render_body(&parts, &copies),
        "a ![image](C:/x.png) {copy}b{/copy} ![image](images/y.png)"
    );
}

#[test]
fn exports_without_copies_keep_the_body() {
    let body = "# t\n![image](/a/b.png) é\n![image](";
    let parts = parse_markdown_body(body);
    let copies = vec![None; parts.len()];
    assert_eq!(render_body(&parts, &copies), body);
}

#[test]
fn images_in_an_export() {
    assert_eq!(image_base_name("/a/b.png", System::Unix), "b.png");
    assert_eq!(image_base_name("/..", System::Unix), "image.png");
    assert_eq!(
        bundle_image("/a/b.png", b"abc", Target::Absent, System::Unix),
        ("b.png".to_string(), true)
    );
    assert_eq!(
        bundle_image("/a/b.png", b"abc", Target::Same, System::Unix),
        ("b.png".to_string(), false)
    );
    assert_eq!(
        bundle_image("/a/b.png", b"abc", Target::Different, System::Unix),
        ("b-ba7816bf8f01cfea.png".to_string(), true)
    );
    assert_eq!(collision_name("noext", b"", System::Unix), "noext-e3b0c44298fc1c14.png");
    assert_eq!(collision_name_with("..", "00", System::Unix), "img-00.png");
    assert_eq!(bundled_link("b.png"), "images/b.png");
}

#[test]
fn names_of_all_files() {
    let notes = vec![note(1, "A"), note(2, "a!"), note(3, "b"), note(4, "")];
    assert_eq!(export_names(&notes, false), vec!["a", "a-2", "b", "note-4"]);
    assert_eq!(md_file_name("a-2"), "a-2.md");
}

#[test]
fn no_note_is_written_over_another() {
    let notes = vec![note(1, "a"), note(5, "a 2"), note(2, "a")];
    assert_eq!(export_names(&notes, false), vec!["a", "a-2", "a-2-2"]);
    let names = |slugs: &[&str], ids: &[i64]| {
        let slugs: Vec<String> = slugs.iter().map(|s| s.to_string()).collect();
        export_names_from(&slugs, &ids.to_vec())
    };
    assert_eq!(names(&["a-7", "a", "a"], &[1, 2, 7]), vec!["a-7", "a", "a-7-2"]);
    assert_eq!(
        names(&["a", "a-3", "a-3-2", "a"], &[1, 2, 9, 3]),
        vec!["a", "a-3", "a-3-2", "a-3-3"]
    );
    assert_eq!(names(&["a", "a", "a"], &[4, 4, 4]), vec!["a", "a-4", "a-4-2"]);
}

#[test]
fn the_directory_of_an_export() {
    let day = Moment { year: 2026, month: 7, day: 27, hour: 0, minute: 0, second: 0 };
    assert_eq!(export_dir_name(day).as_deref(), Some("jot-export-2026-07-27"));
    assert_eq!(export_dir_name(Moment { day: 32, ..day }), None);
}

#[test]
fn quoted_values_read_back() {
    for text in ["a: b", "\\\"", "say \"hi\"", "c:\\dir\\", "#\\\\\""] {
        let value: Vec<char> = yaml_escape(text).chars().collect();
        assert_eq!(value[0], '"');
        let mut read = String::new();
        let mut i = 1;
        while value[i] != '"' {
            if value[i] == '\\' {
                i += 1;
            }
            read.push(value[i]);
            i += 1;
        }
        assert_eq!(i, value.len() - 1);
        assert_eq!(read, text);
    }
    assert_eq!(yaml_escape("a\\b"), "a\\b");
}

#[test]
fn bundling_twice_changes_nothing() {
    let (name, copied) = bundle_image("/a/b.png", b"abc", Target::Different, System::Unix);
    assert!(copied);
    assert_ne!(name, image_base_name("/a/b.png", System::Unix));
    let (again, _) = bundle_image("/a/b.png", b"abc", Target::Different, System::Unix);
    assert_eq!(again, name);
    let (first, copied) = bundle_image("/a/b.png", b"abc", Target::Absent, System::Unix);
    assert!(copied);
    let (again, copied) = bundle_image("/a/b.png", b"abc", Target::Same, System::Unix);
    assert_eq!((again, copied), (first, false));
}
