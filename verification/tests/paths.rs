use jot::canvas::is_image;
use jot::export::{bundle_image, image_base_name, Target};
use jot::paths::{name_extension, name_stem, path_file_name, path_join, System};
use jot::window::{dropped_file, dropped_text_body, DropKind};
use std::path::Path;

fn windows_name(path: &str) -> Option<String> {
    path_file_name(path, System::Windows)
}

fn windows_join(dir: &str, name: &str) -> String {
    path_join(dir, name, System::Windows)
}

#[test]
fn unix_paths_are_read_as_the_standard_library_reads_them() {
    if std::path::is_separator('\\') {
        return;
    }
    let pieces = ["", "/", ".", "..", "a", "b.c", "\\", "C:", ".x", "a/", "//", "./", "x.tar.gz"];
    let mut paths: Vec<String> = Vec::new();
    for a in pieces {
        for b in pieces {
            for c in pieces {
                paths.push(format!("{a}{b}{c}"));
            }
        }
    }
    for p in &paths {
        let path = Path::new(p);
        let name = path.file_name().map(|n| n.to_str().unwrap().to_string());
        assert_eq!(path_file_name(p, System::Unix), name, "{p}");
        if let Some(name) = name {
            let ending = path.extension().map(|e| e.to_str().unwrap().to_string());
            assert_eq!(name_extension(&name), ending, "{p}");
            assert_eq!(name_stem(&name), path.file_stem().unwrap().to_str().unwrap(), "{p}");
        }
        for q in pieces {
            assert_eq!(path_join(p, q, System::Unix), path.join(q).to_str().unwrap(), "{p} {q}");
        }
    }
}

#[test]
fn windows_names() {
    assert_eq!(windows_name("C:\\a\\b.png").as_deref(), Some("b.png"));
    assert_eq!(windows_name("C:/a/b.png\\").as_deref(), Some("b.png"));
    assert_eq!(windows_name("C:b").as_deref(), Some("b"));
    assert_eq!(windows_name("C:"), None);
    assert_eq!(windows_name("C:\\"), None);
    assert_eq!(windows_name("a\\.").as_deref(), Some("a"));
    assert_eq!(windows_name("a\\.."), None);
    assert_eq!(windows_name("1:\\x").as_deref(), Some("x"));
    assert_eq!(windows_name("\\\\server\\share"), None);
    assert_eq!(windows_name("\\\\server\\share\\x").as_deref(), Some("x"));
    assert_eq!(windows_name("//server/share/x").as_deref(), Some("x"));
    assert_eq!(windows_name("\\\\server").as_deref(), Some("server"));
    assert_eq!(windows_name("\\\\.\\COM1"), None);
    assert_eq!(windows_name("\\\\?\\C:\\a/b").as_deref(), Some("a/b"));
    assert_eq!(windows_name("\\\\?\\C:\\a\\."), None);
    assert_eq!(windows_name("\\\\?\\UNC\\s\\t\\x").as_deref(), Some("x"));
    assert_eq!(windows_name("\\\\?\\UNC\\s\\t"), None);
    assert_eq!(windows_name("\\\\?\\pictures\\x").as_deref(), Some("x"));
    assert_eq!(windows_name("\\\\?\\pictures"), None);
    assert!(is_image("C:\\.x\\a.PNG", System::Windows));
    assert!(!is_image("C:\\a.png\\b", System::Windows));
    assert_eq!(
        dropped_file("C:\\a.txt\\B.JPEG", System::Windows),
        (DropKind::Image, "jpeg".to_string())
    );
    assert_eq!(dropped_text_body("C:\\a\\plan.txt", "", System::Windows), "plan\n\n");
    assert_eq!(dropped_text_body("C:\\a\\plan.txt", "", System::Unix), "C:\\a\\plan\n\n");
}

#[test]
fn windows_joins() {
    assert_eq!(windows_join("C:\\a", "x"), "C:\\a\\x");
    assert_eq!(windows_join("C:\\a\\", "x"), "C:\\a\\x");
    assert_eq!(windows_join("C:/a/", "x"), "C:/a/x");
    assert_eq!(windows_join("C:", "x"), "C:x");
    assert_eq!(windows_join("", "x"), "x");
    assert_eq!(windows_join("a", ""), "a\\");
    assert_eq!(windows_join("C:\\a", "D:x"), "D:x");
    assert_eq!(windows_join("C:\\a", "\\x"), "C:\\x");
    assert_eq!(windows_join("a", "/x"), "/x");
    assert_eq!(windows_join("\\\\s\\t\\a", "\\x"), "\\\\s\\t\\x");
    assert_eq!(windows_join("C:\\a", "\\\\s\\t"), "\\\\s\\t");
}

#[test]
fn verbatim_joins_walk_the_way() {
    assert_eq!(windows_join("\\\\?\\C:\\a\\b", "..\\x/y"), "\\\\?\\C:\\a\\x\\y");
    assert_eq!(windows_join("\\\\?\\C:\\a", ".\\x"), "\\\\?\\C:\\a\\x");
    assert_eq!(windows_join("\\\\?\\C:\\a", "\\x"), "\\\\?\\C:\\x");
    assert_eq!(windows_join("\\\\?\\C:\\a", "..\\.."), "\\\\?\\C:\\");
    assert_eq!(windows_join("\\\\?\\C:\\a", ""), "\\\\?\\C:\\a\\");
    assert_eq!(windows_join("\\\\?\\UNC\\s\\t", "x"), "\\\\?\\UNC\\s\\t\\x");
    assert_eq!(windows_join("\\\\?\\C:\\a\\..", "..\\x"), "\\\\?\\C:\\a\\..\\x");
}

#[test]
fn images_are_bundled_under_their_windows_names() {
    assert_eq!(image_base_name("C:\\a\\b.png", System::Windows), "b.png");
    assert_eq!(image_base_name("C:\\", System::Windows), "image.png");
    assert_eq!(
        bundle_image("C:\\a\\b.png", b"abc", Target::Different, System::Windows),
        ("b-ba7816bf8f01cfea.png".to_string(), true)
    );
}
