use jot::db::{
    any_body_has_image_marker, backups_path, data_dir, db_path, extract_image_paths, image_key,
    image_key_with, image_marker, images_path, migration_batch, pending_migrations,
    referenced_image_names,
};
use jot::paths::System;
use rusqlite::Connection;

fn run_migrations(conn: &Connection) {
    let current: i32 = conn.query_row("PRAGMA user_version", [], |r| r.get(0)).unwrap();
    for m in pending_migrations(current) {
        conn.execute_batch(&migration_batch(&m)).unwrap();
    }
}

#[test]
fn migration_adds_tag_and_color_columns() {
    let conn = Connection::open_in_memory().unwrap();
    run_migrations(&conn);

    let mut stmt = conn.prepare("PRAGMA table_info(notes)").unwrap();
    let columns = stmt
        .query_map([], |row| row.get::<_, String>(1))
        .unwrap()
        .collect::<Result<Vec<_>, _>>()
        .unwrap();

    assert!(columns.iter().any(|c| c == "tag"));
    assert!(columns.iter().any(|c| c == "color"));

    let version: i32 = conn
        .query_row("PRAGMA user_version", [], |row| row.get(0))
        .unwrap();
    assert_eq!(version, 3);
}

#[test]
fn migrations_run_only_once() {
    let conn = Connection::open_in_memory().unwrap();
    run_migrations(&conn);
    run_migrations(&conn);
    assert!(pending_migrations(3).is_empty());
    assert!(pending_migrations(9).is_empty());
    assert_eq!(pending_migrations(-1).len(), 3);
    let rest = pending_migrations(1);
    assert_eq!(rest.len(), 2);
    assert_eq!(rest[0].version, 2);
    assert_eq!(rest[0].name, "add pinned column");
    assert!(migration_batch(&rest[1]).ends_with("; PRAGMA user_version = 3; COMMIT;"));
}

#[test]
fn image_key_ignores_the_directory_and_the_separator_flavour() {
    let expected = image_key("shot.png");
    assert!(expected.is_some());
    assert_eq!(image_key("/home/u/.local/share/jot/images/shot.png"), expected);
    assert_eq!(
        image_key(r"C:\Users\u\AppData\Local\jot\images\shot.png"),
        expected
    );
    assert_eq!(image_key(""), None);
    assert_eq!(image_key("images/"), None);
}

#[test]
fn image_key_case_folds_only_on_windows() {
    assert_eq!(image_key_with("SHOT.PNG", true).as_deref(), Some("shot.png"));
    assert_eq!(image_key("SHOT.PNG").as_deref(), Some("SHOT.PNG"));
}

#[test]
fn referenced_image_names_collect_both_path_flavours() {
    let bodies = vec![
        "mixed".to_string(),
        "before ![image](/home/u/.local/share/jot/images/a.png) middle \
         ![image](C:\\Users\\u\\AppData\\Local\\jot\\images\\b.png) after"
            .to_string(),
    ];
    let names = referenced_image_names(&bodies, false);
    assert_eq!(names.len(), 2);
    assert!(names.contains(&image_key("a.png").unwrap()));
    assert!(names.contains(&image_key("b.png").unwrap()));
}

#[test]
fn image_marker_tripwire_only_fires_when_bodies_carry_the_marker() {
    let plain = vec!["plain".to_string(), "no images here".to_string()];
    assert!(!any_body_has_image_marker(&plain));
    let img = vec!["img".to_string(), "look ![image](/tmp/x.png)".to_string()];
    assert!(any_body_has_image_marker(&img));
}

#[test]
fn a_name_is_collected_once() {
    let bodies = vec![
        "![image](/a/x.png)![image](/b/x.png)".to_string(),
        "![image](X.PNG)".to_string(),
    ];
    assert_eq!(referenced_image_names(&bodies, false).len(), 2);
    assert_eq!(referenced_image_names(&bodies, true), vec!["x.png".to_string()]);
}

#[test]
fn image_paths_of_a_body() {
    assert_eq!(
        extract_image_paths("é ![image](a b.png)![image](c) ![image](open"),
        vec!["a b.png".to_string(), "c".to_string()]
    );
    assert!(extract_image_paths("![image]").is_empty());
    assert_eq!(image_marker(), "![image](");
}

#[test]
fn files_in_the_data_directory() {
    assert_eq!(data_dir("/home/u/.local/share", System::Unix), "/home/u/.local/share/jot");
    assert_eq!(db_path("/d", System::Unix), "/d/jot/notes.db");
    assert_eq!(images_path("/d", System::Unix), "/d/jot/images");
    assert_eq!(backups_path("/d/", System::Unix), "/d/jot/backups");
}
