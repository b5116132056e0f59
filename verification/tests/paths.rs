use std::path::Path;

use mesh_scan::path::{extension, has_extension, join};

#[test]
fn extension_is_what_follows_the_last_dot() {
    assert_eq!(extension("model.dae"), Some("dae"));
    assert_eq!(extension("archive.tar.gz"), Some("gz"));
    assert_eq!(extension("a.b"), Some("b"));
}

#[test]
fn backup_of_a_mesh_is_no_mesh() {
    assert_eq!(extension("model.dae.bak"), Some("bak"));
    assert!(!has_extension("model.dae.bak", "dae"));
    assert!(has_extension("model.dae.bak", "bak"));
}

#[test]
fn extension_is_matched_with_its_case() {
    assert_eq!(extension("model.DAE"), Some("DAE"));
    assert!(!has_extension("model.DAE", "dae"));
    assert!(!has_extension("model.Dae", "dae"));
    assert!(has_extension("model.DAE", "DAE"));
    assert!(has_extension("model.dae", "dae"));
}

#[test]
fn extension_is_matched_whole() {
    assert!(!has_extension("model.daee", "dae"));
    assert!(!has_extension("model.da", "dae"));
    assert!(!has_extension("model.xdae", "dae"));
    assert!(!has_extension("modeldae", "dae"));
    assert!(!has_extension("dae", "dae"));
    assert!(!has_extension("model.dae ", "dae"));
}

#[test]
fn name_without_a_dot_has_no_extension() {
    assert_eq!(extension("Makefile"), None);
    assert_eq!(extension(""), None);
}

#[test]
fn leading_dot_starts_no_extension() {
    assert_eq!(extension(".dae"), None);
    assert!(!has_extension(".dae", "dae"));
    assert_eq!(extension(".hidden.dae"), Some("dae"));
    assert!(has_extension(".hidden.dae", "dae"));
}

#[test]
fn trailing_dot_gives_an_empty_extension() {
    assert_eq!(extension("model."), Some(""));
    assert_eq!(extension("..."), Some(""));
    assert_eq!(extension("a.."), Some(""));
}

#[test]
fn dot_names_have_no_extension() {
    assert_eq!(extension("."), None);
    assert_eq!(extension(".."), None);
}

#[test]
fn absent_extension_passes_for_the_empty_one() {
    assert!(has_extension("Makefile", ""));
    assert!(has_extension(".profile", ""));
    assert!(has_extension("..", ""));
    assert!(has_extension("model.", ""));
    assert!(!has_extension("model.dae", ""));
    assert!(!has_extension("Makefile", "dae"));
}

#[test]
fn extension_is_counted_in_characters() {
    assert_eq!(extension("möbel.dae"), Some("dae"));
    assert_eq!(extension("模型.网格"), Some("网格"));
    assert!(has_extension("模型.网格", "网格"));
    assert!(!has_extension("模型.网格", "网"));
    assert_eq!(extension("é."), Some(""));
    assert_eq!(extension(".é"), None);
}

#[test]
fn extension_agrees_with_the_standard_library() {
    let names = [
        "", ".", "..", "...", "a", "a.", ".a", "a.b", "a.b.c", "a..b", "..a", "a..", ".a.b",
        "model.dae", "model.dae.bak", "model.DAE", "模型.网格", "no extension", " . ", "x.y z",
    ];
    for name in names {
        let expected = Path::new(name).extension().map(|ext| ext.to_str().unwrap());
        assert_eq!(extension(name), expected, "extension of {:?}", name);
    }
}

#[test]
fn join_puts_one_separator_between() {
    assert_eq!(join("a", "b"), "a/b");
    assert_eq!(join("tests/mesh_update", "test"), "tests/mesh_update/test");
    assert_eq!(join("/", "b"), "/b");
    assert_eq!(join("a/", "b"), "a/b");
    assert_eq!(join("a//", "b"), "a//b");
}

#[test]
fn join_with_an_empty_directory_is_the_name() {
    assert_eq!(join("", "b"), "b");
    assert_eq!(join("", ""), "");
}

#[test]
fn join_with_an_empty_name_ends_in_the_separator() {
    assert_eq!(join("a", ""), "a/");
    assert_eq!(join("a/", ""), "a/");
}

#[test]
fn join_with_a_rooted_name_is_the_name() {
    assert_eq!(join("a", "/b"), "/b");
    assert_eq!(join("", "/"), "/");
}

#[test]
fn join_agrees_with_the_standard_library() {
    let dirs = ["", "a", "a/", "/", "a/b", "/a/b/", ".", "..", "模型"];
    let names = ["", "b", "b.dae", "/b", ".", "..", "网格.dae", "b c"];
    for dir in dirs {
        for name in names {
            let expected = Path::new(dir).join(name);
            assert_eq!(
                Some(join(dir, name).as_str()),
                expected.to_str(),
                "join of {:?} and {:?}",
                dir,
                name
            );
        }
    }
}
