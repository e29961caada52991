use crit_core::linker::{normalize_join, parent_dir};

#[test]
fn path_join_normalizes() {
    assert_eq!(normalize_join("web", "./db"), "web/db");
    assert_eq!(normalize_join("web/api", "../db"), "web/db");
    assert_eq!(normalize_join("", "./util"), "util");
}

#[test]
fn parent_of_nested_and_top_level_files() {
    assert_eq!(parent_dir("web/api/handler.js"), "web/api");
    assert_eq!(parent_dir("main.js"), "");
}
