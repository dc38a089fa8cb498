use md_workspace::order::lex_lower_le_exec;
use md_workspace::paths::{base_name_exec, join_path_exec, parent_dir_of};

#[test]
fn joins_with_a_separator() {
    assert_eq!(join_path_exec("/ws", "a.md"), "/ws/a.md");
    assert_eq!(join_path_exec("", "a.md"), "/a.md");
}

#[test]
fn base_name_takes_the_last_segment() {
    assert_eq!(base_name_exec("/ws"), "ws");
    assert_eq!(base_name_exec("ws"), "ws");
    assert_eq!(base_name_exec("/a/b"), "b");
    assert_eq!(base_name_exec("a//b"), "b");
}

#[test]
fn base_name_ignores_trailing_separators() {
    assert_eq!(base_name_exec("/a/b/"), "b");
    assert_eq!(base_name_exec("a///"), "a");
}

#[test]
fn base_name_falls_back_to_the_whole_path() {
    assert_eq!(base_name_exec("/"), "/");
    assert_eq!(base_name_exec("///"), "///");
    assert_eq!(base_name_exec(""), "");
}

#[test]
fn parent_dir_is_the_prefix_up_to_the_last_separator() {
    assert_eq!(parent_dir_of("a/b.md"), Some("a/".to_string()));
    assert_eq!(parent_dir_of("a/b/c.md"), Some("a/b/".to_string()));
    assert_eq!(parent_dir_of("/a.md"), Some("/".to_string()));
    assert_eq!(parent_dir_of("b.md"), None);
    assert_eq!(parent_dir_of(""), None);
}

#[test]
fn name_order_is_case_insensitive_and_lexicographic() {
    assert!(lex_lower_le_exec("abc", "ABD"));
    assert!(!lex_lower_le_exec("abd", "ABC"));
    assert!(lex_lower_le_exec("A.md", "a.md"));
    assert!(lex_lower_le_exec("a.md", "A.md"));
    assert!(lex_lower_le_exec("ab", "abc"));
    assert!(!lex_lower_le_exec("abc", "ab"));
    assert!(lex_lower_le_exec("", "a"));
    assert!(lex_lower_le_exec("", ""));
}
