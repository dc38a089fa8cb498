use md_workspace::model::{md_name_exec, DirEntry, EntryInfo, TreeNode};
use md_workspace::scan::{scan_md_tree, scan_workspace, ScanError};

fn file_entry(name: &str) -> DirEntry {
    DirEntry { name: name.to_string(), info: EntryInfo::File }
}

fn dir_entry(name: &str, entries: Vec<DirEntry>) -> DirEntry {
    DirEntry { name: name.to_string(), info: EntryInfo::Dir(entries) }
}

fn file_node(name: &str, path: &str) -> TreeNode {
    TreeNode::File { name: name.to_string(), path: path.to_string() }
}

fn folder_node(name: &str, path: &str, children: Vec<TreeNode>) -> TreeNode {
    TreeNode::Folder { name: name.to_string(), path: path.to_string(), children }
}

fn sample_workspace() -> EntryInfo {
    EntryInfo::Dir(vec![
        file_entry("a.md"),
        dir_entry(
            "notes",
            vec![file_entry("b.md"), dir_entry("deep", vec![file_entry("c.txt")])],
        ),
        dir_entry("empty", vec![]),
    ])
}

#[test]
fn scans_sample_workspace() {
    let info = sample_workspace();
    let tree = scan_workspace("/ws", &info).unwrap();
    let expected = folder_node(
        "ws",
        "/ws",
        vec![
            folder_node("notes", "/ws/notes", vec![file_node("b.md", "/ws/notes/b.md")]),
            file_node("a.md", "/ws/a.md"),
        ],
    );
    assert_eq!(tree, expected);
}

#[test]
fn scanning_twice_is_identical() {
    let info = sample_workspace();
    let first = scan_workspace("/ws", &info).unwrap();
    let second = scan_workspace("/ws", &info).unwrap();
    assert_eq!(first, second);
}

#[test]
fn root_that_is_a_file_fails() {
    let r = scan_workspace("/ws/a.md", &EntryInfo::File);
    assert_eq!(r, Err(ScanError::NotADirectory));
}

#[test]
fn root_that_is_missing_or_special_fails() {
    assert_eq!(scan_workspace("/gone", &EntryInfo::Unknown), Err(ScanError::NotADirectory));
    assert_eq!(scan_workspace("/dev/null", &EntryInfo::Special), Err(ScanError::NotADirectory));
}

#[test]
fn unreadable_subdirectory_is_skipped_not_fatal() {
    let with_denied = EntryInfo::Dir(vec![
        DirEntry { name: "secret".to_string(), info: EntryInfo::DeniedDir },
        file_entry("a.md"),
    ]);
    let without = EntryInfo::Dir(vec![file_entry("a.md")]);
    let scanned = scan_workspace("/ws", &with_denied).unwrap();
    assert_eq!(scanned, scan_workspace("/ws", &without).unwrap());
    assert_eq!(scanned, folder_node("ws", "/ws", vec![file_node("a.md", "/ws/a.md")]));
}

#[test]
fn unreadable_subdirectory_in_the_middle_is_skipped() {
    let with_denied = EntryInfo::Dir(vec![
        file_entry("a.md"),
        DirEntry { name: "secret".to_string(), info: EntryInfo::DeniedDir },
        file_entry("b.md"),
    ]);
    let without = EntryInfo::Dir(vec![file_entry("a.md"), file_entry("b.md")]);
    assert_eq!(
        scan_workspace("/ws", &with_denied).unwrap(),
        scan_workspace("/ws", &without).unwrap(),
    );
}

#[test]
fn folder_whose_markdown_is_behind_a_denied_directory_is_pruned() {
    let info = EntryInfo::Dir(vec![
        dir_entry(
            "notes",
            vec![DirEntry { name: "deep".to_string(), info: EntryInfo::DeniedDir }],
        ),
        file_entry("a.md"),
    ]);
    let tree = scan_workspace("/ws", &info).unwrap();
    assert_eq!(tree, folder_node("ws", "/ws", vec![file_node("a.md", "/ws/a.md")]));
}

#[test]
fn unreadable_root_scans_as_empty_folder() {
    let tree = scan_workspace("/locked", &EntryInfo::DeniedDir).unwrap();
    assert_eq!(tree, folder_node("locked", "/locked", vec![]));
}

#[test]
fn empty_root_directory_is_not_pruned() {
    let tree = scan_workspace("/ws", &EntryInfo::Dir(vec![])).unwrap();
    assert_eq!(tree, folder_node("ws", "/ws", vec![]));
}

#[test]
fn folders_precede_files_and_names_ascend_case_insensitively() {
    let info = EntryInfo::Dir(vec![
        file_entry("Z.md"),
        dir_entry("B", vec![file_entry("x.md")]),
        file_entry("a.MD"),
        file_entry("b.txt"),
        dir_entry("a", vec![file_entry("y.md")]),
    ]);
    let tree = scan_workspace("/w", &info).unwrap();
    let expected = folder_node(
        "w",
        "/w",
        vec![
            folder_node("a", "/w/a", vec![file_node("y.md", "/w/a/y.md")]),
            folder_node("B", "/w/B", vec![file_node("x.md", "/w/B/x.md")]),
            file_node("a.MD", "/w/a.MD"),
            file_node("Z.md", "/w/Z.md"),
        ],
    );
    assert_eq!(tree, expected);
}

#[test]
fn deep_chain_without_markdown_is_pruned() {
    let info = EntryInfo::Dir(vec![
        dir_entry("a", vec![dir_entry("b", vec![dir_entry("c", vec![file_entry("x.txt")])])]),
        file_entry("keep.md"),
    ]);
    let tree = scan_workspace("/r", &info).unwrap();
    assert_eq!(tree, folder_node("r", "/r", vec![file_node("keep.md", "/r/keep.md")]));
}

#[test]
fn deep_markdown_keeps_the_whole_chain() {
    let info = EntryInfo::Dir(vec![dir_entry(
        "a",
        vec![dir_entry("b", vec![file_entry("x.md")])],
    )]);
    let tree = scan_workspace("/r", &info).unwrap();
    let expected = folder_node(
        "r",
        "/r",
        vec![folder_node(
            "a",
            "/r/a",
            vec![folder_node("b", "/r/a/b", vec![file_node("x.md", "/r/a/b/x.md")])],
        )],
    );
    assert_eq!(tree, expected);
}

#[test]
fn special_and_unknown_entries_are_skipped() {
    let info = EntryInfo::Dir(vec![
        DirEntry { name: "link.md".to_string(), info: EntryInfo::Special },
        DirEntry { name: "ghost.md".to_string(), info: EntryInfo::Unknown },
        file_entry("real.md"),
    ]);
    let tree = scan_workspace("/r", &info).unwrap();
    assert_eq!(tree, folder_node("r", "/r", vec![file_node("real.md", "/r/real.md")]));
}

#[test]
fn markdown_names_are_matched_case_insensitively_on_the_extension() {
    assert!(md_name_exec("a.md"));
    assert!(md_name_exec("a.MD"));
    assert!(md_name_exec("A.Md"));
    assert!(md_name_exec("archive.tar.md"));
    assert!(md_name_exec("..md"));
    assert!(!md_name_exec(".md"));
    assert!(!md_name_exec("md"));
    assert!(!md_name_exec("a.mdx"));
    assert!(!md_name_exec("a.txt"));
    assert!(!md_name_exec(""));
    assert!(!md_name_exec("a.m d"));
}

#[test]
fn scan_md_tree_returns_only_the_children() {
    let entries = vec![file_entry("a.md"), file_entry("b.txt")];
    let nodes = scan_md_tree("/base", &entries);
    assert_eq!(nodes, vec![file_node("a.md", "/base/a.md")]);
}

#[test]
fn case_insensitive_name_ties_keep_both_entries() {
    let info = EntryInfo::Dir(vec![file_entry("A.md"), file_entry("a.md")]);
    let tree = scan_workspace("/r", &info).unwrap();
    match tree {
        TreeNode::Folder { children, .. } => {
            assert_eq!(children.len(), 2);
            let mut names: Vec<String> = children
                .iter()
                .map(|c| match c {
                    TreeNode::File { name, .. } => name.clone(),
                    TreeNode::Folder { name, .. } => name.clone(),
                })
                .collect();
            names.sort();
            assert_eq!(names, vec!["A.md".to_string(), "a.md".to_string()]);
        }
        TreeNode::File { .. } => panic!("root must scan as a folder"),
    }
}

#[test]
fn not_a_directory_message() {
    assert_eq!(ScanError::NotADirectory.message(), "root is not a directory");
}
