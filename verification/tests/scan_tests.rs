use playlist_ui::file_tree::{FileNode, NodeType, scan_directory};

fn dir(name: &str, path: &str, children: Vec<FileNode>) -> FileNode {
    FileNode::new_directory(name.to_string(), path.to_string(), children)
}

fn file(name: &str, path: &str) -> FileNode {
    FileNode::new_file(name.to_string(), path.to_string())
}

fn exts(names: &[&str]) -> Vec<String> {
    names.iter().map(|s| s.to_string()).collect()
}

#[test]
fn test_scan_directory_01() {
    // scan empty directory
    let root = dir("root", "/root", vec![]);
    let node = scan_directory(&root, &exts(&["rs"]));
    assert!(node.is_none());
}

#[test]
fn test_scan_directory_02() {
    // directory has no matching files
    let root = dir(
        "root",
        "/root",
        vec![file("a.md", "/root/a.md"), file("b.doc", "/root/b.doc")],
    );
    let node = scan_directory(&root, &exts(&["rs"]));
    assert!(node.is_none());
}

#[test]
fn test_scan_directory_03() {
    // nested matching
    let root = dir(
        "root",
        "/root",
        vec![dir(
            "sub",
            "/root/sub",
            vec![file("a.rs", "/root/sub/a.rs"), file("b.md", "/root/sub/b.md")],
        )],
    );
    let node = scan_directory(&root, &exts(&["rs"])).unwrap();
    assert_eq!(node.children.len(), 1);
    assert_eq!(node.children[0].name, "sub");
    assert_eq!(node.children[0].children.len(), 1);
    assert_eq!(node.children[0].children[0].name, "a.rs");
}

#[test]
fn test_scan_directory_04() {
    // match multiple file extensions
    let root = dir(
        "root",
        "/root",
        vec![
            file("a.rs", "/root/a.rs"),
            file("b.txt", "/root/b.txt"),
            file("c.md", "/root/c.md"),
        ],
    );
    let node = scan_directory(&root, &exts(&["rs", "txt"])).unwrap();
    let names: Vec<_> = node.children.iter().map(|n| &n.name).collect();
    assert!(names.contains(&&"a.rs".to_string()));
    assert!(names.contains(&&"b.txt".to_string()));
    assert!(!names.contains(&&"c.md".to_string()));
}

#[test]
fn test_scan_directory_05() {
    let root = dir(
        "root",
        "/root",
        vec![
            file("a.rs", "/root/a.rs"),
            file("b.txt", "/root/b.txt"),
            file("c.md", "/root/c.md"),
            dir(
                "sub",
                "/root/sub",
                vec![file("d.rs", "/root/sub/d.rs"), file("e.md", "/root/sub/e.md")],
            ),
        ],
    );
    let node = scan_directory(&root, &exts(&["rs", "txt"])).unwrap();

    // Check root directory
    assert_eq!(node.children.len(), 3);
    let names: Vec<_> = node.children.iter().map(|n| &n.name).collect();
    assert!(names.contains(&&"a.rs".to_string()));
    assert!(names.contains(&&"b.txt".to_string()));
    assert!(names.contains(&&"sub".to_string()));

    // Check subdirectory
    let sub_node = node.children.iter().find(|n| n.name == "sub").unwrap();
    assert_eq!(sub_node.children.len(), 1);
    assert_eq!(sub_node.children[0].name, "d.rs");
}

#[test]
fn test_scan_directory_06() {
    // subdirectories with no matches
    let root = dir(
        "root",
        "/root",
        vec![
            dir("sub1", "/root/sub1", vec![file("a.md", "/root/sub1/a.md")]),
            dir("sub2", "/root/sub2", vec![file("b.doc", "/root/sub2/b.doc")]),
        ],
    );
    let node = scan_directory(&root, &exts(&["rs"]));
    assert!(node.is_none());
}

#[test]
fn test_scan_directory_07() {
    // nested empty subdirectory
    let root = dir("root", "/root", vec![dir("empty_sub", "/root/empty_sub", vec![])]);
    let node = scan_directory(&root, &exts(&["rs"]));
    assert!(node.is_none());
}

#[test]
fn test_scan_directory_08() {
    // file with no extension
    let root = dir("root", "/root", vec![file("README", "/root/README")]);
    let node = scan_directory(&root, &exts(&["rs"]));
    assert!(node.is_none());
}

#[test]
fn test_scan_directory_09() {
    // file extension match is case-sensitive: an upper-case extension does
    // not pass a lower-case filter, so nothing beneath the root matches.
    let root = dir("root", "/root", vec![file("A.RS", "/root/A.RS")]);
    let node = scan_directory(&root, &exts(&["rs"]));
    assert!(node.is_none());
}

#[test]
fn test_scan_directory_10() {
    // deeply nested matches
    let root = dir(
        "root",
        "/root",
        vec![dir(
            "sub1",
            "/root/sub1",
            vec![dir("sub2", "/root/sub1/sub2", vec![file("deep.rs", "/root/sub1/sub2/deep.rs")])],
        )],
    );
    let node = scan_directory(&root, &exts(&["rs"])).unwrap();
    assert_eq!(node.children.len(), 1);
    assert_eq!(node.children[0].name, "sub1");
    assert_eq!(node.children[0].children.len(), 1);
    assert_eq!(node.children[0].children[0].name, "sub2");
    assert_eq!(node.children[0].children[0].children.len(), 1);
    assert_eq!(node.children[0].children[0].children[0].name, "deep.rs");
}

#[test]
fn test_scan_library_keeps_matching_branch_only() {
    // A library directory with one matching and one non-matching file in a
    // subdirectory: the tree is root -> sub -> a.mp3, and b.md is nowhere.
    let root = dir(
        "lib",
        "/lib",
        vec![dir(
            "sub",
            "/lib/sub",
            vec![file("a.mp3", "/lib/sub/a.mp3"), file("b.md", "/lib/sub/b.md")],
        )],
    );
    let node = scan_directory(&root, &exts(&["mp3"])).unwrap();
    assert_eq!(node.name, "lib");
    assert_eq!(node.path, "/lib");
    assert!(matches!(node.node_type, NodeType::Directory));
    assert!(node.is_expanded);
    assert_eq!(node.children.len(), 1);
    let sub = &node.children[0];
    assert_eq!(sub.name, "sub");
    assert!(!sub.is_expanded);
    assert_eq!(sub.children.len(), 1);
    assert_eq!(sub.children[0].name, "a.mp3");
    assert!(matches!(sub.children[0].node_type, NodeType::File));
}

#[test]
fn test_scan_matching_root_file_not_counted() {
    // The filter looks only at files beneath the root; a root with a single
    // matching file keeps it.
    let root = dir("root", "/root", vec![file("x.rs", "/root/x.rs")]);
    let node = scan_directory(&root, &exts(&["rs"])).unwrap();
    assert_eq!(node.children.len(), 1);
    assert_eq!(node.children[0].path, "/root/x.rs");
}
