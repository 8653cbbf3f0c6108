use playlist_ui::file_tree::{FileNode, collect_files_recursively, find_node_by_path,
    restore_expansion_state};
use playlist_ui::right_panel::{RightPanelFile, SortColumn, SortOrder, sorted_right_panel_files};
use playlist_ui::text::{base_name, file_extension, str_le};
use playlist_ui::xspf::xml_escape;

fn panel_file(path: &str) -> RightPanelFile {
    RightPanelFile {
        path: path.to_string(),
        creator: None,
        album: None,
        title: None,
        genre: None,
        duration_ms: None,
    }
}

#[test]
fn test_sorted_right_panel_by_directory_and_file() {
    let file_a = panel_file("/dir_a/file.txt");
    let file_b = panel_file("/dir_b/file.txt");
    let files = vec![file_b.clone(), file_a.clone()];

    let by_dir = sorted_right_panel_files(&files, &SortColumn::Directory, &SortOrder::Asc);
    assert_eq!(by_dir[0].path, "/dir_a/file.txt");
    assert_eq!(by_dir[1].path, "/dir_b/file.txt");

    let by_dir_desc = sorted_right_panel_files(&files, &SortColumn::Directory, &SortOrder::Desc);
    assert_eq!(by_dir_desc[0].path, "/dir_b/file.txt");
    assert_eq!(by_dir_desc[1].path, "/dir_a/file.txt");

    // Equal file names: the stable sort keeps the given order.
    let by_file = sorted_right_panel_files(&files, &SortColumn::File, &SortOrder::Asc);
    assert_eq!(by_file[0].path, "/dir_b/file.txt");
    assert_eq!(by_file[1].path, "/dir_a/file.txt");
}

#[test]
fn test_sorted_right_panel_empty_and_single() {
    let none: Vec<RightPanelFile> = vec![];
    assert!(sorted_right_panel_files(&none, &SortColumn::Directory, &SortOrder::Asc).is_empty());

    let one = vec![panel_file("/dir/file.txt")];
    let sorted = sorted_right_panel_files(&one, &SortColumn::File, &SortOrder::Asc);
    assert_eq!(sorted.len(), 1);
    assert_eq!(sorted[0], one[0]);
}

#[test]
fn test_sorted_right_panel_case_insensitive_and_by_tags() {
    let mut a = panel_file("/m/a.mp3");
    a.title = Some("zebra".to_string());
    a.duration_ms = Some(100);
    let mut b = panel_file("/m/b.mp3");
    b.title = Some("Apple".to_string());
    b.duration_ms = Some(50);
    let files = vec![a.clone(), b.clone()];

    let by_title = sorted_right_panel_files(&files, &SortColumn::Title, &SortOrder::Asc);
    assert_eq!(by_title[0].path, "/m/b.mp3");

    let by_duration = sorted_right_panel_files(&files, &SortColumn::Duration, &SortOrder::Desc);
    assert_eq!(by_duration[0].path, "/m/a.mp3");

    // A missing tag sorts as empty text, before everything else.
    let mut c = panel_file("/m/c.mp3");
    c.duration_ms = Some(10);
    let files = vec![a, b, c];
    let by_title = sorted_right_panel_files(&files, &SortColumn::Title, &SortOrder::Asc);
    assert_eq!(by_title[0].path, "/m/c.mp3");
}

#[test]
fn test_restore_expansion_state_marks_listed_paths() {
    let mut root = FileNode::new_directory(
        "root".to_string(),
        "/root".to_string(),
        vec![FileNode::new_directory(
            "sub".to_string(),
            "/root/sub".to_string(),
            vec![FileNode::new_file("a.txt".to_string(), "/root/sub/a.txt".to_string())],
        )],
    );
    let expanded = vec!["/root".to_string(), "/root/sub".to_string()];
    restore_expansion_state(&mut root, &expanded);
    assert!(root.is_expanded);
    assert!(root.children[0].is_expanded);
    assert!(!root.children[0].children[0].is_expanded);

    restore_expansion_state(&mut root, &vec!["/root/sub".to_string()]);
    assert!(!root.is_expanded);
    assert!(root.children[0].is_expanded);
}

#[test]
fn test_collect_files_recursively_depth_first() {
    let root = FileNode::new_directory(
        "root".to_string(),
        "/root".to_string(),
        vec![
            FileNode::new_directory(
                "sub".to_string(),
                "/root/sub".to_string(),
                vec![FileNode::new_file("a.txt".to_string(), "/root/sub/a.txt".to_string())],
            ),
            FileNode::new_file("b.txt".to_string(), "/root/b.txt".to_string()),
        ],
    );
    let mut files: Vec<String> = Vec::new();
    collect_files_recursively(&root, &mut files);
    assert_eq!(files, vec!["/root/sub/a.txt".to_string(), "/root/b.txt".to_string()]);
}

#[test]
fn test_find_node_by_path_finds_first_match() {
    let root = FileNode::new_directory(
        "root".to_string(),
        "/root".to_string(),
        vec![FileNode::new_directory(
            "sub".to_string(),
            "/root/sub".to_string(),
            vec![FileNode::new_file("a.txt".to_string(), "/root/sub/a.txt".to_string())],
        )],
    );
    let found = find_node_by_path(&root, &"/root/sub".to_string()).unwrap();
    assert_eq!(found.name, "sub");
    assert!(find_node_by_path(&root, &"/nowhere".to_string()).is_none());
    assert_eq!(find_node_by_path(&root, &"/root".to_string()).unwrap().name, "root");
}

#[test]
fn test_xml_escape_replaces_reserved_characters() {
    assert_eq!(xml_escape("a & b < c > d \"e\" 'f'"), "a &amp; b &lt; c &gt; d &quot;e&quot; &apos;f&apos;");
    assert_eq!(xml_escape("plain"), "plain");
    assert_eq!(xml_escape(""), "");
    assert_eq!(xml_escape("&&"), "&amp;&amp;");
}

#[test]
fn test_file_extension_edges() {
    assert_eq!(file_extension("a.rs"), Some("rs".to_string()));
    assert_eq!(file_extension("archive.tar.gz"), Some("gz".to_string()));
    assert_eq!(file_extension("README"), None);
    assert_eq!(file_extension(".hidden"), None);
    assert_eq!(file_extension("trailing."), Some("".to_string()));
}

#[test]
fn test_base_name_edges() {
    assert_eq!(base_name("/a/b/c.mp3"), "c.mp3");
    assert_eq!(base_name("c.mp3"), "c.mp3");
    assert_eq!(base_name("/c.mp3"), "c.mp3");
}

#[test]
fn test_str_le_is_code_point_order() {
    assert!(str_le("", "a"));
    assert!(str_le("a", "a"));
    assert!(str_le("Rock", "Unknown"));
    assert!(!str_le("Unknown", "Rock"));
    assert!(str_le("ab", "b"));
    assert!(str_le("a", "ab"));
    assert!(!str_le("ab", "a"));
    // Upper-case letters come before lower-case ones.
    assert!(str_le("Z", "a"));
}
