use playlist_ui::file_tree::toggle_extension;
use playlist_ui::media_metadata::cover_art_path;
use playlist_ui::right_panel::{RightPanelFile, SortColumn, SortOrder, add_to_right_panel,
    apply_sort_selection, remove_directory_from_right_panel, remove_from_right_panel};

fn panel_file(path: &str) -> RightPanelFile {
    RightPanelFile {
        path: path.to_string(),
        creator: None,
        album: None,
        title: None,
        genre: None,
        duration_ms: None,
    }
}

#[test]
fn test_add_to_right_panel() {
    let mut files: Vec<RightPanelFile> = Vec::new();
    add_to_right_panel(&mut files, panel_file("/file.txt"));
    assert!(files.iter().any(|f| f.path == "/file.txt"));
}

#[test]
fn test_add_duplicate_to_right_panel() {
    let mut files = vec![panel_file("/file.txt")];
    add_to_right_panel(&mut files, panel_file("/file.txt"));
    // Should not add duplicate
    assert_eq!(files.iter().filter(|p| p.path == "/file.txt").count(), 1);
}

#[test]
fn test_remove_from_right_panel() {
    let mut files = vec![panel_file("/file.txt")];
    remove_from_right_panel(&mut files, &"/file.txt".to_string());
    assert!(files.is_empty());
}

#[test]
fn test_remove_nonexistent_from_right_panel() {
    let mut files: Vec<RightPanelFile> = Vec::new();
    remove_from_right_panel(&mut files, &"/file.txt".to_string());
    // Should not panic and list remains empty
    assert!(files.is_empty());
}

#[test]
fn test_remove_directory_from_right_panel() {
    let mut files = vec![
        panel_file("/dir/file1.txt"),
        panel_file("/dir/file2.txt"),
        panel_file("/other/file3.txt"),
    ];
    remove_directory_from_right_panel(&mut files, &"/dir".to_string());
    assert_eq!(files.len(), 1);
    assert_eq!(files[0].path, "/other/file3.txt");
}

#[test]
fn test_remove_nonexistent_directory_from_right_panel() {
    let mut files = vec![panel_file("/other/file.txt")];
    remove_directory_from_right_panel(&mut files, &"/dir".to_string());
    // Should not remove unrelated files
    assert_eq!(files.len(), 1);
}

#[test]
fn test_remove_directory_needs_component_boundary() {
    // "/dir_a/x.txt" is not beneath "/dir": the match is by path
    // component, not by text prefix.
    let mut files = vec![panel_file("/dir_a/x.txt"), panel_file("/dir/y.txt")];
    remove_directory_from_right_panel(&mut files, &"/dir".to_string());
    assert_eq!(files.len(), 1);
    assert_eq!(files[0].path, "/dir_a/x.txt");
}

#[test]
fn test_toggle_extension() {
    let mut selected = vec!["txt".to_string()];
    toggle_extension(&mut selected, &"txt".to_string());
    assert!(selected.is_empty());
    toggle_extension(&mut selected, &"txt".to_string());
    assert_eq!(selected, vec!["txt".to_string()]);
    toggle_extension(&mut selected, &"md".to_string());
    assert_eq!(selected, vec!["txt".to_string(), "md".to_string()]);
}

#[test]
fn test_apply_sort_selection_toggles_and_resets() {
    let (col, ord) = apply_sort_selection(&SortColumn::Directory, &SortOrder::Asc, &SortColumn::Directory);
    assert_eq!(col, SortColumn::Directory);
    assert_eq!(ord, SortOrder::Desc);
    let (col, ord) = apply_sort_selection(&col, &ord, &SortColumn::File);
    assert_eq!(col, SortColumn::File);
    assert_eq!(ord, SortOrder::Asc);
}

#[test]
fn test_cover_art_path_replaces_extension() {
    assert_eq!(cover_art_path(&"/m/song.mp3".to_string()), "/m/song.cover.jpg");
    assert_eq!(cover_art_path(&"/m/README".to_string()), "/m/README.cover.jpg");
    assert_eq!(cover_art_path(&"/m/.hidden".to_string()), "/m/.hidden.cover.jpg");
    assert_eq!(cover_art_path(&"song.flac".to_string()), "song.cover.jpg");
    assert_eq!(cover_art_path(&"/a.b/song".to_string()), "/a.b/song.cover.jpg");
}
