use playlist_ui::media_metadata::{MediaFile, MediaMetadata, build_genre_tag_tree};
use playlist_ui::sled_store::SledStore;
use tempfile::TempDir;

fn media_file(path: &str, genre: &str, title: &str) -> MediaFile {
    MediaFile {
        path: path.to_string(),
        metadata: MediaMetadata {
            creator: None,
            album: None,
            title: Some(title.to_string()),
            genre: Some(genre.to_string()),
            track_num: None,
            duration_ms: None,
            image_uri: None,
            identifier: None,
            annotation: None,
        },
    }
}

#[test]
fn test_save_and_load_tag_tree_with_sled() {
    // Setup a temporary directory for sled
    let temp_dir = TempDir::new().unwrap();
    let sled_path = temp_dir.path().join("sled_test_db");
    let mut sled_store = SledStore::new(sled_path.to_str().unwrap()).unwrap();

    // Use dummy media records with the usual audio extensions
    let files = vec![
        media_file("/tmp/a.mp3", "Rock", "First"),
        media_file("/tmp/b.flac", "Jazz", "Second"),
    ];

    // Build and save the tag tree
    let tag_tree = build_genre_tag_tree(&files);
    sled_store.save_genre_tag_tree(&tag_tree).unwrap();

    // Load the tag tree back
    let loaded_tree = sled_store.load_genre_tag_tree().unwrap();

    // Basic check: the loaded tree should equal the saved tree
    assert_eq!(tag_tree, loaded_tree);

    // Optionally, check a specific node if you know the structure
    if let Some(first_genre) = loaded_tree.first() {
        println!("First genre label: {}", first_genre.label);
    }
}

#[test]
fn test_load_without_save_is_none() {
    let temp_dir = TempDir::new().unwrap();
    let store = SledStore::new(temp_dir.path().join("db").to_str().unwrap()).unwrap();
    assert!(store.load_genre_tag_tree().is_none());
    assert!(store.load_creator_tag_tree().is_none());
}

#[test]
fn test_clear_forces_a_miss() {
    let temp_dir = TempDir::new().unwrap();
    let mut store = SledStore::new(temp_dir.path().join("db").to_str().unwrap()).unwrap();
    let forest = build_genre_tag_tree(&vec![media_file("/tmp/a.mp3", "Rock", "First")]);
    store.save_genre_tag_tree(&forest).unwrap();
    assert!(store.load_genre_tag_tree().is_some());
    store.clear_genre_tree().unwrap();
    assert!(store.load_genre_tag_tree().is_none());
}

#[test]
fn test_kinds_are_kept_apart() {
    let temp_dir = TempDir::new().unwrap();
    let mut store = SledStore::new(temp_dir.path().join("db").to_str().unwrap()).unwrap();
    let genre_forest = build_genre_tag_tree(&vec![media_file("/tmp/a.mp3", "Rock", "First")]);
    store.save_genre_tag_tree(&genre_forest).unwrap();
    assert!(store.load_creator_tag_tree().is_none());
    store.save_creator_tag_tree(&genre_forest).unwrap();
    assert_eq!(store.load_creator_tag_tree().unwrap(), genre_forest);
    store.clear_genre_tree().unwrap();
    assert_eq!(store.load_creator_tag_tree().unwrap(), genre_forest);
}

#[test]
fn test_saved_tree_survives_reopen() {
    // A record written through one handle is still there when the store is
    // opened again at the same path, without any rebuild.
    let temp_dir = TempDir::new().unwrap();
    let path = temp_dir.path().join("db");
    let forest = build_genre_tag_tree(&vec![
        media_file("/tmp/a.mp3", "Rock", "First"),
        media_file("/tmp/b.flac", "Jazz", "Second"),
    ]);
    {
        let mut store = SledStore::new(path.to_str().unwrap()).unwrap();
        store.save_genre_tag_tree(&forest).unwrap();
    }
    let store = SledStore::new(path.to_str().unwrap()).unwrap();
    assert_eq!(store.load_genre_tag_tree().unwrap(), forest);
}

#[test]
fn test_second_open_of_locked_store_is_an_error() {
    // The store permits one open handle per path: a second open while the
    // first is alive reports an error rather than sharing the lock.
    let temp_dir = TempDir::new().unwrap();
    let path = temp_dir.path().join("db");
    let _first = SledStore::new(path.to_str().unwrap()).unwrap();
    let second = SledStore::new(path.to_str().unwrap());
    assert!(second.is_err());
    if let Err(e) = second {
        assert!(!e.message.is_empty());
    }
}

#[test]
fn test_saved_empty_forest_is_not_a_miss() {
    // An empty forest saved under a kind loads back as an empty forest,
    // not as a missing record.
    let temp_dir = TempDir::new().unwrap();
    let mut store = SledStore::new(temp_dir.path().join("db").to_str().unwrap()).unwrap();
    store.save_genre_tag_tree(&vec![]).unwrap();
    assert_eq!(store.load_genre_tag_tree(), Some(vec![]));
}

#[test]
fn test_save_overwrites_prior_record() {
    let temp_dir = TempDir::new().unwrap();
    let mut store = SledStore::new(temp_dir.path().join("db").to_str().unwrap()).unwrap();
    let first = build_genre_tag_tree(&vec![media_file("/tmp/a.mp3", "Rock", "First")]);
    let second = build_genre_tag_tree(&vec![media_file("/tmp/b.mp3", "Jazz", "Second")]);
    store.save_genre_tag_tree(&first).unwrap();
    store.save_genre_tag_tree(&second).unwrap();
    assert_eq!(store.load_genre_tag_tree().unwrap(), second);
}
