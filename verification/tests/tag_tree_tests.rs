use playlist_ui::media_metadata::{MediaFile, MediaMetadata, build_creator_tag_tree,
    build_genre_tag_tree};

fn media_file(
    path: &str,
    genre: Option<&str>,
    creator: Option<&str>,
    album: Option<&str>,
    title: Option<&str>,
) -> MediaFile {
    MediaFile {
        path: path.to_string(),
        metadata: MediaMetadata {
            creator: creator.map(|s| s.to_string()),
            album: album.map(|s| s.to_string()),
            title: title.map(|s| s.to_string()),
            genre: genre.map(|s| s.to_string()),
            track_num: None,
            duration_ms: None,
            image_uri: None,
            identifier: None,
            annotation: None,
        },
    }
}

#[test]
fn test_build_genre_tree_two_files_one_untagged() {
    // One fully tagged file and one with no tags at all: the tagged one is
    // filed under its own categories, the untagged one under the
    // placeholders, with its file name as track label.  "Rock" sorts before
    // "Unknown".
    let files = vec![
        media_file("/lib/x.mp3", Some("Rock"), Some("Alice"), Some("Hits"), Some("Song1")),
        media_file("/lib/y.mp3", None, None, None, None),
    ];
    let forest = build_genre_tag_tree(&files);
    assert_eq!(forest.len(), 2);

    let rock = &forest[0];
    assert_eq!(rock.label, "Rock");
    assert_eq!(rock.children.len(), 1);
    assert_eq!(rock.children[0].label, "Alice");
    assert_eq!(rock.children[0].children.len(), 1);
    assert_eq!(rock.children[0].children[0].label, "Hits");
    let track = &rock.children[0].children[0].children[0];
    assert_eq!(track.label, "Song1");
    assert_eq!(track.file_paths, vec!["/lib/x.mp3".to_string()]);
    assert!(track.children.is_empty());

    let unknown = &forest[1];
    assert_eq!(unknown.label, "Unknown");
    assert_eq!(unknown.children[0].label, "Unknown");
    assert_eq!(unknown.children[0].children[0].label, "Unknown");
    let track = &unknown.children[0].children[0].children[0];
    assert_eq!(track.label, "y.mp3");
    assert_eq!(track.file_paths, vec!["/lib/y.mp3".to_string()]);
}

#[test]
fn test_build_genre_tree_is_deterministic() {
    // Two builds over the same records give identical forests, with sibling
    // labels ascending at every level whatever the arrival order.
    let files = vec![
        media_file("/m/c.mp3", Some("Jazz"), Some("Carol"), Some("Blue"), Some("Three")),
        media_file("/m/a.mp3", Some("Ambient"), Some("Alice"), Some("Air"), Some("One")),
        media_file("/m/b.mp3", Some("Jazz"), Some("Bob"), Some("Brass"), Some("Two")),
    ];
    let first = build_genre_tag_tree(&files);
    let second = build_genre_tag_tree(&files);
    assert_eq!(first, second);
    let labels: Vec<_> = first.iter().map(|n| n.label.clone()).collect();
    assert_eq!(labels, vec!["Ambient".to_string(), "Jazz".to_string()]);
    let jazz = &first[1];
    let creators: Vec<_> = jazz.children.iter().map(|n| n.label.clone()).collect();
    assert_eq!(creators, vec!["Bob".to_string(), "Carol".to_string()]);
}

#[test]
fn test_build_genre_tree_merges_same_labels() {
    // Two files of one album end up under a single genre, creator and album
    // node, as two track leaves sorted by title.
    let files = vec![
        media_file("/m/2.mp3", Some("Rock"), Some("Alice"), Some("Hits"), Some("Zeta")),
        media_file("/m/1.mp3", Some("Rock"), Some("Alice"), Some("Hits"), Some("Alpha")),
    ];
    let forest = build_genre_tag_tree(&files);
    assert_eq!(forest.len(), 1);
    let album = &forest[0].children[0].children[0];
    assert_eq!(album.label, "Hits");
    assert_eq!(album.children.len(), 2);
    assert_eq!(album.children[0].label, "Alpha");
    assert_eq!(album.children[1].label, "Zeta");
}

#[test]
fn test_build_genre_tree_duplicate_titles_stay_separate() {
    // Two different files with the same title in the same album stay two
    // sibling track nodes, each with its own single path, in arrival order.
    let files = vec![
        media_file("/m/first.mp3", Some("Rock"), Some("Alice"), Some("Hits"), Some("Song")),
        media_file("/m/second.mp3", Some("Rock"), Some("Alice"), Some("Hits"), Some("Song")),
    ];
    let forest = build_genre_tag_tree(&files);
    let album = &forest[0].children[0].children[0];
    assert_eq!(album.children.len(), 2);
    assert_eq!(album.children[0].label, "Song");
    assert_eq!(album.children[0].file_paths, vec!["/m/first.mp3".to_string()]);
    assert_eq!(album.children[1].label, "Song");
    assert_eq!(album.children[1].file_paths, vec!["/m/second.mp3".to_string()]);
}

#[test]
fn test_build_creator_tree_shape() {
    // The creator-first hierarchy has no genre level.
    let files = vec![
        media_file("/m/x.mp3", Some("Rock"), Some("Alice"), Some("Hits"), Some("Song1")),
        media_file("/m/y.mp3", None, None, None, None),
    ];
    let forest = build_creator_tag_tree(&files);
    assert_eq!(forest.len(), 2);
    assert_eq!(forest[0].label, "Alice");
    assert_eq!(forest[0].children[0].label, "Hits");
    assert_eq!(forest[0].children[0].children[0].label, "Song1");
    assert_eq!(forest[1].label, "Unknown");
    assert_eq!(forest[1].children[0].label, "Unknown");
    assert_eq!(forest[1].children[0].children[0].label, "y.mp3");
}

#[test]
fn test_build_empty_input_gives_empty_forest() {
    let forest = build_genre_tag_tree(&vec![]);
    assert!(forest.is_empty());
    let forest = build_creator_tag_tree(&vec![]);
    assert!(forest.is_empty());
}
