use playlist_ui::media_metadata::{MediaFile, MediaMetadata, TagTreeNode, build_genre_tag_tree};
use playlist_ui::tag_codec::{decode_tag_forest, encode_tag_forest};

fn track(label: &str, path: &str) -> TagTreeNode {
    TagTreeNode {
        label: label.to_string(),
        children: vec![],
        file_paths: vec![path.to_string()],
        is_expanded: false,
    }
}

#[test]
fn test_codec_round_trip_empty_forest() {
    let forest: Vec<TagTreeNode> = vec![];
    let bytes = encode_tag_forest(&forest);
    assert_eq!(decode_tag_forest(&bytes), Some(vec![]));
}

#[test]
fn test_codec_round_trip_single_level() {
    let forest = vec![track("One", "/m/one.mp3"), track("Two", "/m/two.mp3")];
    let bytes = encode_tag_forest(&forest);
    let decoded = decode_tag_forest(&bytes).unwrap();
    assert_eq!(decoded, forest);
}

#[test]
fn test_codec_round_trip_four_levels() {
    // A genre -> creator -> album -> track forest with several siblings at
    // each level comes back exactly.
    let mut files = Vec::new();
    for genre in ["Ambient", "Jazz", "Rock"] {
        for creator in ["Alice", "Bob"] {
            for album in ["First", "Second"] {
                for title in ["A", "B", "C"] {
                    files.push(MediaFile {
                        path: format!("/m/{genre}-{creator}-{album}-{title}.mp3"),
                        metadata: MediaMetadata {
                            creator: Some(creator.to_string()),
                            album: Some(album.to_string()),
                            title: Some(title.to_string()),
                            genre: Some(genre.to_string()),
                            track_num: None,
                            duration_ms: None,
                            image_uri: None,
                            identifier: None,
                            annotation: None,
                        },
                    });
                }
            }
        }
    }
    let forest = build_genre_tag_tree(&files);
    assert_eq!(forest.len(), 3);
    let bytes = encode_tag_forest(&forest);
    let decoded = decode_tag_forest(&bytes).unwrap();
    assert_eq!(decoded, forest);
}

#[test]
fn test_codec_round_trip_keeps_expansion_and_unicode() {
    let forest = vec![TagTreeNode {
        label: "Füßgänger — 歩行者".to_string(),
        children: vec![track("T", "/m/ü.mp3")],
        file_paths: vec![],
        is_expanded: true,
    }];
    let bytes = encode_tag_forest(&forest);
    let decoded = decode_tag_forest(&bytes).unwrap();
    assert_eq!(decoded, forest);
}

#[test]
fn test_decode_garbage_is_none() {
    assert_eq!(decode_tag_forest(&vec![]), None);
    assert_eq!(decode_tag_forest(&vec![0xFF]), None);
    assert_eq!(decode_tag_forest(&vec![0x07, 0x03, 0x21]), None);
    assert_eq!(decode_tag_forest(&"corrupted data".as_bytes().to_vec()), None);
}

#[test]
fn test_decode_trailing_bytes_is_none() {
    let forest = vec![track("One", "/m/one.mp3")];
    let mut bytes = encode_tag_forest(&forest);
    bytes.push(0);
    assert_eq!(decode_tag_forest(&bytes), None);
}

#[test]
fn test_decode_truncated_is_none() {
    let forest = vec![track("One", "/m/one.mp3")];
    let mut bytes = encode_tag_forest(&forest);
    bytes.pop();
    assert_eq!(decode_tag_forest(&bytes), None);
}

#[test]
fn test_decode_bad_flag_byte_is_none() {
    // A node whose expansion byte is neither zero nor one is refused:
    // count 1, empty label, flag 7.
    let bytes = vec![1u8, 0u8, 7u8, 0u8, 0u8];
    assert_eq!(decode_tag_forest(&bytes), None);
}
