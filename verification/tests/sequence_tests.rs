use icu_tool::sequence::{sequence_digits, sequence_key};

#[test]
fn sequence_key_uses_rightmost_numeric_token_and_stable_suffix() {
    let (key, number) = sequence_key("/tmp/walk_0001_diffuse.png", 8, 4).unwrap();
    assert_eq!(number, 1);
    assert_eq!(key.1, "walk_");
    assert_eq!(key.2, "_diffuse");
    assert_eq!(key.3, "png");
    assert_eq!(key.4, 8);
    assert_eq!(key.5, 4);
    assert!(sequence_key("/tmp/2024.png", 8, 4).is_some());
    assert!(sequence_key("/tmp/2024", 8, 4).is_none());
}

#[test]
fn sequence_key_keeps_directory_and_lowercases_extension() {
    let (key, number) = sequence_key("/a/b/Frame12.PNG", 3, 5).unwrap();
    assert_eq!(key.0, "/a/b");
    assert_eq!(key.1, "Frame");
    assert_eq!(key.2, "");
    assert_eq!(key.3, "png");
    assert_eq!(number, 12);
}

#[test]
fn sequence_digits_counts_padding() {
    assert_eq!(sequence_digits("/x/walk_0007.png"), Some((7, 4)));
    assert_eq!(sequence_digits("/x/walk.png"), None);
}

#[test]
fn paths_with_a_wide_character_before_the_number_cannot_be_sliced() {
    assert!(icu_tool::sequence::path_sliceable("frames/a_001.png"));
    assert!(icu_tool::sequence::path_sliceable("frames/é_001.png"));
    assert!(icu_tool::sequence::path_sliceable("noext"));
    assert!(!icu_tool::sequence::path_sliceable("frames/é001.png"));
}
