use flp_vault::normalize::normalize_filename;

#[test]
fn test_basic_normalization() {
    assert_eq!(normalize_filename("Song Name.flp"), "song name");
}

#[test]
fn test_strip_version_number() {
    assert_eq!(normalize_filename("Song Name 2.flp"), "song name");
}

#[test]
fn test_strip_double_version_number() {
    // FL Studio appends a digit to an existing digit: "Song 2" -> "Song 22"
    assert_eq!(normalize_filename("Trap Beat 22.flp"), "trap beat");
}

#[test]
fn test_strip_triple_version_number() {
    assert_eq!(normalize_filename("Trap Beat 222.flp"), "trap beat");
}

#[test]
fn test_strip_underscore_version() {
    assert_eq!(normalize_filename("Song Name_3.flp"), "song name");
}

#[test]
fn test_strips_one_separator_per_round() {
    // only the single separator before the digits goes; a second one stays
    assert_eq!(normalize_filename("song__2.flp"), "song_");
}

#[test]
fn test_strip_noise_suffixes() {
    assert_eq!(normalize_filename("My Song_final.flp"), "my song");
    assert_eq!(normalize_filename("My Song_backup.flp"), "my song");
    assert_eq!(normalize_filename("My Song_old.flp"), "my song");
    assert_eq!(normalize_filename("My Song_copy.flp"), "my song");
}

#[test]
fn test_full_path_extracts_stem() {
    assert_eq!(normalize_filename("/path/to/Song Name 5.flp"), "song name");
}

#[test]
fn test_empty_after_normalization() {
    // edge case: the name is only digits
    let result = normalize_filename("123.flp");
    assert!(result.is_empty() || result.len() < 4);
}
