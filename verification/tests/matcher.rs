use flp_vault::matcher::propose_groups;
use flp_vault::store::FileRecord;

fn make_record(hash: &str, path: &str, bpm_millis: Option<u32>, mtime: i64) -> FileRecord {
    FileRecord {
        hash: hash.to_string(),
        path: path.to_string(),
        file_size: 1000,
        mtime,
        bpm_millis,
        channel_count: Some(8),
        plugins_json: None,
        fl_version: None,
    }
}

#[test]
fn test_groups_similar_filenames() {
    let files = vec![
        make_record("a", "Acid Bass Line.flp", Some(128_000), 1_700_000_000),
        make_record("b", "Acid Bass Line 2.flp", Some(128_000), 1_700_086_400),
        make_record("c", "Funky Groove.flp", Some(90_000), 1_700_000_000),
    ];
    let groups = propose_groups(&files, 650);
    // two groups: one with a+b, one ungrouped with c
    assert_eq!(groups.len(), 2);
    let grouped: Vec<_> = groups.iter().filter(|g| !g.is_ungrouped).collect();
    assert_eq!(grouped.len(), 1);
    assert_eq!(grouped[0].file_hashes.len(), 2);
}

#[test]
fn test_ungrouped_files_marked() {
    let files = vec![
        make_record("a", "Completely Unique Name.flp", None, 1_700_000_000),
        make_record("b", "Another Different Song.flp", None, 1_700_000_000),
    ];
    let groups = propose_groups(&files, 650);
    assert!(groups.iter().all(|g| g.is_ungrouped));
}

#[test]
fn test_sorted_by_confidence_ascending() {
    let files = vec![
        make_record("a", "Song A.flp", Some(128_000), 1_700_000_000),
        make_record("b", "Song A 2.flp", Some(128_000), 1_700_086_400),
        make_record("c", "Beat X.flp", Some(90_000), 1_700_000_000),
        make_record("d", "Beat X 2.flp", Some(90_000), 1_700_000_000),
    ];
    let groups = propose_groups(&files, 650);
    for i in 1..groups.len() {
        assert!(groups[i].confidence_millis >= groups[i - 1].confidence_millis);
    }
}

#[test]
fn test_empty_input() {
    let groups = propose_groups(&[], 650);
    assert!(groups.is_empty());
}

#[test]
fn test_singleton_confidence_zero_and_sorted_first() {
    let files = vec![
        make_record("a", "Acid Bass Line.flp", Some(128_000), 1_700_000_000),
        make_record("b", "Acid Bass Line 2.flp", Some(128_000), 1_700_086_400),
        make_record("c", "Funky Groove.flp", Some(90_000), 1_700_000_000),
    ];
    let groups = propose_groups(&files, 650);
    assert_eq!(groups.len(), 2);
    assert!(groups[0].is_ungrouped);
    assert_eq!(groups[0].confidence_millis, 0);
    assert!(groups[1].confidence_millis >= 650);
}

#[test]
fn test_transitive_grouping() {
    // a~b and b~c cross the threshold, so a, b and c share one group
    let files = vec![
        make_record("a", "Trap Beat.flp", Some(140_000), 1_700_000_000),
        make_record("b", "Trap Beat 2.flp", Some(140_000), 1_700_000_000),
        make_record("c", "Trap Beat 22.flp", Some(140_000), 1_700_000_000),
    ];
    let groups = propose_groups(&files, 650);
    assert_eq!(groups.len(), 1);
    assert_eq!(groups[0].file_hashes.len(), 3);
}

#[test]
fn test_group_ids_look_fresh() {
    let files = vec![make_record("a", "One.flp", None, 0)];
    let groups = propose_groups(&files, 650);
    assert_eq!(groups.len(), 1);
    assert_eq!(groups[0].id.len(), 36);
}

#[test]
fn test_canonical_name_most_common() {
    let files = vec![
        make_record("a", "Acid Bass Line.flp", Some(128_000), 1_700_000_000),
        make_record("b", "Acid Bass Line 2.flp", Some(128_000), 1_700_000_100),
        make_record("c", "Acid Bass Line 3.flp", Some(128_000), 1_700_000_200),
    ];
    let groups = propose_groups(&files, 650);
    assert_eq!(groups.len(), 1);
    assert_eq!(groups[0].canonical_name, "acid bass line");
}
