use flp_vault::store::{StoreModel, GroupConfirmation, Settings};
use flp_vault::parser::{FlpMetadata, ChannelInfo};
use flp_vault::scan::{run_scan, scan_step, FileObs, ScanEvent, ScanStatus};

fn empty_meta() -> FlpMetadata {
    FlpMetadata {
        bpm_millis: None,
        time_sig_num: None,
        time_sig_den: None,
        channel_count: 0,
        pattern_count: 0,
        mixer_track_count: 0,
        generators: Vec::new(),
        effects: Vec::new(),
        fl_version: None,
        warnings: Vec::new(),
    }
}

fn flp_bytes(bpm_millis: u32) -> Vec<u8> {
    let mut v = Vec::new();
    v.extend_from_slice(b"FLhd");
    v.extend_from_slice(&6u32.to_le_bytes());
    v.extend_from_slice(&0u16.to_le_bytes());
    v.extend_from_slice(&1u16.to_le_bytes());
    v.extend_from_slice(&96u16.to_le_bytes());
    v.extend_from_slice(b"FLdt");
    v.extend_from_slice(&5u32.to_le_bytes());
    v.push(156);
    v.extend_from_slice(&bpm_millis.to_le_bytes());
    v
}

fn obs(path: &str, mtime: i64, bytes: Vec<u8>) -> FileObs {
    FileObs {
        path: path.to_string(),
        stat: Some((bytes.len() as i64, mtime)),
        data: Ok(bytes),
    }
}

#[test]
fn test_confirm_and_list_groups() {
    let mut db = StoreModel::new();
    db.upsert_file("abc123", "/test.flp", 1000, 1_700_000_000, &empty_meta(), 1_700_000_000);
    let groups = vec![GroupConfirmation {
        canonical_name: "Test Song".to_string(),
        file_hashes: vec!["abc123".to_string()],
        ignored_hashes: vec![],
    }];
    db.confirm_groups(&groups, 1_700_000_000).unwrap();
    let confirmed = db.list_confirmed_groups();
    assert_eq!(confirmed.len(), 1);
    assert_eq!(confirmed[0].canonical_name, "Test Song");
    assert_eq!(confirmed[0].file_hashes.len(), 1);
    assert_eq!(confirmed[0].group_id.len(), 36);
}

#[test]
fn test_has_confirmed_groups() {
    let db = StoreModel::new();
    assert!(!db.has_confirmed_groups());
}

#[test]
fn test_clear_all_groups() {
    let mut db = StoreModel::new();
    db.upsert_file("abc123", "/test.flp", 1000, 1_700_000_000, &empty_meta(), 1_700_000_000);
    let groups = vec![GroupConfirmation {
        canonical_name: "Test".to_string(),
        file_hashes: vec!["abc123".to_string()],
        ignored_hashes: vec![],
    }];
    db.confirm_groups(&groups, 1_700_000_000).unwrap();
    assert!(db.has_confirmed_groups());
    db.clear_all_groups().unwrap();
    assert!(!db.has_confirmed_groups());
}

#[test]
fn test_confirm_unknown_hash_fails_and_rolls_back() {
    let mut db = StoreModel::new();
    let groups = vec![GroupConfirmation {
        canonical_name: "Ghost".to_string(),
        file_hashes: vec!["nothere".to_string()],
        ignored_hashes: vec![],
    }];
    assert!(db.confirm_groups(&groups, 0).is_err());
    assert!(!db.has_confirmed_groups());
}

#[test]
fn test_confirm_with_ignored_hash_splits_lists() {
    let mut db = StoreModel::new();
    db.upsert_file("h1", "/a.flp", 10, 0, &empty_meta(), 0);
    db.upsert_file("h2", "/b.flp", 10, 0, &empty_meta(), 0);
    let groups = vec![GroupConfirmation {
        canonical_name: "X".to_string(),
        file_hashes: vec!["h1".to_string(), "h2".to_string()],
        ignored_hashes: vec!["h2".to_string()],
    }];
    db.confirm_groups(&groups, 7).unwrap();
    let listed = db.list_confirmed_groups();
    assert_eq!(listed.len(), 1);
    assert_eq!(listed[0].file_hashes, vec!["h1".to_string()]);
    assert_eq!(listed[0].ignored_hashes, vec!["h2".to_string()]);
}

#[test]
fn test_check_wf_accepts_built_store_and_rejects_broken_rows() {
    let mut db = StoreModel::new();
    assert!(db.check_wf());
    db.upsert_file("h1", "/a.flp", 10, 0, &empty_meta(), 0);
    assert!(db.check_wf());
    // a path-index row pointing at an unknown hash breaks the invariants
    db.path_index.push(flp_vault::store::PathRow {
        path: "/stray.flp".to_string(),
        hash: "nosuchhash".to_string(),
        file_size: 1,
        mtime: 2,
    });
    assert!(!db.check_wf());
}

#[test]
fn test_set_and_get_setting() {
    let mut db = StoreModel::new();
    db.set_setting("test_key", "test_value");
    let result = db.get_setting("test_key");
    assert_eq!(result, Some("test_value".to_string()));
}

#[test]
fn test_settings_defaults() {
    let db = StoreModel::new();
    let settings = db.get_all_settings();
    assert!(!settings.source_folder.is_empty(), "source_folder default should be non-empty");
    assert!(!settings.organized_folder.is_empty(),
        "organized_folder default should be non-empty");
    assert!(!settings.originals_folder.is_empty(),
        "originals_folder default should be non-empty");
}

#[test]
fn test_save_settings_warns_on_same_paths() {
    let mut db = StoreModel::new();
    let s = Settings {
        source_folder: "/music".to_string(),
        organized_folder: "/music".to_string(),
        originals_folder: "/music/orig".to_string(),
    };
    let v = db.save_settings(&s, true, true, true);
    assert_eq!(v.warnings,
        vec!["Source folder and Organized folder are the same path.".to_string()]);
    assert_eq!(db.get_setting("source_folder"), Some("/music".to_string()));
}

#[test]
fn test_save_settings_warns_on_missing_folder() {
    let mut db = StoreModel::new();
    let s = Settings {
        source_folder: "/gone".to_string(),
        organized_folder: "/ok".to_string(),
        originals_folder: "/ok2".to_string(),
    };
    let v = db.save_settings(&s, false, true, true);
    assert_eq!(v.warnings, vec!["Source folder does not exist: /gone".to_string()]);
}

#[test]
fn test_scan_persists_parsed_files() {
    let mut db = StoreModel::new();
    let observations = vec![
        obs("/lib/a.flp", 100, flp_bytes(128_000)),
        obs("/lib/b.flp", 200, flp_bytes(90_000)),
    ];
    let events = run_scan(&mut db, &observations, None, 42);
    assert_eq!(events.len(), 4);
    assert!(matches!(events[0], ScanEvent::Started { total: 2 }));
    assert!(matches!(events[3], ScanEvent::Complete { total: 2 }));
    let files = db.list_all_files();
    assert_eq!(files.len(), 2);
    assert_eq!(files[0].path, "/lib/a.flp");
    assert_eq!(files[0].bpm_millis, Some(128_000));
    assert_eq!(files[0].hash.len(), 16);
}

#[test]
fn test_scan_identical_content_two_paths() {
    // byte-identical content at two paths: one files row, two index rows
    let mut db = StoreModel::new();
    let observations = vec![
        obs("/lib/a.flp", 100, flp_bytes(128_000)),
        obs("/lib/copy of a.flp", 300, flp_bytes(128_000)),
    ];
    run_scan(&mut db, &observations, None, 42);
    assert_eq!(db.files.len(), 1);
    assert_eq!(db.path_index.len(), 2);
    assert_eq!(db.path_index[0].hash, db.path_index[1].hash);
}

#[test]
fn test_scan_rerun_unchanged_tree_is_idempotent() {
    let mut db = StoreModel::new();
    let observations = vec![
        obs("/lib/a.flp", 100, flp_bytes(128_000)),
        obs("/lib/b.flp", 200, flp_bytes(90_000)),
    ];
    run_scan(&mut db, &observations, None, 42);
    let files_before = db.files.len();
    let parsed_at_before = db.files[0].parsed_at;
    let events = run_scan(&mut db, &observations, None, 43);
    assert_eq!(db.files.len(), files_before);
    assert_eq!(db.files[0].parsed_at, parsed_at_before, "no files row was rewritten");
    for e in events.iter() {
        if let ScanEvent::Progress { warnings, .. } = e {
            assert!(warnings.is_empty());
        }
    }
}

#[test]
fn test_scan_cancellation_stops_after_done_files() {
    let mut db = StoreModel::new();
    let observations = vec![
        obs("/lib/a.flp", 100, flp_bytes(128_000)),
        obs("/lib/b.flp", 200, flp_bytes(90_000)),
        obs("/lib/c.flp", 300, flp_bytes(91_000)),
    ];
    let events = run_scan(&mut db, &observations, Some(1), 42);
    assert_eq!(events.len(), 3);
    assert!(matches!(events[0], ScanEvent::Started { total: 3 }));
    assert!(matches!(events[1], ScanEvent::Progress { done: 1, .. }));
    assert!(matches!(events[2], ScanEvent::Cancelled { done: 1 }));
    assert!(!events.iter().any(|e| matches!(e, ScanEvent::Complete { .. })));
    // the file processed before the cancellation stays persisted
    assert_eq!(db.files.len(), 1);
    assert_eq!(db.files[0].path, "/lib/a.flp");
}

#[test]
fn test_scan_step_reports_read_failure() {
    let mut db = StoreModel::new();
    let o = FileObs {
        path: "/lib/bad.flp".to_string(),
        stat: Some((10, 0)),
        data: Err("permission denied".to_string()),
    };
    let warnings = scan_step(&mut db, &o, 0);
    assert_eq!(warnings, vec!["Failed to read file: permission denied".to_string()]);
    assert_eq!(db.files.len(), 0);
}

#[test]
fn test_scan_step_persists_parse_failure() {
    let mut db = StoreModel::new();
    let o = obs("/lib/not-an-flp.flp", 0, b"JUNKJUNKJUNKJUNK".to_vec());
    let warnings = scan_step(&mut db, &o, 0);
    assert_eq!(warnings, vec!["Parse error: InvalidMagic".to_string()]);
    assert_eq!(db.files.len(), 1, "a failed parse still persists the record");
    let files = db.list_all_files();
    assert_eq!(files[0].bpm_millis, None);
}

#[test]
fn test_scan_status_starts_idle() {
    let st = ScanStatus::new();
    assert_eq!(st.total, 0);
    assert_eq!(st.done, 0);
    assert!(!st.running);
}

#[test]
fn test_upserted_plugins_json_is_exact() {
    let mut db = StoreModel::new();
    let meta = FlpMetadata {
        generators: vec![
            ChannelInfo {
                name: "Kick".to_string(),
                plugin_name: None,
                channel_type: 0,
            },
            ChannelInfo {
                name: "Lead".to_string(),
                plugin_name: Some("Sytrus".to_string()),
                channel_type: 2,
            },
        ],
        ..empty_meta()
    };
    db.upsert_file("h", "/x.flp", 1, 2, &meta, 3);
    let files = db.list_all_files();
    assert_eq!(files[0].plugins_json.as_deref(), Some("[\"Kick\",\"Sytrus\"]"));
}

#[test]
fn test_listed_hashes_come_back_ascending() {
    let mut db = StoreModel::new();
    db.upsert_file("zz", "/z.flp", 10, 0, &empty_meta(), 0);
    db.upsert_file("aa", "/a.flp", 10, 0, &empty_meta(), 0);
    db.upsert_file("mm", "/m.flp", 10, 0, &empty_meta(), 0);
    let groups = vec![GroupConfirmation {
        canonical_name: "X".to_string(),
        file_hashes: vec!["zz".to_string(), "aa".to_string(), "mm".to_string()],
        ignored_hashes: vec!["zz".to_string(), "mm".to_string()],
    }];
    db.confirm_groups(&groups, 5).unwrap();
    let listed = db.list_confirmed_groups();
    assert_eq!(listed.len(), 1);
    assert_eq!(listed[0].file_hashes, vec!["aa".to_string()]);
    assert_eq!(
        listed[0].ignored_hashes,
        vec!["mm".to_string(), "zz".to_string()]
    );
}
