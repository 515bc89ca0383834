use sd_core::addressing::SdPath;
use sd_core::organize::create::{root_availability, OrganizeCreateRejection, OrganizeRootAvailability};
use sd_core::organize::path::path_identity;
use sd_core::organize::cursor::{decode_opaque, encode_opaque};
use sd_core::organize::error::OrganizeError;
use sd_core::organize::lifecycle::{
    decide_delete, decide_reopen, reopen_outcome, OrganizeLifecycleOutcome, OrganizeReopenOutcome,
};
use sd_core::organize::model::OrganizeItemKind;
use sd_core::organize::plan::OrganizeTaskItemRecord;
use sd_core::organize::preflight::{
    entry_check, parse_kind, relative_to_root, reviewed_subtree, subtree_verdict, PreflightReport, PreflightRootResult,
    PreflightStep,
};

fn stored(id: i32, key: &str, start: Option<i64>, end: Option<i64>, membership: &str) -> OrganizeTaskItemRecord {
    OrganizeTaskItemRecord {
        id,
        uuid: id as u128,
        parent_id: None,
        relative_path: key.to_string(),
        relative_path_key: key.to_string(),
        kind: "file".into(),
        size_bytes: 0,
        tree_start: start,
        tree_end: end,
        unit_count: None,
        aggregate_size_bytes: 0,
        membership_state: membership.into(),
        external_state: "present".into(),
        decision_kind: None,
        move_destination: None,
        operation_state: "none".into(),
    }
}

fn pairs(entries: &[(&str, &str)]) -> Vec<(String, String)> {
    entries.iter().map(|(k, s)| (k.to_string(), s.to_string())).collect()
}

fn failed_reason(step: PreflightStep) -> String {
    match step {
        PreflightStep::Failed(reason) => reason,
        other => panic!("expected a failure, got {other:?}"),
    }
}

#[test]
fn stored_kinds_parse_with_directories_as_the_default() {
    assert_eq!(parse_kind("file"), OrganizeItemKind::File);
    assert_eq!(parse_kind("reparse_point"), OrganizeItemKind::ReparsePoint);
    assert_eq!(parse_kind("unreadable"), OrganizeItemKind::Unreadable);
    assert_eq!(parse_kind("directory"), OrganizeItemKind::Directory);
    assert_eq!(parse_kind("something else"), OrganizeItemKind::Directory);
}

#[test]
fn keys_are_made_relative_to_the_root_key() {
    assert_eq!(relative_to_root("", "photos\\a.jpg"), "photos\\a.jpg");
    assert_eq!(relative_to_root("photos", "photos\\a.jpg"), "a.jpg");
    assert_eq!(relative_to_root("photos", "photosx\\a.jpg"), "photosx\\a.jpg");
    assert_eq!(relative_to_root("photos", "photos"), "photos");
    assert_eq!(relative_to_root("photos", "other\\b"), "other\\b");
}

#[test]
fn entry_check_fails_on_kind_and_file_signature_changes() {
    let changed = entry_check(OrganizeItemKind::File, OrganizeItemKind::Directory, true, true);
    assert_eq!(failed_reason(changed), "source kind changed");
    let touched = entry_check(OrganizeItemKind::File, OrganizeItemKind::File, false, false);
    assert_eq!(failed_reason(touched), "source metadata changed");
    assert!(matches!(entry_check(OrganizeItemKind::File, OrganizeItemKind::File, false, true), PreflightStep::Passed));
    assert!(matches!(
        entry_check(OrganizeItemKind::Directory, OrganizeItemKind::Directory, true, false),
        PreflightStep::ScanSubtree
    ));
}

#[test]
fn reviewed_subtree_keeps_included_rows_inside_the_root_interval() {
    let root = stored(1, "photos", Some(2), Some(6), "included");
    let items = vec![
        stored(1, "photos", Some(2), Some(6), "included"),
        stored(2, "photos\\a", Some(3), Some(4), "included"),
        stored(3, "photos\\b", Some(4), Some(5), "pending_addition"),
        stored(4, "music\\c", Some(7), Some(8), "included"),
        stored(5, "photos\\d", None, None, "included"),
    ];
    let rows = reviewed_subtree(&items, &root);
    let found: Vec<(usize, String)> = rows.into_iter().map(|r| (r.row, r.relative_key)).collect();
    assert_eq!(found, vec![(0, "photos".to_string()), (1, "a".to_string()), (4, "d".to_string())]);
}

#[test]
fn subtree_verdict_reports_missing_changed_and_unreviewed_entries() {
    let expected = pairs(&[("a", "1:1:0"), ("b", "2:2:0")]);
    assert_eq!(subtree_verdict(&expected, &pairs(&[("a", "1:1:0"), ("b", "2:2:0")]), false), None);
    assert_eq!(
        subtree_verdict(&expected, &pairs(&[("a", "1:1:0")]), false),
        Some("a descendant is missing".to_string())
    );
    assert_eq!(
        subtree_verdict(&expected, &pairs(&[("a", "1:9:0"), ("b", "2:2:0")]), false),
        Some("a descendant changed".to_string())
    );
    let extra = pairs(&[("a", "1:1:0"), ("b", "2:2:0"), ("c", "3:3:0")]);
    assert_eq!(
        subtree_verdict(&expected, &extra, false),
        Some("current subtree contains unreviewed descendants".to_string())
    );
    assert_eq!(subtree_verdict(&expected, &extra, true), None);
    // A later entry with the same key replaces an earlier one.
    assert_eq!(subtree_verdict(&expected, &pairs(&[("a", "old"), ("a", "1:1:0"), ("b", "2:2:0")]), false), None);
}

#[test]
fn report_is_ok_only_when_every_root_passed_and_lists_failures() {
    let report = PreflightReport {
        roots: vec![
            PreflightRootResult { item_id: 1, ok: true, reason: None },
            PreflightRootResult { item_id: 2, ok: false, reason: Some("source kind changed".into()) },
            PreflightRootResult { item_id: 3, ok: false, reason: Some("a descendant is missing".into()) },
        ],
    };
    assert!(!report.is_ok());
    assert_eq!(
        report.failure_message(),
        "00000000-0000-0000-0000-000000000002: source kind changed; 00000000-0000-0000-0000-000000000003: a descendant is missing"
    );
    let clean = PreflightReport { roots: vec![PreflightRootResult { item_id: 1, ok: true, reason: None }] };
    assert!(clean.is_ok());
    assert_eq!(clean.failure_message(), "");
}

#[test]
fn reopen_and_delete_check_revision_then_status() {
    assert!(matches!(decide_reopen("completed", 4, 3), Ok(OrganizeLifecycleOutcome::StaleRevision { current_revision: 4 })));
    assert!(matches!(decide_reopen("completed", 4, 4), Ok(OrganizeLifecycleOutcome::Applied { revision: 5 })));
    assert!(matches!(decide_reopen("active", 4, 4), Err(OrganizeError::InvalidTaskState(ref s)) if s == "active"));
    assert!(matches!(decide_delete("committing", 2, 1), Ok(OrganizeLifecycleOutcome::StaleRevision { current_revision: 2 })));
    assert!(matches!(
        decide_delete("committing", 2, 2),
        Err(OrganizeError::InvalidTaskState(ref s)) if s == "task is committing"
    ));
    assert!(matches!(decide_delete("active", 2, 2), Ok(OrganizeLifecycleOutcome::Applied { revision: 2 })));
    assert_eq!(
        reopen_outcome(OrganizeLifecycleOutcome::Applied { revision: 9 }),
        OrganizeReopenOutcome::Applied { revision: 9 }
    );
}

#[test]
fn cursors_use_url_safe_base64_without_padding() {
    assert_eq!(encode_opaque(b"{}"), "e30");
    assert_eq!(encode_opaque(b"abc"), "YWJj");
    assert_eq!(encode_opaque(b"hello"), "aGVsbG8");
    assert_eq!(encode_opaque(&[0xff, 0xfe]), "__4");
    assert_eq!(encode_opaque(&[0xfb, 0xef]), "--8");
    assert_eq!(decode_opaque("e30").unwrap(), b"{}".to_vec());
    assert_eq!(decode_opaque("aGVsbG8").unwrap(), b"hello".to_vec());
}

#[test]
fn cursors_round_trip_and_reject_what_is_not_one() {
    let bytes: Vec<u8> = (0u8..=255).collect();
    for len in 1..bytes.len() {
        let text = encode_opaque(&bytes[..len]);
        assert_eq!(decode_opaque(&text).unwrap(), bytes[..len].to_vec());
    }
    for bad in ["", "a", "abcde", "ab*c", "ab=c", "é"] {
        match decode_opaque(bad) {
            Err(OrganizeError::InvalidTree(message)) => assert_eq!(message, "invalid opaque cursor"),
            other => panic!("{bad:?} gave {other:?}"),
        }
    }
}

#[test]
fn root_identities_and_availability() {
    let id = path_identity("pc", r"\\?\C:\Photos\").unwrap();
    assert_eq!(id.display_path, r"C:\Photos\");
    assert_eq!(id.path_key, r"c:\photos");
    assert_eq!(id.device_slug, "pc");
    assert!(!id.is_volume_root);
    let root = path_identity("pc", r"\\?\D:\").unwrap();
    assert_eq!(root.path_key, r"d:\");
    assert!(root.is_volume_root);
    let unc = path_identity("pc", r"\\?\UNC\server\share\dir").unwrap();
    assert_eq!(unc.display_path, r"\\server\share\dir");
    assert!(matches!(path_identity("pc", "relative\\dir"), Err(OrganizeError::InvalidPhysicalPath(_))));

    let _ = SdPath::physical("pc", r"C:\Photos");
    let ok = path_identity("pc", r"C:\Photos").unwrap();
    assert!(matches!(root_availability(Ok(ok.clone()), r"C:\Photos".into(), true, None), OrganizeRootAvailability::Creatable));
    assert!(matches!(
        root_availability(Ok(ok.clone()), r"C:\Photos".into(), true, Some(5)),
        OrganizeRootAvailability::OpenExisting { task_id: 5 }
    ));
    match root_availability(Ok(ok), r"C:\Photos".into(), false, Some(5)) {
        OrganizeRootAvailability::Unavailable { reason: OrganizeCreateRejection::RootNotDirectory { path } } => {
            assert_eq!(path, r"C:\Photos")
        }
        other => panic!("unexpected {other:?}"),
    }
    assert!(matches!(
        root_availability(Err(OrganizeError::UnsupportedPlatform), "x".into(), true, None),
        OrganizeRootAvailability::Unavailable { reason: OrganizeCreateRejection::UnsupportedPlatform }
    ));
}
