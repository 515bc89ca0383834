use sd_core::organize::lifecycle::prepare_change_scan;
use sd_core::organize::error::OrganizeError;
use sd_core::organize::model::{OrganizeItemKind, OrganizeOperationState};
use sd_core::organize::snapshot::{
    child_relative_path, classify, materialize_snapshot_drafts, metadata_signature, modified_at_100ns,
    normalize_relative_key, scan_size, snapshot_totals, unsupported_snapshot, SnapshotScanItem, SnapshotTotals,
};

fn scanned(uuid: u128, parent: Option<usize>, path: &str, kind: OrganizeItemKind, size: i64) -> SnapshotScanItem {
    SnapshotScanItem {
        uuid,
        parent_index: parent,
        relative_path: path.to_string(),
        relative_path_key: normalize_relative_key(path),
        name: path.rsplit('\\').next().unwrap_or(path).to_string(),
        extension: None,
        kind,
        size_bytes: size,
        modified_at_100ns: 7,
        metadata_signature: metadata_signature(size.max(0) as u64, 7, false),
    }
}

#[test]
fn relative_keys_use_backslashes_trimmed_and_lowercased() {
    assert_eq!(normalize_relative_key("/Photos/2024/"), "photos\\2024");
    assert_eq!(normalize_relative_key("\\\\A\\B\\\\"), "a\\b");
    assert_eq!(normalize_relative_key(""), "");
    assert_eq!(normalize_relative_key("///"), "");
    assert_eq!(normalize_relative_key("Mixed/Case.TXT"), "mixed\\case.txt");
}

#[test]
fn metadata_signature_joins_length_time_and_readonly_flag() {
    assert_eq!(metadata_signature(10, -5, true), "10:-5:1");
    assert_eq!(metadata_signature(0, 0, false), "0:0:0");
    assert_eq!(metadata_signature(u64::MAX, i64::MIN, false), "18446744073709551615:-9223372036854775808:0");
    assert_eq!(metadata_signature(1234, 9876543210, true), "1234:9876543210:1");
}

#[test]
fn modification_time_counts_hundred_nanosecond_ticks() {
    assert_eq!(modified_at_100ns(0, 0), 0);
    assert_eq!(modified_at_100ns(1, 0), 10_000_000);
    assert_eq!(modified_at_100ns(2, 999), 20_000_009);
    assert_eq!(modified_at_100ns(1_700_000_000, 123_456_789), 17_000_000_001_234_567);
}

#[test]
fn child_paths_join_with_backslash_below_the_root() {
    assert_eq!(child_relative_path("", "a.txt"), "a.txt");
    assert_eq!(child_relative_path("dir", "a.txt"), "dir\\a.txt");
    assert_eq!(child_relative_path("dir\\sub", "b"), "dir\\sub\\b");
}

#[test]
fn classification_prefers_reparse_points_then_directories() {
    assert_eq!(classify(true, true), OrganizeItemKind::ReparsePoint);
    assert_eq!(classify(false, true), OrganizeItemKind::Directory);
    assert_eq!(classify(false, false), OrganizeItemKind::File);
    assert_eq!(scan_size(OrganizeItemKind::Directory, 99), 0);
    assert_eq!(scan_size(OrganizeItemKind::ReparsePoint, 99), 0);
    assert_eq!(scan_size(OrganizeItemKind::File, 99), 99);
}

#[test]
fn totals_count_units_that_are_not_directories_and_clamp_negative_sizes() {
    let items = vec![
        scanned(1, None, "", OrganizeItemKind::Directory, 0),
        scanned(2, Some(0), "a", OrganizeItemKind::File, 100),
        scanned(3, Some(0), "b", OrganizeItemKind::Unreadable, -4),
        scanned(4, Some(0), "c", OrganizeItemKind::ReparsePoint, 0),
        scanned(5, Some(0), "d", OrganizeItemKind::Directory, 0),
        scanned(6, Some(4), "d\\e", OrganizeItemKind::File, 23),
    ];
    assert_eq!(
        snapshot_totals(&items),
        SnapshotTotals { total_entries: 6, total_units: 4, total_bytes: 123, scan_issue_count: 0 }
    );
    assert_eq!(
        snapshot_totals(&Vec::new()),
        SnapshotTotals { total_entries: 0, total_units: 0, total_bytes: 0, scan_issue_count: 0 }
    );
}

#[test]
fn drafts_take_assigned_row_ids_and_parent_rows() {
    let items = vec![
        scanned(1, None, "", OrganizeItemKind::Directory, 0),
        scanned(2, Some(0), "A", OrganizeItemKind::File, 100),
        scanned(3, Some(0), "sub", OrganizeItemKind::Directory, 0),
        scanned(4, Some(2), "sub\\B", OrganizeItemKind::File, 5),
    ];
    let drafts = materialize_snapshot_drafts(77, &items, &vec![10, 11, 12, 13], 1000).unwrap();
    assert_eq!(drafts.len(), 4);
    assert_eq!(drafts[0].id, Some(10));
    assert_eq!(drafts[0].parent_id, None);
    assert_eq!(drafts[3].id, Some(13));
    assert_eq!(drafts[3].parent_id, Some(12));
    assert_eq!(drafts[3].relative_path_key, "sub\\b");
    assert_eq!(drafts[3].task_id, 77);
    assert_eq!(drafts[3].tree_start, Some(3));
    assert_eq!(drafts[3].tree_end, Some(4));
    assert_eq!(drafts[3].unit_count, Some(1));
    assert_eq!(drafts[3].aggregate_size_bytes, 5);
    assert_eq!(drafts[3].membership_state, "included");
    assert_eq!(drafts[3].external_state, "present");
    assert_eq!(drafts[3].operation_state, OrganizeOperationState::NoOperation);
    assert!(drafts[3].decision_kind.is_none());
    assert_eq!(drafts[3].created_at, 1000);
    assert_eq!(drafts[3].updated_at, 1000);
}

#[test]
fn drafts_reject_mismatched_ids_and_parents_out_of_bounds() {
    let items = vec![scanned(1, None, "", OrganizeItemKind::Directory, 0), scanned(2, Some(5), "x", OrganizeItemKind::File, 1)];
    match materialize_snapshot_drafts(1, &items, &vec![1], 0) {
        Err(OrganizeError::InvalidTree(m)) => assert_eq!(m, "snapshot row id count does not match items"),
        other => panic!("unexpected {other:?}"),
    }
    match materialize_snapshot_drafts(1, &items, &vec![1, 2], 0) {
        Err(OrganizeError::InvalidTree(m)) => assert_eq!(m, "snapshot parent index is out of bounds"),
        other => panic!("unexpected {other:?}"),
    }
}

#[test]
fn snapshots_are_unsupported_where_the_platform_has_none() {
    assert!(matches!(unsupported_snapshot(), Err(OrganizeError::UnsupportedPlatform)));
}

#[test]
fn entries_are_walked_by_key_with_ties_in_listed_order() {
    use_entry_order();
}

fn use_entry_order() {
    let names: Vec<String> = vec!["b".into(), "A".into(), "a".into(), "C/".into()];
    assert_eq!(sd_core::organize::snapshot::entry_order(&names), vec![1, 2, 0, 3]);
    assert!(sd_core::organize::snapshot::entry_order(&Vec::new()).is_empty());
}

fn addition(task_id: u128, uuid: u128) -> sd_core::organize::snapshot::SnapshotItemDraft {
    let items = vec![scanned(uuid, None, "new", OrganizeItemKind::File, 3)];
    let mut drafts = materialize_snapshot_drafts(task_id, &items, &vec![40], 9).unwrap();
    drafts.pop().unwrap()
}

#[test]
fn change_scans_store_additions_pending_and_refuse_foreign_or_applied_ones() {
    let mut decided = addition(5, 2);
    decided.decision_kind = Some(sd_core::organize::model::DecisionValue::Keep);
    decided.tree_start = Some(3);
    let (stored, next) = prepare_change_scan("active", 8, 5, &vec![addition(5, 1), decided]).unwrap();
    assert_eq!(next, 9);
    assert_eq!(stored.len(), 2);
    assert_eq!(stored[1].uuid, 2);
    assert_eq!(stored[1].membership_state, "pending_addition");
    assert_eq!(stored[1].external_state, "present");
    assert!(stored[1].decision_kind.is_none());
    assert!(stored[1].tree_start.is_none() && stored[1].tree_end.is_none() && stored[1].unit_count.is_none());
    assert_eq!(stored[1].operation_state, OrganizeOperationState::NoOperation);
    assert_eq!(stored[1].relative_path, "new");
    match prepare_change_scan("active", 8, 5, &vec![addition(5, 1), addition(6, 3)]) {
        Err(OrganizeError::InvalidTaskState(m)) => assert_eq!(m, "change-scan addition belongs to another task"),
        other => panic!("unexpected {other:?}"),
    }
    let mut applied = addition(5, 4);
    applied.operation_state = OrganizeOperationState::Applied;
    assert!(matches!(prepare_change_scan("active", 8, 5, &vec![applied]), Err(OrganizeError::AppliedDecisionImmutable(4))));
    assert!(matches!(prepare_change_scan("completed", 8, 5, &Vec::new()), Err(OrganizeError::InvalidTaskState(m)) if m == "completed"));
}
