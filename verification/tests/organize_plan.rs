use sd_core::addressing::SdPath;
use sd_core::organize::commit::{
    blocked_plan_can_start, OrganizeCommitBlockReason, OrganizeCommitPlanOutput,
};
use sd_core::organize::error::OrganizeError;
use sd_core::organize::model::OrganizeTaskStatus;
use sd_core::organize::plan::{build_commit_plan, join_windows_path, OrganizeTaskItemRecord, OrganizeTaskRecord};

fn task() -> OrganizeTaskRecord {
    OrganizeTaskRecord {
        revision: 7,
        status: "active".into(),
        root_path: r"C:\Photos".into(),
        device_slug: "device".into(),
    }
}

#[allow(clippy::too_many_arguments)]
fn item(
    id: i32,
    path: &str,
    kind: &str,
    start: i64,
    end: i64,
    units: i64,
    bytes: i64,
    decision_kind: Option<&str>,
    move_destination: Option<&str>,
) -> OrganizeTaskItemRecord {
    OrganizeTaskItemRecord {
        id,
        uuid: 1000 + id as u128,
        parent_id: None,
        relative_path: path.into(),
        relative_path_key: path.to_lowercase(),
        kind: kind.into(),
        size_bytes: bytes,
        tree_start: Some(start),
        tree_end: Some(end),
        unit_count: Some(units),
        aggregate_size_bytes: bytes,
        membership_state: "included".into(),
        external_state: "present".into(),
        decision_kind: decision_kind.map(str::to_string),
        move_destination: move_destination.map(str::to_string),
        operation_state: if decision_kind.is_some() { "pending".into() } else { "none".into() },
    }
}

fn physical_path(p: &SdPath) -> (String, String) {
    match p {
        SdPath::Physical { device_slug, path } => (device_slug.clone(), path.clone()),
        SdPath::Content { .. } => panic!("not physical"),
    }
}

#[test]
fn compacts_nested_discard_roots_and_excludes_keep_from_physical_work() {
    let root = item(1, "", "directory", 0, 4, 2, 10, None, None);
    let discard = item(2, "discard", "directory", 1, 3, 1, 7, Some("discard"), None);
    let nested_discard = item(3, "discard\\nested.jpg", "file", 2, 3, 1, 7, Some("discard"), None);
    let keep = item(4, "keep.jpg", "file", 3, 4, 1, 3, Some("keep"), None);
    let plan = build_commit_plan(&task(), &[root, discard, nested_discard, keep]).unwrap();

    assert_eq!(plan.discard_roots.len(), 1);
    assert_eq!(physical_path(&plan.discard_roots[0].source), ("device".to_string(), r"C:\Photos\discard".to_string()));
    assert!(plan.move_groups.is_empty());
    assert_eq!(plan.keep_units, 1);
    assert!(plan.can_commit);
}

#[test]
fn groups_equivalent_move_destinations_without_scheduling_keep() {
    let root = item(1, "", "directory", 0, 3, 2, 10, None, None);
    let move_a = item(2, "a.jpg", "file", 1, 2, 1, 4, Some("move"), Some(r"C:/Archive/2026"));
    let move_b = item(3, "b.jpg", "file", 2, 3, 1, 6, Some("move"), Some(r"c:\archive\.\2026"));
    let plan = build_commit_plan(&task(), &[root, move_a, move_b]).unwrap();

    assert_eq!(plan.move_groups.len(), 1);
    assert_eq!(plan.move_groups[0].roots.len(), 2);
    assert_eq!(plan.move_groups[0].units, 2);
    assert!(plan.discard_roots.is_empty());
}

#[test]
fn plan_groups_take_the_first_destination_and_total_bytes() {
    let root = item(1, "", "directory", 0, 3, 2, 10, None, None);
    let move_a = item(2, "a.jpg", "file", 1, 2, 1, 4, Some("move"), Some(r"C:/Archive/2026"));
    let move_b = item(3, "b.jpg", "file", 2, 3, 1, 6, Some("move"), Some(r"c:\archive\.\2026"));
    let plan = build_commit_plan(&task(), &[root, move_a, move_b]).unwrap();
    assert_eq!(physical_path(&plan.move_groups[0].destination), ("device".to_string(), "C:/Archive/2026".to_string()));
    assert_eq!(plan.move_groups[0].bytes, 10);
    assert_eq!(plan.revision, 7);
    assert!(plan.unsafe_conflicts.is_empty());
    assert!(plan.blocking_reasons.is_empty());
}

#[test]
fn plan_reports_a_move_into_its_own_source() {
    let root = item(1, "", "directory", 0, 2, 1, 10, None, None);
    let moved = item(2, "a", "directory", 1, 2, 1, 4, Some("move"), Some(r"C:\Photos\a\inner"));
    let plan = build_commit_plan(&task(), &[root, moved]).unwrap();
    assert_eq!(plan.unsafe_conflicts.len(), 1);
    assert_eq!(plan.unsafe_conflicts[0].reason, "a move destination cannot be inside its source");
    assert!(!plan.can_commit);
    assert!(matches!(plan.blocking_reasons[0], OrganizeCommitBlockReason::UnsafeTopology { .. }));
}

#[test]
fn plan_reports_moves_that_form_a_cycle() {
    let root = item(1, "", "directory", 0, 3, 2, 10, None, None);
    let a = item(2, "a", "directory", 1, 2, 1, 4, Some("move"), Some(r"C:\Photos\b"));
    let b = item(3, "b", "directory", 2, 3, 1, 6, Some("move"), Some(r"C:\Photos\a"));
    let plan = build_commit_plan(&task(), &[root, a, b]).unwrap();
    let reasons: Vec<(u128, String)> = plan.unsafe_conflicts.iter().map(|c| (c.item_id, c.reason.clone())).collect();
    assert_eq!(
        reasons,
        vec![(1002, "move destinations form a cycle".to_string()), (1003, "move destinations form a cycle".to_string())]
    );
}

#[test]
fn plan_blocks_inactive_tasks_and_reports_unknown_status() {
    let root = item(1, "", "directory", 0, 2, 1, 10, None, None);
    let discard = item(2, "a.jpg", "file", 1, 2, 1, 4, Some("discard"), None);
    let mut t = task();
    t.status = "completed".into();
    let plan = build_commit_plan(&t, &[root.clone(), discard.clone()]).unwrap();
    assert!(matches!(plan.blocking_reasons[0], OrganizeCommitBlockReason::TaskNotActive { status: OrganizeTaskStatus::Completed }));
    t.status = "paused".into();
    assert!(matches!(
        build_commit_plan(&t, &[root, discard]),
        Err(OrganizeError::InvalidTaskState(m)) if m == "unknown task status: paused"
    ));
}

#[test]
fn plan_without_physical_work_is_blocked() {
    let root = item(1, "", "directory", 0, 2, 1, 10, None, None);
    let keep = item(2, "a.jpg", "file", 1, 2, 1, 4, Some("keep"), None);
    let plan = build_commit_plan(&task(), &[root, keep]).unwrap();
    assert!(matches!(plan.blocking_reasons[..], [OrganizeCommitBlockReason::NoPhysicalOperations]));
    assert!(!plan.can_commit);
}

#[test]
fn plan_refuses_items_without_an_interval() {
    let mut root = item(1, "", "directory", 0, 2, 1, 10, None, None);
    root.tree_end = None;
    assert!(matches!(
        build_commit_plan(&task(), &[root]),
        Err(OrganizeError::InvalidTree(m)) if m == "included item has no tree end"
    ));
}

#[test]
fn join_windows_path_puts_relative_paths_below_the_root() {
    assert_eq!(join_windows_path(r"C:\Photos\", "/a/b.jpg/"), r"C:\Photos\a\b.jpg");
    assert_eq!(join_windows_path(r"C:\Photos", ""), r"C:\Photos");
}

fn blocked_plan(reasons: Vec<OrganizeCommitBlockReason>) -> OrganizeCommitPlanOutput {
    OrganizeCommitPlanOutput {
        revision: 1,
        move_groups: Vec::new(),
        discard_roots: Vec::new(),
        keep_units: 0,
        unmarked_units: 0,
        pending_addition_count: 0,
        changed_or_missing_roots: Vec::new(),
        failed_operation_roots: Vec::new(),
        unsafe_conflicts: Vec::new(),
        can_commit: false,
        blocking_reasons: reasons,
    }
}

#[test]
fn explicit_confirmation_allows_only_current_subtree_drift() {
    let plan = blocked_plan(vec![OrganizeCommitBlockReason::CurrentSubtreeDrift { item_ids: vec![7] }]);
    assert!(blocked_plan_can_start(&plan, true));
    assert!(!blocked_plan_can_start(&plan, false));
}

#[test]
fn confirmation_does_not_override_other_blockers_or_mixed_reasons() {
    for reason in [
        OrganizeCommitBlockReason::TaskNotActive { status: OrganizeTaskStatus::Scanning },
        OrganizeCommitBlockReason::PendingAdditions { count: 1 },
        OrganizeCommitBlockReason::ChangedOrMissing { item_ids: vec![7] },
        OrganizeCommitBlockReason::UnsafeTopology { conflicts: Vec::new() },
        OrganizeCommitBlockReason::NoPhysicalOperations,
    ] {
        let plan = blocked_plan(vec![reason]);
        assert!(!blocked_plan_can_start(&plan, true));
    }

    let mixed = blocked_plan(vec![
        OrganizeCommitBlockReason::CurrentSubtreeDrift { item_ids: vec![7] },
        OrganizeCommitBlockReason::PendingAdditions { count: 1 },
    ]);
    assert!(!blocked_plan_can_start(&mixed, true));
}

#[test]
fn inconsistent_can_commit_flag_does_not_bypass_blockers() {
    let mut plan = blocked_plan(vec![OrganizeCommitBlockReason::PendingAdditions { count: 1 }]);
    plan.can_commit = true;
    assert!(!blocked_plan_can_start(&plan, true));
}

#[test]
fn a_move_nested_under_a_move_elsewhere_is_not_scheduled_twice() {
    let root = item(1, "", "directory", 0, 4, 3, 10, None, None);
    let outer = item(2, "a", "directory", 1, 3, 2, 7, Some("move"), Some(r"D:\Sorted"));
    let inner = item(3, "a\\b.jpg", "file", 2, 3, 1, 7, Some("move"), Some(r"E:\Other"));
    let plan = build_commit_plan(&task(), &[root, outer, inner]).unwrap();

    assert_eq!(plan.move_groups.len(), 1);
    assert_eq!(physical_path(&plan.move_groups[0].destination), ("device".to_string(), r"D:\Sorted".to_string()));
    assert_eq!(plan.move_groups[0].roots.len(), 1);
    assert_eq!(plan.move_groups[0].roots[0].item_id, 1002);
    assert!(plan.discard_roots.is_empty());
}
