use sd_core::organize::decision::{decision_rejection, DecisionRejection};
use sd_core::organize::commit::{commit_lock_gate, commit_plan_gate, commit_task_gate, CommitDecision, OrganizeCommitBlockReason};
use sd_core::organize::lifecycle::{apply_accepted_changes, check_settlements, check_snapshot_failure, check_snapshot_replace, mark_targets};
use sd_core::addressing::SdPath;
use sd_core::organize::summary::{decide_finish, task_summary, OrganizeFinishOutcome, OrganizeTaskRow};
use sd_core::organize::commit::{JobStatus, OperationSettlement, OrganizeCommitPhase, OrganizeCommitPlanOutput, OrganizeMoveGroup, OrganizePlanRoot};
use sd_core::organize::commit_job::{
    commit_result_ids, finish_settlement, next_commit_action, reconcile_child, record_delete, record_move_group,
    settle_all_roots, CommitAction, OrganizeCommitCheckpoint,
};
use sd_core::organize::create::{busy_overlap_error, find_overlapping_active, overlap_refusal, TaskRootRow, overlap_task_id, rejection, task_name, OrganizeCreateRejection};
use sd_core::organize::decision::{decide_decision_request, decision_value, DecisionRequestPlan, OrganizeDecisionInput, OrganizeInputError};
use sd_core::organize::error::OrganizeError;
use sd_core::organize::lifecycle::{decide_accept_changes, AcceptChangesDecision, OrganizeAcceptChangesInput};
use sd_core::organize::model::{DecisionValue, OrganizeOperationState, OrganizeTaskStatus};
use sd_core::organize::path::{validate_move_destination, validate_move_topology};
use sd_core::organize::plan::OrganizeTaskItemRecord;
use sd_core::organize::records::{
    applied_descendant_of, decision_columns, decision_tree_state, explicit_ancestor, explicit_decision_ids, root_item_id,
    is_covered_by_applied_destructive_root,
    normalize_move_destination, normalize_windows_key, operation_state,
};

fn row(id: i32, parent: Option<i32>, start: i64, end: i64, units: i64, decision: Option<&str>) -> OrganizeTaskItemRecord {
    OrganizeTaskItemRecord {
        id,
        uuid: id as u128,
        parent_id: parent,
        relative_path: format!("p{id}"),
        relative_path_key: format!("p{id}"),
        kind: "directory".into(),
        size_bytes: 0,
        tree_start: Some(start),
        tree_end: Some(end),
        unit_count: Some(units),
        aggregate_size_bytes: 10,
        membership_state: "included".into(),
        external_state: "present".into(),
        decision_kind: decision.map(str::to_string),
        move_destination: if decision == Some("move") { Some(r"c:\archive".into()) } else { None },
        operation_state: if decision.is_some() { "pending".into() } else { "none".into() },
    }
}

#[test]
fn rejects_destination_inside_source_and_move_cycles() {
    let sources = vec![(1u128, r"c:\a".to_string(), r"c:\b".to_string()), (2u128, r"c:\b".to_string(), r"c:\a".to_string())];
    assert!(matches!(validate_move_topology(&sources, &[]), Err(OrganizeError::UnsafeTopology(_))));
    assert!(matches!(validate_move_destination(r"c:\a", r"c:\a\child", &[]), Err(OrganizeError::UnsafeTopology(_))));
}

#[test]
fn move_input_requires_a_physical_destination() {
    let rejected = decision_value(Some(OrganizeDecisionInput::Move { destination: SdPath::content(5) }));
    assert!(matches!(rejected, Err(OrganizeInputError::InvalidInput(_))));
    let empty = decision_value(Some(OrganizeDecisionInput::Move { destination: SdPath::physical("d", "") }));
    assert!(matches!(empty, Err(OrganizeInputError::InvalidInput(m)) if m == "organize move destination cannot be empty"));
    let ok = decision_value(Some(OrganizeDecisionInput::Move { destination: SdPath::physical("d", r"C:\x") })).unwrap();
    assert_eq!(ok, Some(DecisionValue::move_to(r"C:\x")));
}

#[test]
fn stored_texts_and_keys() {
    assert_eq!(operation_state(OrganizeOperationState::NoOperation), "none");
    assert_eq!(normalize_windows_key(r"C:/Photos/"), r"c:\photos");
    assert_eq!(normalize_windows_key(r"C:\"), r"c:\");
    assert_eq!(normalize_move_destination(r"\\?\C:\Archive\.\2026\..\x"), r"c:\archive\x");
    assert_eq!(normalize_move_destination(r"\\?\UNC\Nas\Share\a"), r"\\nas\share\a");
    assert_eq!(normalize_move_destination(r"C:"), r"c:");
    let (k, d, s) = decision_columns(Some(&DecisionValue::move_to("C:/A/")));
    assert_eq!((k.as_deref(), d.as_deref(), s.as_str()), (Some("move"), Some(r"c:\a"), "pending"));
    let (k, d, s) = decision_columns(None);
    assert_eq!((k, d, s.as_str()), (None, None, "none"));
}

#[test]
fn decision_tree_state_reads_included_rows() {
    let rows = vec![row(1, None, 0, 2, 1, None), row(2, Some(1), 1, 2, 1, Some("discard"))];
    let state = decision_tree_state(&rows).unwrap();
    assert_eq!(state.nodes.len(), 2);
    assert_eq!(state.decisions.len(), 1);
    assert_eq!(state.decisions[0].item_id, 2);
    let mut bad = rows.clone();
    bad[1].unit_count = None;
    assert!(matches!(decision_tree_state(&bad), Err(OrganizeError::InvalidTree(m)) if m == "included item has no unit count"));
}

#[test]
fn ancestor_walks_follow_parent_links() {
    let mut rows = vec![row(1, None, 0, 3, 2, Some("discard")), row(2, Some(1), 1, 3, 2, None), row(3, Some(2), 2, 3, 1, None)];
    let found = explicit_ancestor(&rows, &rows[2]).map(|r| r.id);
    assert_eq!(found, Some(1));
    assert!(!is_covered_by_applied_destructive_root(&rows, &rows[2]));
    rows[0].operation_state = "applied".into();
    assert!(is_covered_by_applied_destructive_root(&rows, &rows[2]));
    assert_eq!(applied_descendant_of(&rows, &[2]), None);
    rows[2].operation_state = "applied".into();
    assert_eq!(applied_descendant_of(&rows, &[2]), Some(3));
}

fn accept_input(adds: Vec<u128>, removes: Vec<u128>, confirm: bool) -> OrganizeAcceptChangesInput {
    OrganizeAcceptChangesInput {
        task_id: 9,
        expected_revision: 4,
        include_addition_ids: adds,
        remove_missing_ids: removes,
        refresh_changed_ids: Vec::new(),
        preserve_changed_decisions: false,
        confirm_inherited_destructive: confirm,
    }
}

#[test]
fn accepting_additions_under_a_discard_needs_confirmation() {
    let mut added = row(3, Some(1), 2, 3, 1, None);
    added.membership_state = "pending_addition".into();
    added.tree_start = None;
    added.tree_end = None;
    let rows = vec![row(1, None, 0, 2, 2, Some("discard")), row(2, Some(1), 1, 2, 1, None), added];
    let asked = decide_accept_changes("active", 4, &accept_input(vec![3], vec![], false), &rows).unwrap();
    assert!(matches!(
        asked,
        AcceptChangesDecision::ConfirmationRequired { discard_units: 2, move_units: 0, affected_bytes: 10, ref conflicting_roots }
            if conflicting_roots == &vec![1]
    ));
    let go = decide_accept_changes("active", 4, &accept_input(vec![3], vec![], true), &rows).unwrap();
    assert!(matches!(go, AcceptChangesDecision::Proceed { placeholder_start: 2 }));
    assert!(matches!(
        decide_accept_changes("active", 5, &accept_input(vec![3], vec![], true), &rows).unwrap(),
        AcceptChangesDecision::StaleRevision { current_revision: 5 }
    ));
    assert!(matches!(
        decide_accept_changes("active", 4, &accept_input(vec![2], vec![], true), &rows),
        Err(OrganizeError::InvalidTaskState(m)) if m == "accept item 00000000-0000-0000-0000-000000000002 must be pending_addition/present"
    ));
    assert!(matches!(
        decide_accept_changes("committing", 4, &accept_input(vec![3], vec![], true), &rows),
        Err(OrganizeError::InvalidTaskState(m)) if m == "committing"
    ));
}

#[test]
fn decision_requests_apply_patches_and_detect_noops() {
    let rows = vec![row(1, None, 0, 3, 2, None), row(2, Some(1), 1, 2, 1, None), row(3, Some(1), 2, 3, 1, None)];
    let plan = decide_decision_request("active", 4, 4, &[2], &rows, Some(DecisionValue::discard()), false, false).unwrap();
    assert!(matches!(plan, DecisionRequestPlan::Apply { ref affected_roots, revision: 5, .. } if affected_roots == &vec![2]));
    let stale = decide_decision_request("active", 4, 3, &[2], &rows, Some(DecisionValue::discard()), false, false).unwrap();
    assert!(matches!(stale, DecisionRequestPlan::StaleRevision { current_revision: 4 }));
    assert!(matches!(
        decide_decision_request("active", 4, 4, &[], &rows, None, false, false),
        Err(OrganizeError::InvalidTree(m)) if m == "selection is empty"
    ));
    assert!(matches!(
        decide_decision_request("active", 4, 4, &[42], &rows, None, false, false),
        Err(OrganizeError::InvalidTree(m)) if m == "selection contains an unknown item"
    ));
    let decided = vec![row(1, None, 0, 3, 2, None), row(2, Some(1), 1, 2, 1, Some("discard")), row(3, Some(1), 2, 3, 1, None)];
    let again = decide_decision_request("active", 4, 4, &[2], &decided, Some(DecisionValue::discard()), false, false).unwrap();
    assert!(matches!(again, DecisionRequestPlan::InheritedNoOp { ancestor_item_id: 2 }));
}

#[test]
fn create_helpers() {
    assert!(matches!(
        rejection(OrganizeError::InvalidPhysicalPath("Access is denied".into()), "C:\\x".into()),
        OrganizeCreateRejection::PermissionDenied { .. }
    ));
    assert!(matches!(
        rejection(OrganizeError::InvalidPhysicalPath("gone".into()), "C:\\x".into()),
        OrganizeCreateRejection::RootMissing { .. }
    ));
    assert!(matches!(rejection(OrganizeError::UnsupportedPlatform, "x".into()), OrganizeCreateRejection::UnsupportedPlatform));
    assert_eq!(task_name(Some("  ".into()), Some("Trip".into()), false, r"c:\trip"), "Trip");
    assert_eq!(task_name(None, None, true, r"c:\"), "c: Organize");
    assert_eq!(task_name(Some("Mine".into()), None, true, r"c:\"), "Mine");
    assert_eq!(overlap_task_id("overlaps task 00000000-0000-0000-0000-00000000002a", 7), 42);
    assert_eq!(overlap_task_id("overlaps a task", 7), 7);
}

fn root(id: u128) -> OrganizePlanRoot {
    OrganizePlanRoot { item_id: id, source: SdPath::physical("d", "x"), units: 1, bytes: 1 }
}

fn plan(groups: Vec<Vec<u128>>, discards: Vec<u128>) -> OrganizeCommitPlanOutput {
    OrganizeCommitPlanOutput {
        revision: 1,
        move_groups: groups
            .into_iter()
            .map(|ids| OrganizeMoveGroup { destination: SdPath::physical("d", "y"), roots: ids.into_iter().map(root).collect(), units: 0, bytes: 0 })
            .collect(),
        discard_roots: discards.into_iter().map(root).collect(),
        keep_units: 0,
        unmarked_units: 0,
        pending_addition_count: 0,
        changed_or_missing_roots: Vec::new(),
        failed_operation_roots: Vec::new(),
        unsafe_conflicts: Vec::new(),
        can_commit: true,
        blocking_reasons: Vec::new(),
    }
}

#[test]
fn commit_steps_run_groups_then_deletes_then_settle() {
    let p = plan(vec![vec![1, 2]], vec![3]);
    let mut cp = OrganizeCommitCheckpoint {
        phase: OrganizeCommitPhase::Preflight,
        next_move_group: 0,
        active_child_job_id: None,
        delete_dispatched: false,
        completed_root_ids: Vec::new(),
        settlements: Vec::new(),
    };
    assert_eq!(next_commit_action(&p, &cp), CommitAction::Preflight);
    cp.phase = OrganizeCommitPhase::MoveGroups;
    assert_eq!(next_commit_action(&p, &cp), CommitAction::RunMoveGroup(0));
    let mut settlements: Vec<OperationSettlement> = Vec::new();
    record_move_group(&mut cp, &mut settlements, &p.move_groups[0], 0, &Ok(()), 100);
    assert_eq!(cp.completed_root_ids, vec![1, 2]);
    assert_eq!(next_commit_action(&p, &cp), CommitAction::RunDelete(0));
    record_delete(&mut cp, &mut settlements, &p.discard_roots[0], &Err("boom".into()), 101);
    assert_eq!(next_commit_action(&p, &cp), CommitAction::Settle);
    let unique = finish_settlement(&mut cp, settlements);
    let (applied, failed) = commit_result_ids(&unique);
    assert_eq!(applied, vec![1, 2]);
    assert_eq!(failed, vec![3]);
    assert_eq!(unique[2].last_error.as_deref(), Some("boom"));
}

#[test]
fn reconciling_a_failed_child_fails_its_roots() {
    let p = plan(vec![vec![1, 2], vec![4]], vec![]);
    let mut cp = OrganizeCommitCheckpoint {
        phase: OrganizeCommitPhase::MoveGroups,
        next_move_group: 0,
        active_child_job_id: Some(0xab),
        delete_dispatched: false,
        completed_root_ids: Vec::new(),
        settlements: Vec::new(),
    };
    let mut settlements: Vec<OperationSettlement> = Vec::new();
    reconcile_child(&mut cp, &mut settlements, &p, JobStatus::Cancelled, 5);
    assert_eq!(cp.next_move_group, 1);
    assert_eq!(cp.completed_root_ids, vec![1, 2]);
    assert_eq!(settlements[0].state, OrganizeOperationState::Failed);
    assert_eq!(
        settlements[0].last_error.as_deref(),
        Some("child job 00000000-0000-0000-0000-0000000000ab ended with Cancelled")
    );
    let all = settle_all_roots(&plan(vec![vec![1, 1]], vec![1, 2]), "cancelled", false, 0);
    let ids: Vec<u128> = all.iter().map(|s| s.item_id).collect();
    assert_eq!(ids, vec![1, 2]);
}

fn summary_rows() -> Vec<OrganizeTaskItemRecord> {
    let mut rows = vec![row(1, None, 0, 3, 2, None), row(2, Some(1), 1, 2, 1, Some("keep")), row(3, Some(1), 2, 3, 1, None)];
    rows[2].kind = "file".into();
    rows[2].size_bytes = 42;
    rows[2].external_state = "changed".into();
    let mut extra = row(4, Some(1), 3, 4, 1, None);
    extra.membership_state = "pending_addition".into();
    extra.external_state = "missing".into();
    extra.kind = "file".into();
    extra.size_bytes = 1000;
    rows.push(extra);
    rows
}

#[test]
fn finishing_needs_confirmation_then_settled_operations() {
    let mut rows = summary_rows();
    assert_eq!(decide_finish("active", 4, 4, false, &rows).unwrap(), OrganizeFinishOutcome::ConfirmationRequired { unmarked_units: 1 });
    assert_eq!(
        decide_finish("active", 4, 4, true, &rows).unwrap(),
        OrganizeFinishOutcome::RejectedPendingOperations { pending: 1, running: 0, failed: 0 }
    );
    rows[1].operation_state = "applied".into();
    assert_eq!(decide_finish("active", 4, 4, true, &rows).unwrap(), OrganizeFinishOutcome::Completed { revision: 5 });
    assert_eq!(decide_finish("active", 4, 3, true, &rows).unwrap(), OrganizeFinishOutcome::StaleRevision { current_revision: 4 });
    assert!(matches!(decide_finish("completed", 4, 4, true, &rows), Err(OrganizeError::InvalidTaskState(s)) if s == "completed"));
}

fn task_row(status: &str) -> OrganizeTaskRow {
    OrganizeTaskRow {
        id: 9,
        name: "Photos".into(),
        root_path: r"C:\Photos".into(),
        device_slug: "pc".into(),
        status: status.into(),
        revision: 4,
        snapshot_version: 2,
        scan_issue_count: -3,
        pending_addition_count: 1,
        scan_job_id: Some(77),
        commit_job_id: None,
        last_error: Some("boom".into()),
        completed_at: None,
    }
}

#[test]
fn task_summaries_count_entries_bytes_progress_and_external_states() {
    let mut rows = summary_rows();
    rows[1].operation_state = "failed".into();
    let summary = task_summary(&task_row("active"), &rows).unwrap();
    assert_eq!(summary.id, 9);
    assert_eq!(summary.status, OrganizeTaskStatus::Active);
    assert!(matches!(&summary.root_sd_path, SdPath::Physical { device_slug, path } if device_slug == "pc" && path == r"C:\Photos"));
    assert_eq!(summary.total_entries, 3);
    assert_eq!(summary.total_bytes, 42);
    assert_eq!((summary.progress.total_units, summary.progress.keep_units, summary.progress.unmarked_units), (2, 1, 1));
    assert_eq!(summary.failed_operation_count, 1);
    assert_eq!(summary.changed_count, 1);
    assert_eq!(summary.missing_count, 1);
    assert_eq!(summary.scan_issue_count, 0);
    assert_eq!(summary.pending_addition_count, 1);
    assert_eq!(summary.scan_job_id, Some(77));
    assert_eq!(summary.last_error.as_deref(), Some("boom"));
    assert!(matches!(
        task_summary(&task_row("weird"), &rows),
        Err(OrganizeError::InvalidTaskState(s)) if s == "unknown task status: weird"
    ));
}

#[test]
fn external_state_marks_skip_items_under_applied_destructive_roots() {
    let mut rows = vec![row(1, None, 0, 3, 2, Some("discard")), row(2, Some(1), 1, 3, 2, None), row(3, None, 3, 4, 1, None)];
    assert_eq!(mark_targets(&rows, &vec![2, 3, 9]), vec![2, 3]);
    rows[0].operation_state = "applied".into();
    assert_eq!(mark_targets(&rows, &vec![2, 3, 9]), vec![3]);
}

#[test]
fn commit_requests_check_revision_state_plan_and_permanent_deletes() {
    assert_eq!(commit_task_gate(3, 2, "active").unwrap(), Some(CommitDecision::StaleRevision { current_revision: 3 }));
    assert_eq!(commit_task_gate(3, 3, "completed").unwrap(), Some(CommitDecision::RejectedState { status: OrganizeTaskStatus::Completed }));
    assert_eq!(commit_task_gate(3, 3, "active").unwrap(), None);
    assert!(matches!(commit_task_gate(3, 3, "bogus"), Err(OrganizeError::InvalidTaskState(m)) if m == "bogus"));
    assert_eq!(commit_plan_gate(&plan(vec![vec![1]], vec![]), false, false), CommitDecision::Start);
    assert_eq!(commit_plan_gate(&plan(vec![], vec![2]), false, false), CommitDecision::RejectedPermanentConfirmation);
    assert_eq!(commit_plan_gate(&plan(vec![], vec![2]), false, true), CommitDecision::Start);
    let mut drift = plan(vec![vec![1]], vec![]);
    drift.can_commit = false;
    drift.blocking_reasons = vec![OrganizeCommitBlockReason::CurrentSubtreeDrift { item_ids: vec![1] }];
    assert_eq!(commit_plan_gate(&drift, false, false), CommitDecision::RejectedBlockedPlan);
    assert_eq!(commit_plan_gate(&drift, true, false), CommitDecision::Start);
}

#[test]
fn decision_errors_become_rejections_when_they_name_one() {
    assert_eq!(
        decision_rejection(&OrganizeError::AppliedDecisionImmutable(4)),
        Some(DecisionRejection::Immutable { applied_root_item_id: 4 })
    );
    assert_eq!(
        decision_rejection(&OrganizeError::InvalidTaskState("committing".into())),
        Some(DecisionRejection::State { status: OrganizeTaskStatus::Committing })
    );
    assert_eq!(decision_rejection(&OrganizeError::InvalidTaskState("odd".into())), None);
    assert_eq!(decision_rejection(&OrganizeError::InvalidTree("x".into())), None);
}

fn settlement(id: u128, state: OrganizeOperationState) -> OperationSettlement {
    OperationSettlement { item_id: id, state, last_error: None, applied_at: None }
}

#[test]
fn settling_roots_needs_a_committing_task_and_unapplied_rows() {
    let mut rows = vec![row(1, None, 0, 3, 3, Some("discard")), row(2, Some(1), 1, 2, 1, None)];
    rows[1].operation_state = "applied".into();
    let ok = vec![settlement(1, OrganizeOperationState::Applied)];
    assert_eq!(check_settlements("committing", 4, &rows, &ok).unwrap(), 5);
    assert!(matches!(check_settlements("active", 4, &rows, &ok), Err(OrganizeError::InvalidTaskState(s)) if s == "active"));
    let missing = vec![settlement(9, OrganizeOperationState::Failed)];
    assert!(matches!(
        check_settlements("committing", 4, &rows, &missing),
        Err(OrganizeError::InvalidTree(m)) if m == "operation root disappeared"
    ));
    let applied = vec![settlement(2, OrganizeOperationState::Failed)];
    assert!(matches!(check_settlements("committing", 4, &rows, &applied), Err(OrganizeError::AppliedDecisionImmutable(2))));
    let twice = vec![settlement(1, OrganizeOperationState::Applied), settlement(1, OrganizeOperationState::Failed)];
    assert!(matches!(check_settlements("committing", 4, &rows, &twice), Err(OrganizeError::AppliedDecisionImmutable(1))));
}

#[test]
fn a_busy_database_on_insert_reads_as_an_overlapping_creation() {
    assert!(matches!(
        busy_overlap_error("error returned from database: (code: 5) Database Is Locked"),
        Some(OrganizeError::UnsafeTopology(m)) if m == "another organize task is being created for an overlapping root"
    ));
    assert!(busy_overlap_error("DATABASE IS BUSY").is_some());
    assert!(busy_overlap_error("UNIQUE constraint failed").is_none());
    assert!(busy_overlap_error("").is_none());
}

fn task_root(id: u128, status: &str, key: &str) -> TaskRootRow {
    TaskRootRow { id, status: status.into(), root_path_key: key.into() }
}

#[test]
fn creation_is_refused_over_a_held_overlapping_root_and_names_the_task() {
    let tasks = vec![
        task_root(1, "completed", r"c:\photos"),
        task_root(2, "failed", r"c:\photos\2020"),
        task_root(3, "active", r"d:\music"),
        task_root(4, "committing", r"C:\Photos\2020\Trip"),
    ];
    assert_eq!(find_overlapping_active(&tasks, r"c:\photos"), Some(4));
    assert_eq!(find_overlapping_active(&tasks, r"c:\videos"), None);
    assert_eq!(find_overlapping_active(&tasks, r"d:\music\old"), Some(3));
    let id: u128 = 0x0123_4567_89ab_cdef_0011_2233_4455_6677;
    match overlap_refusal(id) {
        OrganizeError::UnsafeTopology(m) => {
            assert_eq!(m, "organize task root overlaps active task 01234567-89ab-cdef-0011-223344556677");
            assert_eq!(overlap_task_id(&m, 9), id);
        }
        other => panic!("unexpected {other:?}"),
    }
}

#[test]
fn snapshots_are_stored_only_on_undecided_scanning_tasks() {
    let undecided = vec![row(1, None, 0, 3, 3, None), row(2, Some(1), 1, 2, 1, None)];
    let decided = vec![row(1, None, 0, 3, 3, None), row(2, Some(1), 1, 2, 1, Some("keep"))];
    assert_eq!(check_snapshot_replace("scanning", 1, &undecided).unwrap(), 2);
    assert!(check_snapshot_failure("scanning", &undecided).is_ok());
    assert!(check_snapshot_failure("scanning", &[]).is_ok());
    assert!(matches!(
        check_snapshot_replace("scanning", 1, &decided),
        Err(OrganizeError::InvalidTaskState(m)) if m == "organize snapshot already has decisions"
    ));
    assert!(matches!(check_snapshot_failure("active", &undecided), Err(OrganizeError::InvalidTaskState(m)) if m == "active"));
}

#[test]
fn decided_rows_are_listed_by_position() {
    let rows = vec![
        row(3, None, 0, 9, 9, None),
        row(7, Some(3), 5, 6, 1, Some("keep")),
        row(5, Some(3), 1, 4, 3, Some("discard")),
        row(8, Some(5), 2, 3, 1, None),
    ];
    assert_eq!(explicit_decision_ids(&rows), vec![5, 7]);
    assert!(explicit_decision_ids(&[]).is_empty());
}

#[test]
fn committing_locks_an_active_task_at_the_seen_revision() {
    assert_eq!(commit_lock_gate("active", 6, 6).unwrap(), 7);
    assert!(matches!(commit_lock_gate("active", 6, 5), Err(OrganizeError::StaleRevision(6))));
    assert!(matches!(commit_lock_gate("completed", 6, 6), Err(OrganizeError::InvalidTaskState(s)) if s == "completed"));
}

#[test]
fn a_task_root_is_the_first_included_row_without_a_parent() {
    let mut rows = vec![row(4, None, 10, 12, 2, None), row(2, None, 0, 9, 9, None), row(6, Some(2), 1, 2, 1, None)];
    assert_eq!(root_item_id(&rows).unwrap(), 2);
    rows[1].membership_state = "pending_addition".into();
    assert_eq!(root_item_id(&rows).unwrap(), 4);
    assert!(matches!(
        root_item_id(&rows[2..]),
        Err(OrganizeError::InvalidTree(m)) if m == "organize task has no root item"
    ));
}

#[test]
fn accepting_changes_includes_additions_removes_missing_and_refreshes_changed() {
    let mut rows = vec![
        row(1, None, 0, 4, 3, None),
        row(2, Some(1), 1, 2, 1, Some("discard")),
        row(3, Some(1), 2, 3, 1, Some("move")),
        row(4, Some(1), 0, 0, 0, None),
        row(5, Some(1), 0, 0, 0, None),
    ];
    rows[1].external_state = "missing".into();
    rows[2].external_state = "changed".into();
    for r in &mut rows[3..] {
        r.membership_state = "pending_addition".into();
        r.tree_start = None;
        r.tree_end = None;
        r.unit_count = None;
    }
    let input = OrganizeAcceptChangesInput {
        task_id: 1,
        expected_revision: 1,
        include_addition_ids: vec![5, 4],
        remove_missing_ids: vec![2],
        refresh_changed_ids: vec![3],
        preserve_changed_decisions: false,
        confirm_inherited_destructive: true,
    };
    let out = apply_accepted_changes(&rows, &input, 4);
    assert_eq!(out.iter().map(|r| r.uuid).collect::<Vec<_>>(), vec![1, 3, 4, 5]);
    assert_eq!(out[1].external_state, "present");
    assert_eq!(out[1].decision_kind, None);
    assert_eq!(out[1].move_destination, None);
    assert_eq!(out[1].operation_state, "none");
    assert_eq!((out[2].membership_state.as_str(), out[2].tree_start, out[2].tree_end, out[2].unit_count), ("included", Some(4), Some(5), Some(1)));
    assert_eq!((out[3].tree_start, out[3].tree_end), (Some(5), Some(6)));
    let keep = OrganizeAcceptChangesInput { preserve_changed_decisions: true, ..input };
    let kept = apply_accepted_changes(&rows, &keep, 4);
    assert_eq!(kept[1].decision_kind.as_deref(), Some("move"));
    assert_eq!(kept[1].operation_state, "pending");
    assert_eq!(kept[0].tree_start, Some(0));
}
