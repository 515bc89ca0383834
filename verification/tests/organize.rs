use sd_core::organize::commit::{child_succeeded, missing_checkpoint_settlement, JobStatus, OperationSettlement};
use sd_core::organize::model::{DecisionValue, OrganizeOperationState};
use sd_core::organize::path::{paths_overlap, validate_move_destination, windows_path_key};

#[test]
fn normalizes_drive_unc_and_sibling_prefixes() {
    assert_eq!(windows_path_key(r"c:/Photos/Trip/", false).unwrap(), r"c:\photos\trip");
    assert_eq!(windows_path_key(r"\\?\UNC\NAS\Media\", false).unwrap(), r"\\nas\media");
    assert!(paths_overlap(r"c:\photo", r"C:\PHOTO\2026"));
    assert!(!paths_overlap(r"c:\photo", r"C:\photos"));
    assert_eq!(windows_path_key(r"C:\", true).unwrap(), r"c:\");
}

#[test]
fn allows_actionable_items_to_move_to_volume_roots() {
    assert!(validate_move_destination(r"c:\photos", r"C:\", &[]).is_ok());
    assert!(validate_move_destination(r"c:\photos", r"\\nas\share", &[]).is_ok());
}

#[test]
fn rejects_destination_equal_to_source() {
    assert!(matches!(
        validate_move_destination(r"c:\photo", r"C:/PHOTO", &[]),
        Err(sd_core::organize::error::OrganizeError::UnsafeTopology(_))
    ));
}

#[test]
fn move_decisions_compare_normalized_windows_destinations() {
    assert_eq!(DecisionValue::move_to(r"C:\Archive\"), DecisionValue::move_to(r"c:/archive"));
}

#[test]
fn only_completed_child_jobs_are_reconciled_as_applied() {
    assert!(child_succeeded(JobStatus::Completed));
    assert!(!child_succeeded(JobStatus::Failed));
    assert!(!child_succeeded(JobStatus::Cancelled));
}

#[test]
fn refuses_old_checkpoint_that_cannot_prove_completed_root_outcome() {
    let completed = 1u128;
    let settlement = OperationSettlement {
        item_id: 2,
        state: OrganizeOperationState::Applied,
        last_error: None,
        applied_at: Some(0),
    };
    assert_eq!(missing_checkpoint_settlement(&[completed], &[settlement]), Some(completed));
}
