use sd_core::rules::execute::{
    complete_job, dry_run_outcome, plan_entry, fold_into_result, fold_into_state, record_dispatch, FileOutcome, MacroExecutionJobOutput,
    MacroExecutionResult, MacroFilePlan, MacroJobState, MacroPhase,
};
use sd_core::rules::evaluator::RuleTarget;
use sd_core::rules::schema::{ActionRef, ComparisonOp, Condition, ContentKind, Rule};

fn file(path: &str, actions: &[&str]) -> MacroFilePlan {
    MacroFilePlan {
        entry_uuid: 7,
        path: path.into(),
        actions: actions
            .iter()
            .map(|a| ActionRef { action: a.to_string(), params: serde_json::Value::String(format!("{a}-params")) })
            .collect(),
    }
}

#[test]
fn dry_runs_report_each_action_of_a_file_in_order() {
    let outcome = dry_run_outcome(&file("clips/a.mp4", &["tags.apply", "media.rotate"]));
    assert_eq!(outcome.planned.len(), 2);
    assert_eq!(outcome.planned[0].action, "tags.apply");
    assert_eq!(outcome.planned[1].action, "media.rotate");
    assert_eq!(outcome.planned[1].path, "clips/a.mp4");
    assert_eq!(outcome.planned[1].entry_uuid, 7);
    assert_eq!(outcome.planned[0].params, serde_json::Value::String("tags.apply-params".into()));
    assert_eq!((outcome.succeeded, outcome.failed), (0, 0));
}

#[test]
fn dispatch_failures_are_counted_and_logged_not_raised() {
    let mut outcome = FileOutcome { planned: Vec::new(), succeeded: 0, failed: 0, failures: Vec::new() };
    record_dispatch(&mut outcome, "tags.apply", "clips/a.mp4", Ok(()));
    record_dispatch(&mut outcome, "media.rotate", "clips/a.mp4", Err("no such file".into()));
    assert_eq!((outcome.succeeded, outcome.failed), (1, 1));
    assert_eq!(outcome.failures, vec!["media.rotate on clips/a.mp4: no such file".to_string()]);
}

#[test]
fn jobs_fold_file_outcomes_then_complete() {
    let mut state = MacroJobState::new(false);
    assert_eq!(state.phase, MacroPhase::Discovery);
    state.phase = MacroPhase::Processing;
    state.plan = vec![file("a", &["x"]), file("b", &["y"])];
    let mut first = FileOutcome { planned: Vec::new(), succeeded: 0, failed: 0, failures: Vec::new() };
    record_dispatch(&mut first, "x", "a", Err("boom".into()));
    fold_into_state(&mut state, first);
    let mut second = FileOutcome { planned: Vec::new(), succeeded: 0, failed: 0, failures: Vec::new() };
    record_dispatch(&mut second, "y", "b", Ok(()));
    fold_into_state(&mut state, second);
    assert_eq!(state.processed, 2);
    assert_eq!(state.failures, vec!["x on a: boom".to_string()]);
    let out = complete_job(&mut state);
    assert_eq!(state.phase, MacroPhase::Complete);
    assert_eq!(out, MacroExecutionJobOutput { dry_run: false, matched_files: 2, planned: 0, succeeded: 1, failed: 1 });
}

#[test]
fn runs_gather_planned_items_and_counts() {
    let mut result = MacroExecutionResult::new(true);
    result.matched_files = 2;
    fold_into_result(&mut result, dry_run_outcome(&file("a", &["x", "y"])));
    fold_into_result(&mut result, dry_run_outcome(&file("b", &["z"])));
    assert!(result.dry_run);
    assert_eq!(result.planned.iter().map(|p| p.action.as_str()).collect::<Vec<_>>(), vec!["x", "y", "z"]);
    assert_eq!((result.succeeded, result.failed, result.failures.len()), (0, 0, 0));
}

fn rule(condition: Condition, actions: &[&str]) -> Rule {
    Rule {
        name: "r".into(),
        condition,
        actions: actions.iter().map(|a| ActionRef { action: a.to_string(), params: serde_json::Value::Null }).collect(),
    }
}

#[test]
fn an_entry_gets_the_actions_of_every_matching_rule_in_rule_order() {
    let target = RuleTarget {
        path: "clips/a.mp4".into(),
        extension: Some("MP4".into()),
        size: 500,
        kind: ContentKind { id: 2 },
        width: None,
        height: None,
        duration_verdicts: Vec::new(),
        tag_names: Vec::new(),
    };
    let rules = vec![
        rule(Condition::Extension { value: "mp4".into() }, &["media.transcode", "tags.apply"]),
        rule(Condition::Size { op: ComparisonOp::Gt, value: 1000 }, &["files.copy"]),
        rule(Condition::Size { op: ComparisonOp::Lte, value: 1000 }, &["media.rotate"]),
    ];
    let plan = plan_entry(&rules, &target, 42).unwrap();
    assert_eq!(plan.entry_uuid, 42);
    assert_eq!(plan.path, "clips/a.mp4");
    let names: Vec<&str> = plan.actions.iter().map(|a| a.action.as_str()).collect();
    assert_eq!(names, vec!["media.transcode", "tags.apply", "media.rotate"]);
    assert!(plan_entry(&rules[1..2], &target, 42).is_none());
    assert!(plan_entry(&[], &target, 42).is_none());
}
