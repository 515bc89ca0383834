//! Running a macro: the work found for each file, what each action did, and
//! the totals a run or a resumable job keeps.

use vstd::prelude::*;
use crate::rules::evaluator::{evaluate, evaluates_to, globs_buildable, RuleTarget};
use crate::rules::schema::{ActionRef, Rule};
use crate::text::{copy_string, push_str, string_from_chars};

verus! {

/// The phase of a macro job.
#[derive(Clone, Copy, Debug, PartialEq, Eq, Structural)]
pub enum MacroPhase {
    Discovery,
    Processing,
    Complete,
}

/// One matched file and the actions queued for it.
#[derive(Debug)]
pub struct MacroFilePlan {
    pub entry_uuid: u128,
    pub path: String,
    pub actions: Vec<ActionRef>,
}

/// One (file, action) pair a dry run reports.
#[derive(Debug)]
pub struct MacroPlanItem {
    pub entry_uuid: u128,
    pub path: String,
    pub action: String,
    pub params: serde_json::Value,
}

/// What applying one file's actions did.
#[derive(Debug)]
pub struct FileOutcome {
    pub planned: Vec<MacroPlanItem>,
    pub succeeded: usize,
    pub failed: usize,
    pub failures: Vec<String>,
}

/// The summary of a macro run.
#[derive(Debug)]
pub struct MacroExecutionResult {
    pub dry_run: bool,
    pub matched_files: usize,
    pub planned: Vec<MacroPlanItem>,
    pub succeeded: usize,
    pub failed: usize,
    pub failures: Vec<String>,
}

/// The resumable state of a macro job.
#[derive(Debug)]
pub struct MacroJobState {
    pub phase: MacroPhase,
    pub dry_run: bool,
    pub plan: Vec<MacroFilePlan>,
    pub processed: usize,
    pub planned: usize,
    pub succeeded: usize,
    pub failed: usize,
    pub failures: Vec<String>,
}

/// The summary of a completed macro job.
#[derive(Clone, Copy, Debug, PartialEq, Eq, Structural)]
pub struct MacroExecutionJobOutput {
    pub dry_run: bool,
    pub matched_files: usize,
    pub planned: usize,
    pub succeeded: usize,
    pub failed: usize,
}

/// The texts of a list of strings.
pub open spec fn lines(v: Seq<String>) -> Seq<Seq<char>> {
    v.map_values(|s: String| s@)
}

impl MacroExecutionResult {
    /// An empty result flagged with `dry_run`.
    pub fn new(dry_run: bool) -> (r: Self)
        ensures
            r.dry_run == dry_run,
            r.matched_files == 0,
            r.planned@.len() == 0,
            r.succeeded == 0,
            r.failed == 0,
            r.failures@.len() == 0,
    {
        MacroExecutionResult {
            dry_run,
            matched_files: 0,
            planned: Vec::new(),
            succeeded: 0,
            failed: 0,
            failures: Vec::new(),
        }
    }
}

impl MacroJobState {
    /// The state of a job that has found nothing yet.
    pub fn new(dry_run: bool) -> (r: Self)
        ensures
            r.phase == MacroPhase::Discovery,
            r.dry_run == dry_run,
            r.plan@.len() == 0,
            r.processed == 0,
            r.planned == 0,
            r.succeeded == 0,
            r.failed == 0,
            r.failures@.len() == 0,
    {
        MacroJobState {
            phase: MacroPhase::Discovery,
            dry_run,
            plan: Vec::new(),
            processed: 0,
            planned: 0,
            succeeded: 0,
            failed: 0,
            failures: Vec::new(),
        }
    }
}

/// Calls `Clone::clone` on a `serde_json::Value`; the copy is the same value.
#[verifier::external_body]
fn copy_params(v: &serde_json::Value) -> (r: serde_json::Value)
    ensures
        r == *v,
{
    v.clone()
}

/// What a dry run reports for one file: each of its actions, in order, as a
/// planned item on the file.
pub fn dry_run_outcome(file: &MacroFilePlan) -> (o: FileOutcome)
    ensures
        o.succeeded == 0,
        o.failed == 0,
        o.failures@.len() == 0,
        o.planned@.len() == file.actions@.len(),
        forall|i: int|
            0 <= i < o.planned@.len() ==> {
                &&& (#[trigger] o.planned@[i]).entry_uuid == file.entry_uuid
                &&& o.planned@[i].path@ == file.path@
                &&& o.planned@[i].action@ == file.actions@[i].action@
                &&& o.planned@[i].params == file.actions@[i].params
            },
{
    let mut planned: Vec<MacroPlanItem> = Vec::new();
    let mut i: usize = 0;
    while i < file.actions.len()
        invariant
            i <= file.actions@.len(),
            planned@.len() == i,
            forall|k: int|
                0 <= k < i ==> {
                    &&& (#[trigger] planned@[k]).entry_uuid == file.entry_uuid
                    &&& planned@[k].path@ == file.path@
                    &&& planned@[k].action@ == file.actions@[k].action@
                    &&& planned@[k].params == file.actions@[k].params
                },
        decreases file.actions@.len() - i,
    {
        let a = &file.actions[i];
        planned.push(
            MacroPlanItem {
                entry_uuid: file.entry_uuid,
                path: copy_string(file.path.as_str()),
                action: copy_string(a.action.as_str()),
                params: copy_params(&a.params),
            },
        );
        i = i + 1;
    }
    FileOutcome { planned, succeeded: 0, failed: 0, failures: Vec::new() }
}

/// The log line of an action that failed on a file.
pub open spec fn failure_line(action: Seq<char>, path: Seq<char>, error: Seq<char>) -> Seq<char> {
    action + " on "@ + path + ": "@ + error
}

/// Record what dispatching one action on a file did: a success is counted,
/// a failure is counted and logged, never raised.
pub fn record_dispatch(outcome: &mut FileOutcome, action: &str, path: &str, result: Result<(), String>)
    requires
        old(outcome).succeeded < usize::MAX,
        old(outcome).failed < usize::MAX,
    ensures
        final(outcome).planned@ == old(outcome).planned@,
        match result {
            Ok(()) => {
                &&& final(outcome).succeeded == old(outcome).succeeded + 1
                &&& final(outcome).failed == old(outcome).failed
                &&& lines(final(outcome).failures@) == lines(old(outcome).failures@)
            },
            Err(e) => {
                &&& final(outcome).succeeded == old(outcome).succeeded
                &&& final(outcome).failed == old(outcome).failed + 1
                &&& lines(final(outcome).failures@) == lines(old(outcome).failures@).push(
                    failure_line(action@, path@, e@),
                )
            },
        },
{
    match result {
        Ok(()) => {
            outcome.succeeded = outcome.succeeded + 1;
        },
        Err(e) => {
            proof {
                reveal_strlit(" on ");
                reveal_strlit(": ");
            }
            let mut v: Vec<char> = Vec::new();
            push_str(&mut v, action);
            push_str(&mut v, " on ");
            push_str(&mut v, path);
            push_str(&mut v, ": ");
            push_str(&mut v, e.as_str());
            let line = string_from_chars(v.as_slice());
            assert(line@ =~= failure_line(action@, path@, e@));
            let ghost before = outcome.failures@;
            outcome.failed = outcome.failed + 1;
            outcome.failures.push(line);
            assert(lines(outcome.failures@) =~= lines(before).push(failure_line(action@, path@, e@)));
        },
    }
}

/// Fold a file's outcome into a job's state and move on to the next file.
pub fn fold_into_state(state: &mut MacroJobState, outcome: FileOutcome)
    requires
        old(state).processed < usize::MAX,
        old(state).planned + outcome.planned@.len() <= usize::MAX,
        old(state).succeeded + outcome.succeeded <= usize::MAX,
        old(state).failed + outcome.failed <= usize::MAX,
    ensures
        final(state).phase == old(state).phase,
        final(state).dry_run == old(state).dry_run,
        final(state).plan@ == old(state).plan@,
        final(state).processed == old(state).processed + 1,
        final(state).planned == old(state).planned + outcome.planned@.len(),
        final(state).succeeded == old(state).succeeded + outcome.succeeded,
        final(state).failed == old(state).failed + outcome.failed,
        lines(final(state).failures@) == lines(old(state).failures@) + lines(outcome.failures@),
{
    state.planned = state.planned + outcome.planned.len();
    state.succeeded = state.succeeded + outcome.succeeded;
    state.failed = state.failed + outcome.failed;
    let ghost before = state.failures@;
    let mut failures = outcome.failures;
    state.failures.append(&mut failures);
    assert(lines(state.failures@) =~= lines(before) + lines(outcome.failures@));
    state.processed = state.processed + 1;
}

/// Fold a file's outcome into a run's result.
pub fn fold_into_result(result: &mut MacroExecutionResult, outcome: FileOutcome)
    requires
        old(result).succeeded + outcome.succeeded <= usize::MAX,
        old(result).failed + outcome.failed <= usize::MAX,
    ensures
        final(result).dry_run == old(result).dry_run,
        final(result).matched_files == old(result).matched_files,
        final(result).planned@ == old(result).planned@ + outcome.planned@,
        final(result).succeeded == old(result).succeeded + outcome.succeeded,
        final(result).failed == old(result).failed + outcome.failed,
        lines(final(result).failures@) == lines(old(result).failures@) + lines(outcome.failures@),
{
    let FileOutcome { planned, succeeded, failed, failures } = outcome;
    let mut planned = planned;
    let mut failures = failures;
    let ghost before = result.failures@;
    result.planned.append(&mut planned);
    result.succeeded = result.succeeded + succeeded;
    result.failed = result.failed + failed;
    result.failures.append(&mut failures);
    assert(lines(result.failures@) =~= lines(before) + lines(outcome.failures@));
}

/// Complete a job: its phase becomes complete and its totals are reported.
pub fn complete_job(state: &mut MacroJobState) -> (out: MacroExecutionJobOutput)
    ensures
        final(state).phase == MacroPhase::Complete,
        final(state).dry_run == old(state).dry_run,
        final(state).plan@ == old(state).plan@,
        final(state).processed == old(state).processed,
        final(state).planned == old(state).planned,
        final(state).succeeded == old(state).succeeded,
        final(state).failed == old(state).failed,
        final(state).failures@ == old(state).failures@,
        out == (MacroExecutionJobOutput {
            dry_run: old(state).dry_run,
            matched_files: old(state).plan@.len() as usize,
            planned: old(state).planned,
            succeeded: old(state).succeeded,
            failed: old(state).failed,
        }),
{
    state.phase = MacroPhase::Complete;
    MacroExecutionJobOutput {
        dry_run: state.dry_run,
        matched_files: state.plan.len(),
        planned: state.planned,
        succeeded: state.succeeded,
        failed: state.failed,
    }
}


/// The (action, parameters) view of a queued action.
pub open spec fn action_view(a: ActionRef) -> (Seq<char>, serde_json::Value) {
    (a.action@, a.params)
}

/// The actions of the first `k` rules whose flag is set, in rule order.
pub open spec fn selected_actions(rules: Seq<Rule>, flags: Seq<bool>, k: int) -> Seq<(Seq<char>, serde_json::Value)>
    decreases k,
{
    if k <= 0 {
        Seq::<(Seq<char>, serde_json::Value)>::empty()
    } else if flags[k - 1] {
        selected_actions(rules, flags, k - 1) + rules[k - 1].actions@.map_values(|a: ActionRef| action_view(a))
    } else {
        selected_actions(rules, flags, k - 1)
    }
}

/// Whether `flags` records, rule by rule, an outcome each rule's condition
/// can give for the target.
pub open spec fn rule_outcomes(rules: Seq<Rule>, target: RuleTarget, flags: Seq<bool>) -> bool {
    &&& flags.len() == rules.len()
    &&& forall|i: int| 0 <= i < rules.len() ==> evaluates_to(rules[i].condition, target, #[trigger] flags[i])
}

/// Whether `r` is the work queued for an entry whose rules gave `flags`: no
/// plan when no matching rule has an action, else the entry with the actions
/// of every matching rule, in rule order.
pub open spec fn plan_is(r: Option<MacroFilePlan>, rules: Seq<Rule>, flags: Seq<bool>, target: RuleTarget, entry_uuid: u128) -> bool {
    let acts = selected_actions(rules, flags, rules.len() as int);
    if acts.len() == 0 {
        r is None
    } else {
        r matches Some(p) && p.entry_uuid == entry_uuid && p.path@ == target.path@ && p.actions@.map_values(
            |a: ActionRef| action_view(a),
        ) == acts
    }
}

/// The work rules queue for one entry: the actions of every rule whose
/// condition matches the entry, in rule order, or nothing when none applies.
pub fn plan_entry(rules: &[Rule], target: &RuleTarget, entry_uuid: u128) -> (r: Option<MacroFilePlan>)
    requires
        forall|i: int| 0 <= i < rules@.len() ==> globs_buildable(#[trigger] rules@[i].condition),
    ensures
        exists|flags: Seq<bool>| #[trigger] rule_outcomes(rules@, *target, flags) && plan_is(r, rules@, flags, *target, entry_uuid),
{
    let mut actions: Vec<ActionRef> = Vec::new();
    let ghost mut flags: Seq<bool> = Seq::empty();
    let mut i: usize = 0;
    while i < rules.len()
        invariant
            i <= rules@.len(),
            forall|j: int| 0 <= j < rules@.len() ==> globs_buildable(#[trigger] rules@[j].condition),
            flags.len() == i,
            forall|j: int| 0 <= j < i ==> evaluates_to(rules@[j].condition, *target, #[trigger] flags[j]),
            actions@.map_values(|a: ActionRef| action_view(a)) == selected_actions(rules@, flags, i as int),
        decreases rules@.len() - i,
    {
        let rule = &rules[i];
        let m = evaluate(rule, target);
        let ghost before = selected_actions(rules@, flags, i as int);
        let ghost old_flags = flags;
        proof {
            flags = flags.push(m);
            lemma_selected_prefix(rules@, old_flags, flags, i as int);
        }
        if m {
            let mut k: usize = 0;
            while k < rule.actions.len()
                invariant
                    k <= rule.actions@.len(),
                    actions@.map_values(|a: ActionRef| action_view(a)) == before + rule.actions@.take(k as int).map_values(
                        |a: ActionRef| action_view(a),
                    ),
                decreases rule.actions@.len() - k,
            {
                let a = &rule.actions[k];
                let copied = ActionRef { action: copy_string(a.action.as_str()), params: copy_params(&a.params) };
                assert(action_view(copied) == action_view(rule.actions@[k as int]));
                let ghost prev = actions@;
                actions.push(copied);
                assert(actions@ =~= prev.push(copied));
                assert(rule.actions@.take(k + 1) =~= rule.actions@.take(k as int).push(rule.actions@[k as int]));
                assert(actions@.map_values(|a: ActionRef| action_view(a)) =~= prev.map_values(|a: ActionRef| action_view(a)).push(
                    action_view(copied),
                ));
                assert(rule.actions@.take(k + 1).map_values(|a: ActionRef| action_view(a)) =~= rule.actions@.take(
                    k as int,
                ).map_values(|a: ActionRef| action_view(a)).push(action_view(rule.actions@[k as int])));
                k = k + 1;
                assert(actions@.map_values(|a: ActionRef| action_view(a)) =~= before + rule.actions@.take(k as int).map_values(
                    |a: ActionRef| action_view(a),
                ));
            }
            assert(rule.actions@.take(rule.actions@.len() as int) =~= rule.actions@);
        }
        i = i + 1;
        assert(actions@.map_values(|a: ActionRef| action_view(a)) =~= selected_actions(rules@, flags, i as int));
    }
    assert(rule_outcomes(rules@, *target, flags));
    if actions.len() == 0 {
        None
    } else {
        Some(MacroFilePlan { entry_uuid, path: copy_string(target.path.as_str()), actions })
    }
}

/// The selected actions of the first `k` rules depend only on the first `k`
/// flags.
proof fn lemma_selected_prefix(rules: Seq<Rule>, f: Seq<bool>, g: Seq<bool>, k: int)
    requires
        0 <= k <= f.len(),
        k <= g.len(),
        forall|j: int| 0 <= j < k ==> f[j] == g[j],
    ensures
        selected_actions(rules, f, k) == selected_actions(rules, g, k),
    decreases k,
{
    if k > 0 {
        lemma_selected_prefix(rules, f, g, k - 1);
    }
}

} // verus!
