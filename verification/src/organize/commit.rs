//! Commit of an organize task: the plan's shape, when a blocked plan may start,
//! and how child jobs settle decision roots.

use vstd::prelude::*;
use vstd::string::StringExecFns;
use std::collections::HashSet;
use crate::addressing::SdPath;
use crate::ids::{uuid_hyphenated, uuid_text};
use crate::organize::error::OrganizeError;
use crate::organize::model::{OrganizeItemKind, OrganizeOperationState, OrganizeTaskStatus};
use crate::text::{push_str, str_eq, string_from_chars, chars_of, starts_with_chars, skip_chars, copy_string};

verus! {

broadcast use vstd::std_specs::hash::group_hash_axioms;

/// A physical root of the commit plan.
#[derive(Clone, Debug)]
pub struct OrganizePlanRoot {
    pub item_id: u128,
    pub source: SdPath,
    pub units: u64,
    pub bytes: u64,
}

/// Roots moved together to one destination.
#[derive(Clone, Debug)]
pub struct OrganizeMoveGroup {
    pub destination: SdPath,
    pub roots: Vec<OrganizePlanRoot>,
    pub units: u64,
    pub bytes: u64,
}

/// A move that would be unsafe to run, and why.
#[derive(Clone, Debug)]
pub struct OrganizeTopologyConflict {
    pub item_id: u128,
    pub source: SdPath,
    pub destination: SdPath,
    pub reason: String,
}

/// Why a commit plan cannot start.
#[derive(Clone, Debug)]
pub enum OrganizeCommitBlockReason {
    TaskNotActive { status: OrganizeTaskStatus },
    PendingAdditions { count: u64 },
    ChangedOrMissing { item_ids: Vec<u128> },
    UnsafeTopology { conflicts: Vec<OrganizeTopologyConflict> },
    NoPhysicalOperations,
    /// The current subtree of these roots holds unreviewed descendants.
    CurrentSubtreeDrift { item_ids: Vec<u128> },
}

/// The physical operations of one task revision and what blocks them.
#[derive(Clone, Debug)]
pub struct OrganizeCommitPlanOutput {
    pub revision: i64,
    pub move_groups: Vec<OrganizeMoveGroup>,
    pub discard_roots: Vec<OrganizePlanRoot>,
    pub keep_units: u64,
    pub unmarked_units: u64,
    pub pending_addition_count: u64,
    pub changed_or_missing_roots: Vec<u128>,
    pub failed_operation_roots: Vec<u128>,
    pub unsafe_conflicts: Vec<OrganizeTopologyConflict>,
    pub can_commit: bool,
    pub blocking_reasons: Vec<OrganizeCommitBlockReason>,
}

/// Phase of a running commit.
#[derive(Clone, Copy, Debug, PartialEq, Eq, Structural)]
pub enum OrganizeCommitPhase {
    Preflight,
    MoveGroups,
    DeleteRoots,
    Reconcile,
    Settle,
}

/// Whether a plan may start: it is committable with no blocking reason, or the
/// caller allows current-subtree drift and drift is the only kind of reason.
pub open spec fn can_start_spec(plan: OrganizeCommitPlanOutput, allow_current_subtree_drift: bool) -> bool {
    (plan.can_commit && plan.blocking_reasons@.len() == 0) || (allow_current_subtree_drift
        && plan.blocking_reasons@.len() > 0 && forall|i: int|
        0 <= i < plan.blocking_reasons@.len() ==> #[trigger] plan.blocking_reasons@[i] is CurrentSubtreeDrift)
}

/// Whether a plan may start.
pub fn blocked_plan_can_start(plan: &OrganizeCommitPlanOutput, allow_current_subtree_drift: bool) -> (b: bool)
    ensures
        b == can_start_spec(*plan, allow_current_subtree_drift),
{
    if plan.can_commit && plan.blocking_reasons.len() == 0 {
        return true;
    }
    if !allow_current_subtree_drift || plan.blocking_reasons.len() == 0 {
        return false;
    }
    let mut i: usize = 0;
    while i < plan.blocking_reasons.len()
        invariant
            i <= plan.blocking_reasons@.len(),
            forall|j: int| 0 <= j < i ==> #[trigger] plan.blocking_reasons@[j] is CurrentSubtreeDrift,
        decreases plan.blocking_reasons@.len() - i,
    {
        match &plan.blocking_reasons[i] {
            OrganizeCommitBlockReason::CurrentSubtreeDrift { .. } => {},
            _ => {
                return false;
            },
        }
        i = i + 1;
    }
    true
}

/// Status of a child job.
#[derive(Clone, Copy, Debug, PartialEq, Eq, Structural)]
pub enum JobStatus {
    Queued,
    Running,
    Paused,
    Completed,
    Failed,
    Cancelled,
}

/// Whether a child job's roots count as applied: only when it completed.
pub fn child_succeeded(status: JobStatus) -> (b: bool)
    ensures
        b == (status == JobStatus::Completed),
{
    status == JobStatus::Completed
}

/// The recorded outcome of one operation root.
#[derive(Clone, Debug)]
pub struct OperationSettlement {
    pub item_id: u128,
    pub state: OrganizeOperationState,
    pub last_error: Option<String>,
    /// When it was applied, in milliseconds since the Unix epoch.
    pub applied_at: Option<i64>,
}

/// The ids of settlements.
pub open spec fn settlement_ids(s: Seq<OperationSettlement>) -> Seq<u128> {
    s.map_values(|x: OperationSettlement| x.item_id)
}

/// The settlements kept when only the first one per item counts.
pub open spec fn first_settlements(s: Seq<OperationSettlement>) -> Seq<OperationSettlement>
    decreases s.len(),
{
    if s.len() == 0 {
        Seq::<OperationSettlement>::empty()
    } else {
        let prev = first_settlements(s.drop_last());
        if settlement_ids(prev).contains(s.last().item_id) {
            prev
        } else {
            prev.push(s.last())
        }
    }
}

/// The settlements with only the first one of each item.
pub fn unique_settlements(values: Vec<OperationSettlement>) -> (r: Vec<OperationSettlement>)
    ensures
        r@ == first_settlements(values@),
{
    let mut seen: HashSet<u128> = HashSet::new();
    let mut out: Vec<OperationSettlement> = Vec::new();
    let mut i: usize = 0;
    while i < values.len()
        invariant
            i <= values@.len(),
            out@ == first_settlements(values@.take(i as int)),
            seen@ == settlement_ids(out@).to_set(),
        decreases values@.len() - i,
    {
        let v = &values[i];
        assert(values@.take(i + 1).drop_last() =~= values@.take(i as int));
        let ghost before = out@;
        if seen.insert(v.item_id) {
            assert(!settlement_ids(before).contains(v.item_id)) by {
                if settlement_ids(before).contains(v.item_id) {
                    assert(settlement_ids(before).to_set().contains(v.item_id));
                }
            }
            out.push(OperationSettlement {
                item_id: v.item_id,
                state: v.state,
                last_error: match &v.last_error {
                    Some(e) => Some(e.clone()),
                    None => None,
                },
                applied_at: v.applied_at,
            });
            assert(out@ =~= before.push(values@[i as int]));
            assert(settlement_ids(out@) =~= settlement_ids(before).push(v.item_id));
            assert(seen@ =~= settlement_ids(out@).to_set()) by {
                assert forall|x: u128| #[trigger] seen@.contains(x) <==> settlement_ids(out@).to_set().contains(x) by {
                    if settlement_ids(before).contains(x) {
                        let k = choose|k: int| 0 <= k < settlement_ids(before).len() && settlement_ids(before)[k] == x;
                        assert(settlement_ids(out@)[k] == x);
                    }
                    if settlement_ids(out@).contains(x) && x != v.item_id {
                        let k = choose|k: int| 0 <= k < settlement_ids(out@).len() && settlement_ids(out@)[k] == x;
                        assert(settlement_ids(before)[k] == x);
                    }
                    if x == v.item_id {
                        assert(settlement_ids(out@)[before.len() as int] == x);
                    }
                }
            }
        } else {
            assert(settlement_ids(before).contains(v.item_id)) by {
                assert(settlement_ids(before).to_set().contains(v.item_id));
            }
        }
        i = i + 1;
    }
    assert(values@.take(values@.len() as int) =~= values@);
    out
}

/// The first completed root with no settlement, if any.
pub fn missing_checkpoint_settlement(completed_root_ids: &[u128], settlements: &[OperationSettlement]) -> (r: Option<u128>)
    ensures
        match r {
            Some(id) => exists|i: int| 0 <= i < completed_root_ids@.len() && completed_root_ids@[i] == id
                && !settlement_ids(settlements@).contains(id) && forall|j: int|
                0 <= j < i ==> settlement_ids(settlements@).contains(#[trigger] completed_root_ids@[j]),
            None => forall|i: int| 0 <= i < completed_root_ids@.len() ==> settlement_ids(settlements@).contains(
                #[trigger] completed_root_ids@[i],
            ),
        },
{
    let ghost ids = settlement_ids(settlements@);
    let mut i: usize = 0;
    while i < completed_root_ids.len()
        invariant
            i <= completed_root_ids@.len(),
            ids == settlement_ids(settlements@),
            forall|j: int| 0 <= j < i ==> ids.contains(#[trigger] completed_root_ids@[j]),
        decreases completed_root_ids@.len() - i,
    {
        let id = completed_root_ids[i];
        let mut found = false;
        let mut k: usize = 0;
        while k < settlements.len()
            invariant
                k <= settlements@.len(),
                ids == settlement_ids(settlements@),
                found <==> exists|q: int| 0 <= q < k && ids[q] == id,
            decreases settlements@.len() - k,
        {
            if settlements[k].item_id == id {
                assert(ids[k as int] == id);
                found = true;
            }
            k = k + 1;
        }
        if !found {
            return Some(id);
        }
        i = i + 1;
    }
    None
}

/// The result of checking one operation root before any child job runs.
#[derive(Clone, Debug)]
pub struct PreflightRootResult {
    pub item_id: u128,
    pub ok: bool,
    pub reason: Option<String>,
}

/// The results of checking every operation root.
#[derive(Clone, Debug)]
pub struct PreflightReport {
    pub roots: Vec<PreflightRootResult>,
}

/// The failure lines of the first `k` results: `id: reason` for each result with a reason.
pub open spec fn failure_lines(roots: Seq<PreflightRootResult>, k: int) -> Seq<Seq<char>>
    decreases k,
{
    if k <= 0 {
        Seq::<Seq<char>>::empty()
    } else {
        let prev = failure_lines(roots, k - 1);
        match roots[k - 1].reason {
            Some(r) => prev.push(uuid_hyphenated(roots[k - 1].item_id) + ": "@ + r@),
            None => prev,
        }
    }
}

impl PreflightReport {
    /// Whether every root passed.
    pub fn is_ok(&self) -> (b: bool)
        ensures
            b == forall|i: int| 0 <= i < self.roots@.len() ==> #[trigger] self.roots@[i].ok,
    {
        let mut i: usize = 0;
        while i < self.roots.len()
            invariant
                i <= self.roots@.len(),
                forall|j: int| 0 <= j < i ==> #[trigger] self.roots@[j].ok,
            decreases self.roots@.len() - i,
        {
            if !self.roots[i].ok {
                return false;
            }
            i = i + 1;
        }
        true
    }

    /// The reasons of the failed roots, each as `id: reason`, joined with `; `.
    pub fn failure_message(&self) -> (s: String)
        ensures
            s@ == crate::text::join_seq(failure_lines(self.roots@, self.roots@.len() as int), "; "@),
    {
        let mut parts: Vec<Vec<char>> = Vec::new();
        let mut i: usize = 0;
        while i < self.roots.len()
            invariant
                i <= self.roots@.len(),
                parts@.map_values(|p: Vec<char>| p@) == failure_lines(self.roots@, i as int),
            decreases self.roots@.len() - i,
        {
            match &self.roots[i].reason {
                Some(reason) => {
                    let mut line: Vec<char> = Vec::new();
                    let id = uuid_text(self.roots[i].item_id);
                    push_str(&mut line, id.as_str());
                    push_str(&mut line, ": ");
                    push_str(&mut line, reason.as_str());
                    let ghost before = parts@.map_values(|p: Vec<char>| p@);
                    parts.push(line);
                    assert(parts@.map_values(|p: Vec<char>| p@) =~= before.push(
                        uuid_hyphenated(self.roots@[i as int].item_id) + ": "@ + reason@,
                    ));
                },
                None => {},
            }
            i = i + 1;
        }
        let sep = chars_of("; ");
        let joined = crate::text::join_chars(parts.as_slice(), sep.as_slice());
        string_from_chars(joined.as_slice())
    }
}

/// The path of `value` below `root`: `value` without `root` and one `\`, or
/// `value` itself when it is not below `root` (or `root` is empty).
pub open spec fn relative_to_root_spec(root: Seq<char>, value: Seq<char>) -> Seq<char> {
    if root.len() == 0 {
        value
    } else if value.len() > root.len() && value.take(root.len() as int) == root && value[root.len() as int] == '\\' {
        value.skip(root.len() as int + 1)
    } else {
        value
    }
}

/// The path of `value` below `root`.
pub fn relative_to_root(root: &str, value: &str) -> (r: String)
    ensures
        r@ == relative_to_root_spec(root@, value@),
{
    let rc = chars_of(root);
    let vc = chars_of(value);
    if rc.len() == 0 {
        return copy_string(value);
    }
    if vc.len() > rc.len() && starts_with_chars(vc.as_slice(), rc.as_slice()) && vc[rc.len()] == '\\' {
        let rest = skip_chars(vc.as_slice(), rc.len() + 1);
        return string_from_chars(rest.as_slice());
    }
    copy_string(value)
}

/// The item kind a stored kind names; anything unknown is a directory.
pub fn parse_kind(kind: &str) -> (r: OrganizeItemKind)
    ensures
        r == (if kind@ == "file"@ {
            OrganizeItemKind::File
        } else if kind@ == "reparse_point"@ {
            OrganizeItemKind::ReparsePoint
        } else if kind@ == "unreadable"@ {
            OrganizeItemKind::Unreadable
        } else {
            OrganizeItemKind::Directory
        }),
{
    if str_eq(kind, "file") {
        OrganizeItemKind::File
    } else if str_eq(kind, "reparse_point") {
        OrganizeItemKind::ReparsePoint
    } else if str_eq(kind, "unreadable") {
        OrganizeItemKind::Unreadable
    } else {
        OrganizeItemKind::Directory
    }
}

/// The task status a stored status names.
pub open spec fn task_status_spec(value: Seq<char>) -> Option<OrganizeTaskStatus> {
    if value == "scanning"@ {
        Some(OrganizeTaskStatus::Scanning)
    } else if value == "active"@ {
        Some(OrganizeTaskStatus::Active)
    } else if value == "committing"@ {
        Some(OrganizeTaskStatus::Committing)
    } else if value == "completed"@ {
        Some(OrganizeTaskStatus::Completed)
    } else if value == "failed"@ {
        Some(OrganizeTaskStatus::Failed)
    } else {
        None
    }
}

/// The task status a stored status names, if any.
pub fn parse_task_status(value: &str) -> (r: Option<OrganizeTaskStatus>)
    ensures
        r == task_status_spec(value@),
{
    if str_eq(value, "scanning") {
        Some(OrganizeTaskStatus::Scanning)
    } else if str_eq(value, "active") {
        Some(OrganizeTaskStatus::Active)
    } else if str_eq(value, "committing") {
        Some(OrganizeTaskStatus::Committing)
    } else if str_eq(value, "completed") {
        Some(OrganizeTaskStatus::Completed)
    } else if str_eq(value, "failed") {
        Some(OrganizeTaskStatus::Failed)
    } else {
        None
    }
}

/// The operation state a stored state names.
pub open spec fn operation_state_spec(value: Seq<char>) -> Option<OrganizeOperationState> {
    if value == "none"@ {
        Some(OrganizeOperationState::NoOperation)
    } else if value == "pending"@ {
        Some(OrganizeOperationState::Pending)
    } else if value == "running"@ {
        Some(OrganizeOperationState::Running)
    } else if value == "applied"@ {
        Some(OrganizeOperationState::Applied)
    } else if value == "failed"@ {
        Some(OrganizeOperationState::Failed)
    } else {
        None
    }
}

/// The operation state a stored state names, if any.
pub fn parse_operation_state(value: &str) -> (r: Option<OrganizeOperationState>)
    ensures
        r == operation_state_spec(value@),
{
    if str_eq(value, "none") {
        Some(OrganizeOperationState::NoOperation)
    } else if str_eq(value, "pending") {
        Some(OrganizeOperationState::Pending)
    } else if str_eq(value, "running") {
        Some(OrganizeOperationState::Running)
    } else if str_eq(value, "applied") {
        Some(OrganizeOperationState::Applied)
    } else if str_eq(value, "failed") {
        Some(OrganizeOperationState::Failed)
    } else {
        None
    }
}

} // verus!

verus! {

/// Allowing current-subtree drift only ever lets more plans start, and what it
/// lets start in addition is a plan whose every blocking reason is drift.
pub proof fn law_drift_confirmation_only_overrides_drift(plan: OrganizeCommitPlanOutput)
    ensures
        can_start_spec(plan, false) ==> can_start_spec(plan, true),
        can_start_spec(plan, true) && !can_start_spec(plan, false) ==> plan.blocking_reasons@.len() > 0 && forall|i: int|
            0 <= i < plan.blocking_reasons@.len() ==> #[trigger] plan.blocking_reasons@[i] is CurrentSubtreeDrift,
        (exists|i: int| 0 <= i < plan.blocking_reasons@.len() && !(#[trigger] plan.blocking_reasons@[i] is CurrentSubtreeDrift))
            ==> !can_start_spec(plan, true),
{
}


/// What a commit request decides before any job starts.
#[derive(Clone, Copy, Debug, PartialEq, Eq, Structural)]
pub enum CommitDecision {
    StaleRevision { current_revision: i64 },
    RejectedState { status: OrganizeTaskStatus },
    /// The plan is blocked; its blocking reasons say why.
    RejectedBlockedPlan,
    RejectedPermanentConfirmation,
    Start,
}

/// The checks of a commit request on the task row: the caller's revision
/// first, then the task must be active. `None` lets the request go on to
/// its plan.
pub fn commit_task_gate(revision: i64, expected_revision: i64, status: &str) -> (r: Result<
    Option<CommitDecision>,
    OrganizeError,
>)
    ensures
        if revision != expected_revision {
            r == Ok::<Option<CommitDecision>, OrganizeError>(
                Some(CommitDecision::StaleRevision { current_revision: revision }),
            )
        } else {
            match task_status_spec(status@) {
                None => r matches Err(OrganizeError::InvalidTaskState(m)) && m@ == status@,
                Some(st) => if st != OrganizeTaskStatus::Active {
                    r == Ok::<Option<CommitDecision>, OrganizeError>(Some(CommitDecision::RejectedState { status: st }))
                } else {
                    r == Ok::<Option<CommitDecision>, OrganizeError>(None)
                },
            }
        },
{
    if revision != expected_revision {
        return Ok(Some(CommitDecision::StaleRevision { current_revision: revision }));
    }
    match parse_task_status(status) {
        None => Err(OrganizeError::InvalidTaskState(crate::text::copy_string(status))),
        Some(st) => {
            if st != OrganizeTaskStatus::Active {
                Ok(Some(CommitDecision::RejectedState { status: st }))
            } else {
                Ok(None)
            }
        },
    }
}

/// The checks of a commit request on its plan: it must be able to start,
/// and discards need the confirmation that they delete permanently.
pub fn commit_plan_gate(
    plan: &OrganizeCommitPlanOutput,
    allow_current_subtree_drift: bool,
    permanent_delete_confirmed: bool,
) -> (r: CommitDecision)
    ensures
        r == (if !can_start_spec(*plan, allow_current_subtree_drift) {
            CommitDecision::RejectedBlockedPlan
        } else if plan.discard_roots@.len() > 0 && !permanent_delete_confirmed {
            CommitDecision::RejectedPermanentConfirmation
        } else {
            CommitDecision::Start
        }),
{
    if !blocked_plan_can_start(plan, allow_current_subtree_drift) {
        return CommitDecision::RejectedBlockedPlan;
    }
    if plan.discard_roots.len() > 0 && !permanent_delete_confirmed {
        return CommitDecision::RejectedPermanentConfirmation;
    }
    CommitDecision::Start
}


/// Locking a task for its commit job: only an active task is locked, at the
/// revision the caller saw; it then moves to the next revision.
pub fn commit_lock_gate(status: &str, revision: i64, expected_revision: i64) -> (r: Result<i64, OrganizeError>)
    requires
        revision < i64::MAX,
    ensures
        status@ != "active"@ ==> (r matches Err(OrganizeError::InvalidTaskState(m)) && m@ == status@),
        status@ == "active"@ && revision != expected_revision ==> r == Err::<i64, OrganizeError>(
            OrganizeError::StaleRevision(revision),
        ),
        status@ == "active"@ && revision == expected_revision ==> r == Ok::<i64, OrganizeError>((revision + 1) as i64),
{
    if !crate::text::str_eq(status, "active") {
        return Err(OrganizeError::InvalidTaskState(crate::text::copy_string(status)));
    }
    if revision != expected_revision {
        return Err(OrganizeError::StaleRevision(revision));
    }
    Ok(revision + 1)
}

} // verus!
