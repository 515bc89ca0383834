//! The decisions of a running commit: which step comes next, and how the
//! outcome of each child job is recorded in the checkpoint.

use vstd::prelude::*;
use vstd::string::StringExecFns;
use crate::ids::{uuid_hyphenated, uuid_text};
use crate::organize::commit::{
    first_settlements, settlement_ids, unique_settlements, JobStatus, OperationSettlement, OrganizeCommitPhase, OrganizeCommitPlanOutput,
    OrganizeMoveGroup, OrganizePlanRoot,
};
use crate::organize::model::OrganizeOperationState;
use crate::text::{push_str, string_from_chars};

verus! {

/// Where a commit stands, as it is saved between steps.
#[derive(Clone, Debug)]
pub struct OrganizeCommitCheckpoint {
    pub phase: OrganizeCommitPhase,
    pub next_move_group: usize,
    pub active_child_job_id: Option<u128>,
    pub delete_dispatched: bool,
    pub completed_root_ids: Vec<u128>,
    pub settlements: Vec<OperationSettlement>,
}

/// What a commit does next.
#[derive(Clone, Copy, Debug, PartialEq, Eq, Structural)]
pub enum CommitAction {
    /// Check every root before any child job runs.
    Preflight,
    /// Move the group at this position.
    RunMoveGroup(usize),
    /// Delete the discard root at this position.
    RunDelete(usize),
    /// Record the outcome of every root.
    Settle,
}

/// The first discard root from position `j` on that is not completed.
pub open spec fn first_pending_discard(roots: Seq<OrganizePlanRoot>, completed: Seq<u128>, j: int) -> Option<int>
    decreases roots.len() - j,
{
    if j < 0 || j >= roots.len() {
        None
    } else if !completed.contains(roots[j].item_id) {
        Some(j)
    } else {
        first_pending_discard(roots, completed, j + 1)
    }
}

/// The next step: preflight first; then the move groups from the next one on;
/// then the discard roots not completed yet; then settlement.
pub open spec fn next_action_spec(plan: OrganizeCommitPlanOutput, cp: OrganizeCommitCheckpoint) -> CommitAction {
    if cp.phase == OrganizeCommitPhase::Preflight {
        CommitAction::Preflight
    } else if cp.next_move_group < plan.move_groups@.len() {
        CommitAction::RunMoveGroup(cp.next_move_group)
    } else {
        match first_pending_discard(plan.discard_roots@, cp.completed_root_ids@, 0) {
            Some(j) => CommitAction::RunDelete(j as usize),
            None => CommitAction::Settle,
        }
    }
}

fn contains_u128(v: &Vec<u128>, x: u128) -> (b: bool)
    ensures
        b == v@.contains(x),
{
    let mut j: usize = 0;
    while j < v.len()
        invariant
            j <= v@.len(),
            forall|q: int| 0 <= q < j ==> v@[q] != x,
        decreases v@.len() - j,
    {
        if v[j] == x {
            return true;
        }
        j = j + 1;
    }
    false
}

/// The next step of a commit.
pub fn next_commit_action(plan: &OrganizeCommitPlanOutput, cp: &OrganizeCommitCheckpoint) -> (a: CommitAction)
    ensures
        a == next_action_spec(*plan, *cp),
{
    if cp.phase == OrganizeCommitPhase::Preflight {
        return CommitAction::Preflight;
    }
    if cp.next_move_group < plan.move_groups.len() {
        return CommitAction::RunMoveGroup(cp.next_move_group);
    }
    let mut j: usize = 0;
    while j < plan.discard_roots.len()
        invariant
            j <= plan.discard_roots@.len(),
            cp.phase != OrganizeCommitPhase::Preflight,
            cp.next_move_group >= plan.move_groups@.len(),
            first_pending_discard(plan.discard_roots@, cp.completed_root_ids@, 0) == first_pending_discard(
                plan.discard_roots@,
                cp.completed_root_ids@,
                j as int,
            ),
        decreases plan.discard_roots@.len() - j,
    {
        if !contains_u128(&cp.completed_root_ids, plan.discard_roots[j].item_id) {
            return CommitAction::RunDelete(j);
        }
        j = j + 1;
    }
    CommitAction::Settle
}

/// Whether `s` records root `id` as applied at `now`, or as failed with `error`.
pub open spec fn settlement_is(s: OperationSettlement, id: u128, applied: bool, error: Seq<char>, now: i64) -> bool {
    &&& s.item_id == id
    &&& applied ==> s.state == OrganizeOperationState::Applied && s.last_error is None && s.applied_at == Some(now)
    &&& !applied ==> (s.state == OrganizeOperationState::Failed && s.applied_at is None && (s.last_error matches Some(e)
        && e@ == error))
}

/// The error text of an outcome (empty when it succeeded).
pub open spec fn outcome_error(outcome: Result<(), String>) -> Seq<char> {
    match outcome {
        Ok(()) => Seq::<char>::empty(),
        Err(e) => e@,
    }
}

/// Settlements that record roots as applied at `now` or as failed with `error`.
pub open spec fn settlements_are(s: Seq<OperationSettlement>, ids: Seq<u128>, applied: bool, error: Seq<char>, now: i64) -> bool {
    s.len() == ids.len() && forall|i: int| 0 <= i < s.len() ==> #[trigger] settlement_is(s[i], ids[i], applied, error, now)
}

/// The settlement of every root: applied at `now`, or failed with `error`.
pub fn settle_roots(ids: &Vec<u128>, applied: bool, error: &str, now: i64) -> (r: Vec<OperationSettlement>)
    ensures
        settlements_are(r@, ids@, applied, error@, now),
{
    let mut out: Vec<OperationSettlement> = Vec::new();
    let mut i: usize = 0;
    while i < ids.len()
        invariant
            i <= ids@.len(),
            out@.len() == i,
            forall|q: int| 0 <= q < i ==> #[trigger] settlement_is(out@[q], ids@[q], applied, error@, now),
        decreases ids@.len() - i,
    {
        let s = if applied {
            OperationSettlement { item_id: ids[i], state: OrganizeOperationState::Applied, last_error: None, applied_at: Some(now) }
        } else {
            OperationSettlement {
                item_id: ids[i],
                state: OrganizeOperationState::Failed,
                last_error: Some(String::from_str(error)),
                applied_at: None,
            }
        };
        out.push(s);
        i = i + 1;
    }
    out
}

/// The items of a group's roots.
pub open spec fn group_ids(g: OrganizeMoveGroup) -> Seq<u128> {
    g.roots@.map_values(|r: OrganizePlanRoot| r.item_id)
}

fn root_ids_of(roots: &Vec<OrganizePlanRoot>) -> (r: Vec<u128>)
    ensures
        r@ == roots@.map_values(|x: OrganizePlanRoot| x.item_id),
{
    let mut out: Vec<u128> = Vec::new();
    let mut i: usize = 0;
    while i < roots.len()
        invariant
            i <= roots@.len(),
            out@ == roots@.take(i as int).map_values(|x: OrganizePlanRoot| x.item_id),
        decreases roots@.len() - i,
    {
        out.push(roots[i].item_id);
        i = i + 1;
        assert(out@ =~= roots@.take(i as int).map_values(|x: OrganizePlanRoot| x.item_id));
    }
    assert(roots@.take(roots@.len() as int) =~= roots@);
    out
}

fn append_settlements(v: &mut Vec<OperationSettlement>, tail: Vec<OperationSettlement>)
    ensures
        final(v)@ == old(v)@ + tail@,
{
    let ghost start = v@;
    let ghost t = tail@;
    let mut rest = tail;
    while rest.len() > 0
        invariant
            v@ + rest@ == start + t,
        decreases rest@.len(),
    {
        let ghost before_v = v@;
        let ghost before_r = rest@;
        let x = rest.remove(0);
        v.push(x);
        assert(v@ + rest@ =~= before_v + before_r);
    }
    assert(v@ =~= v@ + rest@);
}

fn append_ids(v: &mut Vec<u128>, tail: &Vec<u128>)
    ensures
        final(v)@ == old(v)@ + tail@,
{
    let ghost start = v@;
    let mut i: usize = 0;
    while i < tail.len()
        invariant
            i <= tail@.len(),
            v@ == start + tail@.take(i as int),
        decreases tail@.len() - i,
    {
        v.push(tail[i]);
        i = i + 1;
        assert(v@ =~= start + tail@.take(i as int));
    }
    assert(tail@.take(tail@.len() as int) =~= tail@);
}

/// A copy of settlements.
fn copy_settlements(v: &Vec<OperationSettlement>) -> (r: Vec<OperationSettlement>)
    ensures
        r@ == v@,
{
    let mut out: Vec<OperationSettlement> = Vec::new();
    let mut i: usize = 0;
    while i < v.len()
        invariant
            i <= v@.len(),
            out@ == v@.take(i as int),
        decreases v@.len() - i,
    {
        let s = &v[i];
        out.push(OperationSettlement {
            item_id: s.item_id,
            state: s.state,
            last_error: match &s.last_error {
                Some(e) => Some(e.clone()),
                None => None,
            },
            applied_at: s.applied_at,
        });
        i = i + 1;
        assert(out@ =~= v@.take(i as int));
    }
    assert(v@.take(v@.len() as int) =~= v@);
    out
}

/// Record the outcome of the move group at `index`: its roots are settled,
/// completed, and the next group is the following one.
pub fn record_move_group(
    cp: &mut OrganizeCommitCheckpoint,
    settlements: &mut Vec<OperationSettlement>,
    group: &OrganizeMoveGroup,
    index: usize,
    outcome: &Result<(), String>,
    now: i64,
)
    requires
        index < usize::MAX,
    ensures
        final(settlements)@.len() == old(settlements)@.len() + group.roots@.len(),
        final(settlements)@.take(old(settlements)@.len() as int) == old(settlements)@,
        settlements_are(
            final(settlements)@.skip(old(settlements)@.len() as int),
            group_ids(*group),
            outcome is Ok,
            outcome_error(*outcome),
            now,
        ),
        final(cp).next_move_group == index + 1,
        final(cp).completed_root_ids@ == old(cp).completed_root_ids@ + group_ids(*group),
        final(cp).settlements@ == first_settlements(final(settlements)@),
        final(cp).active_child_job_id is None,
        final(cp).phase == old(cp).phase,
        final(cp).delete_dispatched == old(cp).delete_dispatched,
{
    cp.active_child_job_id = None;
    let ids = root_ids_of(&group.roots);
    let (applied, error) = match outcome {
        Ok(()) => (true, String::new()),
        Err(e) => (false, e.clone()),
    };
    let ghost before = settlements@;
    let added = settle_roots(&ids, applied, error.as_str(), now);
    let ghost av = added@;
    append_settlements(settlements, added);
    assert(settlements@.skip(before.len() as int) =~= av);
    assert(settlements@.take(before.len() as int) =~= before);
    cp.next_move_group = index + 1;
    append_ids(&mut cp.completed_root_ids, &ids);
    cp.settlements = unique_settlements(copy_settlements(settlements));
}

/// Record the outcome of deleting a discard root: it is settled and
/// completed, and the commit is in its delete phase.
pub fn record_delete(
    cp: &mut OrganizeCommitCheckpoint,
    settlements: &mut Vec<OperationSettlement>,
    root: &OrganizePlanRoot,
    outcome: &Result<(), String>,
    now: i64,
)
    ensures
        final(settlements)@.len() == old(settlements)@.len() + 1,
        final(settlements)@.drop_last() == old(settlements)@,
        settlement_is(final(settlements)@.last(), root.item_id, outcome is Ok, outcome_error(*outcome), now),
        final(cp).completed_root_ids@ == old(cp).completed_root_ids@.push(root.item_id),
        final(cp).settlements@ == first_settlements(final(settlements)@),
        final(cp).active_child_job_id is None,
        final(cp).phase == OrganizeCommitPhase::DeleteRoots,
        final(cp).delete_dispatched,
        final(cp).next_move_group == old(cp).next_move_group,
{
    cp.phase = OrganizeCommitPhase::DeleteRoots;
    cp.delete_dispatched = true;
    let s = match outcome {
        Ok(()) => OperationSettlement {
            item_id: root.item_id,
            state: OrganizeOperationState::Applied,
            last_error: None,
            applied_at: Some(now),
        },
        Err(e) => OperationSettlement {
            item_id: root.item_id,
            state: OrganizeOperationState::Failed,
            last_error: Some(e.clone()),
            applied_at: None,
        },
    };
    let ghost before = settlements@;
    settlements.push(s);
    assert(settlements@.drop_last() =~= before);
    cp.completed_root_ids.push(root.item_id);
    cp.active_child_job_id = None;
    cp.settlements = unique_settlements(copy_settlements(settlements));
}

} // verus!

verus! {

/// The name a job status is shown by.
pub open spec fn job_status_name(s: JobStatus) -> Seq<char> {
    match s {
        JobStatus::Queued => "Queued"@,
        JobStatus::Running => "Running"@,
        JobStatus::Paused => "Paused"@,
        JobStatus::Completed => "Completed"@,
        JobStatus::Failed => "Failed"@,
        JobStatus::Cancelled => "Cancelled"@,
    }
}

fn push_job_status(v: &mut Vec<char>, s: JobStatus)
    ensures
        final(v)@ == old(v)@ + job_status_name(s),
{
    match s {
        JobStatus::Queued => push_str(v, "Queued"),
        JobStatus::Running => push_str(v, "Running"),
        JobStatus::Paused => push_str(v, "Paused"),
        JobStatus::Completed => push_str(v, "Completed"),
        JobStatus::Failed => push_str(v, "Failed"),
        JobStatus::Cancelled => push_str(v, "Cancelled"),
    }
}

/// The error recorded for roots whose child job did not complete.
pub open spec fn child_error(child: u128, status: JobStatus) -> Seq<char> {
    "child job "@ + uuid_hyphenated(child) + " ended with "@ + job_status_name(status)
}

/// The roots the active child job worked on: the next move group's roots, or
/// the first discard root not completed yet.
pub open spec fn child_roots(plan: OrganizeCommitPlanOutput, cp: OrganizeCommitCheckpoint) -> Seq<u128> {
    match cp.phase {
        OrganizeCommitPhase::MoveGroups => if cp.next_move_group < plan.move_groups@.len() {
            group_ids(plan.move_groups@[cp.next_move_group as int])
        } else {
            Seq::<u128>::empty()
        },
        OrganizeCommitPhase::DeleteRoots => match first_pending_discard(plan.discard_roots@, cp.completed_root_ids@, 0) {
            Some(j) => seq![plan.discard_roots@[j].item_id],
            None => Seq::<u128>::empty(),
        },
        _ => Seq::<u128>::empty(),
    }
}

/// Settle what a child job that was running when the commit stopped did: its
/// roots are applied when it completed, else failed; a move group counts as
/// done either way.
pub fn reconcile_child(
    cp: &mut OrganizeCommitCheckpoint,
    settlements: &mut Vec<OperationSettlement>,
    plan: &OrganizeCommitPlanOutput,
    status: JobStatus,
    now: i64,
)
    requires
        old(cp).next_move_group < usize::MAX,
    ensures
        match old(cp).active_child_job_id {
            None => *final(cp) == *old(cp) && final(settlements)@ == old(settlements)@,
            Some(child) => {
                let roots = child_roots(*plan, *old(cp));
                &&& final(settlements)@.len() == old(settlements)@.len() + roots.len()
                &&& final(settlements)@.take(old(settlements)@.len() as int) == old(settlements)@
                &&& settlements_are(
                    final(settlements)@.skip(old(settlements)@.len() as int),
                    roots,
                    status == JobStatus::Completed,
                    child_error(child, status),
                    now,
                )
                &&& final(cp).completed_root_ids@ == old(cp).completed_root_ids@ + roots
                &&& final(cp).next_move_group == if old(cp).phase == OrganizeCommitPhase::MoveGroups
                    && plan.move_groups@.len() > 0 {
                    old(cp).next_move_group + 1
                } else {
                    old(cp).next_move_group as int
                }
                &&& final(cp).active_child_job_id is None
                &&& !final(cp).delete_dispatched
                &&& final(cp).phase == old(cp).phase
                &&& final(cp).settlements@ == first_settlements(final(settlements)@)
            },
        },
{
    let child = match cp.active_child_job_id {
        None => {
            return;
        },
        Some(c) => c,
    };
    let succeeded = status == JobStatus::Completed;
    let mut msg: Vec<char> = Vec::new();
    push_str(&mut msg, "child job ");
    let text = uuid_text(child);
    push_str(&mut msg, text.as_str());
    push_str(&mut msg, " ended with ");
    push_job_status(&mut msg, status);
    let message = string_from_chars(msg.as_slice());
    let roots: Vec<u128> = match cp.phase {
        OrganizeCommitPhase::MoveGroups => if cp.next_move_group < plan.move_groups.len() {
            root_ids_of(&plan.move_groups[cp.next_move_group].roots)
        } else {
            Vec::new()
        },
        OrganizeCommitPhase::DeleteRoots => {
            let mut found: Vec<u128> = Vec::new();
            let mut j: usize = 0;
            while j < plan.discard_roots.len() && found.len() == 0
                invariant
                    j <= plan.discard_roots@.len(),
                    found@.len() == 0 ==> first_pending_discard(plan.discard_roots@, cp.completed_root_ids@, 0)
                        == first_pending_discard(plan.discard_roots@, cp.completed_root_ids@, j as int),
                    found@.len() > 0 ==> match first_pending_discard(plan.discard_roots@, cp.completed_root_ids@, 0) {
                        Some(w) => found@ == seq![plan.discard_roots@[w].item_id],
                        None => false,
                    },
                decreases plan.discard_roots@.len() - j + (if found@.len() == 0 { 1int } else { 0int }),
            {
                if !contains_u128(&cp.completed_root_ids, plan.discard_roots[j].item_id) {
                    found.push(plan.discard_roots[j].item_id);
                    assert(found@ =~= seq![plan.discard_roots@[j as int].item_id]);
                } else {
                    j = j + 1;
                }
            }
            found
        },
        _ => Vec::new(),
    };
    assert(roots@ == child_roots(*plan, *old(cp)));
    let ghost before = settlements@;
    let added = settle_roots(&roots, succeeded, message.as_str(), now);
    let ghost av = added@;
    append_settlements(settlements, added);
    assert(settlements@.skip(before.len() as int) =~= av);
    assert(settlements@.take(before.len() as int) =~= before);
    append_ids(&mut cp.completed_root_ids, &roots);
    if cp.phase == OrganizeCommitPhase::MoveGroups && plan.move_groups.len() > 0 {
        cp.next_move_group = cp.next_move_group + 1;
    }
    cp.active_child_job_id = None;
    cp.delete_dispatched = false;
    cp.settlements = unique_settlements(copy_settlements(settlements));
}

/// Every root of a plan: the move groups' roots in order, then the discard roots.
pub open spec fn plan_root_ids(plan: OrganizeCommitPlanOutput) -> Seq<u128> {
    plan.move_groups@.map_values(|g: OrganizeMoveGroup| group_ids(g)).flatten() + plan.discard_roots@.map_values(
        |r: OrganizePlanRoot| r.item_id,
    )
}

/// The settlement of every root of a plan with one outcome (first per item),
/// as when the commit fails before any child job or is cancelled.
pub fn settle_all_roots(plan: &OrganizeCommitPlanOutput, message: &str, applied: bool, now: i64) -> (r: Vec<
    OperationSettlement,
>)
    ensures
        exists|s: Seq<OperationSettlement>| #[trigger] settlements_are(s, plan_root_ids(*plan), applied, message@, now) && r@
            == first_settlements(s),
{
    let mut ids: Vec<u128> = Vec::new();
    let mut g: usize = 0;
    while g < plan.move_groups.len()
        invariant
            g <= plan.move_groups@.len(),
            ids@ == plan.move_groups@.take(g as int).map_values(|x: OrganizeMoveGroup| group_ids(x)).flatten(),
        decreases plan.move_groups@.len() - g,
    {
        let more = root_ids_of(&plan.move_groups[g].roots);
        append_ids(&mut ids, &more);
        proof {
            let gs = plan.move_groups@.take(g + 1).map_values(|x: OrganizeMoveGroup| group_ids(x));
            assert(gs.drop_last() =~= plan.move_groups@.take(g as int).map_values(|x: OrganizeMoveGroup| group_ids(x)));
            gs.drop_last().lemma_flatten_push(gs.last());
            assert(gs =~= gs.drop_last().push(gs.last()));
            assert(gs.last() == group_ids(plan.move_groups@[g as int]));
        }
        g = g + 1;
    }
    assert(plan.move_groups@.take(plan.move_groups@.len() as int) =~= plan.move_groups@);
    let discards = root_ids_of(&plan.discard_roots);
    append_ids(&mut ids, &discards);
    assert(ids@ =~= plan_root_ids(*plan));
    let all = settle_roots(&ids, applied, message, now);
    let ghost sv = all@;
    assert(settlements_are(sv, plan_root_ids(*plan), applied, message@, now));
    unique_settlements(all)
}

/// The applied and failed items of the final settlements, in order.
pub fn commit_result_ids(unique: &Vec<OperationSettlement>) -> (r: (Vec<u128>, Vec<u128>))
    ensures
        r.0@ == unique@.filter(|s: OperationSettlement| s.state == OrganizeOperationState::Applied).map_values(
            |s: OperationSettlement| s.item_id,
        ),
        r.1@ == unique@.filter(|s: OperationSettlement| s.state == OrganizeOperationState::Failed).map_values(
            |s: OperationSettlement| s.item_id,
        ),
{
    let mut applied: Vec<u128> = Vec::new();
    let mut failed: Vec<u128> = Vec::new();
    let mut i: usize = 0;
    while i < unique.len()
        invariant
            i <= unique@.len(),
            applied@ == unique@.take(i as int).filter(|s: OperationSettlement| s.state == OrganizeOperationState::Applied).map_values(
                |s: OperationSettlement| s.item_id,
            ),
            failed@ == unique@.take(i as int).filter(|s: OperationSettlement| s.state == OrganizeOperationState::Failed).map_values(
                |s: OperationSettlement| s.item_id,
            ),
        decreases unique@.len() - i,
    {
        let s = &unique[i];
        proof {
            let t = unique@.take(i + 1);
            assert(t.drop_last() =~= unique@.take(i as int));
            assert(t.last() == unique@[i as int]);
            assert(t =~= t.drop_last().push(t.last()));
            t.drop_last().lemma_filter_push(t.last(), |s: OperationSettlement| s.state == OrganizeOperationState::Applied);
            t.drop_last().lemma_filter_push(t.last(), |s: OperationSettlement| s.state == OrganizeOperationState::Failed);
        }
        match s.state {
            OrganizeOperationState::Applied => {
                applied.push(s.item_id);
            },
            OrganizeOperationState::Failed => {
                failed.push(s.item_id);
            },
            _ => {},
        }
        i = i + 1;
    }
    assert(unique@.take(unique@.len() as int) =~= unique@);
    (applied, failed)
}

} // verus!

verus! {

/// Enter settlement: only the first settlement of each root counts, and the
/// checkpoint completes exactly those roots. The unique settlements are
/// returned for storing.
pub fn finish_settlement(cp: &mut OrganizeCommitCheckpoint, settlements: Vec<OperationSettlement>) -> (r: Vec<OperationSettlement>)
    ensures
        r@ == first_settlements(settlements@),
        final(cp).phase == OrganizeCommitPhase::Settle,
        final(cp).completed_root_ids@ == settlement_ids(r@),
        final(cp).settlements@ == r@,
        final(cp).next_move_group == old(cp).next_move_group,
        final(cp).active_child_job_id == old(cp).active_child_job_id,
        final(cp).delete_dispatched == old(cp).delete_dispatched,
{
    cp.phase = OrganizeCommitPhase::Settle;
    let unique = unique_settlements(settlements);
    let mut ids: Vec<u128> = Vec::new();
    let mut i: usize = 0;
    while i < unique.len()
        invariant
            i <= unique@.len(),
            ids@ == settlement_ids(unique@.take(i as int)),
        decreases unique@.len() - i,
    {
        ids.push(unique[i].item_id);
        i = i + 1;
        assert(ids@ =~= settlement_ids(unique@.take(i as int)));
    }
    assert(unique@.take(unique@.len() as int) =~= unique@);
    cp.completed_root_ids = ids;
    cp.settlements = copy_settlements(&unique);
    unique
}

/// Only the first settlement of a root counts: the settlements kept name
/// every root at most once, and every root that was settled.
pub proof fn law_first_settlements_name_each_root_once(s: Seq<OperationSettlement>)
    ensures
        settlement_ids(first_settlements(s)).no_duplicates(),
        forall|id: u128| #[trigger] settlement_ids(first_settlements(s)).contains(id)
            <==> settlement_ids(s).contains(id),
    decreases s.len(),
{
    if s.len() > 0 {
        let d = s.drop_last();
        law_first_settlements_name_each_root_once(d);
        let prev = first_settlements(d);
        let ids = settlement_ids(first_settlements(s));
        let pids = settlement_ids(prev);
        if pids.contains(s.last().item_id) {
        } else {
            assert(ids =~= pids.push(s.last().item_id));
        }
        assert forall|id: u128| #[trigger] ids.contains(id) <==> settlement_ids(s).contains(id) by {
            assert(settlement_ids(s) =~= settlement_ids(d).push(s.last().item_id));
            assert(pids.contains(id) <==> settlement_ids(d).contains(id));
            assert(pids.contains(s.last().item_id) <==> settlement_ids(d).contains(s.last().item_id));
            assert(settlement_ids(s)[d.len() as int] == s.last().item_id);
            if settlement_ids(d).contains(id) {
                let k = choose|k: int| 0 <= k < settlement_ids(d).len() && settlement_ids(d)[k] == id;
                assert(settlement_ids(s)[k] == id);
            }
            if settlement_ids(s).contains(id) {
                let k = choose|k: int| 0 <= k < settlement_ids(s).len() && settlement_ids(s)[k] == id;
                if k < d.len() {
                    assert(settlement_ids(d)[k] == id);
                }
            }
            if !pids.contains(s.last().item_id) {
                if pids.contains(id) {
                    let k = choose|k: int| 0 <= k < pids.len() && pids[k] == id;
                    assert(ids[k] == id);
                }
                if ids.contains(id) && id != s.last().item_id {
                    let k = choose|k: int| 0 <= k < ids.len() && ids[k] == id;
                    assert(pids[k] == id);
                }
                assert(ids[pids.len() as int] == s.last().item_id);
            }
        }
    }
}


proof fn lemma_first_pending(roots: Seq<OrganizePlanRoot>, completed: Seq<u128>, j: int)
    requires
        0 <= j,
    ensures
        match first_pending_discard(roots, completed, j) {
            Some(p) => j <= p < roots.len() && !completed.contains(roots[p].item_id) && forall|q: int|
                j <= q < p ==> completed.contains(#[trigger] roots[q].item_id),
            None => forall|q: int| j <= q < roots.len() ==> completed.contains(#[trigger] roots[q].item_id),
        },
    decreases roots.len() - j,
{
    if j < roots.len() && completed.contains(roots[j].item_id) {
        lemma_first_pending(roots, completed, j + 1);
    }
}

/// The order of a commit: nothing runs before the preflight; every move group
/// runs, in plan order, before any root is deleted; deletes go to discard
/// roots not completed yet, the earliest first; settlement comes only when
/// every move group has run and every discard root is completed.
pub proof fn law_commit_order(plan: OrganizeCommitPlanOutput, cp: OrganizeCommitCheckpoint)
    ensures
        cp.phase == OrganizeCommitPhase::Preflight ==> next_action_spec(plan, cp) == CommitAction::Preflight,
        next_action_spec(plan, cp) matches CommitAction::RunMoveGroup(g) ==> g == cp.next_move_group && g
            < plan.move_groups@.len(),
        next_action_spec(plan, cp) matches CommitAction::RunDelete(j) ==> cp.next_move_group >= plan.move_groups@.len()
            && j < plan.discard_roots@.len() && !cp.completed_root_ids@.contains(plan.discard_roots@[j as int].item_id)
            && forall|q: int| 0 <= q < j ==> cp.completed_root_ids@.contains(#[trigger] plan.discard_roots@[q].item_id),
        next_action_spec(plan, cp) == CommitAction::Settle ==> cp.phase != OrganizeCommitPhase::Preflight
            && cp.next_move_group >= plan.move_groups@.len() && forall|q: int|
            0 <= q < plan.discard_roots@.len() ==> cp.completed_root_ids@.contains(#[trigger] plan.discard_roots@[q].item_id),
{
    lemma_first_pending(plan.discard_roots@, cp.completed_root_ids@, 0);
    assert(plan.discard_roots@.len() == plan.discard_roots.len());
    if let Some(p) = first_pending_discard(plan.discard_roots@, cp.completed_root_ids@, 0) {
        assert((p as usize) as int == p);
    }
}

} // verus!
