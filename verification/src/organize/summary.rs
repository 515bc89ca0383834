//! What a task's stored rows say of it as a whole: whether it may finish,
//! and its summary.

use vstd::prelude::*;
use vstd::string::StringExecFns;
use crate::addressing::SdPath;
use crate::organize::commit::{parse_task_status, task_status_spec};
use crate::organize::error::OrganizeError;
use crate::organize::model::{
    DecisionTreeState, ExplicitDecisionRoot, OrganizeOperationState, OrganizeProgressSummary, OrganizeTaskStatus,
    TreeItemComputed,
};
use crate::organize::plan::{included, OrganizeTaskItemRecord};
use crate::organize::records::{
    decided, decision_tree_state, first_state_decision_error, first_state_node_error, state_decision, state_node,
    tree_state_is,
};
use crate::organize::tree::{
    compact_operation_roots, compacted_is, invalid_kept_root, kept_units, outer_units, progress_is, reduce_progress,
    root_before, root_shadowed, saturate, UnitKind,
};
use crate::text::{concat2, copy_string, str_eq};

verus! {

/// The outermost decision roots, each once, that are in state `st`.
pub open spec fn kept_in_state(decs: Seq<ExplicitDecisionRoot>, st: OrganizeOperationState) -> Set<ExplicitDecisionRoot> {
    Set::new(
        |x: ExplicitDecisionRoot|
            (exists|k: int| 0 <= k < decs.len() && decs[k] == x && !#[trigger] root_shadowed(decs, k)) && x.operation_state
                == st,
    )
}

/// How many of the compacted roots are in state `st`.
fn count_in_state(
    roots: &Vec<ExplicitDecisionRoot>,
    st: OrganizeOperationState,
    Ghost(decs): Ghost<Seq<ExplicitDecisionRoot>>,
) -> (c: u64)
    requires
        compacted_is(roots@, decs),
        roots@.len() <= u64::MAX,
    ensures
        kept_in_state(decs, st).finite(),
        c == kept_in_state(decs, st).len(),
{
    let ghost mut seen: Set<ExplicitDecisionRoot> = Set::empty();
    let mut c: u64 = 0;
    let mut i: usize = 0;
    while i < roots.len()
        invariant
            i <= roots@.len(),
            roots@.len() <= u64::MAX,
            compacted_is(roots@, decs),
            seen.finite(),
            c == seen.len(),
            c <= i,
            forall|x: ExplicitDecisionRoot| #[trigger] seen.contains(x) <==> exists|k: int|
                0 <= k < i && roots@[k] == x && x.operation_state == st,
        decreases roots@.len() - i,
    {
        if roots[i].operation_state == st {
            proof {
                assert forall|k: int| 0 <= k < i implies roots@[k] != roots@[i as int] by {
                    assert(root_before(roots@[k], roots@[i as int]));
                }
                assert(!seen.contains(roots@[i as int]));
                let x = roots@[i as int];
                assert forall|y: ExplicitDecisionRoot| #[trigger] seen.insert(x).contains(y) <==> exists|k: int|
                    0 <= k < i + 1 && roots@[k] == y && y.operation_state == st by {
                    if y == x {
                        assert(roots@[i as int] == y);
                    }
                }
                seen = seen.insert(x);
            }
            c = c + 1;
        } else {
            proof {
                assert forall|y: ExplicitDecisionRoot| #[trigger] seen.contains(y) <==> exists|k: int|
                    0 <= k < i + 1 && roots@[k] == y && y.operation_state == st by {
                    if exists|k: int| 0 <= k < i + 1 && roots@[k] == y && y.operation_state == st {
                        let k = choose|k: int| 0 <= k < i + 1 && roots@[k] == y && y.operation_state == st;
                        assert(k != i);
                    }
                }
            }
        }
        i = i + 1;
    }
    proof {
        assert forall|x: ExplicitDecisionRoot| #[trigger] seen.contains(x) <==> kept_in_state(decs, st).contains(x) by {
            if seen.contains(x) {
                let k = choose|k: int| 0 <= k < roots@.len() && roots@[k] == x && x.operation_state == st;
                assert(roots@.contains(x));
            }
            if kept_in_state(decs, st).contains(x) {
                assert(roots@.contains(x));
                let k = choose|k: int| 0 <= k < roots@.len() && roots@[k] == x;
                assert(0 <= k < roots@.len() && roots@[k] == x && x.operation_state == st);
            }
        }
        assert(seen =~= kept_in_state(decs, st));
    }
    c
}

/// The computed nodes of the included rows.
pub open spec fn state_nodes(items: Seq<OrganizeTaskItemRecord>) -> Seq<TreeItemComputed> {
    included(items).map_values(|it: OrganizeTaskItemRecord| state_node(it))
}

/// The decision roots of the included rows.
pub open spec fn state_decisions(items: Seq<OrganizeTaskItemRecord>) -> Seq<ExplicitDecisionRoot> {
    decided(included(items)).map_values(|it: OrganizeTaskItemRecord| state_decision(it))
}

/// The rows give a decision tree.
pub open spec fn state_ok(items: Seq<OrganizeTaskItemRecord>) -> bool {
    let inc = included(items);
    let ds = decided(inc);
    first_state_node_error(inc, inc.len() as int) is None && first_state_decision_error(ds, ds.len() as int) is None
}

/// The progress of a decision tree is counted within 64 bits.
pub open spec fn state_fits(items: Seq<OrganizeTaskItemRecord>) -> bool {
    let nodes = state_nodes(items);
    let decs = state_decisions(items);
    state_ok(items) ==> {
        &&& outer_units(nodes, nodes.len() as int) <= u64::MAX
        &&& !invalid_kept_root(decs) ==> kept_units(decs, UnitKind::Keep, decs.len() as int) <= u64::MAX
            && kept_units(decs, UnitKind::Discard, decs.len() as int) <= u64::MAX && kept_units(
            decs,
            UnitKind::Move,
            decs.len() as int,
        ) <= u64::MAX
        &&& decs.len() <= u64::MAX
    }
}

/// The error the rows give as a tree and progress, if any.
pub open spec fn state_error(items: Seq<OrganizeTaskItemRecord>) -> Option<Seq<char>> {
    let inc = included(items);
    let ds = decided(inc);
    match first_state_node_error(inc, inc.len() as int) {
        Some(m) => Some(m),
        None => match first_state_decision_error(ds, ds.len() as int) {
            Some(m) => Some(m),
            None => {
                let nodes = state_nodes(items);
                let decs = state_decisions(items);
                if invalid_kept_root(decs) {
                    Some(crate::organize::tree::msg_invalid_root())
                } else if saturate(kept_units(decs, UnitKind::All, decs.len() as int)) > outer_units(
                    nodes,
                    nodes.len() as int,
                ) {
                    Some(crate::organize::tree::msg_roots_exceed())
                } else {
                    None
                }
            },
        },
    }
}

/// The units no decision covers.
pub open spec fn unmarked_of(items: Seq<OrganizeTaskItemRecord>) -> int {
    let nodes = state_nodes(items);
    let decs = state_decisions(items);
    outer_units(nodes, nodes.len() as int) - saturate(kept_units(decs, UnitKind::All, decs.len() as int))
}

/// The progress and the decision roots of the rows.
fn state_progress(items: &[OrganizeTaskItemRecord]) -> (r: Result<
    (OrganizeProgressSummary, Vec<ExplicitDecisionRoot>),
    OrganizeError,
>)
    requires
        state_fits(items@),
    ensures
        match state_error(items@) {
            Some(m) => r matches Err(OrganizeError::InvalidTree(e)) && e@ == m,
            None => r matches Ok((p, decs)) && progress_is(Ok(p), state_nodes(items@), state_decisions(items@))
                && decs@ == state_decisions(items@),
        },
{
    let state = match decision_tree_state(items) {
        Ok(s) => s,
        Err(e) => {
            return Err(e);
        },
    };
    assert(state.nodes@ == state_nodes(items@));
    assert(state.decisions@ == state_decisions(items@));
    match reduce_progress(state.nodes.as_slice(), state.decisions.as_slice()) {
        Ok(p) => Ok((p, state.decisions)),
        Err(e) => Err(e),
    }
}

/// What finishing a task did.
#[derive(Clone, Copy, Debug, PartialEq, Eq, Structural)]
pub enum OrganizeFinishOutcome {
    Completed { revision: i64 },
    ConfirmationRequired { unmarked_units: u64 },
    StaleRevision { current_revision: i64 },
    RejectedPendingOperations { pending: u64, running: u64, failed: u64 },
}

/// Finishing a task: only an active task at the caller's revision; units no
/// decision covers need confirmation; operations still pending, running or
/// failed refuse it; else the task completes at the next revision.
pub fn decide_finish(
    status: &str,
    revision: i64,
    expected_revision: i64,
    confirm_unmarked: bool,
    items: &[OrganizeTaskItemRecord],
) -> (r: Result<OrganizeFinishOutcome, OrganizeError>)
    requires
        revision < i64::MAX,
        state_fits(items@),
    ensures
        if status@ != "active"@ {
            r matches Err(OrganizeError::InvalidTaskState(m)) && m@ == status@
        } else if revision != expected_revision {
            r == Ok::<OrganizeFinishOutcome, OrganizeError>(
                OrganizeFinishOutcome::StaleRevision { current_revision: revision },
            )
        } else if state_error(items@) is Some {
            r matches Err(OrganizeError::InvalidTree(e)) && e@ == state_error(items@)->Some_0
        } else if unmarked_of(items@) > 0 && !confirm_unmarked {
            r == Ok::<OrganizeFinishOutcome, OrganizeError>(
                OrganizeFinishOutcome::ConfirmationRequired { unmarked_units: unmarked_of(items@) as u64 },
            )
        } else {
            let decs = state_decisions(items@);
            let pending = kept_in_state(decs, OrganizeOperationState::Pending).len();
            let running = kept_in_state(decs, OrganizeOperationState::Running).len();
            let failed = kept_in_state(decs, OrganizeOperationState::Failed).len();
            if pending > 0 || running > 0 || failed > 0 {
                r == Ok::<OrganizeFinishOutcome, OrganizeError>(
                    OrganizeFinishOutcome::RejectedPendingOperations {
                        pending: pending as u64,
                        running: running as u64,
                        failed: failed as u64,
                    },
                )
            } else {
                r == Ok::<OrganizeFinishOutcome, OrganizeError>(
                    OrganizeFinishOutcome::Completed { revision: (revision + 1) as i64 },
                )
            }
        },
{
    if !str_eq(status, "active") {
        return Err(OrganizeError::InvalidTaskState(copy_string(status)));
    }
    if revision != expected_revision {
        return Ok(OrganizeFinishOutcome::StaleRevision { current_revision: revision });
    }
    let (progress, decs) = match state_progress(items) {
        Ok(v) => v,
        Err(e) => {
            return Err(e);
        },
    };
    if progress.unmarked_units > 0 && !confirm_unmarked {
        return Ok(OrganizeFinishOutcome::ConfirmationRequired { unmarked_units: progress.unmarked_units });
    }
    let roots = compact_operation_roots(decs.as_slice());
    proof {
        lemma_compacted_len(roots@, decs@);
    }
    let pending = count_in_state(&roots, OrganizeOperationState::Pending, Ghost(decs@));
    let running = count_in_state(&roots, OrganizeOperationState::Running, Ghost(decs@));
    let failed = count_in_state(&roots, OrganizeOperationState::Failed, Ghost(decs@));
    if pending > 0 || running > 0 || failed > 0 {
        return Ok(OrganizeFinishOutcome::RejectedPendingOperations { pending, running, failed });
    }
    Ok(OrganizeFinishOutcome::Completed { revision: revision + 1 })
}

/// A compacted list holds each of its roots once, so no more than the
/// decisions it came from.
proof fn lemma_compacted_len(out: Seq<ExplicitDecisionRoot>, decs: Seq<ExplicitDecisionRoot>)
    requires
        compacted_is(out, decs),
    ensures
        out.len() <= decs.len(),
{
    assert forall|a: int, b: int| 0 <= a < out.len() && 0 <= b < out.len() && a != b implies out[a] != out[b] by {
        if a < b {
            assert(root_before(out[a], out[b]));
        } else {
            assert(root_before(out[b], out[a]));
        }
    }
    assert(out.no_duplicates());
    out.unique_seq_to_set();
    let img = Set::new(|x: ExplicitDecisionRoot| exists|k: int| 0 <= k < decs.len() && decs[k] == x);
    assert(img =~= decs.to_set());
    decs.lemma_cardinality_of_set();
    assert forall|x: ExplicitDecisionRoot| out.to_set().contains(x) implies img.contains(x) by {
        assert(out.contains(x));
    }
    vstd::set_lib::lemma_len_subset(out.to_set(), img);
}


/// The stored row of a task as its summary reads it; times in milliseconds
/// since the Unix epoch.
#[derive(Clone, Debug)]
pub struct OrganizeTaskRow {
    pub id: u128,
    pub name: String,
    pub root_path: String,
    pub device_slug: String,
    pub status: String,
    pub revision: i64,
    pub snapshot_version: i32,
    pub scan_issue_count: i64,
    pub pending_addition_count: i64,
    pub scan_job_id: Option<u128>,
    pub commit_job_id: Option<u128>,
    pub last_error: Option<String>,
    pub completed_at: Option<i64>,
}

/// The summary of a task.
#[derive(Clone, Debug)]
pub struct OrganizeTaskSummary {
    pub id: u128,
    pub name: String,
    pub root_path: String,
    pub root_sd_path: SdPath,
    pub status: OrganizeTaskStatus,
    pub revision: i64,
    pub snapshot_version: i32,
    pub total_entries: u64,
    pub total_bytes: u64,
    pub progress: OrganizeProgressSummary,
    pub scan_issue_count: u64,
    pub pending_addition_count: u64,
    pub failed_operation_count: u64,
    pub changed_count: u64,
    pub missing_count: u64,
    pub scan_job_id: Option<u128>,
    pub commit_job_id: Option<u128>,
    pub last_error: Option<String>,
    pub completed_at: Option<i64>,
}

/// The bytes of the files among the first `k` rows, negative sizes as 0.
pub open spec fn file_bytes_of(items: Seq<OrganizeTaskItemRecord>, k: int) -> nat
    decreases k,
{
    if k <= 0 {
        0
    } else {
        file_bytes_of(items, k - 1) + if items[k - 1].kind@ == "file"@ && items[k - 1].size_bytes > 0 {
            items[k - 1].size_bytes as nat
        } else {
            0nat
        }
    }
}

/// The rows among the first `k` in external state `state`.
pub open spec fn external_count(items: Seq<OrganizeTaskItemRecord>, state: Seq<char>, k: int) -> nat
    decreases k,
{
    if k <= 0 {
        0
    } else {
        external_count(items, state, k - 1) + if items[k - 1].external_state@ == state {
            1nat
        } else {
            0nat
        }
    }
}

proof fn lemma_counts_bound(items: Seq<OrganizeTaskItemRecord>, state: Seq<char>, a: int, b: int)
    requires
        0 <= a <= b,
    ensures
        external_count(items, state, a) <= external_count(items, state, b),
        external_count(items, state, b) - external_count(items, state, a) <= b - a,
        file_bytes_of(items, a) <= file_bytes_of(items, b),
    decreases b - a,
{
    if a < b {
        lemma_counts_bound(items, state, a, b - 1);
    }
}

/// Two optional texts hold the same characters.
pub open spec fn same_text(a: Option<String>, b: Option<String>) -> bool {
    match (a, b) {
        (Some(x), Some(y)) => x@ == y@,
        (None, None) => true,
        _ => false,
    }
}

/// A count of `0` or more as an unsigned number.
pub open spec fn non_negative(v: i64) -> u64 {
    if v < 0 {
        0
    } else {
        v as u64
    }
}

fn count_external(items: &[OrganizeTaskItemRecord], state: &str) -> (c: u64)
    requires
        items@.len() <= u64::MAX,
    ensures
        c == external_count(items@, state@, items@.len() as int),
{
    let mut c: u64 = 0;
    let mut i: usize = 0;
    while i < items.len()
        invariant
            i <= items@.len(),
            items@.len() <= u64::MAX,
            c == external_count(items@, state@, i as int),
        decreases items@.len() - i,
    {
        proof {
            lemma_counts_bound(items@, state@, 0, i + 1);
        }
        if str_eq(items[i].external_state.as_str(), state) {
            c = c + 1;
        }
        i = i + 1;
    }
    c
}

proof fn lemma_included_take(items: Seq<OrganizeTaskItemRecord>, i: int)
    requires
        0 <= i <= items.len(),
    ensures
        included(items.take(i)).len() <= included(items).len(),
        included(items.take(i)) == included(items).take(included(items.take(i)).len() as int),
    decreases items.len(),
{
    if i < items.len() {
        let d = items.drop_last();
        assert(items.take(i) =~= d.take(i));
        lemma_included_take(d, i);
        let a = included(d.take(i));
        if items.last().membership_state@ == "included"@ {
            assert(included(items) == included(d).push(items.last()));
            assert(included(items).take(a.len() as int) =~= included(d).take(a.len() as int));
        } else {
            assert(included(items) == included(d));
        }
    } else {
        assert(items.take(i) =~= items);
        assert(included(items).take(included(items).len() as int) =~= included(items));
    }
}

proof fn lemma_file_bytes_prefix(p: Seq<OrganizeTaskItemRecord>, f: Seq<OrganizeTaskItemRecord>, k: int)
    requires
        0 <= k <= p.len(),
        p.len() <= f.len(),
        p == f.take(p.len() as int),
    ensures
        file_bytes_of(p, k) == file_bytes_of(f, k),
    decreases k,
{
    if k > 0 {
        lemma_file_bytes_prefix(p, f, k - 1);
        assert(p[k - 1] == f[k - 1]);
    }
}

/// The summary of a task from its row and all its item rows: its included
/// entries and their file bytes, its progress, the outermost operations that
/// failed, and the items whose source changed or went missing.
pub fn task_summary(task: &OrganizeTaskRow, items: &[OrganizeTaskItemRecord]) -> (r: Result<
    OrganizeTaskSummary,
    OrganizeError,
>)
    requires
        items@.len() <= u64::MAX,
        state_fits(items@),
        file_bytes_of(included(items@), included(items@).len() as int) <= u64::MAX,
    ensures
        match state_error(items@) {
            Some(m) => r matches Err(OrganizeError::InvalidTree(e)) && e@ == m,
            None => match task_status_spec(task.status@) {
                None => r matches Err(OrganizeError::InvalidTaskState(e)) && e@ == "unknown task status: "@
                    + task.status@,
                Some(st) => r matches Ok(s) && {
                    let inc = included(items@);
                    &&& s.id == task.id
                    &&& s.name@ == task.name@
                    &&& s.root_path@ == task.root_path@
                    &&& s.root_sd_path matches SdPath::Physical { device_slug: d, path: p } && d@ == task.device_slug@
                        && p@ == task.root_path@
                    &&& s.status == st
                    &&& s.revision == task.revision
                    &&& s.snapshot_version == task.snapshot_version
                    &&& s.total_entries == inc.len()
                    &&& s.total_bytes == file_bytes_of(inc, inc.len() as int)
                    &&& progress_is(Ok(s.progress), state_nodes(items@), state_decisions(items@))
                    &&& s.scan_issue_count == non_negative(task.scan_issue_count)
                    &&& s.pending_addition_count == non_negative(task.pending_addition_count)
                    &&& s.failed_operation_count == kept_in_state(state_decisions(items@), OrganizeOperationState::Failed).len()
                    &&& s.changed_count == external_count(items@, "changed"@, items@.len() as int)
                    &&& s.missing_count == external_count(items@, "missing"@, items@.len() as int)
                    &&& s.scan_job_id == task.scan_job_id
                    &&& s.commit_job_id == task.commit_job_id
                    &&& same_text(s.last_error, task.last_error)
                    &&& s.completed_at == task.completed_at
                },
            },
        },
{
    proof {
        reveal_strlit("unknown task status: ");
        reveal_strlit("changed");
        reveal_strlit("missing");
    }
    let (progress, decs) = match state_progress(items) {
        Ok(v) => v,
        Err(e) => {
            return Err(e);
        },
    };
    let roots = compact_operation_roots(decs.as_slice());
    proof {
        lemma_compacted_len(roots@, decs@);
    }
    let failed = count_in_state(&roots, OrganizeOperationState::Failed, Ghost(decs@));
    let ghost inc = included(items@);
    let mut entries: u64 = 0;
    let mut bytes: u64 = 0;
    let mut i: usize = 0;
    let ghost mut seen: Seq<OrganizeTaskItemRecord> = Seq::empty();
    while i < items.len()
        invariant
            i <= items@.len(),
            items@.len() <= u64::MAX,
            seen == included(items@.take(i as int)),
            entries == seen.len(),
            entries <= i,
            bytes == file_bytes_of(seen, seen.len() as int),
            file_bytes_of(included(items@), included(items@).len() as int) <= u64::MAX,
        decreases items@.len() - i,
    {
        assert(items@.take(i + 1).drop_last() =~= items@.take(i as int));
        if str_eq(items[i].membership_state.as_str(), "included") {
            proof {
                reveal_strlit("included");
                assert(included(items@.take(i + 1)) == seen.push(items@[i as int]));
                let f = included(items@);
                let q = seen.push(items@[i as int]);
                lemma_included_take(items@, i + 1);
                lemma_file_bytes_prefix(q, f, q.len() as int);
                lemma_counts_bound(f, ""@, q.len() as int, f.len() as int);
                assert(q.take(seen.len() as int) =~= seen);
                lemma_file_bytes_prefix(seen, q, seen.len() as int);
            }
            let size = items[i].size_bytes;
            if str_eq(items[i].kind.as_str(), "file") && size > 0 {
                proof {
                    reveal_strlit("file");
                }
                bytes = bytes + size as u64;
            }
            proof {
                seen = seen.push(items@[i as int]);
            }
            entries = entries + 1;
        } else {
            proof {
                reveal_strlit("included");
            }
        }
        i = i + 1;
    }
    assert(items@.take(items@.len() as int) =~= items@);
    let status = match parse_task_status(task.status.as_str()) {
        Some(s) => s,
        None => {
            return Err(OrganizeError::InvalidTaskState(concat2("unknown task status: ", task.status.as_str())));
        },
    };
    let changed = count_external(items, "changed");
    let missing = count_external(items, "missing");
    Ok(OrganizeTaskSummary {
        id: task.id,
        name: copy_string(task.name.as_str()),
        root_path: copy_string(task.root_path.as_str()),
        root_sd_path: SdPath::physical(task.device_slug.as_str(), task.root_path.as_str()),
        status,
        revision: task.revision,
        snapshot_version: task.snapshot_version,
        total_entries: entries,
        total_bytes: bytes,
        progress,
        scan_issue_count: if task.scan_issue_count < 0 { 0 } else { task.scan_issue_count as u64 },
        pending_addition_count: if task.pending_addition_count < 0 { 0 } else { task.pending_addition_count as u64 },
        failed_operation_count: failed,
        changed_count: changed,
        missing_count: missing,
        scan_job_id: task.scan_job_id,
        commit_job_id: task.commit_job_id,
        last_error: match &task.last_error {
            Some(e) => Some(copy_string(e.as_str())),
            None => None,
        },
        completed_at: task.completed_at,
    })
}

} // verus!
