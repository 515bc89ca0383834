//! Decisions of the task lifecycle over the stored rows: whether reviewed
//! changes may be accepted, and whether a decision request applies.

use vstd::prelude::*;
use vstd::string::StringExecFns;
use crate::ids::{uuid_hyphenated, uuid_text};
use crate::organize::error::OrganizeError;
use crate::organize::commit::OperationSettlement;
use crate::organize::model::OrganizeOperationState;
use crate::organize::snapshot::SnapshotItemDraft;
use crate::organize::plan::{included, item_bytes, OrganizeTaskItemRecord};
use crate::organize::records::{
    applied_descendant_from, applied_descendant_of, applied_walks_end, explicit_ancestor, first_with_uuid,
    operation_state_text_spec,
    is_covered_by_applied_destructive_root, is_destructive_kind, selected_items, selected_items_spec, walk_from,
    walk_from_parent, WalkEnd, WalkStop,
};
use crate::text::{push_str, str_eq, string_from_chars};

verus! {

/// A request to accept the changes a scan found.
#[derive(Clone, Debug)]
pub struct OrganizeAcceptChangesInput {
    pub task_id: u128,
    pub expected_revision: i64,
    pub include_addition_ids: Vec<u128>,
    pub remove_missing_ids: Vec<u128>,
    pub refresh_changed_ids: Vec<u128>,
    pub preserve_changed_decisions: bool,
    pub confirm_inherited_destructive: bool,
}

/// What accepting changes does.
#[derive(Clone, Debug)]
pub enum AcceptChangesDecision {
    /// The caller's revision is not the task's.
    StaleRevision { current_revision: i64 },
    /// An added item would inherit a discard or move from these ancestors.
    ConfirmationRequired { discard_units: u64, move_units: u64, affected_bytes: u64, conflicting_roots: Vec<u128> },
    /// The changes apply; added items get placeholder intervals from
    /// `placeholder_start` on until the tree is rebuilt.
    Proceed { placeholder_start: i64 },
}

/// Why an item named for acceptance is refused.
pub enum AcceptIssue {
    NotInTask,
    Applied(u128),
    WrongState(u128, Seq<char>, Seq<char>),
}

/// Why item `id` cannot be accepted as `membership`/`external`.
pub open spec fn accept_issue(items: Seq<OrganizeTaskItemRecord>, id: u128, membership: Seq<char>, external: Seq<char>) -> Option<AcceptIssue> {
    match first_with_uuid(items, id, 0) {
        None => Some(AcceptIssue::NotInTask),
        Some(it) => if it.operation_state@ == "applied"@ {
            Some(AcceptIssue::Applied(it.uuid))
        } else if it.membership_state@ != membership || it.external_state@ != external {
            Some(AcceptIssue::WrongState(it.uuid, membership, external))
        } else {
            None
        },
    }
}

/// The issue of the first of the first `k` ids that has one.
pub open spec fn accept_ids_issue(items: Seq<OrganizeTaskItemRecord>, ids: Seq<u128>, membership: Seq<char>, external: Seq<char>, k: int) -> Option<AcceptIssue>
    decreases k,
{
    if k <= 0 {
        None
    } else {
        match accept_ids_issue(items, ids, membership, external, k - 1) {
            Some(x) => Some(x),
            None => accept_issue(items, ids[k - 1], membership, external),
        }
    }
}

/// The error an accept issue is reported as.
pub open spec fn accept_issue_matches(e: OrganizeError, issue: AcceptIssue) -> bool {
    match issue {
        AcceptIssue::NotInTask => e matches OrganizeError::InvalidTaskState(m) && m@ == "accept item is not in task"@,
        AcceptIssue::Applied(id) => e == OrganizeError::AppliedDecisionImmutable(id),
        AcceptIssue::WrongState(id, membership, external) => e matches OrganizeError::InvalidTaskState(m) && m@
            == "accept item "@ + uuid_hyphenated(id) + " must be "@ + membership + "/"@ + external,
    }
}

proof fn lemma_accept_issue_stays(items: Seq<OrganizeTaskItemRecord>, ids: Seq<u128>, m: Seq<char>, x: Seq<char>, k: int, n: int)
    requires
        0 <= k <= n,
        accept_ids_issue(items, ids, m, x, k) is Some,
    ensures
        accept_ids_issue(items, ids, m, x, n) == accept_ids_issue(items, ids, m, x, k),
    decreases n - k,
{
    if k < n {
        lemma_accept_issue_stays(items, ids, m, x, k + 1, n);
    }
}

/// Check that every named item is in the task, not applied, and in the
/// expected membership and external state.
pub fn validate_accept_ids(
    items: &[OrganizeTaskItemRecord],
    item_ids: &[u128],
    membership_state: &str,
    external_state: &str,
) -> (r: Result<(), OrganizeError>)
    ensures
        match accept_ids_issue(items@, item_ids@, membership_state@, external_state@, item_ids@.len() as int) {
            Some(issue) => r matches Err(e) && accept_issue_matches(e, issue),
            None => r is Ok,
        },
{
    let ghost ids = item_ids@;
    let mut k: usize = 0;
    while k < item_ids.len()
        invariant
            k <= ids.len(),
            ids == item_ids@,
            accept_ids_issue(items@, ids, membership_state@, external_state@, k as int) is None,
        decreases ids.len() - k,
    {
        let id = item_ids[k];
        let mut i: usize = 0;
        let mut found: Option<usize> = None;
        while i < items.len() && found.is_none()
            invariant
                i <= items@.len(),
                found is None ==> first_with_uuid(items@, id, 0) == first_with_uuid(items@, id, i as int),
                found matches Some(j) ==> j < items@.len() && first_with_uuid(items@, id, 0) == Some(items@[j as int]),
            decreases items@.len() - i + (if found is None { 1int } else { 0int }),
        {
            if items[i].uuid == id {
                found = Some(i);
            } else {
                i = i + 1;
            }
        }
        proof {
            if accept_ids_issue(items@, ids, membership_state@, external_state@, k + 1) is Some {
                lemma_accept_issue_stays(items@, ids, membership_state@, external_state@, k + 1, ids.len() as int);
            }
        }
        match found {
            None => {
                proof {
                    reveal_strlit("accept item is not in task");
                }
                return Err(OrganizeError::InvalidTaskState(String::from_str("accept item is not in task")));
            },
            Some(j) => {
                let it = &items[j];
                if str_eq(it.operation_state.as_str(), "applied") {
                    return Err(OrganizeError::AppliedDecisionImmutable(it.uuid));
                }
                if !str_eq(it.membership_state.as_str(), membership_state) || !str_eq(
                    it.external_state.as_str(),
                    external_state,
                ) {
                    let mut v: Vec<char> = Vec::new();
                    push_str(&mut v, "accept item ");
                    let text = uuid_text(it.uuid);
                    push_str(&mut v, text.as_str());
                    push_str(&mut v, " must be ");
                    push_str(&mut v, membership_state);
                    push_str(&mut v, "/");
                    push_str(&mut v, external_state);
                    return Err(OrganizeError::InvalidTaskState(string_from_chars(v.as_slice())));
                }
            },
        }
        k = k + 1;
    }
    Ok(())
}

} // verus!

verus! {

/// `a + b`, capped at `u64::MAX`.
pub open spec fn sat_add(a: u64, b: nat) -> u64 {
    if a + b <= u64::MAX {
        (a + b) as u64
    } else {
        u64::MAX
    }
}

/// The units of a stored item, 0 when unknown or negative.
pub open spec fn known_units(it: OrganizeTaskItemRecord) -> nat {
    match it.unit_count {
        Some(u) => if u > 0 {
            u as nat
        } else {
            0
        },
        None => 0,
    }
}

/// The discard and move ancestors the first `k` added items would inherit,
/// each once, with their units and bytes (sums capped at `u64::MAX`).
pub open spec fn inherited_conflicts(
    items: Seq<OrganizeTaskItemRecord>,
    adds: Seq<OrganizeTaskItemRecord>,
    k: int,
) -> (Seq<u128>, u64, u64, u64)
    decreases k,
{
    if k <= 0 {
        (Seq::<u128>::empty(), 0, 0, 0)
    } else {
        let prev = inherited_conflicts(items, adds, k - 1);
        match walk_from_parent(items, adds[k - 1], WalkStop::DecidedIncluded) {
            WalkEnd::Found(a) => if is_destructive_kind(a.decision_kind) && !prev.0.contains(a.uuid) {
                let discard = a.decision_kind->Some_0@ == "discard"@;
                (
                    prev.0.push(a.uuid),
                    if discard {
                        sat_add(prev.1, known_units(a))
                    } else {
                        prev.1
                    },
                    if discard {
                        prev.2
                    } else {
                        sat_add(prev.2, known_units(a))
                    },
                    sat_add(prev.3, item_bytes(a) as nat),
                )
            } else {
                prev
            },
            _ => prev,
        }
    }
}

/// The largest tree end of the first `k` included items.
pub open spec fn max_included_end(items: Seq<OrganizeTaskItemRecord>, k: int) -> Option<i64>
    decreases k,
{
    if k <= 0 {
        None
    } else {
        let prev = max_included_end(items, k - 1);
        let it = items[k - 1];
        if it.membership_state@ == "included"@ && it.tree_end is Some {
            match prev {
                Some(m) => if it.tree_end->Some_0 > m {
                    Some(it.tree_end->Some_0)
                } else {
                    Some(m)
                },
                None => Some(it.tree_end->Some_0),
            }
        } else {
            prev
        }
    }
}

/// The walks up from the added items and from the applied items end.
pub open spec fn accept_walks_end(items: Seq<OrganizeTaskItemRecord>, input: OrganizeAcceptChangesInput) -> bool {
    let adds = selected_items_spec(items, input.include_addition_ids@);
    &&& forall|k: int| 0 <= k < adds.len() ==> !(walk_from_parent(items, #[trigger] adds[k], WalkStop::DecidedIncluded) is Exhausted)
    &&& applied_walks_end(items, input.remove_missing_ids@)
}

/// What accepting changes decides: a task that is not active is refused; a
/// stale revision is reported; each named list is checked; added items that
/// would inherit a discard or move need confirmation; removing an item below
/// which something was applied is refused; else the changes proceed.
pub open spec fn accept_decision_is(
    r: Result<AcceptChangesDecision, OrganizeError>,
    status: Seq<char>,
    revision: i64,
    input: OrganizeAcceptChangesInput,
    items: Seq<OrganizeTaskItemRecord>,
) -> bool {
    let inc_issue = accept_ids_issue(items, input.include_addition_ids@, "pending_addition"@, "present"@, input.include_addition_ids@.len() as int);
    let rem_issue = accept_ids_issue(items, input.remove_missing_ids@, "included"@, "missing"@, input.remove_missing_ids@.len() as int);
    let ref_issue = accept_ids_issue(items, input.refresh_changed_ids@, "included"@, "changed"@, input.refresh_changed_ids@.len() as int);
    let adds = selected_items_spec(items, input.include_addition_ids@);
    let conflicts = inherited_conflicts(items, adds, adds.len() as int);
    if status != "active"@ {
        r matches Err(OrganizeError::InvalidTaskState(m)) && m@ == status
    } else if revision != input.expected_revision {
        r matches Ok(AcceptChangesDecision::StaleRevision { current_revision }) && current_revision == revision
    } else if inc_issue is Some {
        r matches Err(e) && accept_issue_matches(e, inc_issue->Some_0)
    } else if rem_issue is Some {
        r matches Err(e) && accept_issue_matches(e, rem_issue->Some_0)
    } else if ref_issue is Some {
        r matches Err(e) && accept_issue_matches(e, ref_issue->Some_0)
    } else if conflicts.0.len() > 0 && !input.confirm_inherited_destructive {
        r matches Ok(AcceptChangesDecision::ConfirmationRequired { discard_units, move_units, affected_bytes, conflicting_roots })
            && discard_units == conflicts.1 && move_units == conflicts.2 && affected_bytes == conflicts.3
            && conflicting_roots@ == conflicts.0
    } else if applied_descendant_from(items, input.remove_missing_ids@, 0) is Some {
        r == Err::<AcceptChangesDecision, OrganizeError>(OrganizeError::AppliedDecisionImmutable(
            applied_descendant_from(items, input.remove_missing_ids@, 0)->Some_0,
        ))
    } else {
        r matches Ok(AcceptChangesDecision::Proceed { placeholder_start }) && placeholder_start == match max_included_end(
            items,
            items.len() as int,
        ) {
            Some(m) => m,
            None => 0,
        }
    }
}

fn sat_add_exec(a: u64, b: u64) -> (r: u64)
    ensures
        r == sat_add(a, b as nat),
{
    a.saturating_add(b)
}

/// Whether reviewed changes may be accepted, given the task's status and
/// revision and its stored items.
pub fn decide_accept_changes(
    status: &str,
    revision: i64,
    input: &OrganizeAcceptChangesInput,
    items: &[OrganizeTaskItemRecord],
) -> (r: Result<AcceptChangesDecision, OrganizeError>)
    requires
        accept_walks_end(items@, *input),
    ensures
        accept_decision_is(r, status@, revision, *input, items@),
{
    if !str_eq(status, "active") {
        return Err(OrganizeError::InvalidTaskState(crate::text::copy_string(status)));
    }
    if revision != input.expected_revision {
        return Ok(AcceptChangesDecision::StaleRevision { current_revision: revision });
    }
    match validate_accept_ids(items, input.include_addition_ids.as_slice(), "pending_addition", "present") {
        Ok(()) => {},
        Err(e) => {
            return Err(e);
        },
    }
    match validate_accept_ids(items, input.remove_missing_ids.as_slice(), "included", "missing") {
        Ok(()) => {},
        Err(e) => {
            return Err(e);
        },
    }
    match validate_accept_ids(items, input.refresh_changed_ids.as_slice(), "included", "changed") {
        Ok(()) => {},
        Err(e) => {
            return Err(e);
        },
    }
    let adds = selected_items(items, input.include_addition_ids.as_slice());
    let ghost av = adds@;
    let mut ids: Vec<u128> = Vec::new();
    let mut discard_units: u64 = 0;
    let mut move_units: u64 = 0;
    let mut affected_bytes: u64 = 0;
    let mut k: usize = 0;
    while k < adds.len()
        invariant
            k <= av.len(),
            av == adds@,
            av == selected_items_spec(items@, input.include_addition_ids@),
            accept_walks_end(items@, *input),
            (ids@, discard_units, move_units, affected_bytes) == inherited_conflicts(items@, av, k as int),
        decreases av.len() - k,
    {
        assert(!(walk_from_parent(items@, av[k as int], WalkStop::DecidedIncluded) is Exhausted));
        match explicit_ancestor(items, &adds[k]) {
            Some(a) => {
                let destructive = match &a.decision_kind {
                    Some(kind) => str_eq(kind.as_str(), "discard") || str_eq(kind.as_str(), "move"),
                    None => false,
                };
                if destructive {
                    let mut seen = false;
                    let mut q: usize = 0;
                    while q < ids.len()
                        invariant
                            q <= ids@.len(),
                            seen <==> exists|w: int| 0 <= w < q && ids@[w] == a.uuid,
                        decreases ids@.len() - q,
                    {
                        if ids[q] == a.uuid {
                            seen = true;
                        }
                        q = q + 1;
                    }
                    if !seen {
                        let units: u64 = match a.unit_count {
                            Some(u) => if u > 0 { u as u64 } else { 0 },
                            None => 0,
                        };
                        let bytes: u64 = if a.aggregate_size_bytes < 0 { 0 } else { a.aggregate_size_bytes as u64 };
                        let is_discard = match &a.decision_kind {
                            Some(kind) => str_eq(kind.as_str(), "discard"),
                            None => false,
                        };
                        ids.push(a.uuid);
                        if is_discard {
                            discard_units = sat_add_exec(discard_units, units);
                        } else {
                            move_units = sat_add_exec(move_units, units);
                        }
                        affected_bytes = sat_add_exec(affected_bytes, bytes);
                    }
                }
            },
            None => {},
        }
        k = k + 1;
    }
    if ids.len() > 0 && !input.confirm_inherited_destructive {
        return Ok(AcceptChangesDecision::ConfirmationRequired {
            discard_units,
            move_units,
            affected_bytes,
            conflicting_roots: ids,
        });
    }
    match applied_descendant_of(items, input.remove_missing_ids.as_slice()) {
        Some(id) => {
            return Err(OrganizeError::AppliedDecisionImmutable(id));
        },
        None => {},
    }
    let mut best: Option<i64> = None;
    let mut i: usize = 0;
    while i < items.len()
        invariant
            i <= items@.len(),
            best == max_included_end(items@, i as int),
        decreases items@.len() - i,
    {
        let it = &items[i];
        if str_eq(it.membership_state.as_str(), "included") {
            match it.tree_end {
                Some(e) => {
                    best = match best {
                        Some(m) => if e > m { Some(e) } else { Some(m) },
                        None => Some(e),
                    };
                },
                None => {},
            }
        }
        i = i + 1;
    }
    let start = match best {
        Some(m) => m,
        None => 0,
    };
    Ok(AcceptChangesDecision::Proceed { placeholder_start: start })
}


/// What a lifecycle request did.
#[derive(Clone, Copy, Debug, PartialEq, Eq, Structural)]
pub enum OrganizeLifecycleOutcome {
    Applied { revision: i64 },
    StaleRevision { current_revision: i64 },
}

/// What reopening a task did.
#[derive(Clone, Copy, Debug, PartialEq, Eq, Structural)]
pub enum OrganizeReopenOutcome {
    Applied { revision: i64 },
    StaleRevision { current_revision: i64 },
}

/// What retrying the snapshot of a task did; the job is named by its id.
#[derive(Clone, Copy, Debug, PartialEq, Eq, Structural)]
pub enum OrganizeRetrySnapshotOutcome {
    Started { revision: i64, snapshot_job: u128 },
    StaleRevision { current_revision: i64 },
}

/// Reopening a task: a stale revision is reported first; only a completed
/// task reopens, and doing so moves its revision on by one.
pub fn decide_reopen(status: &str, revision: i64, expected_revision: i64) -> (r: Result<
    OrganizeLifecycleOutcome,
    OrganizeError,
>)
    requires
        revision < i64::MAX,
    ensures
        revision != expected_revision ==> r == Ok::<OrganizeLifecycleOutcome, OrganizeError>(
            OrganizeLifecycleOutcome::StaleRevision { current_revision: revision },
        ),
        revision == expected_revision && status@ != "completed"@ ==> (r matches Err(OrganizeError::InvalidTaskState(m))
            && m@ == status@),
        revision == expected_revision && status@ == "completed"@ ==> r == Ok::<OrganizeLifecycleOutcome, OrganizeError>(
            OrganizeLifecycleOutcome::Applied { revision: (revision + 1) as i64 },
        ),
{
    if revision != expected_revision {
        return Ok(OrganizeLifecycleOutcome::StaleRevision { current_revision: revision });
    }
    if !str_eq(status, "completed") {
        return Err(OrganizeError::InvalidTaskState(crate::text::copy_string(status)));
    }
    Ok(OrganizeLifecycleOutcome::Applied { revision: revision + 1 })
}

/// Deleting a task's metadata: a stale revision is reported first; a
/// committing task is refused; otherwise the task goes at its revision.
pub fn decide_delete(status: &str, revision: i64, expected_revision: i64) -> (r: Result<
    OrganizeLifecycleOutcome,
    OrganizeError,
>)
    ensures
        revision != expected_revision ==> r == Ok::<OrganizeLifecycleOutcome, OrganizeError>(
            OrganizeLifecycleOutcome::StaleRevision { current_revision: revision },
        ),
        revision == expected_revision && status@ == "committing"@ ==> (r matches Err(
            OrganizeError::InvalidTaskState(m),
        ) && m@ == "task is committing"@),
        revision == expected_revision && status@ != "committing"@ ==> r == Ok::<OrganizeLifecycleOutcome, OrganizeError>(
            OrganizeLifecycleOutcome::Applied { revision },
        ),
{
    proof {
        reveal_strlit("task is committing");
    }
    if revision != expected_revision {
        return Ok(OrganizeLifecycleOutcome::StaleRevision { current_revision: revision });
    }
    if str_eq(status, "committing") {
        return Err(OrganizeError::InvalidTaskState(String::from_str("task is committing")));
    }
    Ok(OrganizeLifecycleOutcome::Applied { revision })
}

/// The outcome of a reopen request as the action reports it.
pub fn reopen_outcome(o: OrganizeLifecycleOutcome) -> (r: OrganizeReopenOutcome)
    ensures
        r == match o {
            OrganizeLifecycleOutcome::Applied { revision } => OrganizeReopenOutcome::Applied { revision },
            OrganizeLifecycleOutcome::StaleRevision { current_revision } => OrganizeReopenOutcome::StaleRevision {
                current_revision,
            },
        },
{
    match o {
        OrganizeLifecycleOutcome::Applied { revision } => OrganizeReopenOutcome::Applied { revision },
        OrganizeLifecycleOutcome::StaleRevision { current_revision } => OrganizeReopenOutcome::StaleRevision {
            current_revision,
        },
    }
}


/// Why an addition cannot be stored.
pub enum BadAddition {
    /// It belongs to another task.
    OtherTask,
    /// It was already applied; the payload is its id.
    Applied(u128),
}

/// The first of the first `k` additions that belongs to another task or was
/// already applied, and which of the two.
pub open spec fn first_bad_addition(drafts: Seq<SnapshotItemDraft>, task_id: u128, k: int) -> Option<BadAddition>
    decreases k,
{
    if k <= 0 {
        None
    } else {
        match first_bad_addition(drafts, task_id, k - 1) {
            Some(e) => Some(e),
            None => if drafts[k - 1].task_id != task_id {
                Some(BadAddition::OtherTask)
            } else if drafts[k - 1].operation_state == OrganizeOperationState::Applied {
                Some(BadAddition::Applied(drafts[k - 1].uuid))
            } else {
                None
            },
        }
    }
}

proof fn lemma_first_bad_stable(drafts: Seq<SnapshotItemDraft>, task_id: u128, a: int, b: int)
    requires
        0 <= a <= b,
        first_bad_addition(drafts, task_id, a) is Some,
    ensures
        first_bad_addition(drafts, task_id, b) == first_bad_addition(drafts, task_id, a),
    decreases b - a,
{
    if a < b {
        lemma_first_bad_stable(drafts, task_id, a, b - 1);
    }
}

/// Whether `e` reports `bad`.
pub open spec fn same_error(e: OrganizeError, bad: BadAddition) -> bool {
    match (e, bad) {
        (OrganizeError::InvalidTaskState(a), BadAddition::OtherTask) => a@
            == "change-scan addition belongs to another task"@,
        (OrganizeError::AppliedDecisionImmutable(a), BadAddition::Applied(b)) => a == b,
        _ => false,
    }
}

/// `d` is addition `o` as it is stored pending: outside the tree, present,
/// undecided, without an operation, an error or an interval.
pub open spec fn pending_addition_of(d: SnapshotItemDraft, o: SnapshotItemDraft) -> bool {
    &&& d.id == o.id
    &&& d.uuid == o.uuid
    &&& d.task_id == o.task_id
    &&& d.parent_id == o.parent_id
    &&& d.entry_uuid == o.entry_uuid
    &&& d.relative_path@ == o.relative_path@
    &&& d.relative_path_key@ == o.relative_path_key@
    &&& d.name@ == o.name@
    &&& (match (d.extension, o.extension) {
        (Some(a), Some(b)) => a@ == b@,
        (None, None) => true,
        _ => false,
    })
    &&& d.kind == o.kind
    &&& d.size_bytes == o.size_bytes
    &&& d.aggregate_size_bytes == o.aggregate_size_bytes
    &&& d.modified_at_100ns == o.modified_at_100ns
    &&& d.metadata_signature@ == o.metadata_signature@
    &&& d.tree_start is None
    &&& d.tree_end is None
    &&& d.unit_count is None
    &&& d.membership_state@ == "pending_addition"@
    &&& d.external_state@ == "present"@
    &&& d.decision_kind is None
    &&& d.move_destination is None
    &&& d.operation_state == OrganizeOperationState::NoOperation
    &&& d.last_error is None
    &&& d.applied_at is None
    &&& d.created_at == o.created_at
    &&& d.updated_at == o.updated_at
}

/// Storing a change scan: only an active task takes one; every addition must
/// belong to the task and not be applied; the additions are stored pending,
/// and the task moves to the next revision.
pub fn prepare_change_scan(
    status: &str,
    revision: i64,
    task_id: u128,
    additions: &Vec<SnapshotItemDraft>,
) -> (r: Result<(Vec<SnapshotItemDraft>, i64), OrganizeError>)
    requires
        revision < i64::MAX,
    ensures
        if status@ != "active"@ {
            r matches Err(OrganizeError::InvalidTaskState(m)) && m@ == status@
        } else {
            match first_bad_addition(additions@, task_id, additions@.len() as int) {
                Some(want) => r matches Err(e) && same_error(e, want),
                None => r matches Ok((ds, next)) && next == revision + 1 && ds@.len() == additions@.len() && forall|i: int|
                    0 <= i < ds@.len() ==> #[trigger] pending_addition_of(ds@[i], additions@[i]),
            }
        },
{
    proof {
        reveal_strlit("change-scan addition belongs to another task");
        reveal_strlit("pending_addition");
        reveal_strlit("present");
    }
    if !str_eq(status, "active") {
        return Err(OrganizeError::InvalidTaskState(crate::text::copy_string(status)));
    }
    let mut i: usize = 0;
    while i < additions.len()
        invariant
            i <= additions@.len(),
            status@ == "active"@,
            first_bad_addition(additions@, task_id, i as int) is None,
        decreases additions@.len() - i,
    {
        proof {
            if first_bad_addition(additions@, task_id, i + 1) is Some {
                lemma_first_bad_stable(additions@, task_id, i + 1, additions@.len() as int);
            }
        }
        if additions[i].task_id != task_id {
            return Err(OrganizeError::InvalidTaskState(String::from_str("change-scan addition belongs to another task")));
        }
        if additions[i].operation_state == OrganizeOperationState::Applied {
            return Err(OrganizeError::AppliedDecisionImmutable(additions[i].uuid));
        }
        i = i + 1;
    }
    let mut out: Vec<SnapshotItemDraft> = Vec::new();
    let mut k: usize = 0;
    while k < additions.len()
        invariant
            k <= additions@.len(),
            out@.len() == k,
            forall|j: int| 0 <= j < k ==> #[trigger] pending_addition_of(out@[j], additions@[j]),
        decreases additions@.len() - k,
    {
        let o = &additions[k];
        out.push(SnapshotItemDraft {
            id: o.id,
            uuid: o.uuid,
            task_id: o.task_id,
            parent_id: o.parent_id,
            entry_uuid: o.entry_uuid,
            relative_path: crate::text::copy_string(o.relative_path.as_str()),
            relative_path_key: crate::text::copy_string(o.relative_path_key.as_str()),
            name: crate::text::copy_string(o.name.as_str()),
            extension: match &o.extension {
                Some(e) => Some(crate::text::copy_string(e.as_str())),
                None => None,
            },
            kind: o.kind,
            size_bytes: o.size_bytes,
            aggregate_size_bytes: o.aggregate_size_bytes,
            modified_at_100ns: o.modified_at_100ns,
            metadata_signature: crate::text::copy_string(o.metadata_signature.as_str()),
            tree_start: None,
            tree_end: None,
            unit_count: None,
            membership_state: String::from_str("pending_addition"),
            external_state: String::from_str("present"),
            decision_kind: None,
            move_destination: None,
            operation_state: OrganizeOperationState::NoOperation,
            last_error: None,
            applied_at: None,
            created_at: o.created_at,
            updated_at: o.updated_at,
        });
        k = k + 1;
    }
    Ok((out, revision + 1))
}

/// The rows the scan marks with an external state: for each named item, in
/// order, its first row, unless an applied discard or move covers it.
pub open spec fn mark_targets_spec(items: Seq<OrganizeTaskItemRecord>, ids: Seq<u128>, k: int) -> Seq<OrganizeTaskItemRecord>
    decreases k,
{
    if k <= 0 {
        Seq::empty()
    } else {
        let rest = mark_targets_spec(items, ids, k - 1);
        match first_with_uuid(items, ids[k - 1], 0) {
            Some(it) => if walk_from(items, it, WalkStop::AppliedDestructive, items.len() as nat) is Found {
                rest
            } else {
                rest.push(it)
            },
            None => rest,
        }
    }
}

/// The walks from the named items end at a row or a missing parent.
pub open spec fn mark_walks_end(items: Seq<OrganizeTaskItemRecord>, ids: Seq<u128>) -> bool {
    forall|k: int|
        0 <= k < ids.len() ==> match #[trigger] first_with_uuid(items, ids[k], 0) {
            Some(it) => !(walk_from(items, it, WalkStop::AppliedDestructive, items.len() as nat) is Exhausted),
            None => true,
        }
}

/// The ids of the rows a scan marks with an external state.
pub fn mark_targets(items: &[OrganizeTaskItemRecord], ids: &Vec<u128>) -> (r: Vec<u128>)
    requires
        mark_walks_end(items@, ids@),
    ensures
        r@ == mark_targets_spec(items@, ids@, ids@.len() as int).map_values(|it: OrganizeTaskItemRecord| it.uuid),
{
    let mut out: Vec<u128> = Vec::new();
    let mut k: usize = 0;
    while k < ids.len()
        invariant
            k <= ids@.len(),
            mark_walks_end(items@, ids@),
            out@ == mark_targets_spec(items@, ids@, k as int).map_values(|it: OrganizeTaskItemRecord| it.uuid),
        decreases ids@.len() - k,
    {
        let ghost before = mark_targets_spec(items@, ids@, k as int);
        assert(match first_with_uuid(items@, ids@[k as int], 0) {
            Some(it) => !(walk_from(items@, it, WalkStop::AppliedDestructive, items@.len() as nat) is Exhausted),
            None => true,
        });
        match first_with_uuid_exec(items, ids[k]) {
            Some(j) => {
                if !is_covered_by_applied_destructive_root(items, &items[j]) {
                    out.push(items[j].uuid);
                    assert(out@ =~= before.push(items@[j as int]).map_values(|it: OrganizeTaskItemRecord| it.uuid));
                }
            },
            None => {},
        }
        k = k + 1;
    }
    out
}

/// The position of the first row with uuid `id`.
fn first_with_uuid_exec(items: &[OrganizeTaskItemRecord], id: u128) -> (r: Option<usize>)
    ensures
        match first_with_uuid(items@, id, 0) {
            Some(it) => r matches Some(j) && j < items@.len() && items@[j as int] == it,
            None => r is None,
        },
{
    let mut i: usize = 0;
    while i < items.len()
        invariant
            i <= items@.len(),
            first_with_uuid(items@, id, 0) == first_with_uuid(items@, id, i as int),
        decreases items@.len() - i,
    {
        if items[i].uuid == id {
            return Some(i);
        }
        i = i + 1;
    }
    None
}


// ----- settling operation roots -----

/// The operation state of row `id` once the first `k` settlements are
/// applied in turn: that of the last of them naming it, else the stored one;
/// `None` where no row has the id.
pub open spec fn state_after(
    items: Seq<OrganizeTaskItemRecord>,
    ss: Seq<OperationSettlement>,
    k: int,
    id: u128,
) -> Option<Seq<char>>
    decreases k,
{
    if k <= 0 {
        match first_with_uuid(items, id, 0) {
            Some(it) => Some(it.operation_state@),
            None => None,
        }
    } else if ss[k - 1].item_id == id {
        Some(operation_state_text_spec(ss[k - 1].state))
    } else {
        state_after(items, ss, k - 1, id)
    }
}

/// Why a settlement cannot be stored.
pub enum SettleIssue {
    /// No row has the settled id.
    Missing,
    /// The row was already applied; the payload is its id.
    Applied(u128),
}

/// The first of the first `k` settlements that names no row, or a row that
/// is applied by then.
pub open spec fn settle_issue(items: Seq<OrganizeTaskItemRecord>, ss: Seq<OperationSettlement>, k: int) -> Option<
    SettleIssue,
>
    decreases k,
{
    if k <= 0 {
        None
    } else {
        match settle_issue(items, ss, k - 1) {
            Some(e) => Some(e),
            None => match state_after(items, ss, k - 1, ss[k - 1].item_id) {
                None => Some(SettleIssue::Missing),
                Some(st) => if st == "applied"@ {
                    Some(SettleIssue::Applied(ss[k - 1].item_id))
                } else {
                    None
                },
            },
        }
    }
}

/// Whether `e` reports `issue`.
pub open spec fn settle_error_is(e: OrganizeError, issue: SettleIssue) -> bool {
    match (e, issue) {
        (OrganizeError::InvalidTree(m), SettleIssue::Missing) => m@ == "operation root disappeared"@,
        (OrganizeError::AppliedDecisionImmutable(a), SettleIssue::Applied(b)) => a == b,
        _ => false,
    }
}

/// Whether row `id` is applied once the first `k` settlements are applied,
/// or `None` where no row has the id.
fn applied_after(items: &[OrganizeTaskItemRecord], ss: &[OperationSettlement], k: usize, id: u128) -> (r: Option<
    bool,
>)
    requires
        k <= ss@.len(),
    ensures
        match state_after(items@, ss@, k as int, id) {
            Some(st) => r == Some(st == "applied"@),
            None => r is None,
        },
{
    proof {
        reveal_strlit("none");
        reveal_strlit("pending");
        reveal_strlit("running");
        reveal_strlit("applied");
        reveal_strlit("failed");
    }
    let mut j: usize = k;
    while j > 0
        invariant
            j <= k <= ss@.len(),
            state_after(items@, ss@, k as int, id) == state_after(items@, ss@, j as int, id),
        decreases j,
    {
        if ss[j - 1].item_id == id {
            let st = ss[j - 1].state;
            proof {
                lemma_applied_text(st);
            }
            return Some(matches!(st, OrganizeOperationState::Applied));
        }
        j = j - 1;
    }
    match first_with_uuid_exec(items, id) {
        Some(i) => Some(str_eq(items[i].operation_state.as_str(), "applied")),
        None => None,
    }
}

proof fn lemma_applied_text(st: OrganizeOperationState)
    ensures
        (operation_state_text_spec(st) == "applied"@) == (st == OrganizeOperationState::Applied),
{
    reveal_strlit("none");
    reveal_strlit("pending");
    reveal_strlit("running");
    reveal_strlit("applied");
    reveal_strlit("failed");
    match st {
        OrganizeOperationState::Pending => assert("pending"@[0] != "applied"@[0]),
        OrganizeOperationState::Running => assert("running"@[0] != "applied"@[0]),
        OrganizeOperationState::NoOperation => assert("none"@.len() != "applied"@.len()),
        OrganizeOperationState::Failed => assert("failed"@.len() != "applied"@.len()),
        OrganizeOperationState::Applied => {},
    }
}

/// Settling operation roots on a task: only a committing task takes them;
/// each settlement in turn must name a row that is not applied by then
/// (earlier settlements in the batch count); the task then moves to the next
/// revision. The rows take the settlements' states, errors and times.
pub fn check_settlements(
    status: &str,
    revision: i64,
    items: &[OrganizeTaskItemRecord],
    settlements: &[OperationSettlement],
) -> (r: Result<i64, OrganizeError>)
    requires
        revision < i64::MAX,
    ensures
        status@ != "committing"@ ==> (r matches Err(OrganizeError::InvalidTaskState(m)) && m@ == status@),
        status@ == "committing"@ ==> match settle_issue(items@, settlements@, settlements@.len() as int) {
            Some(issue) => r matches Err(e) && settle_error_is(e, issue),
            None => r == Ok::<i64, OrganizeError>((revision + 1) as i64),
        },
{
    proof {
        reveal_strlit("operation root disappeared");
    }
    if !str_eq(status, "committing") {
        return Err(OrganizeError::InvalidTaskState(crate::text::copy_string(status)));
    }
    let mut k: usize = 0;
    while k < settlements.len()
        invariant
            k <= settlements@.len(),
            status@ == "committing"@,
            revision < i64::MAX,
            settle_issue(items@, settlements@, k as int) is None,
        decreases settlements@.len() - k,
    {
        let id = settlements[k].item_id;
        match applied_after(items, settlements, k, id) {
            None => {
                proof {
                    assert(settle_issue(items@, settlements@, (k + 1) as int) == Some(SettleIssue::Missing));
                    lemma_settle_issue_stable(items@, settlements@, (k + 1) as int, settlements@.len() as int);
                }
                return Err(OrganizeError::InvalidTree(String::from_str("operation root disappeared")));
            },
            Some(true) => {
                proof {
                    assert(settle_issue(items@, settlements@, (k + 1) as int) == Some(SettleIssue::Applied(id)));
                    lemma_settle_issue_stable(items@, settlements@, (k + 1) as int, settlements@.len() as int);
                }
                return Err(OrganizeError::AppliedDecisionImmutable(id));
            },
            Some(false) => {
                assert(settle_issue(items@, settlements@, (k + 1) as int) is None);
            },
        }
        k = k + 1;
    }
    Ok(revision + 1)
}

proof fn lemma_settle_issue_stable(items: Seq<OrganizeTaskItemRecord>, ss: Seq<OperationSettlement>, a: int, b: int)
    requires
        0 <= a <= b,
        settle_issue(items, ss, a) is Some,
    ensures
        settle_issue(items, ss, b) == settle_issue(items, ss, a),
    decreases b - a,
{
    if a < b {
        lemma_settle_issue_stable(items, ss, a, b - 1);
    }
}


// ----- storing a snapshot -----

/// Whether some row carries a decision.
pub open spec fn has_decision(items: Seq<OrganizeTaskItemRecord>) -> bool {
    exists|i: int| 0 <= i < items.len() && (#[trigger] items[i].decision_kind) is Some
}

/// Failing a task's snapshot: only a scanning task's snapshot can fail, and
/// only while none of its rows carries a decision.
pub fn check_snapshot_failure(status: &str, items: &[OrganizeTaskItemRecord]) -> (r: Result<(), OrganizeError>)
    ensures
        status@ != "scanning"@ ==> (r matches Err(OrganizeError::InvalidTaskState(m)) && m@ == status@),
        status@ == "scanning"@ && has_decision(items@) ==> (r matches Err(OrganizeError::InvalidTaskState(m))
            && m@ == "organize snapshot already has decisions"@),
        status@ == "scanning"@ && !has_decision(items@) ==> r is Ok,
{
    proof {
        reveal_strlit("organize snapshot already has decisions");
    }
    if !str_eq(status, "scanning") {
        return Err(OrganizeError::InvalidTaskState(crate::text::copy_string(status)));
    }
    let mut i: usize = 0;
    while i < items.len()
        invariant
            i <= items@.len(),
            status@ == "scanning"@,
            forall|j: int| 0 <= j < i ==> (#[trigger] items@[j].decision_kind) is None,
        decreases items@.len() - i,
    {
        if items[i].decision_kind.is_some() {
            return Err(OrganizeError::InvalidTaskState(String::from_str("organize snapshot already has decisions")));
        }
        i = i + 1;
    }
    Ok(())
}

/// Replacing a task's snapshot: the same checks as failing it; the task then
/// moves to the next revision.
pub fn check_snapshot_replace(status: &str, revision: i64, items: &[OrganizeTaskItemRecord]) -> (r: Result<
    i64,
    OrganizeError,
>)
    requires
        revision < i64::MAX,
    ensures
        status@ != "scanning"@ ==> (r matches Err(OrganizeError::InvalidTaskState(m)) && m@ == status@),
        status@ == "scanning"@ && has_decision(items@) ==> (r matches Err(OrganizeError::InvalidTaskState(m))
            && m@ == "organize snapshot already has decisions"@),
        status@ == "scanning"@ && !has_decision(items@) ==> r == Ok::<i64, OrganizeError>((revision + 1) as i64),
{
    match check_snapshot_failure(status, items) {
        Ok(()) => Ok(revision + 1),
        Err(e) => Err(e),
    }
}


// ----- the rows after accepting reviewed changes -----

/// The positions of the rows whose id is not one of `remove`, among the first
/// `k`, in order.
pub open spec fn kept_positions(items: Seq<OrganizeTaskItemRecord>, remove: Seq<u128>, k: int) -> Seq<int>
    decreases k,
{
    if k <= 0 {
        Seq::<int>::empty()
    } else if remove.contains(items[k - 1].uuid) {
        kept_positions(items, remove, k - 1)
    } else {
        kept_positions(items, remove, k - 1).push(k - 1)
    }
}

/// How many of the first `k` rows have an id among `adds`.
pub open spec fn count_added(items: Seq<OrganizeTaskItemRecord>, adds: Seq<u128>, k: int) -> int
    decreases k,
{
    if k <= 0 {
        0
    } else {
        count_added(items, adds, k - 1) + if adds.contains(items[k - 1].uuid) {
            1int
        } else {
            0int
        }
    }
}

/// Whether two optional texts are equal.
pub open spec fn same_opt_text(a: Option<String>, b: Option<String>) -> bool {
    match (a, b) {
        (Some(x), Some(y)) => x@ == y@,
        (None, None) => true,
        _ => false,
    }
}

/// Row `o` is row `it` after the accepted changes: an accepted addition is
/// included and present with the one-unit placeholder interval that starts at
/// `start`; a refreshed row is present again and, unless decisions are
/// preserved, loses its decision and operation; everything else stays.
pub open spec fn accepted_row_is(
    o: OrganizeTaskItemRecord,
    it: OrganizeTaskItemRecord,
    input: OrganizeAcceptChangesInput,
    start: int,
) -> bool {
    let added = input.include_addition_ids@.contains(it.uuid);
    let refreshed = input.refresh_changed_ids@.contains(it.uuid);
    let cleared = refreshed && !input.preserve_changed_decisions;
    &&& o.id == it.id
    &&& o.uuid == it.uuid
    &&& o.parent_id == it.parent_id
    &&& o.relative_path@ == it.relative_path@
    &&& o.relative_path_key@ == it.relative_path_key@
    &&& o.kind@ == it.kind@
    &&& o.size_bytes == it.size_bytes
    &&& o.aggregate_size_bytes == it.aggregate_size_bytes
    &&& o.membership_state@ == (if added { "included"@ } else { it.membership_state@ })
    &&& o.external_state@ == (if added || refreshed { "present"@ } else { it.external_state@ })
    &&& (if added { o.tree_start == Some(start as i64) } else { o.tree_start == it.tree_start })
    &&& (if added { o.tree_end == Some((start + 1) as i64) } else { o.tree_end == it.tree_end })
    &&& o.unit_count == (if added { Some(1i64) } else { it.unit_count })
    &&& (if cleared { o.decision_kind is None } else { same_opt_text(o.decision_kind, it.decision_kind) })
    &&& (if cleared { o.move_destination is None } else { same_opt_text(o.move_destination, it.move_destination) })
    &&& o.operation_state@ == (if cleared { "none"@ } else { it.operation_state@ })
}

/// The rows after accepting changes, given the first placeholder start: the
/// removed rows are gone, and every other row, in order, is changed as
/// `accepted_row_is` says; the accepted additions take consecutive
/// placeholder starts in row order.
pub open spec fn accepted_rows_are(
    out: Seq<OrganizeTaskItemRecord>,
    items: Seq<OrganizeTaskItemRecord>,
    input: OrganizeAcceptChangesInput,
    placeholder_start: i64,
) -> bool {
    let pos = kept_positions(items, input.remove_missing_ids@, items.len() as int);
    &&& out.len() == pos.len()
    &&& forall|m: int|
        0 <= m < out.len() ==> accepted_row_is(
            #[trigger] out[m],
            items[pos[m]],
            input,
            placeholder_start + count_added(items, input.include_addition_ids@, pos[m]),
        )
}

fn has_id(ids: &Vec<u128>, x: u128) -> (b: bool)
    ensures
        b == ids@.contains(x),
{
    let mut i: usize = 0;
    while i < ids.len()
        invariant
            i <= ids@.len(),
            forall|j: int| 0 <= j < i ==> ids@[j] != x,
        decreases ids@.len() - i,
    {
        if ids[i] == x {
            assert(ids@[i as int] == x);
            return true;
        }
        i = i + 1;
    }
    false
}

fn copy_opt_text(v: &Option<String>) -> (r: Option<String>)
    ensures
        same_opt_text(r, *v),
{
    match v {
        Some(x) => Some(crate::text::copy_string(x.as_str())),
        None => None,
    }
}

proof fn lemma_count_added_nonneg(items: Seq<OrganizeTaskItemRecord>, adds: Seq<u128>, a: int)
    ensures
        0 <= count_added(items, adds, a),
    decreases a,
{
    if a > 0 {
        lemma_count_added_nonneg(items, adds, a - 1);
    }
}

proof fn lemma_count_added_bound(items: Seq<OrganizeTaskItemRecord>, adds: Seq<u128>, a: int, b: int)
    requires
        0 <= a <= b,
    ensures
        0 <= count_added(items, adds, a) <= count_added(items, adds, b),
    decreases b - a,
{
    lemma_count_added_nonneg(items, adds, a);
    if a < b {
        lemma_count_added_bound(items, adds, a, b - 1);
    }
}

/// The rows of a task after its reviewed changes are accepted, from the
/// placeholder start that the decision to proceed gave.
pub fn apply_accepted_changes(
    items: &[OrganizeTaskItemRecord],
    input: &OrganizeAcceptChangesInput,
    placeholder_start: i64,
) -> (r: Vec<OrganizeTaskItemRecord>)
    requires
        placeholder_start + count_added(items@, input.include_addition_ids@, items@.len() as int) < i64::MAX,
    ensures
        accepted_rows_are(r@, items@, *input, placeholder_start),
{
    proof {
        reveal_strlit("included");
        reveal_strlit("present");
        reveal_strlit("none");
    }
    let ghost n = items@.len() as int;
    let mut out: Vec<OrganizeTaskItemRecord> = Vec::new();
    let mut next: i64 = placeholder_start;
    let mut k: usize = 0;
    while k < items.len()
        invariant
            k <= items@.len(),
            n == items@.len(),
            placeholder_start + count_added(items@, input.include_addition_ids@, n) < i64::MAX,
            next == placeholder_start + count_added(items@, input.include_addition_ids@, k as int),
            out@.len() == kept_positions(items@, input.remove_missing_ids@, k as int).len(),
            forall|m: int|
                0 <= m < out@.len() ==> accepted_row_is(
                    #[trigger] out@[m],
                    items@[kept_positions(items@, input.remove_missing_ids@, k as int)[m]],
                    *input,
                    placeholder_start + count_added(
                        items@,
                        input.include_addition_ids@,
                        kept_positions(items@, input.remove_missing_ids@, k as int)[m],
                    ),
                ),
        decreases items@.len() - k,
    {
        let it = &items[k];
        let added = has_id(&input.include_addition_ids, it.uuid);
        let removed = has_id(&input.remove_missing_ids, it.uuid);
        let refreshed = has_id(&input.refresh_changed_ids, it.uuid);
        proof {
            lemma_count_added_bound(items@, input.include_addition_ids@, k + 1, n);
        }
        let start = next;
        if added {
            next = next + 1;
        }
        if !removed {
            let cleared = refreshed && !input.preserve_changed_decisions;
            let row = OrganizeTaskItemRecord {
                id: it.id,
                uuid: it.uuid,
                parent_id: it.parent_id,
                relative_path: crate::text::copy_string(it.relative_path.as_str()),
                relative_path_key: crate::text::copy_string(it.relative_path_key.as_str()),
                kind: crate::text::copy_string(it.kind.as_str()),
                size_bytes: it.size_bytes,
                tree_start: if added { Some(start) } else { it.tree_start },
                tree_end: if added { Some(start + 1) } else { it.tree_end },
                unit_count: if added { Some(1) } else { it.unit_count },
                aggregate_size_bytes: it.aggregate_size_bytes,
                membership_state: if added {
                    String::from_str("included")
                } else {
                    crate::text::copy_string(it.membership_state.as_str())
                },
                external_state: if added || refreshed {
                    String::from_str("present")
                } else {
                    crate::text::copy_string(it.external_state.as_str())
                },
                decision_kind: if cleared { None } else { copy_opt_text(&it.decision_kind) },
                move_destination: if cleared { None } else { copy_opt_text(&it.move_destination) },
                operation_state: if cleared {
                    String::from_str("none")
                } else {
                    crate::text::copy_string(it.operation_state.as_str())
                },
            };
            let ghost before = out@;
            out.push(row);
            proof {
                let pos = kept_positions(items@, input.remove_missing_ids@, k + 1);
                assert(pos == kept_positions(items@, input.remove_missing_ids@, k as int).push(k as int));
                assert(accepted_row_is(out@[out@.len() - 1], items@[k as int], *input, start as int));
                assert forall|m: int| 0 <= m < out@.len() implies accepted_row_is(
                    #[trigger] out@[m],
                    items@[pos[m]],
                    *input,
                    placeholder_start + count_added(items@, input.include_addition_ids@, pos[m]),
                ) by {
                    if m < before.len() {
                        assert(out@[m] == before[m]);
                    }
                }
            }
        }
        k = k + 1;
    }
    out
}

} // verus!
