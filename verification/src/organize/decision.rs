//! Setting a decision on a selection of a task: the request as users give it,
//! and what a request does to the stored decisions.

use vstd::prelude::*;
use vstd::string::StringExecFns;
use crate::addressing::SdPath;
use crate::organize::error::OrganizeError;
use crate::organize::model::{DecisionPatch, DecisionResolution, DecisionValue};
use crate::organize::plan::{copy_item, included, OrganizeTaskItemRecord};
use crate::organize::records::{
    decision_patch_is_noop, decision_tree_state, decided, first_state_decision_error, first_state_node_error,
    first_with_uuid, patch_is_noop_spec, patched_columns, state_decision, state_node, stored_columns, tree_state_is,
};
use crate::organize::tree::{
    build_intervals, confirmation_bytes, confirmation_is, dedup_ids, node_intervals, normalize_selection,
    normalized_ids, resolution_matches, resolve_set_decision, resolve_spec, selection_error, Resolved,
};
use crate::text::str_eq;

verus! {

broadcast use vstd::std_specs::hash::group_hash_axioms;

/// A decision as users request it.
#[derive(Clone, Debug)]
pub enum OrganizeDecisionInput {
    Keep,
    Discard,
    Move { destination: SdPath },
}

/// Why a request is not well formed.
#[derive(Clone, Debug)]
pub enum OrganizeInputError {
    InvalidInput(String),
}

/// The decision a request asks for: a move needs a physical, non-empty
/// destination.
pub open spec fn decision_input_spec(d: Option<OrganizeDecisionInput>) -> Result<Option<DecisionValue>, Seq<char>> {
    match d {
        None => Ok(None),
        Some(OrganizeDecisionInput::Keep) => Ok(Some(DecisionValue::Keep)),
        Some(OrganizeDecisionInput::Discard) => Ok(Some(DecisionValue::Discard)),
        Some(OrganizeDecisionInput::Move { destination }) => match destination {
            SdPath::Physical { path, .. } => if path@.len() == 0 {
                Err("organize move destination cannot be empty"@)
            } else {
                Ok(Some(DecisionValue::Move { destination: path }))
            },
            SdPath::Content { .. } => Err("organize move destination must be a physical path"@),
        },
    }
}

/// The decision a request asks for.
pub fn decision_value(decision: Option<OrganizeDecisionInput>) -> (r: Result<Option<DecisionValue>, OrganizeInputError>)
    ensures
        match decision_input_spec(decision) {
            Ok(Some(DecisionValue::Move { destination: d })) => r matches Ok(Some(DecisionValue::Move { destination: e }))
                && e@ == d@,
            Ok(v) => r == Ok::<Option<DecisionValue>, OrganizeInputError>(v),
            Err(m) => r matches Err(OrganizeInputError::InvalidInput(e)) && e@ == m,
        },
{
    match decision {
        None => Ok(None),
        Some(OrganizeDecisionInput::Keep) => Ok(Some(DecisionValue::keep())),
        Some(OrganizeDecisionInput::Discard) => Ok(Some(DecisionValue::discard())),
        Some(OrganizeDecisionInput::Move { destination }) => match destination.as_physical() {
            None => {
                proof {
                    reveal_strlit("organize move destination must be a physical path");
                }
                Err(OrganizeInputError::InvalidInput(String::from_str("organize move destination must be a physical path")))
            },
            Some((_, path)) => {
                if path.as_str().unicode_len() == 0 {
                    proof {
                        reveal_strlit("organize move destination cannot be empty");
                    }
                    return Err(OrganizeInputError::InvalidInput(String::from_str("organize move destination cannot be empty")));
                }
                Ok(Some(DecisionValue::move_to(path.as_str())))
            },
        },
    }
}

/// What a decision request does.
#[derive(Clone, Debug)]
pub enum DecisionRequestPlan {
    /// The caller's revision is not the task's.
    StaleRevision { current_revision: i64 },
    /// The request needs confirmation first.
    ConfirmationRequired(DecisionResolution),
    /// The selection already has the requested decision, from this item.
    InheritedNoOp { ancestor_item_id: u128 },
    /// Store the patch; the task moves to `revision`.
    Apply { patch: DecisionPatch, revision: i64, affected_roots: Vec<u128> },
}

/// How many of the items have an id among `ids`.
pub open spec fn count_in(items: Seq<OrganizeTaskItemRecord>, ids: Seq<u128>) -> nat
    decreases items.len(),
{
    if items.len() == 0 {
        0
    } else {
        count_in(items.drop_last(), ids) + if ids.contains(items.last().uuid) {
            1nat
        } else {
            0nat
        }
    }
}

/// The first selected id whose stored item was applied.
pub open spec fn first_applied_selected(items: Seq<OrganizeTaskItemRecord>, sel: Seq<u128>, k: int) -> Option<u128>
    decreases k,
{
    if k <= 0 {
        None
    } else {
        match first_applied_selected(items, sel, k - 1) {
            Some(x) => Some(x),
            None => match first_with_uuid(items, sel[k - 1], 0) {
                Some(it) => if it.operation_state@ == "applied"@ {
                    Some(it.uuid)
                } else {
                    None
                },
                None => None,
            },
        }
    }
}

/// Whether a patch is the one a resolution names: its upserts, and its deletes
/// strictly increasing with the named set.
pub open spec fn patch_is(patch: DecisionPatch, d: Seq<u128>, u: Seq<crate::organize::model::ExplicitDecisionRoot>) -> bool {
    &&& patch.upsert_roots@ == u
    &&& forall|a: int, b: int| 0 <= a < b < patch.delete_roots@.len() ==> patch.delete_roots@[a] < patch.delete_roots@[b]
    &&& forall|x: u128| #[trigger] patch.delete_roots@.contains(x) <==> d.contains(x)
}

/// The nodes of the stored tree.
pub open spec fn stored_nodes(items: Seq<OrganizeTaskItemRecord>) -> Seq<crate::organize::model::TreeItemComputed> {
    included(items).map_values(|it: OrganizeTaskItemRecord| state_node(it))
}

/// The decision roots of the stored tree.
pub open spec fn stored_decisions(items: Seq<OrganizeTaskItemRecord>) -> Seq<crate::organize::model::ExplicitDecisionRoot> {
    decided(included(items)).map_values(|it: OrganizeTaskItemRecord| state_decision(it))
}

/// Whether the stored tree can be read.
pub open spec fn stored_tree_ok(items: Seq<OrganizeTaskItemRecord>) -> bool {
    let inc = included(items);
    first_state_node_error(inc, inc.len() as int) is None && first_state_decision_error(decided(inc), decided(inc).len() as int) is None
}

/// What a decision request does: a stale revision is reported; a task that
/// is not active, an empty selection, an unknown selected item, an applied
/// selected item and a stored tree that cannot be read are refused; then the
/// selection is normalized and the decision resolved; a patch that changes
/// nothing is reported as inherited from the first normalized item.
pub open spec fn decision_request_is(
    r: Result<DecisionRequestPlan, OrganizeError>,
    status: Seq<char>,
    revision: i64,
    expected_revision: i64,
    sel: Seq<u128>,
    items: Seq<OrganizeTaskItemRecord>,
    decision: Option<DecisionValue>,
    cd: bool,
    ca: bool,
) -> bool {
    let inc = included(items);
    let ids = dedup_ids(sel);
    let nodes = stored_nodes(items);
    let decs = stored_decisions(items);
    let iv = node_intervals(nodes);
    if revision != expected_revision {
        r matches Ok(DecisionRequestPlan::StaleRevision { current_revision }) && current_revision == revision
    } else if status != "active"@ {
        r matches Err(OrganizeError::InvalidTaskState(m)) && m@ == status
    } else if sel.len() == 0 {
        r matches Err(OrganizeError::InvalidTree(m)) && m@ == "selection is empty"@
    } else if count_in(inc, ids) != ids.len() {
        r matches Err(OrganizeError::InvalidTree(m)) && m@ == "selection contains an unknown item"@
    } else if first_applied_selected(items, sel, sel.len() as int) is Some {
        r == Err::<DecisionRequestPlan, OrganizeError>(OrganizeError::AppliedDecisionImmutable(
            first_applied_selected(items, sel, sel.len() as int)->Some_0,
        ))
    } else if !stored_tree_ok(items) {
        exists|e: Result<crate::organize::model::DecisionTreeState, OrganizeError>|
            tree_state_is(e, items) && #[trigger] e.is_err() && r == Err::<DecisionRequestPlan, OrganizeError>(e->Err_0)
    } else if selection_error(ids, iv, ids.len() as int) is Some {
        r matches Err(OrganizeError::InvalidTree(m)) && m@ == selection_error(ids, iv, ids.len() as int)->Some_0
    } else {
        match resolve_spec(nodes, decs, sel, decision, cd, ca) {
            Resolved::Error(m) => r matches Err(OrganizeError::InvalidTree(e)) && e@ == m,
            Resolved::Immutable(id) => r == Err::<DecisionRequestPlan, OrganizeError>(OrganizeError::AppliedDecisionImmutable(id)),
            Resolved::Confirm(kind, roots) => r matches Ok(DecisionRequestPlan::ConfirmationRequired(res)) && confirmation_is(res, kind, roots),
            Resolved::Inherited(a) => r matches Ok(DecisionRequestPlan::InheritedNoOp { ancestor_item_id }) && ancestor_item_id == a,
            Resolved::Patch(d, u) => {
                let norm = normalized_ids(sel, iv);
                ||| r matches Ok(DecisionRequestPlan::Apply { patch, revision: next, affected_roots }) && patch_is(patch, d, u)
                    && !patch_is_noop_spec(inc, patch) && next == revision + 1 && affected_roots@ == norm
                ||| r matches Ok(DecisionRequestPlan::InheritedNoOp { ancestor_item_id }) && ancestor_item_id == norm[0]
                    && forall|p: DecisionPatch| #[trigger] patch_is(p, d, u) ==> patch_is_noop_spec(inc, p)
            },
        }
    }
}

proof fn lemma_noop_by_views(inc: Seq<OrganizeTaskItemRecord>, p: DecisionPatch, q: DecisionPatch)
    requires
        p.upsert_roots@ == q.upsert_roots@,
        forall|x: u128| p.delete_roots@.contains(x) <==> q.delete_roots@.contains(x),
    ensures
        patch_is_noop_spec(inc, p) == patch_is_noop_spec(inc, q),
{
    assert forall|id: u128| #[trigger] patched_columns(inc, p, id) == patched_columns(inc, q, id) by {}
    if patch_is_noop_spec(inc, p) {
        assert forall|id: u128| #[trigger] patched_columns(inc, q, id) == stored_columns(inc, id) by {
            assert(patched_columns(inc, p, id) == stored_columns(inc, id));
        }
    }
    if patch_is_noop_spec(inc, q) {
        assert forall|id: u128| #[trigger] patched_columns(inc, p, id) == stored_columns(inc, id) by {
            assert(patched_columns(inc, q, id) == stored_columns(inc, id));
        }
    }
}

} // verus!

verus! {

/// The distinct ids of a selection, in first-seen order.
fn dedup_selection(sel: &[u128]) -> (r: Vec<u128>)
    ensures
        r@ == dedup_ids(sel@),
{
    let mut out: Vec<u128> = Vec::new();
    let mut i: usize = 0;
    while i < sel.len()
        invariant
            i <= sel@.len(),
            out@ == dedup_ids(sel@.take(i as int)),
        decreases sel@.len() - i,
    {
        assert(sel@.take(i + 1).drop_last() =~= sel@.take(i as int));
        let x = sel[i];
        let mut seen = false;
        let mut j: usize = 0;
        while j < out.len()
            invariant
                j <= out@.len(),
                seen <==> exists|q: int| 0 <= q < j && out@[q] == x,
            decreases out@.len() - j,
        {
            if out[j] == x {
                seen = true;
            }
            j = j + 1;
        }
        if !seen {
            out.push(x);
        }
        i = i + 1;
    }
    assert(sel@.take(sel@.len() as int) =~= sel@);
    out
}

fn contains_id(ids: &Vec<u128>, x: u128) -> (b: bool)
    ensures
        b == ids@.contains(x),
{
    let mut j: usize = 0;
    while j < ids.len()
        invariant
            j <= ids@.len(),
            forall|q: int| 0 <= q < j ==> ids@[q] != x,
        decreases ids@.len() - j,
    {
        if ids[j] == x {
            return true;
        }
        j = j + 1;
    }
    false
}

/// What a decision request does to the stored items of a task (all of its
/// rows), given the task's status and revision and the selected ids.
pub fn decide_decision_request(
    status: &str,
    revision: i64,
    expected_revision: i64,
    selected_ids: &[u128],
    items: &[OrganizeTaskItemRecord],
    decision: Option<DecisionValue>,
    confirm_descendant_override: bool,
    confirm_ancestor_split: bool,
) -> (r: Result<DecisionRequestPlan, OrganizeError>)
    requires
        revision < i64::MAX,
        stored_tree_ok(items@) ==> confirmation_bytes(
            resolve_spec(
                stored_nodes(items@),
                stored_decisions(items@),
                selected_ids@,
                decision,
                confirm_descendant_override,
                confirm_ancestor_split,
            ),
        ) <= u64::MAX,
    ensures
        decision_request_is(
            r,
            status@,
            revision,
            expected_revision,
            selected_ids@,
            items@,
            decision,
            confirm_descendant_override,
            confirm_ancestor_split,
        ),
{
    if revision != expected_revision {
        return Ok(DecisionRequestPlan::StaleRevision { current_revision: revision });
    }
    if !str_eq(status, "active") {
        return Err(OrganizeError::InvalidTaskState(crate::text::copy_string(status)));
    }
    if selected_ids.len() == 0 {
        proof {
            reveal_strlit("selection is empty");
        }
        return Err(OrganizeError::InvalidTree(String::from_str("selection is empty")));
    }
    let ghost s = items@;
    let mut inc: Vec<OrganizeTaskItemRecord> = Vec::new();
    let mut i: usize = 0;
    while i < items.len()
        invariant
            i <= s.len(),
            s == items@,
            inc@ == included(s.take(i as int)),
        decreases s.len() - i,
    {
        assert(s.take(i + 1).drop_last() =~= s.take(i as int));
        if str_eq(items[i].membership_state.as_str(), "included") {
            inc.push(copy_item(&items[i]));
        }
        i = i + 1;
    }
    assert(s.take(s.len() as int) =~= s);
    let unique = dedup_selection(selected_ids);
    let mut count: usize = 0;
    let mut k: usize = 0;
    while k < inc.len()
        invariant
            k <= inc@.len(),
            count == count_in(inc@.take(k as int), unique@),
            count <= k,
        decreases inc@.len() - k,
    {
        assert(inc@.take(k + 1).drop_last() =~= inc@.take(k as int));
        if contains_id(&unique, inc[k].uuid) {
            count = count + 1;
        }
        k = k + 1;
    }
    assert(inc@.take(inc@.len() as int) =~= inc@);
    if count != unique.len() {
        proof {
            reveal_strlit("selection contains an unknown item");
        }
        return Err(OrganizeError::InvalidTree(String::from_str("selection contains an unknown item")));
    }
    let mut q: usize = 0;
    while q < selected_ids.len()
        invariant
            q <= selected_ids@.len(),
            first_applied_selected(items@, selected_ids@, q as int) is None,
            revision == expected_revision,
            status@ == "active"@,
            selected_ids@.len() > 0,
            count_in(included(items@), dedup_ids(selected_ids@)) == dedup_ids(selected_ids@).len(),
        decreases selected_ids@.len() - q,
    {
        let id = selected_ids[q];
        let mut j: usize = 0;
        let mut found: Option<usize> = None;
        while j < items.len() && found.is_none()
            invariant
                j <= items@.len(),
                found is None ==> first_with_uuid(items@, id, 0) == first_with_uuid(items@, id, j as int),
                found matches Some(w) ==> w < items@.len() && first_with_uuid(items@, id, 0) == Some(items@[w as int]),
            decreases items@.len() - j + (if found is None { 1int } else { 0int }),
        {
            if items[j].uuid == id {
                found = Some(j);
            } else {
                j = j + 1;
            }
        }
        match found {
            Some(w) => {
                if str_eq(items[w].operation_state.as_str(), "applied") {
                    proof {
                        assert(first_applied_selected(items@, selected_ids@, q + 1) == Some(items@[w as int].uuid));
                        lemma_first_applied_stays(items@, selected_ids@, q + 1, selected_ids@.len() as int);
                    }
                    return Err(OrganizeError::AppliedDecisionImmutable(items[w].uuid));
                }
            },
            None => {},
        }
        q = q + 1;
    }
    let state = match decision_tree_state(items) {
        Ok(st) => st,
        Err(e) => {
            proof {
                let ghost er = Err::<crate::organize::model::DecisionTreeState, OrganizeError>(e);
                assert(tree_state_is(er, items@));
                assert(er.is_err());
            }
            return Err(e);
        },
    };
    let intervals = build_intervals(state.nodes.as_slice());
    let norm = match normalize_selection(selected_ids, &intervals) {
        Ok(n) => n,
        Err(e) => {
            return Err(e);
        },
    };
    let res = match resolve_set_decision(
        &state,
        selected_ids,
        decision,
        confirm_descendant_override,
        confirm_ancestor_split,
    ) {
        Ok(x) => x,
        Err(e) => {
            return Err(e);
        },
    };
    match res {
        DecisionResolution::ConfirmationRequired { .. } => Ok(DecisionRequestPlan::ConfirmationRequired(res)),
        DecisionResolution::InheritedNoOp { ancestor_item_id } => Ok(DecisionRequestPlan::InheritedNoOp { ancestor_item_id }),
        DecisionResolution::Apply(patch) => {
            if decision_patch_is_noop(inc.as_slice(), &patch) {
                proof {
                    let sp = resolve_spec(
                        stored_nodes(items@),
                        stored_decisions(items@),
                        selected_ids@,
                        decision,
                        confirm_descendant_override,
                        confirm_ancestor_split,
                    );
                    match sp {
                        Resolved::Patch(d, u) => {
                            assert forall|p: DecisionPatch| #[trigger] patch_is(p, d, u) implies patch_is_noop_spec(inc@, p) by {
                                lemma_noop_by_views(inc@, p, patch);
                            }
                        },
                        _ => {},
                    }
                }
                let first = norm[0];
                Ok(DecisionRequestPlan::InheritedNoOp { ancestor_item_id: first })
            } else {
                Ok(DecisionRequestPlan::Apply { patch, revision: revision + 1, affected_roots: norm })
            }
        },
    }
}

proof fn lemma_first_applied_stays(items: Seq<OrganizeTaskItemRecord>, sel: Seq<u128>, k: int, n: int)
    requires
        0 <= k <= n,
        first_applied_selected(items, sel, k) is Some,
    ensures
        first_applied_selected(items, sel, n) == first_applied_selected(items, sel, k),
    decreases n - k,
{
    if k < n {
        lemma_first_applied_stays(items, sel, k + 1, n);
    }
}


/// A refused decision request as the action reports it.
#[derive(Clone, Copy, Debug, PartialEq, Eq, Structural)]
pub enum DecisionRejection {
    /// The selection lies under an applied root.
    Immutable { applied_root_item_id: u128 },
    /// The task is not in a state that takes decisions.
    State { status: crate::organize::model::OrganizeTaskStatus },
}

/// The refusal an error of a decision request stands for, if it is one: an
/// applied root, or a task state that names a known status.
pub fn decision_rejection(error: &OrganizeError) -> (r: Option<DecisionRejection>)
    ensures
        r == match *error {
            OrganizeError::AppliedDecisionImmutable(id) => Some(DecisionRejection::Immutable { applied_root_item_id: id }),
            OrganizeError::InvalidTaskState(s) => match crate::organize::commit::task_status_spec(s@) {
                Some(st) => Some(DecisionRejection::State { status: st }),
                None => None,
            },
            _ => None,
        },
{
    match error {
        OrganizeError::AppliedDecisionImmutable(id) => Some(DecisionRejection::Immutable { applied_root_item_id: *id }),
        OrganizeError::InvalidTaskState(s) => match crate::organize::commit::parse_task_status(s.as_str()) {
            Some(st) => Some(DecisionRejection::State { status: st }),
            None => None,
        },
        _ => None,
    }
}

} // verus!
