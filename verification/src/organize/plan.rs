//! The commit plan of an organize task: from the stored task and items to the
//! physical moves and deletions, what blocks them, and the progress left.

use vstd::prelude::*;
use vstd::string::StringExecFns;
use crate::addressing::SdPath;
use crate::organize::error::OrganizeError;
use crate::organize::model::{
    DecisionValue, ExplicitDecisionRoot, OrganizeOperationState, OrganizeProgressSummary, OrganizeTaskStatus,
    TreeItemComputed,
};
use crate::organize::commit::{
    operation_state_spec, parse_operation_state, parse_task_status, task_status_spec, OrganizeCommitBlockReason,
    OrganizeCommitPlanOutput, OrganizeTopologyConflict,
};
use crate::organize::conflicts::{conflicts_are, copy_conflict, find_unsafe_conflicts, plan_conflicts};
use crate::organize::grouping::{
    build_move_groups, compact_same_action, copy_planned, dest_key, group_key, group_totals_fit,
    law_move_group_roots_are_moves, lemma_outer_destinations, move_group_is, move_groups_are, moves_have_destination,
    law_moves_across_groups_do_not_nest, lemma_mwk_members, lemma_outer_members, moves_with_key, outer_move_roots, holds, outer_moves, plan_roots, plan_roots_are,
    same_compacted_is, same_shadowed,
};
use crate::organize::tree::{
    invalid_kept_root, kept_units, msg_invalid_root, msg_roots_exceed, outer_units, reduce_progress, saturate, UnitKind,
};
use crate::text::{
    append_chars, chars_eq, chars_of, copy_chars, copy_string, join_chars, join_seq, lowercase,
    lowercase_chars, push_str, replace_chars, replace_seq, skip_chars, split_chars, split_seq,
    starts_with_chars, starts_with_seq, str_eq, string_from_chars,
};

verus! {

/// The stored row of an organize task, as far as planning reads it.
#[derive(Clone, Debug)]
pub struct OrganizeTaskRecord {
    pub revision: i64,
    pub status: String,
    pub root_path: String,
    pub device_slug: String,
}

/// The stored row of an organize task item, as far as planning reads it.
#[derive(Clone, Debug)]
pub struct OrganizeTaskItemRecord {
    /// The row id, which `parent_id` refers to.
    pub id: i32,
    pub uuid: u128,
    pub parent_id: Option<i32>,
    pub relative_path: String,
    pub relative_path_key: String,
    pub kind: String,
    pub size_bytes: i64,
    pub tree_start: Option<i64>,
    pub tree_end: Option<i64>,
    pub unit_count: Option<i64>,
    pub aggregate_size_bytes: i64,
    pub membership_state: String,
    pub external_state: String,
    pub decision_kind: Option<String>,
    pub move_destination: Option<String>,
    pub operation_state: String,
}

pub open spec fn msg_no_tree_start() -> Seq<char> {
    "included item has no tree start"@
}

pub open spec fn msg_no_tree_end() -> Seq<char> {
    "included item has no tree end"@
}

pub open spec fn msg_bad_interval() -> Seq<char> {
    "included item has an invalid tree interval"@
}

pub open spec fn msg_no_units() -> Seq<char> {
    "included item has no unit count"@
}

pub open spec fn msg_bad_units() -> Seq<char> {
    "included item has invalid unit count"@
}

pub open spec fn msg_no_destination() -> Seq<char> {
    "move decision has no destination"@
}

/// The interval of an included item, or why it has none.
pub open spec fn item_interval_spec(item: OrganizeTaskItemRecord) -> Result<(i64, i64), Seq<char>> {
    match item.tree_start {
        None => Err(msg_no_tree_start()),
        Some(s) => match item.tree_end {
            None => Err(msg_no_tree_end()),
            Some(e) => if s < 0 || s >= e {
                Err(msg_bad_interval())
            } else {
                Ok((s, e))
            },
        },
    }
}

/// The interval of an included item: its start and end, present, with
/// `0 <= start < end`.
pub fn item_interval(item: &OrganizeTaskItemRecord) -> (r: Result<(i64, i64), OrganizeError>)
    ensures
        match item_interval_spec(*item) {
            Ok(v) => r == Ok::<(i64, i64), OrganizeError>(v),
            Err(m) => r matches Err(OrganizeError::InvalidTree(e)) && e@ == m,
        },
{
    let start = match item.tree_start {
        Some(s) => s,
        None => {
            return Err(OrganizeError::InvalidTree(String::from_str("included item has no tree start")));
        },
    };
    let end = match item.tree_end {
        Some(e) => e,
        None => {
            return Err(OrganizeError::InvalidTree(String::from_str("included item has no tree end")));
        },
    };
    if start < 0 || start >= end {
        return Err(OrganizeError::InvalidTree(String::from_str("included item has an invalid tree interval")));
    }
    Ok((start, end))
}

/// The unit count of an included item, or why it has none.
pub open spec fn required_units_spec(value: Option<i64>) -> Result<u64, Seq<char>> {
    match value {
        None => Err(msg_no_units()),
        Some(v) => if v < 0 {
            Err(msg_bad_units())
        } else {
            Ok(v as u64)
        },
    }
}

/// The unit count of an included item: present and not negative.
pub fn required_units(value: Option<i64>) -> (r: Result<u64, OrganizeError>)
    ensures
        match required_units_spec(value) {
            Ok(v) => r == Ok::<u64, OrganizeError>(v),
            Err(m) => r matches Err(OrganizeError::InvalidTree(e)) && e@ == m,
        },
{
    match value {
        None => Err(OrganizeError::InvalidTree(String::from_str("included item has no unit count"))),
        Some(v) => if v < 0 {
            Err(OrganizeError::InvalidTree(String::from_str("included item has invalid unit count")))
        } else {
            Ok(v as u64)
        },
    }
}

/// The decision stored on an item, or why it cannot be read.
pub open spec fn parse_decision_spec(item: OrganizeTaskItemRecord) -> Result<Option<DecisionValue>, Seq<char>> {
    match item.decision_kind {
        None => Ok(None),
        Some(k) => if k@ == "keep"@ {
            Ok(Some(DecisionValue::Keep))
        } else if k@ == "discard"@ {
            Ok(Some(DecisionValue::Discard))
        } else if k@ == "move"@ {
            match item.move_destination {
                Some(d) => Ok(Some(DecisionValue::Move { destination: d })),
                None => Err(msg_no_destination()),
            }
        } else {
            Err("unknown decision kind: "@ + k@)
        },
    }
}

/// The decision stored on an item: none, keep, discard, or a move to its destination.
pub fn parse_decision(item: &OrganizeTaskItemRecord) -> (r: Result<Option<DecisionValue>, OrganizeError>)
    ensures
        match parse_decision_spec(*item) {
            Ok(v) => r == Ok::<Option<DecisionValue>, OrganizeError>(v),
            Err(m) => r matches Err(OrganizeError::InvalidTree(e)) && e@ == m,
        },
{
    match &item.decision_kind {
        None => Ok(None),
        Some(k) => {
            if str_eq(k.as_str(), "keep") {
                Ok(Some(DecisionValue::Keep))
            } else if str_eq(k.as_str(), "discard") {
                Ok(Some(DecisionValue::Discard))
            } else if str_eq(k.as_str(), "move") {
                match &item.move_destination {
                    Some(d) => Ok(Some(DecisionValue::Move { destination: d.clone() })),
                    None => Err(OrganizeError::InvalidTree(String::from_str("move decision has no destination"))),
                }
            } else {
                let mut v: Vec<char> = Vec::new();
                push_str(&mut v, "unknown decision kind: ");
                push_str(&mut v, k.as_str());
                Err(OrganizeError::InvalidTree(string_from_chars(v.as_slice())))
            }
        },
    }
}

/// `path` with every leading and trailing `\` or `/` removed (`trim_matches`).
pub open spec fn trim_seps(s: Seq<char>) -> Seq<char>
    decreases s.len(),
{
    if s.len() > 0 && (s[0] == '\\' || s[0] == '/') {
        trim_seps(s.drop_first())
    } else if s.len() > 0 && (s.last() == '\\' || s.last() == '/') {
        trim_seps(s.drop_last())
    } else {
        s
    }
}

/// `path` with every trailing `\` or `/` removed (`trim_end_matches`).
pub open spec fn trim_end_seps(s: Seq<char>) -> Seq<char>
    decreases s.len(),
{
    if s.len() > 0 && (s.last() == '\\' || s.last() == '/') {
        trim_end_seps(s.drop_last())
    } else {
        s
    }
}

/// A relative path joined under a root with `\`.
pub open spec fn join_windows_path_spec(root: Seq<char>, relative: Seq<char>) -> Seq<char> {
    if relative.len() == 0 {
        root
    } else {
        trim_end_seps(root) + seq!['\\'] + replace_seq(trim_seps(relative), '/', '\\')
    }
}

fn trim_end_seps_chars(v: &[char]) -> (r: Vec<char>)
    ensures
        r@ == trim_end_seps(v@),
{
    let mut n: usize = v.len();
    assert(v@.take(n as int) =~= v@);
    while n > 0 && (v[n - 1] == '\\' || v[n - 1] == '/')
        invariant
            n <= v@.len(),
            trim_end_seps(v@.take(n as int)) == trim_end_seps(v@),
        decreases n,
    {
        assert(v@.take(n as int).drop_last() =~= v@.take(n - 1));
        n = n - 1;
    }
    let r = crate::text::take_chars(v, n);
    r
}

fn trim_seps_chars(v: &[char]) -> (r: Vec<char>)
    ensures
        r@ == trim_seps(v@),
{
    let mut a: usize = 0;
    let mut b: usize = v.len();
    assert(v@.subrange(0, b as int) =~= v@);
    while a < b && (v[a] == '\\' || v[a] == '/')
        invariant
            a <= b <= v@.len(),
            b == v@.len(),
            trim_seps(v@.subrange(a as int, b as int)) == trim_seps(v@),
        decreases b - a,
    {
        assert(v@.subrange(a as int, b as int).drop_first() =~= v@.subrange(a + 1, b as int));
        a = a + 1;
    }
    while a < b && (v[b - 1] == '\\' || v[b - 1] == '/')
        invariant
            a <= b <= v@.len(),
            trim_seps(v@.subrange(a as int, b as int)) == trim_seps(v@),
            a == b || (v@[a as int] != '\\' && v@[a as int] != '/'),
        decreases b - a,
    {
        let ghost s = v@.subrange(a as int, b as int);
        assert(s.drop_last() =~= v@.subrange(a as int, b - 1));
        assert(s[0] == v@[a as int]);
        b = b - 1;
    }
    proof {
        let s = v@.subrange(a as int, b as int);
        if s.len() > 0 {
            assert(s[0] == v@[a as int]);
            assert(s.last() == v@[b - 1]);
        }
    }
    let mut r: Vec<char> = Vec::new();
    let mut i: usize = a;
    while i < b
        invariant
            a <= i <= b <= v@.len(),
            r@ == v@.subrange(a as int, i as int),
        decreases b - i,
    {
        r.push(v[i]);
        i = i + 1;
        assert(r@ =~= v@.subrange(a as int, i as int));
    }
    r
}

/// The path of `relative` below `root`, with `\` separators.
pub fn join_windows_path(root: &str, relative: &str) -> (r: String)
    ensures
        r@ == join_windows_path_spec(root@, relative@),
{
    let rel = chars_of(relative);
    if rel.len() == 0 {
        return copy_string(root);
    }
    let rc = chars_of(root);
    let mut out = trim_end_seps_chars(rc.as_slice());
    out.push('\\');
    let t = trim_seps_chars(rel.as_slice());
    let rep = replace_chars(t.as_slice(), '/', '\\');
    let ghost o = out@;
    append_chars(&mut out, rep.as_slice());
    assert(out@ =~= join_windows_path_spec(root@, relative@));
    string_from_chars(out.as_slice())
}

} // verus!

verus! {

// ----- topology keys of planned paths -----

pub open spec fn lower_unc_prefix() -> Seq<char> {
    seq!['\\', '\\', '?', '\\', 'u', 'n', 'c', '\\']
}

pub open spec fn lower_ext_prefix() -> Seq<char> {
    seq!['\\', '\\', '?', '\\']
}

/// A lowercased path without its extended-length prefix.
pub open spec fn plan_strip(k: Seq<char>) -> Seq<char> {
    if starts_with_seq(k, lower_unc_prefix()) {
        seq!['\\', '\\'] + k.skip(8)
    } else if starts_with_seq(k, lower_ext_prefix()) {
        k.skip(4)
    } else {
        k
    }
}

/// The components of a path: empty pieces and `.` are skipped, `..` drops the
/// last component unless only the volume root is left.
pub open spec fn plan_fold(pieces: Seq<Seq<char>>, root: nat) -> Seq<Seq<char>>
    decreases pieces.len(),
{
    if pieces.len() == 0 {
        Seq::<Seq<char>>::empty()
    } else {
        let c = plan_fold(pieces.drop_last(), root);
        let p = pieces.last();
        if p.len() == 0 || p == seq!['.'] {
            c
        } else if p == seq!['.', '.'] {
            if c.len() > root {
                c.drop_last()
            } else {
                c
            }
        } else {
            c.push(p)
        }
    }
}

/// The comparison key of a planned path: `/` made `\`, lowercased, the
/// extended-length prefix dropped, `.` and `..` resolved, separators collapsed.
pub open spec fn plan_key_spec(path: Seq<char>) -> Seq<char> {
    let k = plan_strip(lowercase(replace_seq(path, '/', '\\')));
    let unc = starts_with_seq(k, seq!['\\', '\\']);
    let comps = plan_fold(split_seq(k, '\\'), if unc { 2 } else { 1 });
    if unc {
        seq!['\\', '\\'] + join_seq(comps, seq!['\\'])
    } else {
        join_seq(comps, seq!['\\'])
    }
}

/// The comparison key of a planned path.
pub fn plan_key(path: &str) -> (r: Vec<char>)
    ensures
        r@ == plan_key_spec(path@),
{
    let c = chars_of(path);
    let rep = replace_chars(c.as_slice(), '/', '\\');
    let low = lowercase_chars(rep.as_slice());
    let unc_p: Vec<char> = vec!['\\', '\\', '?', '\\', 'u', 'n', 'c', '\\'];
    let ext_p: Vec<char> = vec!['\\', '\\', '?', '\\'];
    assert(unc_p@ =~= lower_unc_prefix());
    assert(ext_p@ =~= lower_ext_prefix());
    let k: Vec<char> = if starts_with_chars(low.as_slice(), unc_p.as_slice()) {
        let rest = skip_chars(low.as_slice(), 8);
        let mut k: Vec<char> = vec!['\\', '\\'];
        let ghost k0 = k@;
        append_chars(&mut k, rest.as_slice());
        k
    } else if starts_with_chars(low.as_slice(), ext_p.as_slice()) {
        skip_chars(low.as_slice(), 4)
    } else {
        copy_chars(low.as_slice())
    };
    assert(k@ == plan_strip(lowercase(replace_seq(path@, '/', '\\'))));
    let lead: Vec<char> = vec!['\\', '\\'];
    assert(lead@ =~= seq!['\\', '\\']);
    let unc = starts_with_chars(k.as_slice(), lead.as_slice());
    let root: usize = if unc { 2 } else { 1 };
    let pieces = split_chars(k.as_slice(), '\\');
    let ghost pv = pieces@.map_values(|p: Vec<char>| p@);
    let mut comps: Vec<Vec<char>> = Vec::new();
    let mut i: usize = 0;
    while i < pieces.len()
        invariant
            i <= pieces@.len(),
            pv == pieces@.map_values(|p: Vec<char>| p@),
            root as nat == (if unc { 2nat } else { 1nat }),
            comps@.map_values(|p: Vec<char>| p@) == plan_fold(pv.take(i as int), root as nat),
        decreases pieces@.len() - i,
    {
        assert(pv.take(i + 1).drop_last() =~= pv.take(i as int));
        assert(pv.take(i + 1).last() == pv[i as int]);
        let piece = &pieces[i];
        let ghost before = comps@.map_values(|p: Vec<char>| p@);
        let dot: Vec<char> = vec!['.'];
        let dotdot: Vec<char> = vec!['.', '.'];
        assert(dot@ =~= seq!['.']);
        assert(dotdot@ =~= seq!['.', '.']);
        if piece.len() == 0 || chars_eq(piece.as_slice(), dot.as_slice()) {
        } else if chars_eq(piece.as_slice(), dotdot.as_slice()) {
            if comps.len() > root {
                comps.pop();
                assert(comps@.map_values(|p: Vec<char>| p@) =~= before.drop_last());
            }
        } else {
            comps.push(copy_chars(piece.as_slice()));
            assert(comps@.map_values(|p: Vec<char>| p@) =~= before.push(pv[i as int]));
        }
        i = i + 1;
    }
    assert(pv.take(pieces@.len() as int) =~= pv);
    let sep: Vec<char> = vec!['\\'];
    assert(sep@ =~= seq!['\\']);
    let body = join_chars(comps.as_slice(), sep.as_slice());
    if unc {
        let mut out: Vec<char> = vec!['\\', '\\'];
        append_chars(&mut out, body.as_slice());
        out
    } else {
        body
    }
}

/// Whether `a` is a strict ancestor key of `d`: `d` continues `a` with a `\`.
pub open spec fn key_ancestor_spec(a: Seq<char>, d: Seq<char>) -> bool {
    a != d && d.len() > a.len() && d.take(a.len() as int) == a && d[a.len() as int] == '\\'
}

/// Whether two keys are equal or one is an ancestor of the other.
pub open spec fn keys_overlap_spec(l: Seq<char>, r: Seq<char>) -> bool {
    l == r || key_ancestor_spec(l, r) || key_ancestor_spec(r, l)
}

/// Whether `a` is a strict ancestor key of `d`.
pub fn is_ancestor_key(a: &[char], d: &[char]) -> (b: bool)
    ensures
        b == key_ancestor_spec(a@, d@),
{
    if chars_eq(a, d) {
        return false;
    }
    d.len() > a.len() && starts_with_chars(d, a) && d[a.len()] == '\\'
}

/// Whether two keys are equal or one is an ancestor of the other.
pub fn keys_overlap(l: &[char], r: &[char]) -> (b: bool)
    ensures
        b == keys_overlap_spec(l@, r@),
{
    chars_eq(l, r) || is_ancestor_key(l, r) || is_ancestor_key(r, l)
}

} // verus!

verus! {

// ----- included items, their nodes and their decision roots -----

/// A decision root as planning reads it from an item.
#[derive(Clone, Debug)]
pub struct PlannedRoot {
    pub item_id: u128,
    pub relative_path: String,
    pub tree_start: i64,
    pub tree_end: i64,
    pub units: u64,
    pub bytes: u64,
    pub decision: DecisionValue,
    pub operation_state: OrganizeOperationState,
    pub destination: Option<String>,
}

/// The items whose membership is `included`, in order.
pub open spec fn included(items: Seq<OrganizeTaskItemRecord>) -> Seq<OrganizeTaskItemRecord>
    decreases items.len(),
{
    if items.len() == 0 {
        Seq::<OrganizeTaskItemRecord>::empty()
    } else {
        let prev = included(items.drop_last());
        if items.last().membership_state@ == "included"@ {
            prev.push(items.last())
        } else {
            prev
        }
    }
}

/// How many items wait to be added (`pending_addition`).
pub open spec fn pending_additions(items: Seq<OrganizeTaskItemRecord>) -> nat
    decreases items.len(),
{
    if items.len() == 0 {
        0
    } else {
        pending_additions(items.drop_last()) + if items.last().membership_state@ == "pending_addition"@ {
            1nat
        } else {
            0nat
        }
    }
}

/// Why an included item has no node: a bad interval or unit count.
pub open spec fn node_error(it: OrganizeTaskItemRecord) -> Option<Seq<char>> {
    match item_interval_spec(it) {
        Err(m) => Some(m),
        Ok(_) => match required_units_spec(it.unit_count) {
            Err(m) => Some(m),
            Ok(_) => None,
        },
    }
}

/// The size of an item, 0 when negative.
pub open spec fn item_bytes(it: OrganizeTaskItemRecord) -> u64 {
    if it.aggregate_size_bytes < 0 {
        0
    } else {
        it.aggregate_size_bytes as u64
    }
}

/// The node of an included item with a valid interval and unit count.
pub open spec fn node_of(it: OrganizeTaskItemRecord) -> TreeItemComputed {
    TreeItemComputed {
        item_id: it.uuid,
        tree_start: it.tree_start->Some_0,
        tree_end: it.tree_end->Some_0,
        unit_count: it.unit_count->Some_0 as u64,
        aggregate_size_bytes: item_bytes(it),
    }
}

/// Why an included item's decision cannot be read: its kind or its operation state.
pub open spec fn decision_error(it: OrganizeTaskItemRecord) -> Option<Seq<char>> {
    match parse_decision_spec(it) {
        Err(m) => Some(m),
        Ok(None) => None,
        Ok(Some(_)) => match operation_state_spec(it.operation_state@) {
            None => Some("unknown operation state: "@ + it.operation_state@),
            Some(_) => None,
        },
    }
}

/// The decision root of an included item that has a decision.
pub open spec fn planned_of(it: OrganizeTaskItemRecord) -> PlannedRoot {
    PlannedRoot {
        item_id: it.uuid,
        relative_path: it.relative_path,
        tree_start: it.tree_start->Some_0,
        tree_end: it.tree_end->Some_0,
        units: it.unit_count->Some_0 as u64,
        bytes: item_bytes(it),
        decision: parse_decision_spec(it)->Ok_0->Some_0,
        operation_state: operation_state_spec(it.operation_state@)->Some_0,
        destination: it.move_destination,
    }
}

/// The first error among the first `k` items under `f`.
pub open spec fn first_node_error(items: Seq<OrganizeTaskItemRecord>, k: int) -> Option<Seq<char>>
    decreases k,
{
    if k <= 0 {
        None
    } else {
        match first_node_error(items, k - 1) {
            Some(m) => Some(m),
            None => node_error(items[k - 1]),
        }
    }
}

/// The first decision error among the first `k` items.
pub open spec fn first_decision_error(items: Seq<OrganizeTaskItemRecord>, k: int) -> Option<Seq<char>>
    decreases k,
{
    if k <= 0 {
        None
    } else {
        match first_decision_error(items, k - 1) {
            Some(m) => Some(m),
            None => decision_error(items[k - 1]),
        }
    }
}

/// The decision roots of the first `k` items, in order.
pub open spec fn planned_roots(items: Seq<OrganizeTaskItemRecord>, k: int) -> Seq<PlannedRoot>
    decreases k,
{
    if k <= 0 {
        Seq::<PlannedRoot>::empty()
    } else {
        let prev = planned_roots(items, k - 1);
        if items[k - 1].decision_kind is Some {
            prev.push(planned_of(items[k - 1]))
        } else {
            prev
        }
    }
}

/// A decision root as an explicit root of the decision tree.
pub open spec fn explicit_of(r: PlannedRoot) -> ExplicitDecisionRoot {
    ExplicitDecisionRoot {
        item_id: r.item_id,
        tree_start: r.tree_start,
        tree_end: r.tree_end,
        unit_count: r.units,
        aggregate_size_bytes: r.bytes,
        decision: r.decision,
        operation_state: r.operation_state,
    }
}

proof fn lemma_first_error_stays_node(items: Seq<OrganizeTaskItemRecord>, k: int, n: int)
    requires
        0 <= k <= n,
        first_node_error(items, k) is Some,
    ensures
        first_node_error(items, n) == first_node_error(items, k),
    decreases n - k,
{
    if k < n {
        lemma_first_error_stays_node(items, k + 1, n);
    }
}

proof fn lemma_first_error_stays_decision(items: Seq<OrganizeTaskItemRecord>, k: int, n: int)
    requires
        0 <= k <= n,
        first_decision_error(items, k) is Some,
    ensures
        first_decision_error(items, n) == first_decision_error(items, k),
    decreases n - k,
{
    if k < n {
        lemma_first_error_stays_decision(items, k + 1, n);
    }
}

/// A copy of a stored item.
pub fn copy_item(it: &OrganizeTaskItemRecord) -> (r: OrganizeTaskItemRecord)
    ensures
        r == *it,
{
    OrganizeTaskItemRecord {
        id: it.id,
        uuid: it.uuid,
        parent_id: it.parent_id,
        relative_path: it.relative_path.clone(),
        relative_path_key: it.relative_path_key.clone(),
        kind: it.kind.clone(),
        size_bytes: it.size_bytes,
        tree_start: it.tree_start,
        tree_end: it.tree_end,
        unit_count: it.unit_count,
        aggregate_size_bytes: it.aggregate_size_bytes,
        membership_state: it.membership_state.clone(),
        external_state: it.external_state.clone(),
        decision_kind: match &it.decision_kind {
            Some(k) => Some(k.clone()),
            None => None,
        },
        move_destination: match &it.move_destination {
            Some(d) => Some(d.clone()),
            None => None,
        },
        operation_state: it.operation_state.clone(),
    }
}

/// The included items and the number of pending additions.
fn split_membership(items: &[OrganizeTaskItemRecord]) -> (r: (Vec<OrganizeTaskItemRecord>, u64))
    requires
        items@.len() <= u64::MAX,
    ensures
        r.0@ == included(items@),
        r.1 == pending_additions(items@),
{
    let mut inc: Vec<OrganizeTaskItemRecord> = Vec::new();
    let mut pending: u64 = 0;
    let mut i: usize = 0;
    while i < items.len()
        invariant
            i <= items@.len(),
            items@.len() <= u64::MAX,
            inc@ == included(items@.take(i as int)),
            pending == pending_additions(items@.take(i as int)),
            pending <= i,
        decreases items@.len() - i,
    {
        assert(items@.take(i + 1).drop_last() =~= items@.take(i as int));
        let it = &items[i];
        if str_eq(it.membership_state.as_str(), "included") {
            inc.push(copy_item(it));
        }
        if str_eq(it.membership_state.as_str(), "pending_addition") {
            pending = pending + 1;
        }
        i = i + 1;
    }
    assert(items@.take(items@.len() as int) =~= items@);
    (inc, pending)
}

/// The nodes of the included items, or the first item error.
fn build_nodes(inc: &Vec<OrganizeTaskItemRecord>) -> (r: Result<Vec<TreeItemComputed>, OrganizeError>)
    ensures
        match first_node_error(inc@, inc@.len() as int) {
            Some(m) => r matches Err(OrganizeError::InvalidTree(e)) && e@ == m,
            None => r matches Ok(nodes) && nodes@ == inc@.map_values(|it: OrganizeTaskItemRecord| node_of(it)),
        },
{
    let mut nodes: Vec<TreeItemComputed> = Vec::new();
    let mut i: usize = 0;
    while i < inc.len()
        invariant
            i <= inc@.len(),
            first_node_error(inc@, i as int) is None,
            nodes@ == inc@.take(i as int).map_values(|it: OrganizeTaskItemRecord| node_of(it)),
        decreases inc@.len() - i,
    {
        let it = &inc[i];
        let (start, end) = match item_interval(it) {
            Ok(v) => v,
            Err(e) => {
                proof {
                    lemma_first_error_stays_node(inc@, i + 1, inc@.len() as int);
                }
                return Err(e);
            },
        };
        let units = match required_units(it.unit_count) {
            Ok(u) => u,
            Err(e) => {
                proof {
                    lemma_first_error_stays_node(inc@, i + 1, inc@.len() as int);
                }
                return Err(e);
            },
        };
        let bytes: u64 = if it.aggregate_size_bytes < 0 { 0 } else { it.aggregate_size_bytes as u64 };
        let ghost before = nodes@;
        nodes.push(TreeItemComputed {
            item_id: it.uuid,
            tree_start: start,
            tree_end: end,
            unit_count: units,
            aggregate_size_bytes: bytes,
        });
        assert(nodes@ =~= inc@.take(i + 1).map_values(|it: OrganizeTaskItemRecord| node_of(it)));
        i = i + 1;
    }
    assert(inc@.take(inc@.len() as int) =~= inc@);
    Ok(nodes)
}

/// The decision roots of the included items, or the first decision error.
fn build_planned(inc: &Vec<OrganizeTaskItemRecord>) -> (r: Result<Vec<PlannedRoot>, OrganizeError>)
    requires
        first_node_error(inc@, inc@.len() as int) is None,
    ensures
        match first_decision_error(inc@, inc@.len() as int) {
            Some(m) => r matches Err(OrganizeError::InvalidTree(e)) && e@ == m,
            None => r matches Ok(v) && v@ == planned_roots(inc@, inc@.len() as int),
        },
{
    let mut out: Vec<PlannedRoot> = Vec::new();
    let mut i: usize = 0;
    while i < inc.len()
        invariant
            i <= inc@.len(),
            first_node_error(inc@, inc@.len() as int) is None,
            first_decision_error(inc@, i as int) is None,
            out@ == planned_roots(inc@, i as int),
        decreases inc@.len() - i,
    {
        let it = &inc[i];
        proof {
            lemma_no_node_error_at(inc@, i as int, inc@.len() as int);
        }
        let decision = match parse_decision(it) {
            Ok(Some(d)) => d,
            Ok(None) => {
                i = i + 1;
                continue;
            },
            Err(e) => {
                proof {
                    lemma_first_error_stays_decision(inc@, i + 1, inc@.len() as int);
                }
                return Err(e);
            },
        };
        let state = match parse_operation_state(it.operation_state.as_str()) {
            Some(s) => s,
            None => {
                proof {
                    lemma_first_error_stays_decision(inc@, i + 1, inc@.len() as int);
                }
                let mut v: Vec<char> = Vec::new();
                push_str(&mut v, "unknown operation state: ");
                push_str(&mut v, it.operation_state.as_str());
                return Err(OrganizeError::InvalidTree(string_from_chars(v.as_slice())));
            },
        };
        let (start, end) = match item_interval(it) {
            Ok(v) => v,
            Err(e) => {
                return Err(e);
            },
        };
        let units = match required_units(it.unit_count) {
            Ok(u) => u,
            Err(e) => {
                return Err(e);
            },
        };
        let bytes: u64 = if it.aggregate_size_bytes < 0 { 0 } else { it.aggregate_size_bytes as u64 };
        let root = PlannedRoot {
            item_id: it.uuid,
            relative_path: it.relative_path.clone(),
            tree_start: start,
            tree_end: end,
            units,
            bytes,
            decision,
            operation_state: state,
            destination: match &it.move_destination {
                Some(d) => Some(d.clone()),
                None => None,
            },
        };
        assert(root == planned_of(inc@[i as int]));
        out.push(root);
        i = i + 1;
    }
    Ok(out)
}

proof fn lemma_no_node_error_at(items: Seq<OrganizeTaskItemRecord>, i: int, n: int)
    requires
        0 <= i < n <= items.len(),
        first_node_error(items, n) is None,
    ensures
        node_error(items[i]) is None,
    decreases n,
{
    if n - 1 > i {
        lemma_no_node_error_at(items, i, n - 1);
    }
}

} // verus!

verus! {

// ----- roots listed by position -----

/// Whether `a` comes before or with `b`: by interval start, then item.
pub open spec fn pair_le(a: (i64, u128), b: (i64, u128)) -> bool {
    a.0 < b.0 || (a.0 == b.0 && a.1 <= b.1)
}

/// `e` put after every pair that is not greater.
pub open spec fn insert_pair(t: Seq<(i64, u128)>, e: (i64, u128)) -> Seq<(i64, u128)>
    decreases t.len(),
{
    if t.len() == 0 {
        seq![e]
    } else if !pair_le(t.last(), e) {
        insert_pair(t.drop_last(), e).push(t.last())
    } else {
        t.push(e)
    }
}

/// Pairs sorted by start, then item.
pub open spec fn sort_pairs(s: Seq<(i64, u128)>) -> Seq<(i64, u128)>
    decreases s.len(),
{
    if s.len() == 0 {
        Seq::<(i64, u128)>::empty()
    } else {
        insert_pair(sort_pairs(s.drop_last()), s.last())
    }
}

/// The items of pairs sorted by start, then item.
pub open spec fn sorted_ids_spec(s: Seq<(i64, u128)>) -> Seq<u128> {
    sort_pairs(s).map_values(|p: (i64, u128)| p.1)
}

proof fn lemma_insert_pair(t: Seq<(i64, u128)>, e: (i64, u128), p: int)
    requires
        0 <= p <= t.len(),
        forall|q: int| p <= q < t.len() ==> !pair_le(#[trigger] t[q], e),
        p == 0 || pair_le(t[p - 1], e),
    ensures
        insert_pair(t, e) == t.take(p).push(e) + t.skip(p),
    decreases t.len(),
{
    if t.len() == 0 {
        assert(t.take(p).push(e) + t.skip(p) =~= seq![e]);
    } else if p == t.len() {
        assert(t.take(p) =~= t);
        assert(t.take(p).push(e) + t.skip(p) =~= t.push(e));
    } else {
        let d = t.drop_last();
        assert(!pair_le(t[t.len() - 1], e));
        assert forall|q: int| p <= q < d.len() implies !pair_le(#[trigger] d[q], e) by {
            assert(d[q] == t[q]);
        }
        if p > 0 {
            assert(d[p - 1] == t[p - 1]);
        }
        lemma_insert_pair(d, e, p);
        assert(d.take(p) =~= t.take(p));
        assert((d.take(p).push(e) + d.skip(p)).push(t.last()) =~= t.take(p).push(e) + t.skip(p));
    }
}

/// The items of pairs sorted by start, then item.
pub fn sorted_ids(pairs: &Vec<(i64, u128)>) -> (r: Vec<u128>)
    ensures
        r@ == sorted_ids_spec(pairs@),
{
    let ghost s = pairs@;
    let mut sorted: Vec<(i64, u128)> = Vec::new();
    let mut i: usize = 0;
    while i < pairs.len()
        invariant
            i <= s.len(),
            s == pairs@,
            sorted@ == sort_pairs(s.take(i as int)),
        decreases s.len() - i,
    {
        let e = pairs[i];
        let mut p: usize = sorted.len();
        while p > 0 && (sorted[p - 1].0 > e.0 || (sorted[p - 1].0 == e.0 && sorted[p - 1].1 > e.1))
            invariant
                p <= sorted@.len(),
                sorted@ == sort_pairs(s.take(i as int)),
                forall|q: int| p <= q < sorted@.len() ==> !pair_le(#[trigger] sorted@[q], e),
            decreases p,
        {
            p = p - 1;
        }
        proof {
            lemma_insert_pair(sorted@, e, p as int);
            assert(s.take(i + 1).drop_last() =~= s.take(i as int));
            assert(s.take(i + 1).last() == e);
        }
        sorted.insert(p, e);
        assert(sorted@ =~= sort_pairs(s.take(i + 1)));
        i = i + 1;
    }
    assert(s.take(s.len() as int) =~= s);
    let mut ids: Vec<u128> = Vec::new();
    let mut k: usize = 0;
    while k < sorted.len()
        invariant
            k <= sorted@.len(),
            sorted@ == sort_pairs(s),
            ids@ == sorted@.take(k as int).map_values(|p: (i64, u128)| p.1),
        decreases sorted@.len() - k,
    {
        ids.push(sorted[k].1);
        k = k + 1;
        assert(ids@ =~= sorted@.take(k as int).map_values(|p: (i64, u128)| p.1));
    }
    assert(sorted@.take(sorted@.len() as int) =~= sorted@);
    ids
}

} // verus!

verus! {

// ----- the commit plan -----

/// The decision roots that are not applied yet, in order.
pub open spec fn physical_roots(decs: Seq<PlannedRoot>) -> Seq<PlannedRoot>
    decreases decs.len(),
{
    if decs.len() == 0 {
        Seq::<PlannedRoot>::empty()
    } else {
        let prev = physical_roots(decs.drop_last());
        if decs.last().operation_state != OrganizeOperationState::Applied {
            prev.push(decs.last())
        } else {
            prev
        }
    }
}

/// The discard roots among `rs`, in order.
pub open spec fn discard_roots_of(rs: Seq<PlannedRoot>) -> Seq<PlannedRoot>
    decreases rs.len(),
{
    if rs.len() == 0 {
        Seq::<PlannedRoot>::empty()
    } else {
        let prev = discard_roots_of(rs.drop_last());
        if rs.last().decision is Discard {
            prev.push(rs.last())
        } else {
            prev
        }
    }
}

/// Whether a stored item with id `id` has changed or gone missing on disk.
pub open spec fn item_changed(items: Seq<OrganizeTaskItemRecord>, id: u128) -> bool {
    exists|j: int|
        #![trigger items[j]]
        0 <= j < items.len() && items[j].uuid == id && (items[j].external_state@ == "changed"@
            || items[j].external_state@ == "missing"@)
}

/// The start and item of the roots not applied yet whose item changed or went
/// missing, in order.
pub open spec fn changed_pairs(decs: Seq<PlannedRoot>, items: Seq<OrganizeTaskItemRecord>) -> Seq<(i64, u128)>
    decreases decs.len(),
{
    if decs.len() == 0 {
        Seq::<(i64, u128)>::empty()
    } else {
        let prev = changed_pairs(decs.drop_last(), items);
        let r = decs.last();
        if r.operation_state != OrganizeOperationState::Applied && item_changed(items, r.item_id) {
            prev.push((r.tree_start, r.item_id))
        } else {
            prev
        }
    }
}

/// The start and item of the roots whose operation failed, in order.
pub open spec fn failed_pairs(decs: Seq<PlannedRoot>) -> Seq<(i64, u128)>
    decreases decs.len(),
{
    if decs.len() == 0 {
        Seq::<(i64, u128)>::empty()
    } else {
        let prev = failed_pairs(decs.drop_last());
        let r = decs.last();
        if r.operation_state == OrganizeOperationState::Failed {
            prev.push((r.tree_start, r.item_id))
        } else {
            prev
        }
    }
}

/// A blocking reason as a plan reports it: its kind (in the order of the
/// variants) and its values.
pub type BlockView = (int, OrganizeTaskStatus, u64, Seq<u128>, Seq<OrganizeTopologyConflict>);

pub open spec fn block_view(b: OrganizeCommitBlockReason) -> BlockView {
    match b {
        OrganizeCommitBlockReason::TaskNotActive { status } => (0, status, 0, Seq::empty(), Seq::empty()),
        OrganizeCommitBlockReason::PendingAdditions { count } => (1, OrganizeTaskStatus::Active, count, Seq::empty(), Seq::empty()),
        OrganizeCommitBlockReason::ChangedOrMissing { item_ids } => (2, OrganizeTaskStatus::Active, 0, item_ids@, Seq::empty()),
        OrganizeCommitBlockReason::UnsafeTopology { conflicts } => (3, OrganizeTaskStatus::Active, 0, Seq::empty(), conflicts@),
        OrganizeCommitBlockReason::NoPhysicalOperations => (4, OrganizeTaskStatus::Active, 0, Seq::empty(), Seq::empty()),
        OrganizeCommitBlockReason::CurrentSubtreeDrift { item_ids } => (5, OrganizeTaskStatus::Active, 0, item_ids@, Seq::empty()),
    }
}

/// What blocks a plan, in order: a task that is not active, pending
/// additions, changed or missing roots, unsafe moves, and no physical work.
pub open spec fn expected_blocks(
    status: OrganizeTaskStatus,
    pending: u64,
    changed: Seq<u128>,
    conflicts: Seq<OrganizeTopologyConflict>,
    no_work: bool,
) -> Seq<BlockView> {
    let a = if status != OrganizeTaskStatus::Active {
        seq![(0int, status, 0u64, Seq::<u128>::empty(), Seq::<OrganizeTopologyConflict>::empty())]
    } else {
        Seq::<BlockView>::empty()
    };
    let b = if pending > 0 {
        a.push((1int, OrganizeTaskStatus::Active, pending, Seq::<u128>::empty(), Seq::<OrganizeTopologyConflict>::empty()))
    } else {
        a
    };
    let c = if changed.len() > 0 {
        b.push((2int, OrganizeTaskStatus::Active, 0u64, changed, Seq::<OrganizeTopologyConflict>::empty()))
    } else {
        b
    };
    let d = if conflicts.len() > 0 {
        c.push((3int, OrganizeTaskStatus::Active, 0u64, Seq::<u128>::empty(), conflicts))
    } else {
        c
    };
    if no_work {
        d.push((4int, OrganizeTaskStatus::Active, 0u64, Seq::<u128>::empty(), Seq::<OrganizeTopologyConflict>::empty()))
    } else {
        d
    }
}

/// The output of a plan whose inputs were read: its groups, discard roots,
/// progress, lists, conflicts and blocking reasons.
pub open spec fn plan_output_is(
    out: OrganizeCommitPlanOutput,
    task: OrganizeTaskRecord,
    items: Seq<OrganizeTaskItemRecord>,
    decs: Seq<PlannedRoot>,
    status: OrganizeTaskStatus,
    keep: nat,
    unmarked: int,
) -> bool {
    let phys = physical_roots(decs);
    let device = task.device_slug@;
    let root = task.root_path@;
    let changed = sorted_ids_spec(changed_pairs(decs, items));
    &&& out.revision == task.revision
    &&& move_groups_are(out.move_groups@, outer_moves(phys), device, root)
    &&& exists|cs: Seq<PlannedRoot>|
        same_compacted_is(cs, discard_roots_of(phys)) && #[trigger] plan_roots_are(out.discard_roots@, cs, device, root)
    &&& out.keep_units == keep
    &&& out.unmarked_units == unmarked
    &&& out.pending_addition_count == pending_additions(items)
    &&& out.changed_or_missing_roots@ == changed
    &&& out.failed_operation_roots@ == sorted_ids_spec(failed_pairs(decs))
    &&& conflicts_are(out.unsafe_conflicts@, plan_conflicts(out.move_groups@, out.discard_roots@), device)
    &&& out.blocking_reasons@.map_values(|b: OrganizeCommitBlockReason| block_view(b)) == expected_blocks(
        status,
        out.pending_addition_count,
        changed,
        out.unsafe_conflicts@,
        out.move_groups@.len() == 0 && out.discard_roots@.len() == 0,
    )
    &&& out.can_commit == (out.blocking_reasons@.len() == 0)
}

pub open spec fn msg_unknown_status(status: Seq<char>) -> Seq<char> {
    "unknown task status: "@ + status
}

/// What `build_commit_plan` returns: the first error of an included item's
/// interval or units, then of its decision, then of the progress, then of the
/// task status; else the plan.
pub open spec fn commit_plan_is(
    r: Result<OrganizeCommitPlanOutput, OrganizeError>,
    task: OrganizeTaskRecord,
    items: Seq<OrganizeTaskItemRecord>,
) -> bool {
    let inc = included(items);
    let n = inc.len() as int;
    match first_node_error(inc, n) {
        Some(m) => r matches Err(OrganizeError::InvalidTree(e)) && e@ == m,
        None => match first_decision_error(inc, n) {
            Some(m) => r matches Err(OrganizeError::InvalidTree(e)) && e@ == m,
            None => {
                let nodes = inc.map_values(|it: OrganizeTaskItemRecord| node_of(it));
                let decs = planned_roots(inc, n);
                let exs = decs.map_values(|d: PlannedRoot| explicit_of(d));
                let total = outer_units(nodes, nodes.len() as int);
                let processed = saturate(kept_units(exs, UnitKind::All, exs.len() as int));
                if invalid_kept_root(exs) {
                    r matches Err(OrganizeError::InvalidTree(e)) && e@ == msg_invalid_root()
                } else if processed > total {
                    r matches Err(OrganizeError::InvalidTree(e)) && e@ == msg_roots_exceed()
                } else {
                    match task_status_spec(task.status@) {
                        None => r matches Err(OrganizeError::InvalidTaskState(e)) && e@ == msg_unknown_status(task.status@),
                        Some(status) => r matches Ok(out) && plan_output_is(
                            out,
                            task,
                            items,
                            decs,
                            status,
                            kept_units(exs, UnitKind::Keep, exs.len() as int),
                            total - processed,
                        ),
                    }
                }
            },
        },
    }
}

/// The machine limits of planning: counts and the sums of units and bytes fit
/// in 64 bits.
pub open spec fn plan_fits(items: Seq<OrganizeTaskItemRecord>) -> bool {
    let inc = included(items);
    let n = inc.len() as int;
    &&& items.len() <= u64::MAX
    &&& first_node_error(inc, n) is None && first_decision_error(inc, n) is None ==> {
        let nodes = inc.map_values(|it: OrganizeTaskItemRecord| node_of(it));
        let decs = planned_roots(inc, n);
        let exs = decs.map_values(|d: PlannedRoot| explicit_of(d));
        &&& outer_units(nodes, nodes.len() as int) <= u64::MAX
        &&& !invalid_kept_root(exs) ==> kept_units(exs, UnitKind::Keep, exs.len() as int) <= u64::MAX
            && kept_units(exs, UnitKind::Discard, exs.len() as int) <= u64::MAX && kept_units(
            exs,
            UnitKind::Move,
            exs.len() as int,
        ) <= u64::MAX
        &&& group_totals_fit(outer_moves(physical_roots(decs)))
    }
}

} // verus!

verus! {

/// The decision roots as explicit roots of the decision tree.
fn explicit_roots(decs: &Vec<PlannedRoot>) -> (r: Vec<ExplicitDecisionRoot>)
    ensures
        r@ == decs@.map_values(|d: PlannedRoot| explicit_of(d)),
{
    let mut out: Vec<ExplicitDecisionRoot> = Vec::new();
    let mut i: usize = 0;
    while i < decs.len()
        invariant
            i <= decs@.len(),
            out@ == decs@.take(i as int).map_values(|d: PlannedRoot| explicit_of(d)),
        decreases decs@.len() - i,
    {
        let d = &decs[i];
        out.push(ExplicitDecisionRoot {
            item_id: d.item_id,
            tree_start: d.tree_start,
            tree_end: d.tree_end,
            unit_count: d.units,
            aggregate_size_bytes: d.bytes,
            decision: d.decision.duplicate(),
            operation_state: d.operation_state,
        });
        i = i + 1;
        assert(out@ =~= decs@.take(i as int).map_values(|d: PlannedRoot| explicit_of(d)));
    }
    assert(decs@.take(decs@.len() as int) =~= decs@);
    out
}

/// The decision roots that are not applied yet.
fn physical_list(decs: &Vec<PlannedRoot>) -> (r: Vec<PlannedRoot>)
    ensures
        r@ == physical_roots(decs@),
{
    let ghost s = decs@;
    let mut out: Vec<PlannedRoot> = Vec::new();
    let mut i: usize = 0;
    while i < decs.len()
        invariant
            i <= s.len(),
            s == decs@,
            out@ == physical_roots(s.take(i as int)),
        decreases s.len() - i,
    {
        assert(s.take(i + 1).drop_last() =~= s.take(i as int));
        let d = &decs[i];
        match d.operation_state {
            OrganizeOperationState::Applied => {},
            _ => {
                out.push(copy_planned(d));
            },
        }
        i = i + 1;
    }
    assert(s.take(s.len() as int) =~= s);
    out
}

/// The discard roots among `rs`.
fn discard_list(rs: &Vec<PlannedRoot>) -> (r: Vec<PlannedRoot>)
    ensures
        r@ == discard_roots_of(rs@),
{
    let ghost s = rs@;
    let mut out: Vec<PlannedRoot> = Vec::new();
    let mut i: usize = 0;
    while i < rs.len()
        invariant
            i <= s.len(),
            s == rs@,
            out@ == discard_roots_of(s.take(i as int)),
        decreases s.len() - i,
    {
        assert(s.take(i + 1).drop_last() =~= s.take(i as int));
        let d = &rs[i];
        match d.decision {
            DecisionValue::Discard => {
                out.push(copy_planned(d));
            },
            _ => {},
        }
        i = i + 1;
    }
    assert(s.take(s.len() as int) =~= s);
    out
}

/// Whether a stored item with id `id` has changed or gone missing.
fn item_changed_exec(items: &[OrganizeTaskItemRecord], id: u128) -> (b: bool)
    ensures
        b == item_changed(items@, id),
{
    let mut j: usize = 0;
    while j < items.len()
        invariant
            j <= items@.len(),
            forall|q: int|
                #![trigger items@[q]]
                0 <= q < j ==> !(items@[q].uuid == id && (items@[q].external_state@ == "changed"@
                    || items@[q].external_state@ == "missing"@)),
        decreases items@.len() - j,
    {
        let it = &items[j];
        if it.uuid == id && (str_eq(it.external_state.as_str(), "changed") || str_eq(it.external_state.as_str(), "missing")) {
            assert(items@[j as int] == *it);
            return true;
        }
        j = j + 1;
    }
    false
}

/// The start and item of the roots not applied yet whose item changed.
fn changed_pair_list(decs: &Vec<PlannedRoot>, items: &[OrganizeTaskItemRecord]) -> (r: Vec<(i64, u128)>)
    ensures
        r@ == changed_pairs(decs@, items@),
{
    let ghost s = decs@;
    let mut out: Vec<(i64, u128)> = Vec::new();
    let mut i: usize = 0;
    while i < decs.len()
        invariant
            i <= s.len(),
            s == decs@,
            out@ == changed_pairs(s.take(i as int), items@),
        decreases s.len() - i,
    {
        assert(s.take(i + 1).drop_last() =~= s.take(i as int));
        let d = &decs[i];
        let applied = match d.operation_state {
            OrganizeOperationState::Applied => true,
            _ => false,
        };
        if !applied && item_changed_exec(items, d.item_id) {
            out.push((d.tree_start, d.item_id));
        }
        i = i + 1;
    }
    assert(s.take(s.len() as int) =~= s);
    out
}

/// The start and item of the roots whose operation failed.
fn failed_pair_list(decs: &Vec<PlannedRoot>) -> (r: Vec<(i64, u128)>)
    ensures
        r@ == failed_pairs(decs@),
{
    let ghost s = decs@;
    let mut out: Vec<(i64, u128)> = Vec::new();
    let mut i: usize = 0;
    while i < decs.len()
        invariant
            i <= s.len(),
            s == decs@,
            out@ == failed_pairs(s.take(i as int)),
        decreases s.len() - i,
    {
        assert(s.take(i + 1).drop_last() =~= s.take(i as int));
        let d = &decs[i];
        match d.operation_state {
            OrganizeOperationState::Failed => {
                out.push((d.tree_start, d.item_id));
            },
            _ => {},
        }
        i = i + 1;
    }
    assert(s.take(s.len() as int) =~= s);
    out
}

/// A copy of a list of ids.
fn copy_ids(v: &Vec<u128>) -> (r: Vec<u128>)
    ensures
        r@ == v@,
{
    let mut out: Vec<u128> = Vec::new();
    let mut i: usize = 0;
    while i < v.len()
        invariant
            i <= v@.len(),
            out@ == v@.take(i as int),
        decreases v@.len() - i,
    {
        out.push(v[i]);
        i = i + 1;
        assert(out@ =~= v@.take(i as int));
    }
    assert(v@.take(v@.len() as int) =~= v@);
    out
}

/// A copy of a list of conflicts.
fn copy_conflicts(v: &Vec<OrganizeTopologyConflict>) -> (r: Vec<OrganizeTopologyConflict>)
    ensures
        r@ == v@,
{
    let mut out: Vec<OrganizeTopologyConflict> = Vec::new();
    let mut i: usize = 0;
    while i < v.len()
        invariant
            i <= v@.len(),
            out@ == v@.take(i as int),
        decreases v@.len() - i,
    {
        out.push(copy_conflict(&v[i]));
        i = i + 1;
        assert(out@ =~= v@.take(i as int));
    }
    assert(v@.take(v@.len() as int) =~= v@);
    out
}

proof fn lemma_planned_destinations(inc: Seq<OrganizeTaskItemRecord>, k: int)
    requires
        0 <= k <= inc.len(),
        first_decision_error(inc, k) is None,
    ensures
        moves_have_destination(planned_roots(inc, k)),
    decreases k,
{
    if k > 0 {
        lemma_planned_destinations(inc, k - 1);
        let prev = planned_roots(inc, k - 1);
        let cur = planned_roots(inc, k);
        assert forall|i: int| 0 <= i < cur.len() && #[trigger] cur[i].decision is Move implies cur[i].destination is Some by {
            if i < prev.len() {
                assert(cur[i] == prev[i]);
            }
        }
    }
}

proof fn lemma_physical_destinations(decs: Seq<PlannedRoot>)
    requires
        moves_have_destination(decs),
    ensures
        moves_have_destination(physical_roots(decs)),
    decreases decs.len(),
{
    if decs.len() > 0 {
        let d = decs.drop_last();
        assert forall|i: int| 0 <= i < d.len() && #[trigger] d[i].decision is Move implies d[i].destination is Some by {
            assert(d[i] == decs[i]);
        }
        lemma_physical_destinations(d);
        let prev = physical_roots(d);
        let cur = physical_roots(decs);
        assert forall|i: int| 0 <= i < cur.len() && #[trigger] cur[i].decision is Move implies cur[i].destination is Some by {
            if i < prev.len() {
                assert(cur[i] == prev[i]);
            } else {
                assert(decs[decs.len() - 1].decision is Move);
            }
        }
    }
}

/// The read-only physical plan of one task revision: the stored task and its
/// items as the source of truth. Keep decisions count in the progress but
/// never become physical roots; discard roots are compacted among themselves,
/// and move roots among all moves, whatever their destinations, before they
/// are grouped by destination, so that a damaged nested decision cannot
/// schedule one subtree twice.
pub fn build_commit_plan(task: &OrganizeTaskRecord, items: &[OrganizeTaskItemRecord]) -> (r: Result<
    OrganizeCommitPlanOutput,
    OrganizeError,
>)
    requires
        plan_fits(items@),
    ensures
        commit_plan_is(r, *task, items@),
{
    let (inc, pending) = split_membership(items);
    let nodes = match build_nodes(&inc) {
        Ok(n) => n,
        Err(e) => {
            return Err(e);
        },
    };
    let decs = match build_planned(&inc) {
        Ok(v) => v,
        Err(e) => {
            return Err(e);
        },
    };
    let exs = explicit_roots(&decs);
    let progress = match reduce_progress(nodes.as_slice(), exs.as_slice()) {
        Ok(p) => p,
        Err(e) => {
            return Err(e);
        },
    };
    let device = task.device_slug.as_str();
    let root = task.root_path.as_str();
    let phys = physical_list(&decs);
    let discards = discard_list(&phys);
    let kept = compact_same_action(&discards);
    let discard_roots = plan_roots(device, root, &kept);
    proof {
        lemma_planned_destinations(inc@, inc@.len() as int);
        lemma_physical_destinations(decs@);
        lemma_outer_destinations(phys@);
    }
    let outer = outer_move_roots(&phys);
    let move_groups = build_move_groups(device, root, &outer);
    let unsafe_conflicts = find_unsafe_conflicts(device, &move_groups, &discard_roots);
    let changed = sorted_ids(&changed_pair_list(&decs, items));
    let failed = sorted_ids(&failed_pair_list(&decs));
    let status = match parse_task_status(task.status.as_str()) {
        Some(s) => s,
        None => {
            let mut v: Vec<char> = Vec::new();
            push_str(&mut v, "unknown task status: ");
            push_str(&mut v, task.status.as_str());
            return Err(OrganizeError::InvalidTaskState(string_from_chars(v.as_slice())));
        },
    };
    let mut blocking: Vec<OrganizeCommitBlockReason> = Vec::new();
    let ghost s0 = blocking@;
    let active = match status {
        OrganizeTaskStatus::Active => true,
        _ => false,
    };
    if !active {
        blocking.push(OrganizeCommitBlockReason::TaskNotActive { status });
    }
    if pending > 0 {
        blocking.push(OrganizeCommitBlockReason::PendingAdditions { count: pending });
    }
    if changed.len() > 0 {
        blocking.push(OrganizeCommitBlockReason::ChangedOrMissing { item_ids: copy_ids(&changed) });
    }
    if unsafe_conflicts.len() > 0 {
        blocking.push(OrganizeCommitBlockReason::UnsafeTopology { conflicts: copy_conflicts(&unsafe_conflicts) });
    }
    if move_groups.len() == 0 && discard_roots.len() == 0 {
        blocking.push(OrganizeCommitBlockReason::NoPhysicalOperations);
    }
    let can_commit = blocking.len() == 0;
    let out = OrganizeCommitPlanOutput {
        revision: task.revision,
        move_groups,
        discard_roots,
        keep_units: progress.keep_units,
        unmarked_units: progress.unmarked_units,
        pending_addition_count: pending,
        changed_or_missing_roots: changed,
        failed_operation_roots: failed,
        unsafe_conflicts,
        can_commit,
        blocking_reasons: blocking,
    };
    proof {
        assert(out.blocking_reasons@.map_values(|b: OrganizeCommitBlockReason| block_view(b)) =~= expected_blocks(
            status,
            out.pending_addition_count,
            out.changed_or_missing_roots@,
            out.unsafe_conflicts@,
            out.move_groups@.len() == 0 && out.discard_roots@.len() == 0,
        ));
        assert(same_compacted_is(kept@, discard_roots_of(physical_roots(decs@))));
        assert(plan_roots_are(out.discard_roots@, kept@, task.device_slug@, task.root_path@));
        assert(plan_output_is(
            out,
            *task,
            items@,
            decs@,
            status,
            kept_units(exs@, UnitKind::Keep, exs@.len() as int),
            outer_units(nodes@, nodes@.len() as int) - saturate(kept_units(exs@, UnitKind::All, exs@.len() as int)),
        ));
    }
    Ok(out)
}

} // verus!

verus! {

proof fn lemma_physical_members(decs: Seq<PlannedRoot>, j: int)
    requires
        0 <= j < physical_roots(decs).len(),
    ensures
        decs.contains(physical_roots(decs)[j]),
        physical_roots(decs)[j].operation_state != OrganizeOperationState::Applied,
    decreases decs.len(),
{
    let prev = physical_roots(decs.drop_last());
    if j < prev.len() {
        lemma_physical_members(decs.drop_last(), j);
        let k = choose|k: int| 0 <= k < decs.drop_last().len() && decs.drop_last()[k] == prev[j];
        assert(decs[k] == prev[j]);
    } else {
        assert(decs[decs.len() - 1] == physical_roots(decs)[j]);
    }
}

proof fn lemma_discard_members(rs: Seq<PlannedRoot>, j: int)
    requires
        0 <= j < discard_roots_of(rs).len(),
    ensures
        rs.contains(discard_roots_of(rs)[j]),
        discard_roots_of(rs)[j].decision is Discard,
    decreases rs.len(),
{
    let prev = discard_roots_of(rs.drop_last());
    if j < prev.len() {
        lemma_discard_members(rs.drop_last(), j);
        let k = choose|k: int| 0 <= k < rs.drop_last().len() && rs.drop_last()[k] == prev[j];
        assert(rs[k] == prev[j]);
    } else {
        assert(rs[rs.len() - 1] == discard_roots_of(rs)[j]);
    }
}

/// A plan schedules only destructive work: every discard root is a discard
/// decision and every root of a move group a move decision, each one not
/// applied yet; keep decisions never become physical roots.
pub proof fn law_plan_schedules_only_pending_discards_and_moves(
    out: OrganizeCommitPlanOutput,
    task: OrganizeTaskRecord,
    items: Seq<OrganizeTaskItemRecord>,
    decs: Seq<PlannedRoot>,
    status: OrganizeTaskStatus,
    keep: nat,
    unmarked: int,
)
    requires
        plan_output_is(out, task, items, decs, status, keep, unmarked),
    ensures
        exists|cs: Seq<PlannedRoot>|
            #![trigger plan_roots_are(out.discard_roots@, cs, task.device_slug@, task.root_path@)]
            plan_roots_are(out.discard_roots@, cs, task.device_slug@, task.root_path@) && forall|i: int|
                0 <= i < cs.len() ==> (#[trigger] cs[i]).decision is Discard && cs[i].operation_state
                    != OrganizeOperationState::Applied && decs.contains(cs[i]),
        forall|t: int|
            #![trigger out.move_groups@[t]]
            0 <= t < out.move_groups@.len() ==> exists|cs: Seq<PlannedRoot>|
                #![trigger plan_roots_are(out.move_groups@[t].roots@, cs, task.device_slug@, task.root_path@)]
                plan_roots_are(out.move_groups@[t].roots@, cs, task.device_slug@, task.root_path@) && forall|i: int|
                    0 <= i < cs.len() ==> (#[trigger] cs[i]).decision is Move && cs[i].operation_state
                        != OrganizeOperationState::Applied && decs.contains(cs[i]),
{
    let device = task.device_slug@;
    let root = task.root_path@;
    let phys = physical_roots(decs);
    let ds = discard_roots_of(phys);
    let cs = choose|cs: Seq<PlannedRoot>| same_compacted_is(cs, ds) && #[trigger] plan_roots_are(out.discard_roots@, cs, device, root);
    assert forall|i: int| 0 <= i < cs.len() implies (#[trigger] cs[i]).decision is Discard && cs[i].operation_state
        != OrganizeOperationState::Applied && decs.contains(cs[i]) by {
        assert(cs.contains(cs[i]));
        let k = choose|k: int| 0 <= k < ds.len() && ds[k] == cs[i] && !#[trigger] same_shadowed(ds, k);
        lemma_discard_members(phys, k);
        let p = choose|p: int| 0 <= p < phys.len() && phys[p] == ds[k];
        lemma_physical_members(decs, p);
    }
    assert forall|t: int| #![trigger out.move_groups@[t]] 0 <= t < out.move_groups@.len() implies exists|cs2: Seq<PlannedRoot>|
        #![trigger plan_roots_are(out.move_groups@[t].roots@, cs2, device, root)]
        plan_roots_are(out.move_groups@[t].roots@, cs2, device, root) && forall|i: int|
            0 <= i < cs2.len() ==> (#[trigger] cs2[i]).decision is Move && cs2[i].operation_state
                != OrganizeOperationState::Applied && decs.contains(cs2[i]) by {
        let g = out.move_groups@[t];
        let om = outer_moves(phys);
        assert(move_group_is(g, om, device, root));
        law_move_group_roots_are_moves(g, om, device, root);
        lemma_outer_members(phys);
        let cs2 = choose|cs2: Seq<PlannedRoot>|
            #![trigger plan_roots_are(g.roots@, cs2, device, root)]
            plan_roots_are(g.roots@, cs2, device, root) && forall|i: int|
                0 <= i < cs2.len() ==> (#[trigger] cs2[i]).decision is Move && dest_key(cs2[i]) == group_key(g)
                    && om.contains(cs2[i]);
        assert forall|i: int| 0 <= i < cs2.len() implies (#[trigger] cs2[i]).decision is Move && cs2[i].operation_state
            != OrganizeOperationState::Applied && decs.contains(cs2[i]) by {
            assert(om.contains(cs2[i]));
            assert(phys.contains(cs2[i]));
            let p = choose|p: int| 0 <= p < phys.len() && phys[p] == cs2[i];
            lemma_physical_members(decs, p);
        }
    }
}


/// A plan never moves one subtree twice: take the decision roots behind two
/// roots of its move groups (of one group, or of two groups with different
/// destinations); unless they are the same root, neither lies inside the other.
pub proof fn law_plan_moves_do_not_nest(
    out: OrganizeCommitPlanOutput,
    task: OrganizeTaskRecord,
    items: Seq<OrganizeTaskItemRecord>,
    decs: Seq<PlannedRoot>,
    status: OrganizeTaskStatus,
    keep: nat,
    unmarked: int,
    t1: int,
    t2: int,
    cs1: Seq<PlannedRoot>,
    cs2: Seq<PlannedRoot>,
    a: int,
    b: int,
)
    requires
        plan_output_is(out, task, items, decs, status, keep, unmarked),
        0 <= t1 < out.move_groups@.len(),
        0 <= t2 < out.move_groups@.len(),
        same_compacted_is(cs1, moves_with_key(outer_moves(physical_roots(decs)), group_key(out.move_groups@[t1]))),
        same_compacted_is(cs2, moves_with_key(outer_moves(physical_roots(decs)), group_key(out.move_groups@[t2]))),
        t1 == t2 ==> cs1 == cs2,
        0 <= a < cs1.len(),
        0 <= b < cs2.len(),
        t1 != t2 || a != b,
    ensures
        !holds(cs1[a], cs2[b]),
{
    let om = outer_moves(physical_roots(decs));
    let k1 = group_key(out.move_groups@[t1]);
    let k2 = group_key(out.move_groups@[t2]);
    assert(cs1.contains(cs1[a]));
    assert(cs2.contains(cs2[b]));
    if t1 != t2 {
        assert(k1 != k2);
        let m1 = moves_with_key(om, k1);
        let m2 = moves_with_key(om, k2);
        let p = choose|p: int| 0 <= p < m1.len() && m1[p] == cs1[a] && !#[trigger] same_shadowed(m1, p);
        let q = choose|q: int| 0 <= q < m2.len() && m2[q] == cs2[b] && !#[trigger] same_shadowed(m2, q);
        lemma_mwk_members(om, k1, p);
        lemma_mwk_members(om, k2, q);
        assert(cs1[a] != cs2[b]);
    } else {
        if a < b {
            assert(cs1[a].tree_start < cs1[b].tree_start);
        } else {
            assert(cs1[b].tree_start < cs1[a].tree_start);
        }
        assert(cs1[a] != cs2[b]);
    }
    law_moves_across_groups_do_not_nest(physical_roots(decs), k1, k2, cs1, cs2, cs1[a], cs2[b]);
}


/// Move destinations are grouped by where they go, not by how they are
/// written: two ASCII destinations that are the same once `/` is read as `\`
/// and ASCII case is ignored have the same plan key, so their moves share one
/// move group.
pub proof fn law_equivalent_destinations_share_a_key(a: Seq<char>, b: Seq<char>)
    requires
        crate::text::all_ascii(a),
        crate::text::all_ascii(b),
        crate::text::ascii_lower_seq(replace_seq(a, '/', '\\')) == crate::text::ascii_lower_seq(replace_seq(b, '/', '\\')),
    ensures
        plan_key_spec(a) == plan_key_spec(b),
{
    let ra = replace_seq(a, '/', '\\');
    let rb = replace_seq(b, '/', '\\');
    assert(crate::text::all_ascii(ra)) by {
        assert forall|i: int| 0 <= i < ra.len() implies crate::text::is_ascii_char(#[trigger] ra[i]) by {
            assert(crate::text::is_ascii_char(a[i]));
        }
    }
    assert(crate::text::all_ascii(rb)) by {
        assert forall|i: int| 0 <= i < rb.len() implies crate::text::is_ascii_char(#[trigger] rb[i]) by {
            assert(crate::text::is_ascii_char(b[i]));
        }
    }
}

} // verus!
