//! The stored rows of organize tasks: the text of their states, the keys and
//! destinations they store, and the decision tree they hold.

use vstd::prelude::*;
use vstd::string::StringExecFns;
use crate::organize::error::OrganizeError;
use crate::organize::model::{
    DecisionPatch, DecisionTreeState, DecisionValue, ExplicitDecisionRoot, OrganizeItemKind, OrganizeOperationState,
    OrganizeTaskStatus, TreeItemComputed,
};
use crate::organize::commit::{operation_state_spec, parse_operation_state};
use crate::organize::plan::{
    copy_item, included, item_bytes, parse_decision, parse_decision_spec, plan_fold, sorted_ids, sorted_ids_spec,
    OrganizeTaskItemRecord,
};
use crate::text::{
    append_chars, chars_eq, chars_of, copy_chars, is_ascii_char, join_chars, join_seq, lowercase, lowercase_chars,
    push_str, replace_chars, replace_seq, skip_chars, split_chars, split_seq, starts_with_chars, starts_with_seq, str_eq,
    string_from_chars,
};

verus! {

// ----- the text of states -----

pub open spec fn task_status_text_spec(status: OrganizeTaskStatus) -> Seq<char> {
    match status {
        OrganizeTaskStatus::Scanning => "scanning"@,
        OrganizeTaskStatus::Active => "active"@,
        OrganizeTaskStatus::Committing => "committing"@,
        OrganizeTaskStatus::Completed => "completed"@,
        OrganizeTaskStatus::Failed => "failed"@,
    }
}

/// The stored text of a task status.
pub fn task_status(status: OrganizeTaskStatus) -> (r: String)
    ensures
        r@ == task_status_text_spec(status),
{
    match status {
        OrganizeTaskStatus::Scanning => String::from_str("scanning"),
        OrganizeTaskStatus::Active => String::from_str("active"),
        OrganizeTaskStatus::Committing => String::from_str("committing"),
        OrganizeTaskStatus::Completed => String::from_str("completed"),
        OrganizeTaskStatus::Failed => String::from_str("failed"),
    }
}

pub open spec fn item_kind_text_spec(kind: OrganizeItemKind) -> Seq<char> {
    match kind {
        OrganizeItemKind::File => "file"@,
        OrganizeItemKind::Directory => "directory"@,
        OrganizeItemKind::ReparsePoint => "reparse_point"@,
        OrganizeItemKind::Unreadable => "unreadable"@,
    }
}

/// The stored text of an item kind.
pub fn item_kind(kind: OrganizeItemKind) -> (r: String)
    ensures
        r@ == item_kind_text_spec(kind),
{
    match kind {
        OrganizeItemKind::File => String::from_str("file"),
        OrganizeItemKind::Directory => String::from_str("directory"),
        OrganizeItemKind::ReparsePoint => String::from_str("reparse_point"),
        OrganizeItemKind::Unreadable => String::from_str("unreadable"),
    }
}

pub open spec fn operation_state_text_spec(state: OrganizeOperationState) -> Seq<char> {
    match state {
        OrganizeOperationState::NoOperation => "none"@,
        OrganizeOperationState::Pending => "pending"@,
        OrganizeOperationState::Running => "running"@,
        OrganizeOperationState::Applied => "applied"@,
        OrganizeOperationState::Failed => "failed"@,
    }
}

/// The stored text of an operation state.
pub fn operation_state(state: OrganizeOperationState) -> (r: String)
    ensures
        r@ == operation_state_text_spec(state),
{
    match state {
        OrganizeOperationState::NoOperation => String::from_str("none"),
        OrganizeOperationState::Pending => String::from_str("pending"),
        OrganizeOperationState::Running => String::from_str("running"),
        OrganizeOperationState::Applied => String::from_str("applied"),
        OrganizeOperationState::Failed => String::from_str("failed"),
    }
}

// ----- windows keys -----

/// A volume root: a drive letter, `:` and `\`, or a UNC path.
pub open spec fn is_windows_root_spec(v: Seq<char>) -> bool {
    (v.len() == 3 && is_ascii_char(v[0]) && v[1] == ':' && v[2] == '\\') || starts_with_seq(v, seq!['\\', '\\'])
}

/// Whether a key names a volume root.
pub fn is_windows_root(v: &[char]) -> (b: bool)
    ensures
        b == is_windows_root_spec(v@),
{
    let lead: Vec<char> = vec!['\\', '\\'];
    assert(lead@ =~= seq!['\\', '\\']);
    (v.len() == 3 && (v[0] as u32) < 128 && v[1] == ':' && v[2] == '\\') || starts_with_chars(v, lead.as_slice())
}

/// A key without the trailing `\` of anything but a volume root.
pub open spec fn trim_key(k: Seq<char>) -> Seq<char>
    decreases k.len(),
{
    if k.len() > 0 && k.last() == '\\' && !is_windows_root_spec(k) {
        trim_key(k.drop_last())
    } else {
        k
    }
}

/// The stored key of a path: `/` made `\`, lowercased, trailing `\` removed
/// unless it is a volume root.
pub open spec fn windows_key_spec(value: Seq<char>) -> Seq<char> {
    trim_key(lowercase(replace_seq(value, '/', '\\')))
}

/// The stored key of a path.
pub fn normalize_windows_key(value: &str) -> (r: String)
    ensures
        r@ == windows_key_spec(value@),
{
    let c = chars_of(value);
    let rep = replace_chars(c.as_slice(), '/', '\\');
    let mut k = lowercase_chars(rep.as_slice());
    let ghost full = k@;
    while k.len() > 0 && k[k.len() - 1] == '\\' && !is_windows_root(k.as_slice())
        invariant
            trim_key(k@) == trim_key(full),
        decreases k@.len(),
    {
        k.pop();
    }
    string_from_chars(k.as_slice())
}

// ----- move destinations -----

/// A lowercased destination without its extended-length prefix (for a drive,
/// only when a drive letter follows it).
pub open spec fn destination_strip(k: Seq<char>) -> Seq<char> {
    if starts_with_seq(k, seq!['\\', '\\', '?', '\\', 'u', 'n', 'c', '\\']) {
        seq!['\\', '\\'] + k.skip(8)
    } else if starts_with_seq(k, seq!['\\', '\\', '?', '\\']) && k.len() >= 6 && is_ascii_char(k[4]) && k[5] == ':' {
        k.skip(4)
    } else {
        k
    }
}

/// The stored form of a move destination: `/` made `\`, lowercased, the
/// extended-length prefix dropped, `.` and `..` resolved; a lone drive stays
/// as `c:`.
pub open spec fn move_destination_spec(destination: Seq<char>) -> Seq<char> {
    let k = destination_strip(lowercase(replace_seq(destination, '/', '\\')));
    let unc = starts_with_seq(k, seq!['\\', '\\']);
    let comps = plan_fold(split_seq(k, '\\'), if unc { 2 } else { 1 });
    if unc {
        seq!['\\', '\\'] + join_seq(comps, seq!['\\'])
    } else if comps.len() == 1 && comps[0].len() > 0 && comps[0].last() == ':' {
        comps[0]
    } else if comps.len() > 0 {
        comps[0] + seq!['\\'] + join_seq(comps.skip(1), seq!['\\'])
    } else {
        Seq::<char>::empty()
    }
}

/// The stored form of a move destination.
pub fn normalize_move_destination(destination: &str) -> (r: String)
    ensures
        r@ == move_destination_spec(destination@),
{
    let c = chars_of(destination);
    let rep = replace_chars(c.as_slice(), '/', '\\');
    let low = lowercase_chars(rep.as_slice());
    let unc_p: Vec<char> = vec!['\\', '\\', '?', '\\', 'u', 'n', 'c', '\\'];
    let ext_p: Vec<char> = vec!['\\', '\\', '?', '\\'];
    assert(unc_p@ =~= seq!['\\', '\\', '?', '\\', 'u', 'n', 'c', '\\']);
    assert(ext_p@ =~= seq!['\\', '\\', '?', '\\']);
    let k: Vec<char> = if starts_with_chars(low.as_slice(), unc_p.as_slice()) {
        let rest = skip_chars(low.as_slice(), 8);
        let mut k: Vec<char> = vec!['\\', '\\'];
        append_chars(&mut k, rest.as_slice());
        k
    } else if starts_with_chars(low.as_slice(), ext_p.as_slice()) && low.len() >= 6 && (low[4] as u32) < 128
        && low[5] == ':' {
        skip_chars(low.as_slice(), 4)
    } else {
        copy_chars(low.as_slice())
    };
    assert(k@ == destination_strip(lowercase(replace_seq(destination@, '/', '\\'))));
    let lead: Vec<char> = vec!['\\', '\\'];
    assert(lead@ =~= seq!['\\', '\\']);
    let unc = starts_with_chars(k.as_slice(), lead.as_slice());
    let root: usize = if unc { 2 } else { 1 };
    let pieces = split_chars(k.as_slice(), '\\');
    let ghost pv = pieces@.map_values(|p: Vec<char>| p@);
    let mut comps: Vec<Vec<char>> = Vec::new();
    let mut i: usize = 0;
    while i < pieces.len()
        invariant
            i <= pieces@.len(),
            pv == pieces@.map_values(|p: Vec<char>| p@),
            root as nat == (if unc { 2nat } else { 1nat }),
            comps@.map_values(|p: Vec<char>| p@) == plan_fold(pv.take(i as int), root as nat),
        decreases pieces@.len() - i,
    {
        assert(pv.take(i + 1).drop_last() =~= pv.take(i as int));
        assert(pv.take(i + 1).last() == pv[i as int]);
        let piece = &pieces[i];
        let ghost before = comps@.map_values(|p: Vec<char>| p@);
        let dot: Vec<char> = vec!['.'];
        let dotdot: Vec<char> = vec!['.', '.'];
        assert(dot@ =~= seq!['.']);
        assert(dotdot@ =~= seq!['.', '.']);
        if piece.len() == 0 || chars_eq(piece.as_slice(), dot.as_slice()) {
        } else if chars_eq(piece.as_slice(), dotdot.as_slice()) {
            if comps.len() > root {
                comps.pop();
                assert(comps@.map_values(|p: Vec<char>| p@) =~= before.drop_last());
            }
        } else {
            comps.push(copy_chars(piece.as_slice()));
            assert(comps@.map_values(|p: Vec<char>| p@) =~= before.push(pv[i as int]));
        }
        i = i + 1;
    }
    assert(pv.take(pieces@.len() as int) =~= pv);
    let ghost cv = comps@.map_values(|p: Vec<char>| p@);
    let sep: Vec<char> = vec!['\\'];
    assert(sep@ =~= seq!['\\']);
    if unc {
        let body = join_chars(comps.as_slice(), sep.as_slice());
        let mut out: Vec<char> = vec!['\\', '\\'];
        append_chars(&mut out, body.as_slice());
        string_from_chars(out.as_slice())
    } else if comps.len() == 1 && comps[0].len() > 0 && comps[0][comps[0].len() - 1] == ':' {
        assert(cv[0] == comps@[0]@);
        string_from_chars(comps[0].as_slice())
    } else if comps.len() > 0 {
        let mut rest: Vec<Vec<char>> = Vec::new();
        let mut j: usize = 1;
        while j < comps.len()
            invariant
                1 <= j <= comps@.len(),
                cv == comps@.map_values(|p: Vec<char>| p@),
                rest@.map_values(|p: Vec<char>| p@) == cv.subrange(1, j as int),
            decreases comps@.len() - j,
        {
            let ghost before = rest@.map_values(|p: Vec<char>| p@);
            assert(cv[j as int] == comps@[j as int]@);
            rest.push(copy_chars(comps[j].as_slice()));
            assert(rest@.map_values(|p: Vec<char>| p@) =~= before.push(cv[j as int]));
            j = j + 1;
            assert(rest@.map_values(|p: Vec<char>| p@) =~= cv.subrange(1, j as int));
        }
        assert(cv.subrange(1, cv.len() as int) =~= cv.skip(1));
        let tail = join_chars(rest.as_slice(), sep.as_slice());
        let mut out = copy_chars(comps[0].as_slice());
        assert(out@ == cv[0]);
        out.push('\\');
        append_chars(&mut out, tail.as_slice());
        string_from_chars(out.as_slice())
    } else {
        String::new()
    }
}

} // verus!

verus! {

// ----- decision columns -----

/// The stored columns of a decision: its kind, its move destination and its
/// operation state.
pub type ColumnsView = (Option<Seq<char>>, Option<Seq<char>>, Seq<char>);

/// The columns a decision is stored with: no decision and keep start with no
/// operation, discard and move as pending; a move destination is stored in
/// its normalized form.
pub open spec fn columns_spec(decision: Option<DecisionValue>) -> ColumnsView {
    match decision {
        None => (None, None, "none"@),
        Some(DecisionValue::Keep) => (Some("keep"@), None, "none"@),
        Some(DecisionValue::Discard) => (Some("discard"@), None, "pending"@),
        Some(DecisionValue::Move { destination }) => (
            Some("move"@),
            Some(move_destination_spec(destination@)),
            "pending"@,
        ),
    }
}

/// The view of stored columns.
pub open spec fn columns_view(c: (Option<String>, Option<String>, String)) -> ColumnsView {
    (
        match c.0 {
            Some(k) => Some(k@),
            None => None,
        },
        match c.1 {
            Some(d) => Some(d@),
            None => None,
        },
        c.2@,
    )
}

/// The columns a decision is stored with.
pub fn decision_columns(decision: Option<&DecisionValue>) -> (r: (Option<String>, Option<String>, String))
    ensures
        columns_view(r) == columns_spec(match decision {
            Some(d) => Some(*d),
            None => None,
        }),
{
    match decision {
        None => (None, None, operation_state(OrganizeOperationState::NoOperation)),
        Some(DecisionValue::Keep) => (
            Some(String::from_str("keep")),
            None,
            operation_state(OrganizeOperationState::NoOperation),
        ),
        Some(DecisionValue::Discard) => (
            Some(String::from_str("discard")),
            None,
            operation_state(OrganizeOperationState::Pending),
        ),
        Some(DecisionValue::Move { destination }) => (
            Some(String::from_str("move")),
            Some(normalize_move_destination(destination.as_str())),
            operation_state(OrganizeOperationState::Pending),
        ),
    }
}

/// The decision stored on an item: none, keep, discard, or a move to its
/// destination.
pub fn decision_value(item: &OrganizeTaskItemRecord) -> (r: Result<Option<DecisionValue>, OrganizeError>)
    ensures
        match parse_decision_spec(*item) {
            Ok(v) => r == Ok::<Option<DecisionValue>, OrganizeError>(v),
            Err(m) => r matches Err(OrganizeError::InvalidTree(e)) && e@ == m,
        },
{
    parse_decision(item)
}

// ----- the decision tree of stored items -----

/// Why an included item has no node.
pub open spec fn state_node_error(it: OrganizeTaskItemRecord) -> Option<Seq<char>> {
    if it.tree_start is None {
        Some("included item has no tree start"@)
    } else if it.tree_end is None {
        Some("included item has no tree end"@)
    } else if it.unit_count is None {
        Some("included item has no unit count"@)
    } else if it.unit_count->Some_0 < 0 {
        Some("included item has invalid unit count"@)
    } else {
        None
    }
}

/// The node of an included item.
pub open spec fn state_node(it: OrganizeTaskItemRecord) -> TreeItemComputed {
    TreeItemComputed {
        item_id: it.uuid,
        tree_start: it.tree_start->Some_0,
        tree_end: it.tree_end->Some_0,
        unit_count: it.unit_count->Some_0 as u64,
        aggregate_size_bytes: item_bytes(it),
    }
}

/// Why an included item with a decision has no decision root.
pub open spec fn state_decision_error(it: OrganizeTaskItemRecord) -> Option<Seq<char>> {
    match parse_decision_spec(it) {
        Err(m) => Some(m),
        Ok(None) => Some("decision kind disappeared"@),
        Ok(Some(_)) => if it.tree_start is None {
            Some("decision has no tree start"@)
        } else if it.tree_end is None {
            Some("decision has no tree end"@)
        } else if it.unit_count is None {
            Some("decision has no unit count"@)
        } else if it.unit_count->Some_0 < 0 {
            Some("decision has invalid unit count"@)
        } else if operation_state_spec(it.operation_state@) is None {
            Some("unknown operation state: "@ + it.operation_state@)
        } else {
            None
        },
    }
}

/// The decision root of an included item with a decision.
pub open spec fn state_decision(it: OrganizeTaskItemRecord) -> ExplicitDecisionRoot {
    ExplicitDecisionRoot {
        item_id: it.uuid,
        tree_start: it.tree_start->Some_0,
        tree_end: it.tree_end->Some_0,
        unit_count: it.unit_count->Some_0 as u64,
        aggregate_size_bytes: item_bytes(it),
        decision: parse_decision_spec(it)->Ok_0->Some_0,
        operation_state: operation_state_spec(it.operation_state@)->Some_0,
    }
}

/// The first node error among the first `k` items.
pub open spec fn first_state_node_error(items: Seq<OrganizeTaskItemRecord>, k: int) -> Option<Seq<char>>
    decreases k,
{
    if k <= 0 {
        None
    } else {
        match first_state_node_error(items, k - 1) {
            Some(m) => Some(m),
            None => state_node_error(items[k - 1]),
        }
    }
}

/// The items with a decision, in order.
pub open spec fn decided(items: Seq<OrganizeTaskItemRecord>) -> Seq<OrganizeTaskItemRecord>
    decreases items.len(),
{
    if items.len() == 0 {
        Seq::<OrganizeTaskItemRecord>::empty()
    } else {
        let prev = decided(items.drop_last());
        if items.last().decision_kind is Some {
            prev.push(items.last())
        } else {
            prev
        }
    }
}

/// The first decision error among the first `k` items.
pub open spec fn first_state_decision_error(items: Seq<OrganizeTaskItemRecord>, k: int) -> Option<Seq<char>>
    decreases k,
{
    if k <= 0 {
        None
    } else {
        match first_state_decision_error(items, k - 1) {
            Some(m) => Some(m),
            None => state_decision_error(items[k - 1]),
        }
    }
}

/// What `decision_tree_state` returns: the first node error of an included
/// item, then the first decision error of an included item with a decision;
/// else the nodes of the included items and the roots of their decisions.
pub open spec fn tree_state_is(r: Result<DecisionTreeState, OrganizeError>, items: Seq<OrganizeTaskItemRecord>) -> bool {
    let inc = included(items);
    let ds = decided(inc);
    match first_state_node_error(inc, inc.len() as int) {
        Some(m) => r matches Err(OrganizeError::InvalidTree(e)) && e@ == m,
        None => match first_state_decision_error(ds, ds.len() as int) {
            Some(m) => r matches Err(OrganizeError::InvalidTree(e)) && e@ == m,
            None => r matches Ok(s) && s.nodes@ == inc.map_values(|it: OrganizeTaskItemRecord| state_node(it))
                && s.decisions@ == ds.map_values(|it: OrganizeTaskItemRecord| state_decision(it)),
        },
    }
}

proof fn lemma_state_node_error_stays(items: Seq<OrganizeTaskItemRecord>, k: int, n: int)
    requires
        0 <= k <= n,
        first_state_node_error(items, k) is Some,
    ensures
        first_state_node_error(items, n) == first_state_node_error(items, k),
    decreases n - k,
{
    if k < n {
        lemma_state_node_error_stays(items, k + 1, n);
    }
}

proof fn lemma_state_decision_error_stays(items: Seq<OrganizeTaskItemRecord>, k: int, n: int)
    requires
        0 <= k <= n,
        first_state_decision_error(items, k) is Some,
    ensures
        first_state_decision_error(items, n) == first_state_decision_error(items, k),
    decreases n - k,
{
    if k < n {
        lemma_state_decision_error_stays(items, k + 1, n);
    }
}

fn invalid_tree(text: &str) -> (e: OrganizeError)
    ensures
        e matches OrganizeError::InvalidTree(m) && m@ == text@,
{
    OrganizeError::InvalidTree(String::from_str(text))
}

/// The node of one included item, or why it has none.
fn state_node_of(it: &OrganizeTaskItemRecord) -> (r: Result<TreeItemComputed, OrganizeError>)
    ensures
        match state_node_error(*it) {
            Some(m) => r matches Err(OrganizeError::InvalidTree(e)) && e@ == m,
            None => r == Ok::<TreeItemComputed, OrganizeError>(state_node(*it)),
        },
{
    proof {
        reveal_strlit("included item has no tree start");
        reveal_strlit("included item has no tree end");
        reveal_strlit("included item has no unit count");
        reveal_strlit("included item has invalid unit count");
    }
    let start = match it.tree_start {
        Some(s) => s,
        None => {
            return Err(invalid_tree("included item has no tree start"));
        },
    };
    let end = match it.tree_end {
        Some(e) => e,
        None => {
            return Err(invalid_tree("included item has no tree end"));
        },
    };
    let units = match it.unit_count {
        Some(u) => u,
        None => {
            return Err(invalid_tree("included item has no unit count"));
        },
    };
    if units < 0 {
        return Err(invalid_tree("included item has invalid unit count"));
    }
    let bytes: u64 = if it.aggregate_size_bytes < 0 { 0 } else { it.aggregate_size_bytes as u64 };
    Ok(TreeItemComputed { item_id: it.uuid, tree_start: start, tree_end: end, unit_count: units as u64, aggregate_size_bytes: bytes })
}

/// The decision root of one included item with a decision, or why it has none.
fn state_decision_of(it: &OrganizeTaskItemRecord) -> (r: Result<ExplicitDecisionRoot, OrganizeError>)
    ensures
        match state_decision_error(*it) {
            Some(m) => r matches Err(OrganizeError::InvalidTree(e)) && e@ == m,
            None => r == Ok::<ExplicitDecisionRoot, OrganizeError>(state_decision(*it)),
        },
{
    proof {
        reveal_strlit("decision kind disappeared");
        reveal_strlit("decision has no tree start");
        reveal_strlit("decision has no tree end");
        reveal_strlit("decision has no unit count");
        reveal_strlit("decision has invalid unit count");
    }
    let decision = match parse_decision(it) {
        Ok(Some(d)) => d,
        Ok(None) => {
            return Err(invalid_tree("decision kind disappeared"));
        },
        Err(e) => {
            return Err(e);
        },
    };
    let start = match it.tree_start {
        Some(s) => s,
        None => {
            return Err(invalid_tree("decision has no tree start"));
        },
    };
    let end = match it.tree_end {
        Some(e) => e,
        None => {
            return Err(invalid_tree("decision has no tree end"));
        },
    };
    let units = match it.unit_count {
        Some(u) => u,
        None => {
            return Err(invalid_tree("decision has no unit count"));
        },
    };
    if units < 0 {
        return Err(invalid_tree("decision has invalid unit count"));
    }
    let state = match parse_operation_state(it.operation_state.as_str()) {
        Some(s) => s,
        None => {
            let mut v: Vec<char> = Vec::new();
            push_str(&mut v, "unknown operation state: ");
            push_str(&mut v, it.operation_state.as_str());
            return Err(OrganizeError::InvalidTree(string_from_chars(v.as_slice())));
        },
    };
    let bytes: u64 = if it.aggregate_size_bytes < 0 { 0 } else { it.aggregate_size_bytes as u64 };
    Ok(ExplicitDecisionRoot {
        item_id: it.uuid,
        tree_start: start,
        tree_end: end,
        unit_count: units as u64,
        aggregate_size_bytes: bytes,
        decision,
        operation_state: state,
    })
}

/// The decision tree the stored items hold: the nodes of the included items
/// and the roots of their decisions.
pub fn decision_tree_state(items: &[OrganizeTaskItemRecord]) -> (r: Result<DecisionTreeState, OrganizeError>)
    ensures
        tree_state_is(r, items@),
{
    let ghost s = items@;
    let mut inc: Vec<OrganizeTaskItemRecord> = Vec::new();
    let mut i: usize = 0;
    while i < items.len()
        invariant
            i <= s.len(),
            s == items@,
            inc@ == included(s.take(i as int)),
        decreases s.len() - i,
    {
        assert(s.take(i + 1).drop_last() =~= s.take(i as int));
        if str_eq(items[i].membership_state.as_str(), "included") {
            inc.push(copy_item(&items[i]));
        }
        i = i + 1;
    }
    assert(s.take(s.len() as int) =~= s);
    let ghost iv = inc@;
    let mut nodes: Vec<TreeItemComputed> = Vec::new();
    let mut k: usize = 0;
    while k < inc.len()
        invariant
            k <= iv.len(),
            iv == inc@,
            iv == included(items@),
            first_state_node_error(iv, k as int) is None,
            nodes@ == iv.take(k as int).map_values(|it: OrganizeTaskItemRecord| state_node(it)),
        decreases iv.len() - k,
    {
        match state_node_of(&inc[k]) {
            Ok(n) => {
                nodes.push(n);
                assert(nodes@ =~= iv.take(k + 1).map_values(|it: OrganizeTaskItemRecord| state_node(it)));
            },
            Err(e) => {
                proof {
                    assert(first_state_node_error(iv, k + 1) == state_node_error(iv[k as int]));
                    lemma_state_node_error_stays(iv, k + 1, iv.len() as int);
                }
                return Err(e);
            },
        }
        k = k + 1;
    }
    assert(iv.take(iv.len() as int) =~= iv);
    let mut ds: Vec<OrganizeTaskItemRecord> = Vec::new();
    let mut j: usize = 0;
    while j < inc.len()
        invariant
            j <= iv.len(),
            iv == inc@,
            ds@ == decided(iv.take(j as int)),
            iv == included(items@),
            first_state_node_error(iv, iv.len() as int) is None,
            nodes@ == iv.map_values(|it: OrganizeTaskItemRecord| state_node(it)),
        decreases iv.len() - j,
    {
        assert(iv.take(j + 1).drop_last() =~= iv.take(j as int));
        if inc[j].decision_kind.is_some() {
            ds.push(copy_item(&inc[j]));
        }
        j = j + 1;
    }
    assert(iv.take(iv.len() as int) =~= iv);
    let ghost dv = ds@;
    let mut decisions: Vec<ExplicitDecisionRoot> = Vec::new();
    let mut q: usize = 0;
    while q < ds.len()
        invariant
            q <= dv.len(),
            dv == ds@,
            iv == included(items@),
            dv == decided(iv),
            first_state_node_error(iv, iv.len() as int) is None,
            nodes@ == iv.map_values(|it: OrganizeTaskItemRecord| state_node(it)),
            first_state_decision_error(dv, q as int) is None,
            decisions@ == dv.take(q as int).map_values(|it: OrganizeTaskItemRecord| state_decision(it)),
        decreases dv.len() - q,
    {
        match state_decision_of(&ds[q]) {
            Ok(d) => {
                decisions.push(d);
                assert(decisions@ =~= dv.take(q + 1).map_values(|it: OrganizeTaskItemRecord| state_decision(it)));
            },
            Err(e) => {
                proof {
                    assert(first_state_decision_error(dv, q + 1) == state_decision_error(dv[q as int]));
                    lemma_state_decision_error_stays(dv, q + 1, dv.len() as int);
                }
                return Err(e);
            },
        }
        q = q + 1;
    }
    assert(dv.take(dv.len() as int) =~= dv);
    Ok(DecisionTreeState { nodes, decisions })
}

} // verus!

verus! {

// ----- whether a patch changes anything -----

/// The last of the first `k` items with a decision and id `id`.
pub open spec fn last_decided(items: Seq<OrganizeTaskItemRecord>, id: u128, k: int) -> Option<int>
    decreases k,
{
    if k <= 0 {
        None
    } else if items[k - 1].decision_kind is Some && items[k - 1].uuid == id {
        Some(k - 1)
    } else {
        last_decided(items, id, k - 1)
    }
}

/// The last of the first `k` upserted roots with id `id`.
pub open spec fn last_upsert(ups: Seq<ExplicitDecisionRoot>, id: u128, k: int) -> Option<int>
    decreases k,
{
    if k <= 0 {
        None
    } else if ups[k - 1].item_id == id {
        Some(k - 1)
    } else {
        last_upsert(ups, id, k - 1)
    }
}

/// The stored columns of the item with id `id` that has a decision.
pub open spec fn stored_columns(items: Seq<OrganizeTaskItemRecord>, id: u128) -> Option<ColumnsView> {
    match last_decided(items, id, items.len() as int) {
        Some(j) => Some(
            (
                Some(items[j].decision_kind->Some_0@),
                match items[j].move_destination {
                    Some(d) => Some(d@),
                    None => None,
                },
                items[j].operation_state@,
            ),
        ),
        None => None,
    }
}

/// The columns of item `id` once a patch is applied: its last upsert, none
/// when it is deleted, else what is stored.
pub open spec fn patched_columns(items: Seq<OrganizeTaskItemRecord>, patch: DecisionPatch, id: u128) -> Option<ColumnsView> {
    match last_upsert(patch.upsert_roots@, id, patch.upsert_roots@.len() as int) {
        Some(j) => Some(columns_spec(Some(patch.upsert_roots@[j].decision))),
        None => if patch.delete_roots@.contains(id) {
            None
        } else {
            stored_columns(items, id)
        },
    }
}

/// Whether applying a patch leaves every stored decision as it is.
pub open spec fn patch_is_noop_spec(items: Seq<OrganizeTaskItemRecord>, patch: DecisionPatch) -> bool {
    forall|id: u128| #[trigger] patched_columns(items, patch, id) == stored_columns(items, id)
}

proof fn lemma_last_decided_bounds(items: Seq<OrganizeTaskItemRecord>, id: u128, k: int)
    requires
        0 <= k <= items.len(),
    ensures
        match last_decided(items, id, k) {
            Some(j) => 0 <= j < k && items[j].decision_kind is Some && items[j].uuid == id,
            None => true,
        },
    decreases k,
{
    if k > 0 {
        lemma_last_decided_bounds(items, id, k - 1);
    }
}

proof fn lemma_last_upsert_bounds(ups: Seq<ExplicitDecisionRoot>, id: u128, k: int)
    requires
        0 <= k <= ups.len(),
    ensures
        match last_upsert(ups, id, k) {
            Some(j) => 0 <= j < k && ups[j].item_id == id && forall|q: int| j < q < k ==> #[trigger] ups[q].item_id != id,
            None => forall|q: int| 0 <= q < k ==> #[trigger] ups[q].item_id != id,
        },
    decreases k,
{
    if k > 0 {
        lemma_last_upsert_bounds(ups, id, k - 1);
    }
}

/// The index of the last item with a decision and id `id`.
fn last_decided_index(items: &[OrganizeTaskItemRecord], id: u128) -> (r: Option<usize>)
    ensures
        match r {
            Some(j) => last_decided(items@, id, items@.len() as int) == Some(j as int),
            None => last_decided(items@, id, items@.len() as int) is None,
        },
{
    let mut k: usize = items.len();
    while k > 0
        invariant
            k <= items@.len(),
            last_decided(items@, id, items@.len() as int) == last_decided(items@, id, k as int),
        decreases k,
    {
        if items[k - 1].decision_kind.is_some() && items[k - 1].uuid == id {
            return Some(k - 1);
        }
        k = k - 1;
    }
    None
}

fn opt_str_eq(a: &Option<String>, b: &Option<String>) -> (r: bool)
    ensures
        r == (match (*a, *b) {
            (Some(x), Some(y)) => x@ == y@,
            (None, None) => true,
            _ => false,
        }),
{
    match (a, b) {
        (Some(x), Some(y)) => str_eq(x.as_str(), y.as_str()),
        (None, None) => true,
        _ => false,
    }
}

/// Whether applying a patch would leave every stored decision as it is.
pub fn decision_patch_is_noop(items: &[OrganizeTaskItemRecord], patch: &DecisionPatch) -> (r: bool)
    ensures
        r == patch_is_noop_spec(items@, *patch),
{
    let ghost uv = patch.upsert_roots@;
    let mut i: usize = 0;
    while i < patch.delete_roots.len()
        invariant
            i <= patch.delete_roots@.len(),
            uv == patch.upsert_roots@,
            forall|q: int| 0 <= q < i && last_upsert(uv, patch.delete_roots@[q], uv.len() as int) is None ==> #[trigger] patched_columns(items@, *patch, patch.delete_roots@[q]) == stored_columns(items@, patch.delete_roots@[q]),
        decreases patch.delete_roots@.len() - i,
    {
        let d = patch.delete_roots[i];
        let mut has_upsert = false;
        let mut j: usize = 0;
        while j < patch.upsert_roots.len()
            invariant
                j <= uv.len(),
                uv == patch.upsert_roots@,
                has_upsert <==> exists|q: int| 0 <= q < j && #[trigger] uv[q].item_id == d,
            decreases uv.len() - j,
        {
            if patch.upsert_roots[j].item_id == d {
                has_upsert = true;
            }
            j = j + 1;
        }
        proof {
            lemma_last_upsert_bounds(uv, d, uv.len() as int);
            assert(patch.delete_roots@.contains(d)) by {
                assert(patch.delete_roots@[i as int] == d);
            }
        }
        if !has_upsert {
            if last_decided_index(items, d).is_some() {
                assert(patched_columns(items@, *patch, d) != stored_columns(items@, d));
                return false;
            }
        } else {
            proof {
                let q = choose|q: int| 0 <= q < uv.len() && #[trigger] uv[q].item_id == d;
                assert(last_upsert(uv, d, uv.len() as int) is Some);
            }
        }
        i = i + 1;
    }
    let mut j: usize = 0;
    while j < patch.upsert_roots.len()
        invariant
            j <= uv.len(),
            uv == patch.upsert_roots@,
            forall|q: int| 0 <= q < patch.delete_roots@.len() && last_upsert(uv, patch.delete_roots@[q], uv.len() as int) is None ==> #[trigger] patched_columns(items@, *patch, patch.delete_roots@[q]) == stored_columns(items@, patch.delete_roots@[q]),
            forall|q: int| 0 <= q < j && last_upsert(uv, uv[q].item_id, uv.len() as int) == Some(q) ==> #[trigger] patched_columns(items@, *patch, uv[q].item_id) == stored_columns(items@, uv[q].item_id),
        decreases uv.len() - j,
    {
        let id = patch.upsert_roots[j].item_id;
        let mut later = false;
        let mut w: usize = j + 1;
        while w < patch.upsert_roots.len()
            invariant
                j < w <= uv.len(),
                uv == patch.upsert_roots@,
                id == uv[j as int].item_id,
                later <==> exists|q: int| j < q < w && #[trigger] uv[q].item_id == id,
            decreases uv.len() - w,
        {
            if patch.upsert_roots[w].item_id == id {
                later = true;
            }
            w = w + 1;
        }
        proof {
            lemma_last_upsert_bounds(uv, id, uv.len() as int);
        }
        if !later {
            assert(last_upsert(uv, id, uv.len() as int) == Some(j as int));
            let cols = decision_columns(Some(&patch.upsert_roots[j].decision));
            match last_decided_index(items, id) {
                None => {
                    assert(patched_columns(items@, *patch, id) != stored_columns(items@, id));
                    return false;
                },
                Some(k) => {
                    proof {
                        lemma_last_decided_bounds(items@, id, items@.len() as int);
                    }
                    let it = &items[k];
                    let same = opt_str_eq(&it.decision_kind, &cols.0) && opt_str_eq(&it.move_destination, &cols.1)
                        && str_eq(it.operation_state.as_str(), cols.2.as_str());
                    if !same {
                        assert(patched_columns(items@, *patch, id) != stored_columns(items@, id));
                        return false;
                    }
                },
            }
        } else {
            proof {
                let q = choose|q: int| j < q < uv.len() && #[trigger] uv[q].item_id == id;
                let l = last_upsert(uv, id, uv.len() as int)->Some_0;
                assert(l >= q);
            }
        }
        j = j + 1;
    }
    proof {
        assert forall|id: u128| #[trigger] patched_columns(items@, *patch, id) == stored_columns(items@, id) by {
            lemma_last_upsert_bounds(uv, id, uv.len() as int);
            match last_upsert(uv, id, uv.len() as int) {
                Some(q) => {
                    assert(patched_columns(items@, *patch, uv[q].item_id) == stored_columns(items@, uv[q].item_id));
                },
                None => {
                    if patch.delete_roots@.contains(id) {
                        let q = choose|q: int| 0 <= q < patch.delete_roots@.len() && patch.delete_roots@[q] == id;
                        assert(patched_columns(items@, *patch, patch.delete_roots@[q]) == stored_columns(items@, patch.delete_roots@[q]));
                    }
                },
            }
        }
    }
    true
}

/// The items whose id is one of `item_ids`, in order.
pub open spec fn selected_items_spec(items: Seq<OrganizeTaskItemRecord>, item_ids: Seq<u128>) -> Seq<OrganizeTaskItemRecord>
    decreases items.len(),
{
    if items.len() == 0 {
        Seq::<OrganizeTaskItemRecord>::empty()
    } else {
        let prev = selected_items_spec(items.drop_last(), item_ids);
        if item_ids.contains(items.last().uuid) {
            prev.push(items.last())
        } else {
            prev
        }
    }
}

/// The items whose id is one of `item_ids`, in order.
pub fn selected_items(items: &[OrganizeTaskItemRecord], item_ids: &[u128]) -> (r: Vec<OrganizeTaskItemRecord>)
    ensures
        r@ == selected_items_spec(items@, item_ids@),
{
    let ghost s = items@;
    let mut out: Vec<OrganizeTaskItemRecord> = Vec::new();
    let mut i: usize = 0;
    while i < items.len()
        invariant
            i <= s.len(),
            s == items@,
            out@ == selected_items_spec(s.take(i as int), item_ids@),
        decreases s.len() - i,
    {
        assert(s.take(i + 1).drop_last() =~= s.take(i as int));
        let id = items[i].uuid;
        let mut found = false;
        let mut j: usize = 0;
        while j < item_ids.len()
            invariant
                j <= item_ids@.len(),
                found <==> exists|q: int| 0 <= q < j && item_ids@[q] == id,
            decreases item_ids@.len() - j,
        {
            if item_ids[j] == id {
                found = true;
            }
            j = j + 1;
        }
        if found {
            out.push(copy_item(&items[i]));
        }
        i = i + 1;
    }
    assert(s.take(s.len() as int) =~= s);
    out
}

} // verus!

verus! {

// ----- walks up the stored parent links -----

/// The row with id `id`: the last one, as a map keyed by row id keeps it.
pub open spec fn row_index(items: Seq<OrganizeTaskItemRecord>, id: i32) -> Option<int> {
    row_index_upto(items, id, items.len() as int)
}

pub open spec fn row_index_upto(items: Seq<OrganizeTaskItemRecord>, id: i32, k: int) -> Option<int>
    decreases k,
{
    if k <= 0 {
        None
    } else if items[k - 1].id == id {
        Some(k - 1)
    } else {
        row_index_upto(items, id, k - 1)
    }
}

/// Where a walk up the parent links stops.
pub enum WalkStop {
    /// At an included item with a decision.
    DecidedIncluded,
    /// At an item whose discard or move was applied.
    AppliedDestructive,
    /// At one of these items.
    AnyOf(Seq<u128>),
}

pub open spec fn is_destructive_kind(k: Option<String>) -> bool {
    match k {
        Some(s) => s@ == "discard"@ || s@ == "move"@,
        None => false,
    }
}

/// Whether a walk stops at `r`.
pub open spec fn stops_at(stop: WalkStop, r: OrganizeTaskItemRecord) -> bool {
    match stop {
        WalkStop::DecidedIncluded => r.membership_state@ == "included"@ && r.decision_kind is Some,
        WalkStop::AppliedDestructive => r.operation_state@ == "applied"@ && is_destructive_kind(r.decision_kind),
        WalkStop::AnyOf(ids) => ids.contains(r.uuid),
    }
}

/// How a walk ends: at an item, at a missing parent, or out of steps.
pub enum WalkEnd {
    Found(OrganizeTaskItemRecord),
    NotFound,
    Exhausted,
}

/// The walk from `cur` up the parent links, at most `fuel` links, to the first
/// item where it stops.
pub open spec fn walk_from(items: Seq<OrganizeTaskItemRecord>, cur: OrganizeTaskItemRecord, stop: WalkStop, fuel: nat) -> WalkEnd
    decreases fuel,
{
    if stops_at(stop, cur) {
        WalkEnd::Found(cur)
    } else {
        match cur.parent_id {
            None => WalkEnd::NotFound,
            Some(p) => match row_index(items, p) {
                None => WalkEnd::NotFound,
                Some(j) => if fuel == 0 {
                    WalkEnd::Exhausted
                } else {
                    walk_from(items, items[j], stop, (fuel - 1) as nat)
                },
            },
        }
    }
}

/// The walk from the parent of `item`.
pub open spec fn walk_from_parent(items: Seq<OrganizeTaskItemRecord>, item: OrganizeTaskItemRecord, stop: WalkStop) -> WalkEnd {
    match item.parent_id {
        None => WalkEnd::NotFound,
        Some(p) => match row_index(items, p) {
            None => WalkEnd::NotFound,
            Some(j) => walk_from(items, items[j], stop, items.len() as nat),
        },
    }
}

/// The row with id `id`.
fn row_of(items: &[OrganizeTaskItemRecord], id: i32) -> (r: Option<usize>)
    ensures
        match r {
            Some(j) => row_index(items@, id) == Some(j as int) && j < items@.len(),
            None => row_index(items@, id) is None,
        },
{
    let mut k: usize = items.len();
    while k > 0
        invariant
            k <= items@.len(),
            row_index(items@, id) == row_index_upto(items@, id, k as int),
        decreases k,
    {
        if items[k - 1].id == id {
            return Some(k - 1);
        }
        k = k - 1;
    }
    None
}

fn stops_exec(stop: &WalkStopExec, r: &OrganizeTaskItemRecord, Ghost(s): Ghost<WalkStop>) -> (b: bool)
    requires
        stop_matches(*stop, s),
    ensures
        b == stops_at(s, *r),
{
    match stop {
        WalkStopExec::DecidedIncluded => str_eq(r.membership_state.as_str(), "included") && r.decision_kind.is_some(),
        WalkStopExec::AppliedDestructive => str_eq(r.operation_state.as_str(), "applied") && match &r.decision_kind {
            Some(k) => str_eq(k.as_str(), "discard") || str_eq(k.as_str(), "move"),
            None => false,
        },
        WalkStopExec::AnyOf(ids) => {
            let mut found = false;
            let mut j: usize = 0;
            while j < ids.len()
                invariant
                    j <= ids@.len(),
                    found <==> exists|q: int| 0 <= q < j && ids@[q] == r.uuid,
                decreases ids@.len() - j,
            {
                if ids[j] == r.uuid {
                    found = true;
                }
                j = j + 1;
            }
            found
        },
    }
}

/// Where a walk stops, as the code holds it.
pub enum WalkStopExec {
    DecidedIncluded,
    AppliedDestructive,
    AnyOf(Vec<u128>),
}

pub open spec fn stop_matches(e: WalkStopExec, s: WalkStop) -> bool {
    match (e, s) {
        (WalkStopExec::DecidedIncluded, WalkStop::DecidedIncluded) => true,
        (WalkStopExec::AppliedDestructive, WalkStop::AppliedDestructive) => true,
        (WalkStopExec::AnyOf(v), WalkStop::AnyOf(ids)) => v@ == ids,
        _ => false,
    }
}

/// Walk up from `start` until the walk stops.
fn walk_up(items: &[OrganizeTaskItemRecord], start: &OrganizeTaskItemRecord, stop: &WalkStopExec, Ghost(s): Ghost<WalkStop>) -> (r: Option<usize>)
    requires
        stop_matches(*stop, s),
        !(walk_from(items@, *start, s, items@.len() as nat) is Exhausted),
    ensures
        match walk_from(items@, *start, s, items@.len() as nat) {
            WalkEnd::Found(x) => (r matches Some(j) && j < items@.len() && items@[j as int] == x) || (r is None && x
                == *start),
            _ => r matches Some(j) && j == items@.len(),
        },
{
    if stops_exec(stop, start, Ghost(s)) {
        return None;
    }
    let mut cur: usize = match start.parent_id {
        None => {
            return Some(items.len());
        },
        Some(p) => match row_of(items, p) {
            None => {
                return Some(items.len());
            },
            Some(j) => j,
        },
    };
    let ghost total = items@.len() as nat;
    let mut fuel: usize = items.len() - 1;
    proof {
        assert(walk_from(items@, *start, s, total) == walk_from(items@, items@[cur as int], s, (total - 1) as nat));
    }
    while true
        invariant
            cur < items@.len(),
            fuel < items@.len(),
            stop_matches(*stop, s),
            walk_from(items@, *start, s, total) == walk_from(items@, items@[cur as int], s, fuel as nat),
            !(walk_from(items@, *start, s, total) is Exhausted),
            total == items@.len(),
        decreases fuel,
    {
        let c = &items[cur];
        if stops_exec(stop, c, Ghost(s)) {
            return Some(cur);
        }
        match c.parent_id {
            None => {
                return Some(items.len());
            },
            Some(p) => match row_of(items, p) {
                None => {
                    return Some(items.len());
                },
                Some(j) => {
                    if fuel == 0 {
                        assert(false);
                        return Some(items.len());
                    }
                    cur = j;
                    fuel = fuel - 1;
                },
            },
        }
    }
    Some(items.len())
}

} // verus!

verus! {

/// The nearest included ancestor of `item` that has a decision, following
/// the parent links.
pub fn explicit_ancestor<'a>(items: &'a [OrganizeTaskItemRecord], item: &OrganizeTaskItemRecord) -> (r: Option<&'a OrganizeTaskItemRecord>)
    requires
        !(walk_from_parent(items@, *item, WalkStop::DecidedIncluded) is Exhausted),
    ensures
        match walk_from_parent(items@, *item, WalkStop::DecidedIncluded) {
            WalkEnd::Found(x) => r matches Some(y) && *y == x,
            _ => r is None,
        },
{
    let j = match item.parent_id {
        None => {
            return None;
        },
        Some(p) => match row_of(items, p) {
            None => {
                return None;
            },
            Some(j) => j,
        },
    };
    let stop = WalkStopExec::DecidedIncluded;
    match walk_up(items, &items[j], &stop, Ghost(WalkStop::DecidedIncluded)) {
        None => Some(&items[j]),
        Some(k) => if k < items.len() {
            Some(&items[k])
        } else {
            None
        },
    }
}

/// The first item with id `id`.
pub open spec fn first_with_uuid(items: Seq<OrganizeTaskItemRecord>, id: u128, i: int) -> Option<OrganizeTaskItemRecord>
    decreases items.len() - i,
{
    if i < 0 || i >= items.len() {
        None
    } else if items[i].uuid == id {
        Some(items[i])
    } else {
        first_with_uuid(items, id, i + 1)
    }
}

/// The decision that applies to `item`: its own when it is included with a
/// decision (as the stored row with its id), else its nearest decided ancestor.
pub fn effective_decision<'a>(items: &'a [OrganizeTaskItemRecord], item: &OrganizeTaskItemRecord) -> (r: Option<&'a OrganizeTaskItemRecord>)
    requires
        !stops_at(WalkStop::DecidedIncluded, *item) ==> !(walk_from_parent(items@, *item, WalkStop::DecidedIncluded) is Exhausted),
    ensures
        if stops_at(WalkStop::DecidedIncluded, *item) {
            match first_with_uuid(items@, item.uuid, 0) {
                Some(x) => r matches Some(y) && *y == x,
                None => r is None,
            }
        } else {
            match walk_from_parent(items@, *item, WalkStop::DecidedIncluded) {
                WalkEnd::Found(x) => r matches Some(y) && *y == x,
                _ => r is None,
            }
        },
{
    if str_eq(item.membership_state.as_str(), "included") && item.decision_kind.is_some() {
        let mut i: usize = 0;
        while i < items.len()
            invariant
                i <= items@.len(),
                stops_at(WalkStop::DecidedIncluded, *item),
                first_with_uuid(items@, item.uuid, 0) == first_with_uuid(items@, item.uuid, i as int),
            decreases items@.len() - i,
        {
            if items[i].uuid == item.uuid {
                assert(first_with_uuid(items@, item.uuid, i as int) == Some(items@[i as int]));
                return Some(&items[i]);
            }
            i = i + 1;
        }
        assert(first_with_uuid(items@, item.uuid, i as int) is None);
        None
    } else {
        explicit_ancestor(items, item)
    }
}

/// Whether `item` or one of its ancestors had a discard or move applied.
pub fn is_covered_by_applied_destructive_root(items: &[OrganizeTaskItemRecord], item: &OrganizeTaskItemRecord) -> (b: bool)
    requires
        !(walk_from(items@, *item, WalkStop::AppliedDestructive, items@.len() as nat) is Exhausted),
    ensures
        b == (walk_from(items@, *item, WalkStop::AppliedDestructive, items@.len() as nat) is Found),
{
    let stop = WalkStopExec::AppliedDestructive;
    match walk_up(items, item, &stop, Ghost(WalkStop::AppliedDestructive)) {
        None => true,
        Some(k) => k < items.len(),
    }
}

/// Whether item `i` was applied and lies in (or is) one of the roots.
pub open spec fn applied_under(items: Seq<OrganizeTaskItemRecord>, roots: Seq<u128>, i: int) -> bool {
    items[i].operation_state@ == "applied"@ && walk_from(items, items[i], WalkStop::AnyOf(roots), items.len() as nat) is Found
}

/// The first applied item from position `i` on that lies in one of the roots.
pub open spec fn applied_descendant_from(items: Seq<OrganizeTaskItemRecord>, roots: Seq<u128>, i: int) -> Option<u128>
    decreases items.len() - i,
{
    if i < 0 || i >= items.len() {
        None
    } else if applied_under(items, roots, i) {
        Some(items[i].uuid)
    } else {
        applied_descendant_from(items, roots, i + 1)
    }
}

/// The walks up from applied items all end.
pub open spec fn applied_walks_end(items: Seq<OrganizeTaskItemRecord>, roots: Seq<u128>) -> bool {
    forall|i: int| #![trigger items[i]]
        0 <= i < items.len() && items[i].operation_state@ == "applied"@ ==> !(walk_from(
            items,
            items[i],
            WalkStop::AnyOf(roots),
            items.len() as nat,
        ) is Exhausted)
}

/// The first applied item that lies in (or is) one of `root_ids`.
pub fn applied_descendant_of(items: &[OrganizeTaskItemRecord], root_ids: &[u128]) -> (r: Option<u128>)
    requires
        applied_walks_end(items@, root_ids@),
    ensures
        r == applied_descendant_from(items@, root_ids@, 0),
{
    let mut ids: Vec<u128> = Vec::new();
    let mut q: usize = 0;
    while q < root_ids.len()
        invariant
            q <= root_ids@.len(),
            ids@ == root_ids@.take(q as int),
        decreases root_ids@.len() - q,
    {
        ids.push(root_ids[q]);
        q = q + 1;
        assert(ids@ =~= root_ids@.take(q as int));
    }
    assert(root_ids@.take(root_ids@.len() as int) =~= root_ids@);
    let stop = WalkStopExec::AnyOf(ids);
    let ghost s = WalkStop::AnyOf(root_ids@);
    let mut i: usize = 0;
    while i < items.len()
        invariant
            i <= items@.len(),
            stop_matches(stop, s),
            s == WalkStop::AnyOf(root_ids@),
            applied_walks_end(items@, root_ids@),
            applied_descendant_from(items@, root_ids@, 0) == applied_descendant_from(items@, root_ids@, i as int),
        decreases items@.len() - i,
    {
        let c = &items[i];
        if str_eq(c.operation_state.as_str(), "applied") {
            assert(items@[i as int] == *c);
            let w = walk_up(items, c, &stop, Ghost(s));
            let hit = match w {
                None => true,
                Some(k) => k < items.len(),
            };
            if hit {
                return Some(c.uuid);
            }
        }
        i = i + 1;
    }
    None
}


// ----- decided rows by position -----

/// The position key a row is ordered by: its interval start, with a row
/// that has none first.
pub open spec fn start_key(it: OrganizeTaskItemRecord) -> i64 {
    match it.tree_start {
        Some(t) => t,
        None => i64::MIN,
    }
}

/// The (position, id) pairs of the first `k` rows that carry a decision.
pub open spec fn decided_pairs(items: Seq<OrganizeTaskItemRecord>, k: int) -> Seq<(i64, u128)>
    decreases k,
{
    if k <= 0 {
        Seq::<(i64, u128)>::empty()
    } else if items[k - 1].decision_kind is Some {
        decided_pairs(items, k - 1).push((start_key(items[k - 1]), items[k - 1].uuid))
    } else {
        decided_pairs(items, k - 1)
    }
}

/// The ids of the rows that carry a decision, by interval start (rows with
/// no start first), ties by id.
pub fn explicit_decision_ids(items: &[OrganizeTaskItemRecord]) -> (r: Vec<u128>)
    ensures
        r@ == sorted_ids_spec(decided_pairs(items@, items@.len() as int)),
{
    let mut pairs: Vec<(i64, u128)> = Vec::new();
    let mut i: usize = 0;
    while i < items.len()
        invariant
            i <= items@.len(),
            pairs@ == decided_pairs(items@, i as int),
        decreases items@.len() - i,
    {
        if items[i].decision_kind.is_some() {
            let key: i64 = match items[i].tree_start {
                Some(t) => t,
                None => i64::MIN,
            };
            pairs.push((key, items[i].uuid));
        }
        i = i + 1;
    }
    sorted_ids(&pairs)
}


/// Whether a row can be a task's root: it is included and has no parent.
pub open spec fn is_root_row(it: OrganizeTaskItemRecord) -> bool {
    it.parent_id is None && it.membership_state@ == "included"@
}

/// The position of the root row among the first `k` rows: the first of
/// those with the least interval start.
pub open spec fn root_row_upto(items: Seq<OrganizeTaskItemRecord>, k: int) -> Option<int>
    decreases k,
{
    if k <= 0 {
        None
    } else {
        match root_row_upto(items, k - 1) {
            None => if is_root_row(items[k - 1]) { Some(k - 1) } else { None },
            Some(b) => if is_root_row(items[k - 1]) && start_key(items[k - 1]) < start_key(items[b]) {
                Some(k - 1)
            } else {
                Some(b)
            },
        }
    }
}

/// The id of a task's root row: the included row without a parent that
/// starts first; a task without one has an invalid tree.
pub fn root_item_id(items: &[OrganizeTaskItemRecord]) -> (r: Result<u128, OrganizeError>)
    ensures
        match root_row_upto(items@, items@.len() as int) {
            Some(b) => r == Ok::<u128, OrganizeError>(items@[b].uuid),
            None => r matches Err(OrganizeError::InvalidTree(m)) && m@ == "organize task has no root item"@,
        },
{
    proof {
        reveal_strlit("organize task has no root item");
        reveal_strlit("included");
    }
    let mut best: Option<usize> = None;
    let mut i: usize = 0;
    while i < items.len()
        invariant
            i <= items@.len(),
            match root_row_upto(items@, i as int) {
                Some(b) => best == Some(b as usize) && 0 <= b < i,
                None => best is None,
            },
        decreases items@.len() - i,
    {
        let it = &items[i];
        let cand = it.parent_id.is_none() && str_eq(it.membership_state.as_str(), "included");
        if cand {
            let key: i64 = match it.tree_start {
                Some(t) => t,
                None => i64::MIN,
            };
            match best {
                None => {
                    best = Some(i);
                },
                Some(b) => {
                    let bkey: i64 = match items[b].tree_start {
                        Some(t) => t,
                        None => i64::MIN,
                    };
                    if key < bkey {
                        best = Some(i);
                    }
                },
            }
        }
        i = i + 1;
    }
    match best {
        Some(b) => Ok(items[b].uuid),
        None => Err(OrganizeError::InvalidTree(String::from_str("organize task has no root item"))),
    }
}


/// What is stored of a decision reads back as that decision: an item whose
/// decision columns are those `decision_columns` writes for `d` parses to `d`
/// again (a move to its normalized destination).
pub proof fn law_decision_columns_read_back(item: OrganizeTaskItemRecord, d: Option<DecisionValue>)
    requires
        (match item.decision_kind {
            Some(k) => Some(k@),
            None => None,
        }) == columns_spec(d).0,
        (match item.move_destination {
            Some(x) => Some(x@),
            None => None,
        }) == columns_spec(d).1,
    ensures
        match d {
            None => parse_decision_spec(item) == Ok::<Option<DecisionValue>, Seq<char>>(None),
            Some(DecisionValue::Keep) => parse_decision_spec(item) == Ok::<Option<DecisionValue>, Seq<char>>(
                Some(DecisionValue::Keep),
            ),
            Some(DecisionValue::Discard) => parse_decision_spec(item) == Ok::<Option<DecisionValue>, Seq<char>>(
                Some(DecisionValue::Discard),
            ),
            Some(DecisionValue::Move { destination }) => parse_decision_spec(item) matches Ok(
                Some(DecisionValue::Move { destination: x }),
            ) && x@ == move_destination_spec(destination@),
        },
{
    reveal_strlit("keep");
    reveal_strlit("discard");
    reveal_strlit("move");
    assert("keep"@[0] != "discard"@[0]);
    assert("move"@[0] != "discard"@[0]);
    assert("move"@[0] != "keep"@[0]);
}


/// A move destination is stored by where it goes: two ASCII destinations that
/// are the same once `/` is read as `\` and ASCII case is ignored are stored
/// the same, and so are two windows keys.
pub proof fn law_stored_destination_ignores_case_and_separators(a: Seq<char>, b: Seq<char>)
    requires
        crate::text::all_ascii(a),
        crate::text::all_ascii(b),
        crate::text::ascii_lower_seq(replace_seq(a, '/', '\\')) == crate::text::ascii_lower_seq(replace_seq(b, '/', '\\')),
    ensures
        move_destination_spec(a) == move_destination_spec(b),
        windows_key_spec(a) == windows_key_spec(b),
{
    let ra = replace_seq(a, '/', '\\');
    let rb = replace_seq(b, '/', '\\');
    assert(crate::text::all_ascii(ra)) by {
        assert forall|i: int| 0 <= i < ra.len() implies crate::text::is_ascii_char(#[trigger] ra[i]) by {
            assert(crate::text::is_ascii_char(a[i]));
        }
    }
    assert(crate::text::all_ascii(rb)) by {
        assert forall|i: int| 0 <= i < rb.len() implies crate::text::is_ascii_char(#[trigger] rb[i]) by {
            assert(crate::text::is_ascii_char(b[i]));
        }
    }
}

} // verus!
