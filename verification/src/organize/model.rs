//! The data of an organize task: statuses, decisions and the computed tree.

use vstd::prelude::*;
use vstd::string::StringExecFns;
use crate::text::{
    chars_eq, chars_of, is_ascii_char, lowercase, lowercase_chars, replace_chars, replace_seq,
    skip_chars, starts_with_chars, starts_with_seq, string_from_chars, trim_end_chars, trim_end_seq,
    copy_string,
};

verus! {

/// Lifecycle status of an organize task.
#[derive(Clone, Copy, Debug, PartialEq, Eq, Structural)]
pub enum OrganizeTaskStatus {
    Scanning,
    Active,
    Committing,
    Completed,
    Failed,
}

/// What a snapshot item is on disk.
#[derive(Clone, Copy, Debug, PartialEq, Eq, Structural)]
pub enum OrganizeItemKind {
    File,
    Directory,
    ReparsePoint,
    Unreadable,
}

/// Where the file operation of a decision stands.
#[derive(Clone, Copy, Debug, PartialEq, Eq, Structural)]
pub enum OrganizeOperationState {
    /// No operation was started.
    NoOperation,
    Pending,
    Running,
    Applied,
    Failed,
}

/// What to do with an item: keep it, discard it, or move it to a destination.
#[derive(Clone, Debug)]
pub enum DecisionValue {
    Keep,
    Discard,
    Move { destination: String },
}

/// The extended-length UNC prefix, lowercased: `\\?\unc\`.
pub open spec fn lower_extended_unc_prefix() -> Seq<char> {
    seq!['\\', '\\', '?', '\\', 'u', 'n', 'c', '\\']
}

/// The extended-length prefix `\\?\`.
pub open spec fn extended_prefix_chars() -> Seq<char> {
    seq!['\\', '\\', '?', '\\']
}

/// A move destination as it is compared: `/` becomes `\`, it is lowercased, an
/// extended-length prefix is dropped (`\\?\unc\x` becomes `\\x`; `\\?\` goes
/// when a drive follows), and trailing `\` are trimmed unless the key is a bare
/// drive (`c:`).
pub open spec fn normalize_destination_spec(d: Seq<char>) -> Seq<char> {
    let key0 = lowercase(replace_seq(d, '/', '\\'));
    let key1 = if starts_with_seq(key0, lower_extended_unc_prefix()) {
        seq!['\\', '\\'] + key0.skip(8)
    } else if starts_with_seq(key0, extended_prefix_chars()) && key0.len() >= 6 && is_ascii_char(key0[4])
        && key0[5] == ':' {
        key0.skip(4)
    } else {
        key0
    };
    if key1.len() == 2 && is_ascii_char(key1[0]) && key1[1] == ':' {
        key1
    } else {
        trim_end_seq(key1, '\\')
    }
}

/// The normalized form of a move destination.
pub fn normalize_windows_destination(destination: &str) -> (r: Vec<char>)
    ensures
        r@ == normalize_destination_spec(destination@),
{
    let chars = chars_of(destination);
    let replaced = replace_chars(chars.as_slice(), '/', '\\');
    let key0 = lowercase_chars(replaced.as_slice());
    let unc: Vec<char> = vec!['\\', '\\', '?', '\\', 'u', 'n', 'c', '\\'];
    let ext: Vec<char> = vec!['\\', '\\', '?', '\\'];
    assert(unc@ =~= lower_extended_unc_prefix());
    assert(ext@ =~= extended_prefix_chars());
    let key1: Vec<char> = if starts_with_chars(key0.as_slice(), unc.as_slice()) {
        let rest = skip_chars(key0.as_slice(), 8);
        let mut k: Vec<char> = vec!['\\', '\\'];
        let mut i: usize = 0;
        while i < rest.len()
            invariant
                i <= rest.len(),
                k@ == seq!['\\', '\\'] + rest@.take(i as int),
            decreases rest.len() - i,
        {
            k.push(rest[i]);
            i = i + 1;
            assert(k@ =~= seq!['\\', '\\'] + rest@.take(i as int));
        }
        assert(rest@.take(rest.len() as int) =~= rest@);
        k
    } else if starts_with_chars(key0.as_slice(), ext.as_slice()) && key0.len() >= 6 && (key0[4] as u32)
        < 128 && key0[5] == ':' {
        skip_chars(key0.as_slice(), 4)
    } else {
        skip_chars(key0.as_slice(), 0)
    };
    assert(key0@.skip(0) =~= key0@);
    if key1.len() == 2 && (key1[0] as u32) < 128 && key1[1] == ':' {
        key1
    } else {
        trim_end_chars(key1.as_slice(), '\\')
    }
}

/// Whether two decisions are the same: the same kind, and for moves the same
/// normalized destination.
pub open spec fn decision_eq(a: DecisionValue, b: DecisionValue) -> bool {
    match (a, b) {
        (DecisionValue::Keep, DecisionValue::Keep) => true,
        (DecisionValue::Discard, DecisionValue::Discard) => true,
        (DecisionValue::Move { destination: l }, DecisionValue::Move { destination: r }) =>
            normalize_destination_spec(l@) == normalize_destination_spec(r@),
        _ => false,
    }
}

impl PartialEq for DecisionValue {
    fn eq(&self, other: &Self) -> (r: bool) {
        match (self, other) {
            (DecisionValue::Keep, DecisionValue::Keep) => true,
            (DecisionValue::Discard, DecisionValue::Discard) => true,
            (DecisionValue::Move { destination: l }, DecisionValue::Move { destination: r }) => {
                let a = normalize_windows_destination(l.as_str());
                let b = normalize_windows_destination(r.as_str());
                chars_eq(a.as_slice(), b.as_slice())
            },
            _ => false,
        }
    }
}

impl vstd::std_specs::cmp::PartialEqSpecImpl for DecisionValue {
    open spec fn obeys_eq_spec() -> bool {
        true
    }

    open spec fn eq_spec(&self, other: &Self) -> bool {
        decision_eq(*self, *other)
    }
}

/// The order in which decisions are committed: moves, then keeps, then discards.
pub open spec fn priority_spec(d: DecisionValue) -> u8 {
    match d {
        DecisionValue::Move { .. } => 0,
        DecisionValue::Keep => 1,
        DecisionValue::Discard => 2,
    }
}

impl DecisionValue {
    /// Keep the item.
    pub fn keep() -> (r: Self)
        ensures
            r is Keep,
    {
        DecisionValue::Keep
    }

    /// Discard the item.
    pub fn discard() -> (r: Self)
        ensures
            r is Discard,
    {
        DecisionValue::Discard
    }

    /// Move the item to `destination`.
    pub fn move_to(destination: &str) -> (r: Self)
        ensures
            r matches DecisionValue::Move { destination: d } && d@ == destination@,
    {
        DecisionValue::Move { destination: copy_string(destination) }
    }

    /// The commit order of this decision: moves first, then keeps, then discards.
    pub fn priority(&self) -> (r: u8)
        ensures
            r == priority_spec(*self),
    {
        match self {
            DecisionValue::Move { .. } => 0,
            DecisionValue::Keep => 1,
            DecisionValue::Discard => 2,
        }
    }

    /// A copy of this decision.
    pub fn duplicate(&self) -> (r: Self)
        ensures
            r == *self,
    {
        match self {
            DecisionValue::Keep => DecisionValue::Keep,
            DecisionValue::Discard => DecisionValue::Discard,
            DecisionValue::Move { destination } => DecisionValue::Move { destination: destination.clone() },
        }
    }
}

/// An item of a snapshot before its tree values are computed.
#[derive(Clone, Copy, Debug, PartialEq, Eq, Structural)]
pub struct TreeItemDraft {
    pub item_id: u128,
    pub parent_item_id: Option<u128>,
    pub kind: OrganizeItemKind,
    pub size_bytes: u64,
}

/// The tree values of an item: its interval in depth-first order, its units
/// (the leaf items below it, or 1 for a leaf) and its aggregate size.
#[derive(Clone, Copy, Debug, PartialEq, Eq, Structural)]
pub struct TreeItemComputed {
    pub item_id: u128,
    pub tree_start: i64,
    pub tree_end: i64,
    pub unit_count: u64,
    pub aggregate_size_bytes: u64,
}

/// An explicit decision on a subtree root.
#[derive(Clone, Debug)]
pub struct ExplicitDecisionRoot {
    pub item_id: u128,
    pub tree_start: i64,
    pub tree_end: i64,
    pub unit_count: u64,
    pub aggregate_size_bytes: u64,
    pub decision: DecisionValue,
    pub operation_state: OrganizeOperationState,
}

impl ExplicitDecisionRoot {
    /// A copy of this root.
    pub fn duplicate(&self) -> (r: Self)
        ensures
            r == *self,
    {
        ExplicitDecisionRoot {
            item_id: self.item_id,
            tree_start: self.tree_start,
            tree_end: self.tree_end,
            unit_count: self.unit_count,
            aggregate_size_bytes: self.aggregate_size_bytes,
            decision: self.decision.duplicate(),
            operation_state: self.operation_state,
        }
    }
}

/// The computed tree of a task and its explicit decisions.
#[derive(Clone, Debug)]
pub struct DecisionTreeState {
    pub nodes: Vec<TreeItemComputed>,
    pub decisions: Vec<ExplicitDecisionRoot>,
}

/// The change a decision makes: roots to delete and roots to insert or replace.
#[derive(Clone, Debug)]
pub struct DecisionPatch {
    pub delete_roots: Vec<u128>,
    pub upsert_roots: Vec<ExplicitDecisionRoot>,
}

/// Why a decision needs confirmation.
#[derive(Clone, Copy, Debug, PartialEq, Eq, Structural)]
pub enum OrganizeDecisionConflictKind {
    /// It overrides differing decisions below the selection.
    DescendantOverride,
    /// It splits a decision made on an ancestor.
    AncestorSplit,
}

/// The outcome of resolving a decision request.
#[derive(Clone, Debug)]
pub enum DecisionResolution {
    /// Apply this patch.
    Apply(DecisionPatch),
    /// Ask for confirmation first; the counts describe the decisions affected.
    ConfirmationRequired {
        conflict_kind: OrganizeDecisionConflictKind,
        keep_units: u64,
        discard_units: u64,
        move_units: u64,
        unmarked_units: u64,
        affected_bytes: u64,
        conflicting_roots: Vec<u128>,
    },
    /// The selection already inherits the requested decision from this ancestor.
    InheritedNoOp { ancestor_item_id: u128 },
}

/// Progress of a task in units.
#[derive(Clone, Copy, Debug, PartialEq, Eq, Structural)]
pub struct OrganizeProgressSummary {
    pub total_units: u64,
    pub processed_units: u64,
    pub keep_units: u64,
    pub discard_units: u64,
    pub move_units: u64,
    pub unmarked_units: u64,
}

impl Default for OrganizeProgressSummary {
    fn default() -> (r: Self)
        ensures
            r == (OrganizeProgressSummary {
                total_units: 0,
                processed_units: 0,
                keep_units: 0,
                discard_units: 0,
                move_units: 0,
                unmarked_units: 0,
            }),
    {
        OrganizeProgressSummary {
            total_units: 0,
            processed_units: 0,
            keep_units: 0,
            discard_units: 0,
            move_units: 0,
            unmarked_units: 0,
        }
    }
}

} // verus!

verus! {

/// Equality of decisions is an equivalence: reflexive, symmetric and
/// transitive, with moves equal when their normalized destinations are.
pub proof fn law_decision_eq_is_equivalence(a: DecisionValue, b: DecisionValue, c: DecisionValue)
    ensures
        decision_eq(a, a),
        decision_eq(a, b) == decision_eq(b, a),
        decision_eq(a, b) && decision_eq(b, c) ==> decision_eq(a, c),
{
}


/// Moves compare by where they go, not by how the destination is written:
/// two ASCII destinations that are the same once `/` is read as `\` and ASCII
/// case is ignored make equal move decisions; a move never equals a keep or a
/// discard.
pub proof fn law_move_equality_ignores_case_and_separators(a: String, b: String)
    requires
        crate::text::all_ascii(a@),
        crate::text::all_ascii(b@),
        crate::text::ascii_lower_seq(replace_seq(a@, '/', '\\')) == crate::text::ascii_lower_seq(replace_seq(b@, '/', '\\')),
    ensures
        decision_eq(DecisionValue::Move { destination: a }, DecisionValue::Move { destination: b }),
        !decision_eq(DecisionValue::Move { destination: a }, DecisionValue::Keep),
        !decision_eq(DecisionValue::Move { destination: a }, DecisionValue::Discard),
{
    let ra = replace_seq(a@, '/', '\\');
    let rb = replace_seq(b@, '/', '\\');
    assert(crate::text::all_ascii(ra)) by {
        assert forall|i: int| 0 <= i < ra.len() implies crate::text::is_ascii_char(#[trigger] ra[i]) by {
            assert(crate::text::is_ascii_char(a@[i]));
        }
    }
    assert(crate::text::all_ascii(rb)) by {
        assert forall|i: int| 0 <= i < rb.len() implies crate::text::is_ascii_char(#[trigger] rb[i]) by {
            assert(crate::text::is_ascii_char(b@[i]));
        }
    }
}

} // verus!
