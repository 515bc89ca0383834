//! The rule schema: conditions over an entry's fields and action references.

use vstd::prelude::*;

verus! {

/// The opaque parameter payload of an action reference.
#[verifier::external_type_specification]
#[verifier::external_body]
pub struct ExJsonValue(serde_json::Value);

/// A content kind (image, video, audio, ...), by its stable number.
#[derive(Clone, Copy, Debug, PartialEq, Eq, Structural)]
pub struct ContentKind {
    pub id: u32,
}

/// Comparison operators for numeric conditions.
#[derive(Clone, Copy, Debug, PartialEq, Eq, Structural)]
pub enum ComparisonOp {
    Lt,
    Lte,
    Gt,
    Gte,
    Eq,
}

/// `lhs op rhs`.
pub open spec fn compare_spec(op: ComparisonOp, lhs: int, rhs: int) -> bool {
    match op {
        ComparisonOp::Lt => lhs < rhs,
        ComparisonOp::Lte => lhs <= rhs,
        ComparisonOp::Gt => lhs > rhs,
        ComparisonOp::Gte => lhs >= rhs,
        ComparisonOp::Eq => lhs == rhs,
    }
}

impl ComparisonOp {
    /// Apply this operator to two numbers.
    pub fn compare(self, lhs: u64, rhs: u64) -> (r: bool)
        ensures
            r == compare_spec(self, lhs as int, rhs as int),
    {
        match self {
            ComparisonOp::Lt => lhs < rhs,
            ComparisonOp::Lte => lhs <= rhs,
            ComparisonOp::Gt => lhs > rhs,
            ComparisonOp::Gte => lhs >= rhs,
            ComparisonOp::Eq => lhs == rhs,
        }
    }
}

/// How a path condition matches.
#[derive(Clone, Copy, Debug, PartialEq, Eq, Structural)]
pub enum PathMatch {
    /// As a glob pattern.
    Glob,
    /// As a substring of the path.
    Substring,
}

/// A condition node of a rule.
#[derive(Debug)]
pub enum Condition {
    /// Every nested condition matches.
    All { conditions: Vec<Condition> },
    /// Some nested condition matches.
    Any { conditions: Vec<Condition> },
    /// The nested condition does not match.
    Not { condition: Box<Condition> },
    /// The entry's path matches the value (glob or substring).
    Path { match_kind: PathMatch, value: String },
    /// The entry's extension equals the value, ignoring ASCII case.
    Extension { value: String },
    /// The entry's size in bytes compares to the value.
    Size { op: ComparisonOp, value: u64 },
    /// The entry's content kind is the value.
    Kind { value: ContentKind },
    /// The entry's media width compares to the value.
    Width { op: ComparisonOp, value: u32 },
    /// The entry's media height compares to the value.
    Height { op: ComparisonOp, value: u32 },
    /// The entry's media duration in seconds compares to the value, held as the
    /// bit pattern of a 64-bit float.
    Duration { op: ComparisonOp, value_bits: u64 },
    /// The entry carries a tag with this name.
    Tag { name: String },
}

/// A reference to a registered action and its opaque parameters.
#[derive(Debug)]
pub struct ActionRef {
    pub action: String,
    pub params: serde_json::Value,
}

/// A named rule: a condition tree and the actions that apply when it matches.
#[derive(Debug)]
pub struct Rule {
    pub name: String,
    pub condition: Condition,
    pub actions: Vec<ActionRef>,
}

} // verus!

verus! {

/// Comparisons are converse pairs: `<` is `>` with the sides swapped, `<=` is
/// `>=` swapped, `==` is symmetric, and exactly one of `<`, `==`, `>` holds.
pub proof fn law_comparisons_are_converse(lhs: int, rhs: int)
    ensures
        compare_spec(ComparisonOp::Lt, lhs, rhs) == compare_spec(ComparisonOp::Gt, rhs, lhs),
        compare_spec(ComparisonOp::Lte, lhs, rhs) == compare_spec(ComparisonOp::Gte, rhs, lhs),
        compare_spec(ComparisonOp::Eq, lhs, rhs) == compare_spec(ComparisonOp::Eq, rhs, lhs),
        compare_spec(ComparisonOp::Lte, lhs, rhs) == (compare_spec(ComparisonOp::Lt, lhs, rhs) || compare_spec(
            ComparisonOp::Eq,
            lhs,
            rhs,
        )),
        (compare_spec(ComparisonOp::Lt, lhs, rhs) as int) + (compare_spec(ComparisonOp::Eq, lhs, rhs) as int)
            + (compare_spec(ComparisonOp::Gt, lhs, rhs) as int) == 1,
{
}

} // verus!
