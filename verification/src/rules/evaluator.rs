//! Rule evaluation against an entry's fields, and the validation of rules.

use vstd::prelude::*;
use vstd::string::StringExecFns;
use crate::rules::error::RuleError;
use crate::rules::glob::{glob_error, glob_error_text, glob_is_match, glob_matches, glob_parses, glob_pattern_ok};
use crate::rules::schema::{compare_spec, ComparisonOp, Condition, ContentKind, PathMatch, Rule};
use crate::text::{
    ascii_lower, ascii_lower_seq, chars_of, contains_seq, copy_string, is_whitespace, is_ws, str_eq,
};

verus! {

/// The fields of an entry that a rule condition reads. Durations are floats,
/// which this library does not hold: the target carries, for each duration
/// comparison a rule makes, its outcome.
#[derive(Clone, Debug)]
pub struct RuleTarget {
    /// The full path used for glob and substring matching.
    pub path: String,
    /// The extension, without its dot.
    pub extension: Option<String>,
    /// The size in bytes.
    pub size: u64,
    /// The content kind.
    pub kind: ContentKind,
    /// Media pixel width, for image and video entries.
    pub width: Option<u32>,
    /// Media pixel height, for image and video entries.
    pub height: Option<u32>,
    /// For each (operator, threshold bits) a rule compares the duration with,
    /// whether the entry's duration passes; an entry without a duration passes none.
    pub duration_verdicts: Vec<(ComparisonOp, u64, bool)>,
    /// Names of the entry's tags (canonical names, display names, aliases).
    pub tag_names: Vec<String>,
}

/// The outcome the first entry of `table` for `(op, bits)` records, or false.
pub open spec fn duration_lookup(table: Seq<(ComparisonOp, u64, bool)>, op: ComparisonOp, bits: u64) -> bool
    decreases table.len(),
{
    if table.len() == 0 {
        false
    } else if table[0].0 == op && table[0].1 == bits {
        table[0].2
    } else {
        duration_lookup(table.drop_first(), op, bits)
    }
}

/// The outcome the first entry of `table` for `pattern` records, or false.
pub open spec fn glob_lookup(table: Seq<(Seq<char>, bool)>, pattern: Seq<char>) -> bool
    decreases table.len(),
{
    if table.len() == 0 {
        false
    } else if table[0].0 == pattern {
        table[0].1
    } else {
        glob_lookup(table.drop_first(), pattern)
    }
}

/// Whether two strings are equal ignoring ASCII case.
pub open spec fn eq_ignore_ascii_case_spec(a: Seq<char>, b: Seq<char>) -> bool {
    ascii_lower_seq(a) == ascii_lower_seq(b)
}

/// Whether a condition matches a target, given the outcome of each glob pattern.
pub open spec fn eval_spec(c: Condition, t: RuleTarget, globs: Seq<(Seq<char>, bool)>) -> bool
    decreases c,
{
    match c {
        Condition::All { conditions } => forall|i: int|
            0 <= i < conditions@.len() ==> eval_spec(#[trigger] conditions@[i], t, globs),
        Condition::Any { conditions } => exists|i: int|
            0 <= i < conditions@.len() && eval_spec(#[trigger] conditions@[i], t, globs),
        Condition::Not { condition } => !eval_spec(*condition, t, globs),
        Condition::Path { match_kind, value } => match match_kind {
            PathMatch::Substring => contains_seq(t.path@, value@),
            PathMatch::Glob => glob_lookup(globs, value@),
        },
        Condition::Extension { value } => match t.extension {
            Some(ext) => eq_ignore_ascii_case_spec(ext@, value@),
            None => false,
        },
        Condition::Size { op, value } => compare_spec(op, t.size as int, value as int),
        Condition::Kind { value } => t.kind == value,
        Condition::Width { op, value } => match t.width {
            Some(w) => compare_spec(op, w as int, value as int),
            None => false,
        },
        Condition::Height { op, value } => match t.height {
            Some(h) => compare_spec(op, h as int, value as int),
            None => false,
        },
        Condition::Duration { op, value_bits } => duration_lookup(t.duration_verdicts@, op, value_bits),
        Condition::Tag { name } => exists|i: int|
            0 <= i < t.tag_names@.len() && #[trigger] t.tag_names@[i]@ == name@,
    }
}

/// Whether a glob table gives every glob pattern the outcome globset can give:
/// false for a pattern it cannot compile, its named match for a path without `\`.
pub open spec fn glob_table_ok(globs: Seq<(Seq<char>, bool)>, path: Seq<char>) -> bool {
    forall|i: int|
        0 <= i < globs.len() ==> (!glob_parses(#[trigger] globs[i].0) ==> !globs[i].1) && (glob_parses(globs[i].0)
            && !path.contains('\\') ==> globs[i].1 == glob_matches(globs[i].0, path))
}

/// Whether `b` is what a condition gives for a target with some glob outcomes
/// globset can produce.
pub open spec fn evaluates_to(c: Condition, t: RuleTarget, b: bool) -> bool {
    exists|globs: Seq<(Seq<char>, bool)>| glob_table_ok(globs, t.path@) && b == #[trigger] eval_spec(c, t, globs)
}

fn duration_outcome(table: &Vec<(ComparisonOp, u64, bool)>, op: ComparisonOp, bits: u64) -> (r: bool)
    ensures
        r == duration_lookup(table@, op, bits),
{
    let mut i: usize = 0;
    assert(table@.skip(0) =~= table@);
    while i < table.len()
        invariant
            i <= table@.len(),
            duration_lookup(table@, op, bits) == duration_lookup(table@.skip(i as int), op, bits),
        decreases table@.len() - i,
    {
        assert(table@.skip(i as int).drop_first() =~= table@.skip(i + 1));
        assert(table@.skip(i as int)[0] == table@[i as int]);
        let e = table[i];
        if e.0 == op && e.1 == bits {
            return e.2;
        }
        i = i + 1;
    }
    false
}

fn glob_outcome(table: &Vec<(String, bool)>, pattern: &str) -> (r: bool)
    ensures
        r == glob_lookup(table@.map_values(|e: (String, bool)| (e.0@, e.1)), pattern@),
{
    let ghost tv = table@.map_values(|e: (String, bool)| (e.0@, e.1));
    let mut i: usize = 0;
    assert(tv.skip(0) =~= tv);
    while i < table.len()
        invariant
            i <= table@.len(),
            tv == table@.map_values(|e: (String, bool)| (e.0@, e.1)),
            glob_lookup(tv, pattern@) == glob_lookup(tv.skip(i as int), pattern@),
        decreases table@.len() - i,
    {
        assert(tv.skip(i as int).drop_first() =~= tv.skip(i + 1));
        assert(tv.skip(i as int)[0] == tv[i as int]);
        if str_eq(table[i].0.as_str(), pattern) {
            return table[i].1;
        }
        i = i + 1;
    }
    false
}

/// Whether `needle` occurs in `hay`.
pub fn chars_contain(hay: &[char], needle: &[char]) -> (b: bool)
    ensures
        b == contains_seq(hay@, needle@),
{
    let hl = hay.len();
    if needle.len() > hl {
        return false;
    }
    let last = hl - needle.len();
    let mut i: usize = 0;
    while i <= last
        invariant
            last == hay@.len() - needle@.len(),
            needle@.len() <= hay@.len(),
            hl == hay@.len(),
            i <= last,
            forall|k: int| 0 <= k < i ==> #[trigger] hay@.subrange(k, k + needle@.len()) != needle@,
        decreases last + 1 - i,
    {
        let mut j: usize = 0;
        let mut same = true;
        while j < needle.len()
            invariant
                j <= needle@.len(),
                i <= last,
                needle@.len() <= hay@.len(),
                hl == hay@.len(),
                last == hay@.len() - needle@.len(),
                same <==> forall|q: int| 0 <= q < j ==> hay@[i + q] == needle@[q],
            decreases needle@.len() - j,
        {
            if hay[i + j] != needle[j] {
                same = false;
            }
            j = j + 1;
        }
        if same {
            assert(hay@.subrange(i as int, i + needle@.len()) =~= needle@);
            return true;
        }
        proof {
            let k = choose|q: int| 0 <= q < needle@.len() && hay@[i + q] != needle@[q];
            assert(hay@.subrange(i as int, i + needle@.len())[k] != needle@[k]);
        }
        if i == last {
            return false;
        }
        i = i + 1;
    }
    false
}

/// Whether two characters are equal ignoring ASCII case.
pub(crate) fn char_eq_ignore_case(a: char, b: char) -> (r: bool)
    ensures
        r == (ascii_lower(a) == ascii_lower(b)),
{
    let la: u32 = if 'A' <= a && a <= 'Z' { (a as u32) + 32 } else { a as u32 };
    let lb: u32 = if 'A' <= b && b <= 'Z' { (b as u32) + 32 } else { b as u32 };
    proof {
        if 'A' <= a && a <= 'Z' {
            assert((((a as u32) + 32) as char) as u32 == (a as u32) + 32);
        }
        if 'A' <= b && b <= 'Z' {
            assert((((b as u32) + 32) as char) as u32 == (b as u32) + 32);
        }
        assert(ascii_lower(a) as u32 == la);
        assert(ascii_lower(b) as u32 == lb);
    }
    la == lb
}

/// Whether two strings are equal ignoring ASCII case.
pub fn eq_ignore_ascii_case(a: &str, b: &str) -> (r: bool)
    ensures
        r == eq_ignore_ascii_case_spec(a@, b@),
{
    let x = chars_of(a);
    let y = chars_of(b);
    if x.len() != y.len() {
        assert(ascii_lower_seq(a@).len() != ascii_lower_seq(b@).len());
        return false;
    }
    let mut i: usize = 0;
    while i < x.len()
        invariant
            i <= x@.len(),
            x@ == a@,
            y@ == b@,
            x@.len() == y@.len(),
            forall|k: int| 0 <= k < i ==> ascii_lower(#[trigger] x@[k]) == ascii_lower(y@[k]),
        decreases x@.len() - i,
    {
        if !char_eq_ignore_case(x[i], y[i]) {
            assert(ascii_lower_seq(a@)[i as int] != ascii_lower_seq(b@)[i as int]);
            return false;
        }
        i = i + 1;
    }
    assert(ascii_lower_seq(a@) =~= ascii_lower_seq(b@));
    true
}

/// Whether a condition matches a target, given the outcome of each glob pattern.
pub fn eval_condition_with(c: &Condition, t: &RuleTarget, globs: &Vec<(String, bool)>) -> (r: bool)
    ensures
        r == eval_spec(*c, *t, globs@.map_values(|e: (String, bool)| (e.0@, e.1))),
    decreases c,
{
    let ghost gv = globs@.map_values(|e: (String, bool)| (e.0@, e.1));
    match c {
        Condition::All { conditions } => {
            let mut i: usize = 0;
            while i < conditions.len()
                invariant
                    i <= conditions@.len(),
                    c is All,
                    c->All_conditions == *conditions,
                    gv == globs@.map_values(|e: (String, bool)| (e.0@, e.1)),
                    forall|k: int| 0 <= k < i ==> eval_spec(#[trigger] conditions@[k], *t, gv),
                decreases conditions@.len() - i,
            {
                assert(decreases_to!(*c => c->All_conditions));
                assert(decreases_to!(c->All_conditions => c->All_conditions[i as int]));
                assert(decreases_to!(*c => conditions@[i as int]));
                if !eval_condition_with(&conditions[i], t, globs) {
                    return false;
                }
                i = i + 1;
            }
            true
        },
        Condition::Any { conditions } => {
            let mut i: usize = 0;
            while i < conditions.len()
                invariant
                    i <= conditions@.len(),
                    c is Any,
                    c->Any_conditions == *conditions,
                    gv == globs@.map_values(|e: (String, bool)| (e.0@, e.1)),
                    forall|k: int| 0 <= k < i ==> !eval_spec(#[trigger] conditions@[k], *t, gv),
                decreases conditions@.len() - i,
            {
                assert(decreases_to!(*c => c->Any_conditions));
                assert(decreases_to!(c->Any_conditions => c->Any_conditions[i as int]));
                assert(decreases_to!(*c => conditions@[i as int]));
                if eval_condition_with(&conditions[i], t, globs) {
                    return true;
                }
                i = i + 1;
            }
            false
        },
        Condition::Not { condition } => !eval_condition_with(condition, t, globs),
        Condition::Path { match_kind, value } => match match_kind {
            PathMatch::Substring => {
                let hay = chars_of(t.path.as_str());
                let needle = chars_of(value.as_str());
                chars_contain(hay.as_slice(), needle.as_slice())
            },
            PathMatch::Glob => glob_outcome(globs, value.as_str()),
        },
        Condition::Extension { value } => match &t.extension {
            Some(ext) => eq_ignore_ascii_case(ext.as_str(), value.as_str()),
            None => false,
        },
        Condition::Size { op, value } => op.compare(t.size, *value),
        Condition::Kind { value } => t.kind == *value,
        Condition::Width { op, value } => match t.width {
            Some(w) => op.compare(w as u64, *value as u64),
            None => false,
        },
        Condition::Height { op, value } => match t.height {
            Some(h) => op.compare(h as u64, *value as u64),
            None => false,
        },
        Condition::Duration { op, value_bits } => duration_outcome(&t.duration_verdicts, *op, *value_bits),
        Condition::Tag { name } => {
            let mut i: usize = 0;
            while i < t.tag_names.len()
                invariant
                    i <= t.tag_names@.len(),
                    c is Tag,
                    c->Tag_name == *name,
                    forall|k: int| 0 <= k < i ==> #[trigger] t.tag_names@[k]@ != name@,
                decreases t.tag_names@.len() - i,
            {
                if str_eq(t.tag_names[i].as_str(), name.as_str()) {
                    assert(t.tag_names@[i as int]@ == name@);
                    return true;
                }
                i = i + 1;
            }
            false
        },
    }
}

/// How many nested conditions a condition has (those of `All` and `Any`).
pub open spec fn child_count(c: Condition) -> int {
    match c {
        Condition::All { conditions } => conditions.len() as int,
        Condition::Any { conditions } => conditions.len() as int,
        _ => 0,
    }
}

/// The glob patterns of a condition tree, in the order a depth-first walk
/// meets them; for `All` and `Any`, those of the first `k` nested conditions.
pub open spec fn glob_patterns_upto(c: Condition, k: int) -> Seq<Seq<char>>
    decreases c, k,
{
    match c {
        Condition::All { conditions } => if k <= 0 {
            Seq::<Seq<char>>::empty()
        } else if k > conditions.len() {
            glob_patterns_upto(c, conditions.len() as int)
        } else {
            proof {
                assert(decreases_to!(c => c->All_conditions));
                assert(decreases_to!(c->All_conditions => c->All_conditions[k - 1]));
            }
            glob_patterns_upto(c, k - 1) + glob_patterns_upto(conditions[k - 1], child_count(conditions[k - 1]))
        },
        Condition::Any { conditions } => if k <= 0 {
            Seq::<Seq<char>>::empty()
        } else if k > conditions.len() {
            glob_patterns_upto(c, conditions.len() as int)
        } else {
            proof {
                assert(decreases_to!(c => c->Any_conditions));
                assert(decreases_to!(c->Any_conditions => c->Any_conditions[k - 1]));
            }
            glob_patterns_upto(c, k - 1) + glob_patterns_upto(conditions[k - 1], child_count(conditions[k - 1]))
        },
        Condition::Not { condition } => glob_patterns_upto(*condition, child_count(*condition)),
        Condition::Path { match_kind: PathMatch::Glob, value } => seq![value@],
        _ => Seq::<Seq<char>>::empty(),
    }
}

/// The glob patterns of a condition tree, in depth-first order.
pub open spec fn glob_patterns(c: Condition) -> Seq<Seq<char>> {
    glob_patterns_upto(c, child_count(c))
}

/// The view of a table of glob outcomes.
pub open spec fn table_view(t: Seq<(String, bool)>) -> Seq<(Seq<char>, bool)> {
    t.map_values(|e: (String, bool)| (e.0@, e.1))
}

/// The patterns of a table of glob outcomes, in order.
pub open spec fn table_patterns(t: Seq<(Seq<char>, bool)>) -> Seq<Seq<char>> {
    t.map_values(|e: (Seq<char>, bool)| e.0)
}

/// Whether every glob pattern of a condition tree is one globset can build a
/// matcher for (`glob_pattern_ok`).
pub open spec fn globs_buildable(c: Condition) -> bool
    decreases c,
{
    match c {
        Condition::All { conditions } => forall|i: int|
            0 <= i < conditions@.len() ==> globs_buildable(#[trigger] conditions@[i]),
        Condition::Any { conditions } => forall|i: int|
            0 <= i < conditions@.len() ==> globs_buildable(#[trigger] conditions@[i]),
        Condition::Not { condition } => globs_buildable(*condition),
        Condition::Path { match_kind: PathMatch::Glob, value } => glob_pattern_ok(value@),
        _ => true,
    }
}

/// Add the outcome of every glob pattern of `c` on `path` to `globs`.
fn collect_globs(c: &Condition, path: &str, globs: &mut Vec<(String, bool)>)
    requires
        globs_buildable(*c),
        glob_table_ok(old(globs)@.map_values(|e: (String, bool)| (e.0@, e.1)), path@),
    ensures
        glob_table_ok(final(globs)@.map_values(|e: (String, bool)| (e.0@, e.1)), path@),
        final(globs)@.len() == old(globs)@.len() + glob_patterns(*c).len(),
        table_view(final(globs)@).take(old(globs)@.len() as int) == table_view(old(globs)@),
        table_patterns(table_view(final(globs)@).skip(old(globs)@.len() as int)) == glob_patterns(*c),
    decreases c,
{
    let ghost g0 = table_view(globs@);
    let ghost n0 = globs@.len() as int;
    match c {
        Condition::All { conditions } => {
            let mut i: usize = 0;
            while i < conditions.len()
                invariant
                    i <= conditions@.len(),
                    c is All,
                    c->All_conditions == *conditions,
                    globs_buildable(*c),
                    glob_table_ok(globs@.map_values(|e: (String, bool)| (e.0@, e.1)), path@),
                    0 <= n0 <= globs@.len(),
                    table_view(globs@).take(n0) == g0,
                    table_patterns(table_view(globs@).skip(n0)) == glob_patterns_upto(*c, i as int),
                decreases conditions@.len() - i,
            {
                assert(decreases_to!(*c => c->All_conditions));
                assert(decreases_to!(c->All_conditions => c->All_conditions[i as int]));
                assert(decreases_to!(*c => conditions@[i as int]));
                let ghost mid = table_view(globs@);
                let ghost n1 = globs@.len() as int;
                collect_globs(&conditions[i], path, globs);
                proof {
                    let after = table_view(globs@);
                    assert(after.take(n1) == mid);
                    assert(after.len() == globs@.len() && mid.len() == n1 && n1 >= n0);
                    assert forall|j: int| 0 <= j < n1 implies after[j] == mid[j] by {
                        assert(after.take(n1)[j] == after[j]);
                    }
                    assert(after.take(n0) =~= mid.take(n0));
                    assert(table_patterns(after.skip(n0)) =~= table_patterns(mid.skip(n0)) + table_patterns(after.skip(n1)));
                    assert(conditions@[i as int] == conditions[i as int]);
                    assert(glob_patterns_upto(*c, i + 1) == glob_patterns_upto(*c, i as int) + glob_patterns(conditions@[i as int]));
                }
                i = i + 1;
            }
        },
        Condition::Any { conditions } => {
            let mut i: usize = 0;
            while i < conditions.len()
                invariant
                    i <= conditions@.len(),
                    c is Any,
                    c->Any_conditions == *conditions,
                    globs_buildable(*c),
                    glob_table_ok(globs@.map_values(|e: (String, bool)| (e.0@, e.1)), path@),
                    0 <= n0 <= globs@.len(),
                    table_view(globs@).take(n0) == g0,
                    table_patterns(table_view(globs@).skip(n0)) == glob_patterns_upto(*c, i as int),
                decreases conditions@.len() - i,
            {
                assert(decreases_to!(*c => c->Any_conditions));
                assert(decreases_to!(c->Any_conditions => c->Any_conditions[i as int]));
                assert(decreases_to!(*c => conditions@[i as int]));
                let ghost mid = table_view(globs@);
                let ghost n1 = globs@.len() as int;
                collect_globs(&conditions[i], path, globs);
                proof {
                    let after = table_view(globs@);
                    assert(after.take(n1) == mid);
                    assert(after.len() == globs@.len() && mid.len() == n1 && n1 >= n0);
                    assert forall|j: int| 0 <= j < n1 implies after[j] == mid[j] by {
                        assert(after.take(n1)[j] == after[j]);
                    }
                    assert(after.take(n0) =~= mid.take(n0));
                    assert(table_patterns(after.skip(n0)) =~= table_patterns(mid.skip(n0)) + table_patterns(after.skip(n1)));
                    assert(conditions@[i as int] == conditions[i as int]);
                    assert(glob_patterns_upto(*c, i + 1) == glob_patterns_upto(*c, i as int) + glob_patterns(conditions@[i as int]));
                }
                i = i + 1;
            }
        },
        Condition::Not { condition } => {
            collect_globs(condition, path, globs);
        },
        Condition::Path { match_kind: PathMatch::Glob, value } => {
            let m = glob_is_match(value.as_str(), path);
            let ghost before = globs@.map_values(|e: (String, bool)| (e.0@, e.1));
            globs.push((copy_string(value.as_str()), m));
            proof {
                let after = globs@.map_values(|e: (String, bool)| (e.0@, e.1));
                assert(after =~= before.push((value@, m)));
                assert forall|i: int| 0 <= i < after.len() implies (!glob_parses(#[trigger] after[i].0) ==> !after[i].1)
                    && (glob_parses(after[i].0) && !path@.contains('\\') ==> after[i].1 == glob_matches(after[i].0, path@)) by {
                    if i < before.len() {
                        assert(after[i] == before[i]);
                    }
                }
                assert(after.take(n0) =~= before);
                assert(table_patterns(after.skip(n0)) =~= seq![value@]);
            }
        },
        _ => {
            assert(table_view(globs@).take(n0) =~= g0);
            assert(table_patterns(table_view(globs@).skip(n0)) =~= Seq::<Seq<char>>::empty());
        },
    }
}

/// Evaluate a rule's condition tree against one target, matching each glob
/// pattern with globset.
pub fn evaluate(rule: &Rule, target: &RuleTarget) -> (r: bool)
    requires
        globs_buildable(rule.condition),
    ensures
        evaluates_to(rule.condition, *target, r),
{
    let mut globs: Vec<(String, bool)> = Vec::new();
    assert(globs@.map_values(|e: (String, bool)| (e.0@, e.1)) =~= Seq::<(Seq<char>, bool)>::empty());
    collect_globs(&rule.condition, target.path.as_str(), &mut globs);
    let r = eval_condition_with(&rule.condition, target, &globs);
    assert(glob_table_ok(globs@.map_values(|e: (String, bool)| (e.0@, e.1)), target.path@));
    r
}

/// Whether `sel` lists, in order, the targets at the increasing indexes `idx`,
/// which are exactly the targets before `upto` that the condition matches.
pub open spec fn selected_is(sel: Seq<RuleTarget>, targets: Seq<RuleTarget>, c: Condition, idx: Seq<int>, upto: int) -> bool {
    &&& idx.len() == sel.len()
    &&& forall|a: int, b: int| 0 <= a < b < idx.len() ==> idx[a] < idx[b]
    &&& forall|k: int|
        0 <= k < idx.len() ==> 0 <= #[trigger] idx[k] < upto && sel[k] == targets[idx[k]] && evaluates_to(c, targets[idx[k]], true)
    &&& forall|j: int| 0 <= j < upto && !idx.contains(j) ==> evaluates_to(c, #[trigger] targets[j], false)
}

/// The targets a sequence of references points to.
pub open spec fn derefs(s: Seq<&RuleTarget>) -> Seq<RuleTarget> {
    s.map_values(|x: &RuleTarget| *x)
}

/// The targets that match the rule, in order.
pub fn select_matching<'a>(rule: &Rule, targets: &'a [RuleTarget]) -> (r: Vec<&'a RuleTarget>)
    requires
        globs_buildable(rule.condition),
    ensures
        exists|idx: Seq<int>| #[trigger] selected_is(derefs(r@), targets@, rule.condition, idx, targets@.len() as int),
{
    let mut out: Vec<&'a RuleTarget> = Vec::new();
    let ghost mut idx: Seq<int> = Seq::<int>::empty();
    let mut i: usize = 0;
    assert(selected_is(derefs(out@), targets@, rule.condition, idx, 0));
    while i < targets.len()
        invariant
            i <= targets@.len(),
            globs_buildable(rule.condition),
            selected_is(derefs(out@), targets@, rule.condition, idx, i as int),
        decreases targets@.len() - i,
    {
        let t = &targets[i];
        let ghost old_sel = derefs(out@);
        let ghost old_idx = idx;
        if evaluate(rule, t) {
            out.push(t);
            proof {
                idx = idx.push(i as int);
                let sel = derefs(out@);
                assert(sel =~= old_sel.push(targets@[i as int]));
                assert forall|a: int, b: int| 0 <= a < b < idx.len() implies idx[a] < idx[b] by {
                    if b < old_idx.len() {
                        assert(idx[a] == old_idx[a] && idx[b] == old_idx[b]);
                    } else {
                        assert(idx[a] == old_idx[a]);
                        assert(0 <= old_idx[a] < i);
                    }
                }
                assert forall|k: int| 0 <= k < idx.len() implies 0 <= #[trigger] idx[k] < i + 1 && sel[k] == targets@[idx[k]]
                    && evaluates_to(rule.condition, targets@[idx[k]], true) by {
                    if k < old_idx.len() {
                        assert(idx[k] == old_idx[k]);
                        assert(0 <= old_idx[k] < i);
                    }
                }
                assert forall|j: int| 0 <= j < i + 1 && !idx.contains(j) implies evaluates_to(rule.condition, #[trigger] targets@[j], false) by {
                    if j < i {
                        if old_idx.contains(j) {
                            let w = choose|w: int| 0 <= w < old_idx.len() && old_idx[w] == j;
                            assert(idx[w] == j);
                        }
                    } else {
                        assert(idx[idx.len() - 1] == j);
                    }
                }
            }
        } else {
            proof {
                assert forall|j: int| 0 <= j < i + 1 && !idx.contains(j) implies evaluates_to(rule.condition, #[trigger] targets@[j], false) by {
                }
                assert forall|k: int| 0 <= k < idx.len() implies 0 <= #[trigger] idx[k] < i + 1 && old_sel[k] == targets@[idx[k]]
                    && evaluates_to(rule.condition, targets@[idx[k]], true) by {
                }
            }
        }
        i = i + 1;
    }
    out
}

} // verus!

verus! {

// ----- validation -----

/// Why a rule is refused by validation.
pub enum RuleIssue {
    Condition(Seq<char>),
    Glob(Seq<char>, Seq<char>),
    Action(Seq<char>),
}

/// Whether a string is empty once trimmed.
pub open spec fn blank(s: Seq<char>) -> bool {
    forall|i: int| 0 <= i < s.len() ==> is_ws(#[trigger] s[i])
}

pub open spec fn msg_empty_group() -> Seq<char> {
    "'all'/'any' group must contain at least one condition"@
}

pub open spec fn msg_empty_extension() -> Seq<char> {
    "extension condition must not be empty"@
}

pub open spec fn msg_empty_tag() -> Seq<char> {
    "tag condition must not be empty"@
}

pub open spec fn msg_empty_action() -> Seq<char> {
    "action identifier must not be empty"@
}

/// The first problem of a condition tree, in depth-first order.
pub open spec fn condition_issue(c: Condition) -> Option<RuleIssue>
    decreases c, 0int,
{
    match c {
        Condition::All { conditions } => if conditions@.len() == 0 {
            Some(RuleIssue::Condition(msg_empty_group()))
        } else {
            group_issue(conditions@, conditions@.len() as int)
        },
        Condition::Any { conditions } => if conditions@.len() == 0 {
            Some(RuleIssue::Condition(msg_empty_group()))
        } else {
            group_issue(conditions@, conditions@.len() as int)
        },
        Condition::Not { condition } => condition_issue(*condition),
        Condition::Path { match_kind, value } => if match_kind == PathMatch::Glob && !glob_parses(value@) {
            Some(RuleIssue::Glob(value@, glob_error_text(value@)))
        } else {
            None
        },
        Condition::Extension { value } => if blank(value@) {
            Some(RuleIssue::Condition(msg_empty_extension()))
        } else {
            None
        },
        Condition::Tag { name } => if blank(name@) {
            Some(RuleIssue::Condition(msg_empty_tag()))
        } else {
            None
        },
        _ => None,
    }
}

/// The first problem among the first `k` conditions of a group.
pub open spec fn group_issue(cs: Seq<Condition>, k: int) -> Option<RuleIssue>
    decreases cs, k,
{
    if k <= 0 || k > cs.len() {
        None
    } else {
        match group_issue(cs, k - 1) {
            Some(x) => Some(x),
            None => condition_issue(cs[k - 1]),
        }
    }
}

/// Whether an exec error carries a validation issue.
pub open spec fn rule_issue_matches(e: RuleError, issue: RuleIssue) -> bool {
    match (e, issue) {
        (RuleError::InvalidCondition(m), RuleIssue::Condition(s)) => m@ == s,
        (RuleError::InvalidGlob { pattern, message }, RuleIssue::Glob(p, s)) => pattern@ == p && message@ == s,
        (RuleError::InvalidAction(m), RuleIssue::Action(s)) => m@ == s,
        _ => false,
    }
}

/// The first problem of a rule: its condition's, else the first blank action.
pub open spec fn rule_issue(rule: Rule) -> Option<RuleIssue> {
    match condition_issue(rule.condition) {
        Some(x) => Some(x),
        None => if exists|i: int| 0 <= i < rule.actions@.len() && blank(#[trigger] rule.actions@[i].action@) {
            Some(RuleIssue::Action(msg_empty_action()))
        } else {
            None
        },
    }
}

/// Whether a string is empty once trimmed.
fn is_blank(s: &str) -> (b: bool)
    ensures
        b == blank(s@),
{
    let c = chars_of(s);
    let mut i: usize = 0;
    while i < c.len()
        invariant
            i <= c@.len(),
            c@ == s@,
            forall|k: int| 0 <= k < i ==> is_ws(#[trigger] c@[k]),
        decreases c@.len() - i,
    {
        if !is_whitespace(c[i]) {
            return false;
        }
        i = i + 1;
    }
    true
}

fn validate_group(c: &Condition, conditions: &Vec<Condition>) -> (r: Result<(), RuleError>)
    requires
        (c is All && c->All_conditions == *conditions) || (c is Any && c->Any_conditions == *conditions),
    ensures
        match group_issue(conditions@, conditions@.len() as int) {
            Some(issue) => r matches Err(e) && rule_issue_matches(e, issue),
            None => r is Ok,
        },
    decreases c, 0int,
{
    let mut i: usize = 0;
    while i < conditions.len()
        invariant
            i <= conditions@.len(),
            (c is All && c->All_conditions == *conditions) || (c is Any && c->Any_conditions == *conditions),
            group_issue(conditions@, i as int) is None,
        decreases conditions@.len() - i,
    {
        proof {
            if c is All {
                assert(decreases_to!(*c => c->All_conditions));
                assert(decreases_to!(c->All_conditions => c->All_conditions[i as int]));
            } else {
                assert(decreases_to!(*c => c->Any_conditions));
                assert(decreases_to!(c->Any_conditions => c->Any_conditions[i as int]));
            }
            assert(decreases_to!(*c => conditions@[i as int]));
        }
        match validate_condition(&conditions[i]) {
            Ok(()) => {},
            Err(e) => {
                proof {
                    lemma_group_issue_stays(conditions@, i + 1, conditions@.len() as int);
                }
                return Err(e);
            },
        }
        i = i + 1;
    }
    Ok(())
}

proof fn lemma_group_issue_stays(cs: Seq<Condition>, k: int, n: int)
    requires
        0 <= k <= n <= cs.len(),
        group_issue(cs, k) is Some,
    ensures
        group_issue(cs, n) == group_issue(cs, k),
    decreases n - k,
{
    if k < n {
        lemma_group_issue_stays(cs, k + 1, n);
    }
}

fn validate_condition(c: &Condition) -> (r: Result<(), RuleError>)
    ensures
        match condition_issue(*c) {
            Some(issue) => r matches Err(e) && rule_issue_matches(e, issue),
            None => r is Ok,
        },
    decreases c, 1int,
{
    match c {
        Condition::All { conditions } => {
            if conditions.len() == 0 {
                return Err(
                    RuleError::InvalidCondition(
                        String::from_str("'all'/'any' group must contain at least one condition"),
                    ),
                );
            }
            validate_group(c, conditions)
        },
        Condition::Any { conditions } => {
            if conditions.len() == 0 {
                return Err(
                    RuleError::InvalidCondition(
                        String::from_str("'all'/'any' group must contain at least one condition"),
                    ),
                );
            }
            validate_group(c, conditions)
        },
        Condition::Not { condition } => validate_condition(condition),
        Condition::Path { match_kind, value } => {
            if *match_kind == PathMatch::Glob {
                match glob_error(value.as_str()) {
                    Some(message) => {
                        return Err(RuleError::InvalidGlob { pattern: copy_string(value.as_str()), message });
                    },
                    None => {},
                }
            }
            Ok(())
        },
        Condition::Extension { value } => {
            if is_blank(value.as_str()) {
                return Err(RuleError::InvalidCondition(String::from_str("extension condition must not be empty")));
            }
            Ok(())
        },
        Condition::Tag { name } => {
            if is_blank(name.as_str()) {
                return Err(RuleError::InvalidCondition(String::from_str("tag condition must not be empty")));
            }
            Ok(())
        },
        _ => Ok(()),
    }
}

/// Validate a rule: no empty `all`/`any` group, no blank extension or tag, every
/// glob pattern compiles, and no action identifier is blank; the first problem
/// in depth-first order is reported, conditions before actions.
pub fn validate_rule(rule: &Rule) -> (r: Result<(), RuleError>)
    ensures
        match rule_issue(*rule) {
            Some(issue) => r matches Err(e) && rule_issue_matches(e, issue),
            None => r is Ok,
        },
{
    match validate_condition(&rule.condition) {
        Ok(()) => {},
        Err(e) => {
            return Err(e);
        },
    }
    let mut i: usize = 0;
    while i < rule.actions.len()
        invariant
            i <= rule.actions@.len(),
            condition_issue(rule.condition) is None,
            forall|k: int| 0 <= k < i ==> !blank(#[trigger] rule.actions@[k].action@),
        decreases rule.actions@.len() - i,
    {
        if is_blank(rule.actions[i].action.as_str()) {
            return Err(RuleError::InvalidAction(String::from_str("action identifier must not be empty")));
        }
        i = i + 1;
    }
    Ok(())
}


/// Numeric conditions read their own field of the target and nothing else: a
/// `Width` condition the width, a `Height` condition the height (never the
/// other dimension), a `Size` condition the size; an unknown dimension passes
/// no comparison. Each compares as its operator says, the target's value on
/// the left.
pub proof fn law_dimension_conditions_read_their_own_field(
    op: ComparisonOp,
    value: u32,
    size_value: u64,
    t: RuleTarget,
    globs: Seq<(Seq<char>, bool)>,
)
    ensures
        eval_spec(Condition::Height { op, value }, t, globs) == match t.height {
            None => false,
            Some(h) => match op {
                ComparisonOp::Lt => h < value,
                ComparisonOp::Lte => h <= value,
                ComparisonOp::Gt => h > value,
                ComparisonOp::Gte => h >= value,
                ComparisonOp::Eq => h == value,
            },
        },
        eval_spec(Condition::Width { op, value }, t, globs) == match t.width {
            None => false,
            Some(w) => match op {
                ComparisonOp::Lt => w < value,
                ComparisonOp::Lte => w <= value,
                ComparisonOp::Gt => w > value,
                ComparisonOp::Gte => w >= value,
                ComparisonOp::Eq => w == value,
            },
        },
        eval_spec(Condition::Size { op, value: size_value }, t, globs) == match op {
            ComparisonOp::Lt => t.size < size_value,
            ComparisonOp::Lte => t.size <= size_value,
            ComparisonOp::Gt => t.size > size_value,
            ComparisonOp::Gte => t.size >= size_value,
            ComparisonOp::Eq => t.size == size_value,
        },
{
}

/// Two targets with the same height give a `Height` condition the same
/// outcome, whatever their widths and other fields; likewise for `Width` and
/// the width.
pub proof fn law_dimension_outcome_depends_on_that_dimension(
    op: ComparisonOp,
    value: u32,
    t1: RuleTarget,
    t2: RuleTarget,
    g1: Seq<(Seq<char>, bool)>,
    g2: Seq<(Seq<char>, bool)>,
)
    ensures
        t1.height == t2.height ==> eval_spec(Condition::Height { op, value }, t1, g1) == eval_spec(
            Condition::Height { op, value },
            t2,
            g2,
        ),
        t1.width == t2.width ==> eval_spec(Condition::Width { op, value }, t1, g1) == eval_spec(
            Condition::Width { op, value },
            t2,
            g2,
        ),
{
}


/// What the other conditions test: `Not` negates; `All` holds when every
/// nested condition holds (so an empty `All` holds) and `Any` when one does
/// (so an empty `Any` does not); a substring path condition holds when the
/// value occurs in the path; an extension condition compares the extension
/// without regard to ASCII case and fails without one; a kind condition
/// compares the kind; a tag condition holds when some tag name equals the
/// value exactly.
pub proof fn law_condition_meanings(c: Condition, t: RuleTarget, globs: Seq<(Seq<char>, bool)>, value: String, kind: ContentKind)
    ensures
        eval_spec(Condition::Not { condition: Box::new(c) }, t, globs) == !eval_spec(c, t, globs),
        eval_spec(Condition::Path { match_kind: PathMatch::Substring, value }, t, globs) == contains_seq(t.path@, value@),
        eval_spec(Condition::Extension { value }, t, globs) == match t.extension {
            None => false,
            Some(e) => ascii_lower_seq(e@) == ascii_lower_seq(value@),
        },
        eval_spec(Condition::Kind { value: kind }, t, globs) == (t.kind == kind),
        eval_spec(Condition::Tag { name: value }, t, globs) == exists|i: int|
            0 <= i < t.tag_names@.len() && #[trigger] t.tag_names@[i]@ == value@,
        c matches Condition::All { conditions } ==> (eval_spec(c, t, globs) == forall|i: int|
            0 <= i < conditions@.len() ==> eval_spec(#[trigger] conditions@[i], t, globs)),
        c matches Condition::Any { conditions } ==> (eval_spec(c, t, globs) == exists|i: int|
            0 <= i < conditions@.len() && eval_spec(#[trigger] conditions@[i], t, globs)),
{
}

/// Two extensions that differ only in ASCII case satisfy the same extension
/// conditions.
pub proof fn law_extension_ignores_ascii_case(value: String, t1: RuleTarget, t2: RuleTarget, g1: Seq<(Seq<char>, bool)>, g2: Seq<(Seq<char>, bool)>)
    requires
        t1.extension matches Some(a) && t2.extension matches Some(b) && ascii_lower_seq(a@) == ascii_lower_seq(b@),
    ensures
        eval_spec(Condition::Extension { value }, t1, g1) == eval_spec(Condition::Extension { value }, t2, g2),
{
}


proof fn lemma_group_issue_none(cs: Seq<Condition>, k: int, j: int)
    requires
        0 <= j < k <= cs.len(),
        group_issue(cs, k) is None,
    ensures
        condition_issue(cs[j]) is None,
    decreases k,
{
    if j < k - 1 {
        lemma_group_issue_none(cs, k - 1, j);
    }
}

/// What validation refuses: a rule with a blank action identifier, an empty
/// `All` or `Any` group, an uncompilable glob pattern, or a blank extension or
/// tag; and a valid condition has only valid nested conditions, so no empty
/// group or bad pattern hides anywhere in a valid rule.
pub proof fn law_validation_refuses_malformed_rules(rule: Rule, c: Condition, value: String, group: Vec<Condition>)
    ensures
        (exists|i: int| 0 <= i < rule.actions@.len() && blank(#[trigger] rule.actions@[i].action@)) ==> rule_issue(rule)
            is Some,
        condition_issue(rule.condition) is Some ==> rule_issue(rule) is Some,
        group@.len() == 0 ==> condition_issue(Condition::All { conditions: group }) is Some,
        group@.len() == 0 ==> condition_issue(Condition::Any { conditions: group }) is Some,
        !glob_parses(value@) ==> condition_issue(Condition::Path { match_kind: PathMatch::Glob, value }) is Some,
        blank(value@) ==> condition_issue(Condition::Extension { value }) is Some,
        blank(value@) ==> condition_issue(Condition::Tag { name: value }) is Some,
        condition_issue(c) is None ==> match c {
            Condition::All { conditions } => conditions@.len() > 0 && forall|i: int|
                0 <= i < conditions@.len() ==> condition_issue(#[trigger] conditions@[i]) is None,
            Condition::Any { conditions } => conditions@.len() > 0 && forall|i: int|
                0 <= i < conditions@.len() ==> condition_issue(#[trigger] conditions@[i]) is None,
            Condition::Not { condition } => condition_issue(*condition) is None,
            _ => true,
        },
{
    if condition_issue(c) is None {
        match c {
            Condition::All { conditions } => {
                assert forall|i: int| 0 <= i < conditions@.len() implies condition_issue(#[trigger] conditions@[i]) is None by {
                    lemma_group_issue_none(conditions@, conditions@.len() as int, i);
                }
            },
            Condition::Any { conditions } => {
                assert forall|i: int| 0 <= i < conditions@.len() implies condition_issue(#[trigger] conditions@[i]) is None by {
                    lemma_group_issue_none(conditions@, conditions@.len() as int, i);
                }
            },
            _ => {},
        }
    }
}

} // verus!
