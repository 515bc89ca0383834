//! Matching a tag in search, optionally through folders: a file inherits a
//! tag when the nearest of its ancestors (or itself) that decides about the
//! tag applies it directly.

use vstd::prelude::*;
use crate::text::str_eq;

verus! {

/// A link of a tag to a metadata row, and how it was applied.
#[derive(Clone, Debug)]
pub struct TagLink {
    pub user_metadata_id: i32,
    pub inheritance_source: String,
}

/// A row of the closure of entries: `descendant_id` lies `depth` levels under
/// `ancestor_id` (0 for the entry itself).
#[derive(Clone, Copy, Debug, PartialEq, Eq, Structural)]
pub struct ClosureRow {
    pub ancestor_id: i32,
    pub descendant_id: i32,
    pub depth: i32,
}

/// The metadata ids of the first `k` links that apply the tag directly
/// (anything but an override counts as direct), in order.
pub open spec fn direct_links(links: Seq<TagLink>, k: int) -> Seq<i32>
    decreases k,
{
    if k <= 0 {
        Seq::empty()
    } else if links[k - 1].inheritance_source@ != "overridden"@ {
        direct_links(links, k - 1).push(links[k - 1].user_metadata_id)
    } else {
        direct_links(links, k - 1)
    }
}

/// The metadata ids of the first `k` links that override the tag, in order.
pub open spec fn override_links(links: Seq<TagLink>, k: int) -> Seq<i32>
    decreases k,
{
    if k <= 0 {
        Seq::empty()
    } else if links[k - 1].inheritance_source@ == "overridden"@ {
        override_links(links, k - 1).push(links[k - 1].user_metadata_id)
    } else {
        override_links(links, k - 1)
    }
}

/// The metadata ids of the links, split into direct applications and
/// overrides.
pub fn split_links(links: &Vec<TagLink>) -> (r: (Vec<i32>, Vec<i32>))
    ensures
        r.0@ == direct_links(links@, links@.len() as int),
        r.1@ == override_links(links@, links@.len() as int),
{
    proof {
        reveal_strlit("overridden");
    }
    let mut direct: Vec<i32> = Vec::new();
    let mut overrides: Vec<i32> = Vec::new();
    let mut i: usize = 0;
    while i < links.len()
        invariant
            i <= links@.len(),
            direct@ == direct_links(links@, i as int),
            overrides@ == override_links(links@, i as int),
        decreases links@.len() - i,
    {
        if str_eq(links[i].inheritance_source.as_str(), "overridden") {
            overrides.push(links[i].user_metadata_id);
        } else {
            direct.push(links[i].user_metadata_id);
        }
        i = i + 1;
    }
    (direct, overrides)
}

/// The decision an entry carries about the tag: applied directly (a direct
/// application wins over an override on the same entry), overridden, or none.
pub open spec fn decision_of(direct: Seq<i32>, overrides: Seq<i32>, id: i32) -> Option<bool> {
    if direct.contains(id) {
        Some(true)
    } else if overrides.contains(id) {
        Some(false)
    } else {
        None
    }
}

/// Row `r` joins a deciding ancestor to its descendant.
pub open spec fn deciding_row(direct: Seq<i32>, overrides: Seq<i32>, r: ClosureRow) -> bool {
    decision_of(direct, overrides, r.ancestor_id) is Some
}

/// The entry `d` inherits the tag: some row joins it to a directly tagging
/// ancestor no deciding ancestor is nearer than.
pub open spec fn inherits(direct: Seq<i32>, overrides: Seq<i32>, closure: Seq<ClosureRow>, d: i32) -> bool {
    exists|i: int|
        0 <= i < closure.len() && closure[i].descendant_id == d && #[trigger] decision_of(
            direct,
            overrides,
            closure[i].ancestor_id,
        ) == Some(true) && forall|j: int|
            0 <= j < closure.len() && closure[j].descendant_id == d && #[trigger] deciding_row(
                direct,
                overrides,
                closure[j],
            ) ==> closure[j].depth >= closure[i].depth
}

proof fn lemma_push_new(s: Seq<i32>, v: i32)
    requires
        s.no_duplicates(),
        !s.contains(v),
    ensures
        s.push(v).no_duplicates(),
        forall|x: i32| #[trigger] s.push(v).contains(x) <==> (s.contains(x) || x == v),
{
    assert forall|x: i32| #[trigger] s.push(v).contains(x) <==> (s.contains(x) || x == v) by {
        if s.contains(x) {
            let q = choose|q: int| 0 <= q < s.len() && s[q] == x;
            assert(s.push(v)[q] == x);
        }
        if x == v {
            assert(s.push(v)[s.len() as int] == v);
        }
        if s.push(v).contains(x) {
            let q = choose|q: int| 0 <= q < s.push(v).len() && s.push(v)[q] == x;
            if q < s.len() {
                assert(s[q] == x);
            }
        }
    }
    assert forall|a: int, b: int| 0 <= a < s.push(v).len() && 0 <= b < s.push(v).len() && a != b implies s.push(v)[a]
        != s.push(v)[b] by {
        if a < s.len() && b < s.len() {
        } else if a < s.len() {
            assert(s.contains(s[a]));
        } else if b < s.len() {
            assert(s.contains(s[b]));
        }
    }
}

fn contains_id(v: &Vec<i32>, id: i32) -> (b: bool)
    ensures
        b == v@.contains(id),
{
    let mut k: usize = 0;
    while k < v.len()
        invariant
            k <= v@.len(),
            forall|j: int| 0 <= j < k ==> v@[j] != id,
        decreases v@.len() - k,
    {
        if v[k] == id {
            return true;
        }
        k = k + 1;
    }
    false
}

/// The entries a tag matches through folders: those it is applied to
/// directly, and the descendants whose nearest deciding ancestor applies it
/// directly (a tie in depth goes to the direct application). Each appears
/// once.
pub fn inherited_matches(direct: &Vec<i32>, overrides: &Vec<i32>, closure: &Vec<ClosureRow>) -> (r: Vec<i32>)
    ensures
        forall|x: i32| #[trigger] r@.contains(x) <==> direct@.contains(x) || inherits(direct@, overrides@, closure@, x),
        r@.no_duplicates(),
{
    let mut out: Vec<i32> = Vec::new();
    let mut i: usize = 0;
    while i < direct.len()
        invariant
            i <= direct@.len(),
            out@.no_duplicates(),
            forall|x: i32| #[trigger] out@.contains(x) <==> exists|k: int| 0 <= k < i && direct@[k] == x,
        decreases direct@.len() - i,
    {
        let id = direct[i];
        let ghost before = out@;
        if !contains_id(&out, id) {
            proof {
                lemma_push_new(before, id);
            }
            out.push(id);
        }
        proof {
            assert forall|x: i32| #[trigger] out@.contains(x) <==> exists|k: int| 0 <= k < i + 1 && direct@[k] == x by {
                if x == id {
                    assert(direct@[i as int] == x);
                }
            }
        }
        i = i + 1;
    }
    assert forall|x: i32| #[trigger] out@.contains(x) <==> direct@.contains(x) by {
        if direct@.contains(x) {
            let k = choose|k: int| 0 <= k < direct@.len() && direct@[k] == x;
            assert(exists|k2: int| 0 <= k2 < direct@.len() && direct@[k2] == x);
        }
    }
    let n = closure.len();
    let mut r: usize = 0;
    while r < n
        invariant
            n == closure@.len(),
            r <= n,
            out@.no_duplicates(),
            forall|x: i32| #[trigger] out@.contains(x) <==> direct@.contains(x) || exists|i: int|
                0 <= i < r && closure@[i].descendant_id == x && #[trigger] decision_of(
                    direct@,
                    overrides@,
                    closure@[i].ancestor_id,
                ) == Some(true) && forall|j: int|
                    0 <= j < closure@.len() && closure@[j].descendant_id == x && #[trigger] deciding_row(
                        direct@,
                        overrides@,
                        closure@[j],
                    ) ==> closure@[j].depth >= closure@[i].depth,
        decreases n - r,
    {
        let row = closure[r];
        let is_direct = contains_id(direct, row.ancestor_id);
        let mut nearest = true;
        if is_direct {
            let mut j: usize = 0;
            while j < n
                invariant
                    n == closure@.len(),
                    j <= n,
                    r < n,
                    row == closure@[r as int],
                    nearest <==> forall|q: int|
                        0 <= q < j && closure@[q].descendant_id == row.descendant_id && #[trigger] deciding_row(
                            direct@,
                            overrides@,
                            closure@[q],
                        ) ==> closure@[q].depth >= row.depth,
                decreases n - j,
            {
                let other = closure[j];
                if other.descendant_id == row.descendant_id && other.depth < row.depth {
                    let decides = contains_id(direct, other.ancestor_id) || contains_id(overrides, other.ancestor_id);
                    if decides {
                        nearest = false;
                    }
                }
                proof {
                    assert(deciding_row(direct@, overrides@, other) == (direct@.contains(other.ancestor_id)
                        || overrides@.contains(other.ancestor_id)));
                }
                j = j + 1;
            }
        }
        let ghost before = out@;
        if is_direct && nearest && !contains_id(&out, row.descendant_id) {
            proof {
                lemma_push_new(before, row.descendant_id);
            }
            out.push(row.descendant_id);
        }
        proof {
            assert(decision_of(direct@, overrides@, row.ancestor_id) == Some(true) <==> is_direct);
            assert forall|x: i32| #[trigger] out@.contains(x) <==> direct@.contains(x) || exists|i: int|
                0 <= i < r + 1 && closure@[i].descendant_id == x && #[trigger] decision_of(
                    direct@,
                    overrides@,
                    closure@[i].ancestor_id,
                ) == Some(true) && forall|j: int|
                    0 <= j < closure@.len() && closure@[j].descendant_id == x && #[trigger] deciding_row(
                        direct@,
                        overrides@,
                        closure@[j],
                    ) ==> closure@[j].depth >= closure@[i].depth by {
                if x == row.descendant_id && is_direct && nearest {
                    assert(0 <= r < r + 1 && closure@[r as int].descendant_id == x);
                    assert(decision_of(direct@, overrides@, closure@[r as int].ancestor_id) == Some(true));
                }
                if exists|i: int|
                    0 <= i < r + 1 && closure@[i].descendant_id == x && #[trigger] decision_of(
                        direct@,
                        overrides@,
                        closure@[i].ancestor_id,
                    ) == Some(true) && forall|j: int|
                        0 <= j < closure@.len() && closure@[j].descendant_id == x && #[trigger] deciding_row(
                            direct@,
                            overrides@,
                            closure@[j],
                        ) ==> closure@[j].depth >= closure@[i].depth {
                    let i = choose|i: int|
                        0 <= i < r + 1 && closure@[i].descendant_id == x && #[trigger] decision_of(
                            direct@,
                            overrides@,
                            closure@[i].ancestor_id,
                        ) == Some(true) && forall|j: int|
                            0 <= j < closure@.len() && closure@[j].descendant_id == x && #[trigger] deciding_row(
                                direct@,
                                overrides@,
                                closure@[j],
                            ) ==> closure@[j].depth >= closure@[i].depth;
                    if i == r {
                        assert(is_direct);
                        assert(nearest);
                    }
                }
            }
        }
        r = r + 1;
    }
    out
}


/// Inheritance follows the nearest decision: an entry whose nearest deciding
/// ancestor (or itself) applies the tag directly inherits it; an entry with an
/// override strictly nearer than every direct application does not.
pub proof fn law_nearest_decision_wins(direct: Seq<i32>, overrides: Seq<i32>, closure: Seq<ClosureRow>, d: i32, i: int)
    requires
        0 <= i < closure.len(),
        closure[i].descendant_id == d,
    ensures
        direct.contains(closure[i].ancestor_id) && (forall|j: int|
            0 <= j < closure.len() && closure[j].descendant_id == d && (direct.contains(closure[j].ancestor_id)
                || overrides.contains(closure[j].ancestor_id)) ==> #[trigger] closure[j].depth >= closure[i].depth)
            ==> inherits(direct, overrides, closure, d),
        !direct.contains(closure[i].ancestor_id) && overrides.contains(closure[i].ancestor_id) && (forall|j: int|
            0 <= j < closure.len() && closure[j].descendant_id == d && direct.contains(closure[j].ancestor_id)
                ==> #[trigger] closure[j].depth > closure[i].depth) ==> !inherits(direct, overrides, closure, d),
{
    if direct.contains(closure[i].ancestor_id) && (forall|j: int|
        0 <= j < closure.len() && closure[j].descendant_id == d && (direct.contains(closure[j].ancestor_id)
            || overrides.contains(closure[j].ancestor_id)) ==> #[trigger] closure[j].depth >= closure[i].depth) {
        assert(decision_of(direct, overrides, closure[i].ancestor_id) == Some(true));
        assert forall|j: int|
            0 <= j < closure.len() && closure[j].descendant_id == d && #[trigger] deciding_row(direct, overrides, closure[j])
                implies closure[j].depth >= closure[i].depth by {
            assert(direct.contains(closure[j].ancestor_id) || overrides.contains(closure[j].ancestor_id));
        }
    }
    if !direct.contains(closure[i].ancestor_id) && overrides.contains(closure[i].ancestor_id) && (forall|j: int|
        0 <= j < closure.len() && closure[j].descendant_id == d && direct.contains(closure[j].ancestor_id)
            ==> #[trigger] closure[j].depth > closure[i].depth) {
        if inherits(direct, overrides, closure, d) {
            let k = choose|k: int|
                0 <= k < closure.len() && closure[k].descendant_id == d && #[trigger] decision_of(
                    direct,
                    overrides,
                    closure[k].ancestor_id,
                ) == Some(true) && forall|j: int|
                    0 <= j < closure.len() && closure[j].descendant_id == d && #[trigger] deciding_row(
                        direct,
                        overrides,
                        closure[j],
                    ) ==> closure[j].depth >= closure[k].depth;
            assert(deciding_row(direct, overrides, closure[i]));
            assert(direct.contains(closure[k].ancestor_id));
            assert(closure[k].depth > closure[i].depth);
        }
    }
}

} // verus!
