//! Physical roots of a commit plan: roots of one action compacted so that no
//! subtree is scheduled twice, and move roots grouped by destination.

use vstd::prelude::*;
use crate::addressing::SdPath;
use crate::organize::commit::{OrganizeMoveGroup, OrganizePlanRoot};
use crate::organize::plan::{PlannedRoot, join_windows_path, join_windows_path_spec, plan_key, plan_key_spec};

verus! {

/// Whether root `a`'s interval holds root `b`'s.
pub open spec fn holds(a: PlannedRoot, b: PlannedRoot) -> bool {
    a.tree_start <= b.tree_start && b.tree_end <= a.tree_end
}

/// Whether root `k` lies inside a root that comes before it in the order
/// (start, longest first, id, position): for one interval, the root with the
/// smaller id (or, for one id, the earlier one) is the one that stays.
pub open spec fn same_shadowed(rs: Seq<PlannedRoot>, k: int) -> bool {
    exists|j: int|
        0 <= j < rs.len() && j != k && #[trigger] holds(rs[j], rs[k]) && (rs[j].tree_start != rs[k].tree_start
            || rs[j].tree_end != rs[k].tree_end || rs[j].item_id < rs[k].item_id || (rs[j].item_id
            == rs[k].item_id && j < k))
}

/// What compacting roots of one action gives: the roots that lie inside no
/// root before them, by interval start.
pub open spec fn same_compacted_is(out: Seq<PlannedRoot>, rs: Seq<PlannedRoot>) -> bool {
    &&& forall|x: PlannedRoot| #[trigger] out.contains(x) <==> exists|k: int|
        0 <= k < rs.len() && rs[k] == x && !#[trigger] same_shadowed(rs, k)
    &&& forall|a: int, b: int| 0 <= a < b < out.len() ==> out[a].tree_start < out[b].tree_start
}

/// The units of the first `k` roots that lie inside no root before them.
pub open spec fn kept_units_of(rs: Seq<PlannedRoot>, k: int) -> nat
    decreases k,
{
    if k <= 0 {
        0
    } else {
        kept_units_of(rs, k - 1) + if !same_shadowed(rs, k - 1) {
            rs[k - 1].units as nat
        } else {
            0nat
        }
    }
}

/// The bytes of the first `k` roots that lie inside no root before them.
pub open spec fn kept_bytes_of(rs: Seq<PlannedRoot>, k: int) -> nat
    decreases k,
{
    if k <= 0 {
        0
    } else {
        kept_bytes_of(rs, k - 1) + if !same_shadowed(rs, k - 1) {
            rs[k - 1].bytes as nat
        } else {
            0nat
        }
    }
}

/// A copy of a decision root.
pub fn copy_planned(r: &PlannedRoot) -> (c: PlannedRoot)
    ensures
        c == *r,
{
    PlannedRoot {
        item_id: r.item_id,
        relative_path: r.relative_path.clone(),
        tree_start: r.tree_start,
        tree_end: r.tree_end,
        units: r.units,
        bytes: r.bytes,
        decision: r.decision.duplicate(),
        operation_state: r.operation_state,
        destination: match &r.destination {
            Some(d) => Some(d.clone()),
            None => None,
        },
    }
}

/// Whether root `k` lies inside a root before it.
fn is_same_shadowed(rs: &Vec<PlannedRoot>, k: usize) -> (b: bool)
    requires
        k < rs@.len(),
    ensures
        b == same_shadowed(rs@, k as int),
{
    let ghost s = rs@;
    let e = &rs[k];
    let mut j: usize = 0;
    while j < rs.len()
        invariant
            j <= s.len(),
            s == rs@,
            k < s.len(),
            *e == s[k as int],
            forall|q: int|
                0 <= q < j ==> !(q != k && #[trigger] holds(s[q], s[k as int]) && (s[q].tree_start
                    != s[k as int].tree_start || s[q].tree_end != s[k as int].tree_end || s[q].item_id
                    < s[k as int].item_id || (s[q].item_id == s[k as int].item_id && q < k))),
        decreases s.len() - j,
    {
        let f = &rs[j];
        if j != k && f.tree_start <= e.tree_start && e.tree_end <= f.tree_end && (f.tree_start
            != e.tree_start || f.tree_end != e.tree_end || f.item_id < e.item_id || (f.item_id == e.item_id
            && j < k)) {
            assert(holds(s[j as int], s[k as int]));
            return true;
        }
        j = j + 1;
    }
    false
}

/// Insert `e` into `v`, kept sorted by interval start.
fn insert_by_start(v: &mut Vec<PlannedRoot>, e: PlannedRoot)
    requires
        forall|a: int, b: int| 0 <= a < b < old(v)@.len() ==> old(v)@[a].tree_start < old(v)@[b].tree_start,
        forall|a: int| 0 <= a < old(v)@.len() ==> old(v)@[a].tree_start != e.tree_start,
    ensures
        forall|a: int, b: int| 0 <= a < b < final(v)@.len() ==> final(v)@[a].tree_start < final(v)@[b].tree_start,
        forall|x: PlannedRoot| #[trigger] final(v)@.contains(x) <==> (old(v)@.contains(x) || x == e),
{
    let mut pos: usize = 0;
    while pos < v.len() && v[pos].tree_start < e.tree_start
        invariant
            pos <= v@.len(),
            v@ == old(v)@,
            forall|a: int| 0 <= a < pos ==> v@[a].tree_start < e.tree_start,
        decreases v@.len() - pos,
    {
        pos = pos + 1;
    }
    let ghost before = v@;
    v.insert(pos, e);
    proof {
        assert forall|a: int, b: int| 0 <= a < b < v@.len() implies v@[a].tree_start < v@[b].tree_start by {
            if b < pos {
            } else if b == pos {
                assert(v@[a] == before[a]);
            } else if a < pos {
                assert(v@[a] == before[a]);
                assert(v@[b] == before[b - 1]);
            } else if a == pos {
                assert(v@[b] == before[b - 1]);
                if b - 1 > pos {
                    assert(before[pos as int].tree_start < before[b - 1].tree_start);
                }
            } else {
                assert(v@[a] == before[a - 1] && v@[b] == before[b - 1]);
            }
        }
        assert forall|x: PlannedRoot| #[trigger] v@.contains(x) <==> (before.contains(x) || x == e) by {
            if v@.contains(x) {
                let k = choose|k: int| 0 <= k < v@.len() && v@[k] == x;
                if k < pos {
                    assert(before[k] == x);
                } else if k > pos {
                    assert(before[k - 1] == x);
                }
            }
            if before.contains(x) {
                let k = choose|k: int| 0 <= k < before.len() && before[k] == x;
                if k < pos {
                    assert(v@[k] == x);
                } else {
                    assert(v@[k + 1] == x);
                }
            }
            if x == e {
                assert(v@[pos as int] == e);
            }
        }
    }
}

/// Roots of one action with every root that lies inside another dropped, so
/// that no subtree is scheduled twice; the rest by interval start.
pub fn compact_same_action(roots: &Vec<PlannedRoot>) -> (r: Vec<PlannedRoot>)
    ensures
        same_compacted_is(r@, roots@),
{
    let ghost s = roots@;
    let n = roots.len();
    let mut kept: Vec<PlannedRoot> = Vec::new();
    let mut k: usize = 0;
    while k < n
        invariant
            k <= n,
            n == s.len(),
            s == roots@,
            forall|a: int, b: int| 0 <= a < b < kept@.len() ==> kept@[a].tree_start < kept@[b].tree_start,
            forall|x: PlannedRoot| #[trigger] kept@.contains(x) <==> exists|q: int|
                0 <= q < k && s[q] == x && !#[trigger] same_shadowed(s, q),
        decreases n - k,
    {
        let inside = is_same_shadowed(roots, k);
        let ghost before = kept@;
        if !inside {
            let e = &roots[k];
            proof {
                assert forall|a: int| 0 <= a < kept@.len() implies kept@[a].tree_start != e.tree_start by {
                    assert(kept@.contains(kept@[a]));
                    let q = choose|q: int| 0 <= q < k && s[q] == kept@[a] && !#[trigger] same_shadowed(s, q);
                    if s[q].tree_start == e.tree_start {
                        if s[q].tree_end < e.tree_end || (s[q].tree_end == e.tree_end && (s[q].item_id
                            > e.item_id)) {
                            assert(holds(s[k as int], s[q]));
                            assert(same_shadowed(s, q));
                        } else {
                            assert(holds(s[q], s[k as int]));
                            assert(same_shadowed(s, k as int));
                        }
                    }
                }
            }
            insert_by_start(&mut kept, copy_planned(e));
        }
        proof {
            assert forall|x: PlannedRoot| #[trigger] kept@.contains(x) <==> exists|q: int|
                0 <= q < k + 1 && s[q] == x && !#[trigger] same_shadowed(s, q) by {
                if kept@.contains(x) && !before.contains(x) {
                    assert(s[k as int] == x && !same_shadowed(s, k as int));
                }
                if exists|q: int| 0 <= q < k + 1 && s[q] == x && !#[trigger] same_shadowed(s, q) {
                    let q = choose|q: int| 0 <= q < k + 1 && s[q] == x && !#[trigger] same_shadowed(s, q);
                    if q < k {
                        assert(before.contains(x));
                    }
                }
            }
        }
        k = k + 1;
    }
    kept
}

proof fn lemma_kept_units_mono(rs: Seq<PlannedRoot>, a: int, b: int)
    requires
        0 <= a <= b,
    ensures
        kept_units_of(rs, a) <= kept_units_of(rs, b),
        kept_bytes_of(rs, a) <= kept_bytes_of(rs, b),
    decreases b - a,
{
    if a < b {
        lemma_kept_units_mono(rs, a, b - 1);
    }
}

/// The units and bytes of the roots that compaction keeps.
pub fn kept_totals(roots: &Vec<PlannedRoot>) -> (r: (u64, u64))
    requires
        kept_units_of(roots@, roots@.len() as int) <= u64::MAX,
        kept_bytes_of(roots@, roots@.len() as int) <= u64::MAX,
    ensures
        r.0 == kept_units_of(roots@, roots@.len() as int),
        r.1 == kept_bytes_of(roots@, roots@.len() as int),
{
    let ghost s = roots@;
    let mut units: u64 = 0;
    let mut bytes: u64 = 0;
    let mut k: usize = 0;
    while k < roots.len()
        invariant
            k <= s.len(),
            s == roots@,
            kept_units_of(s, s.len() as int) <= u64::MAX,
            kept_bytes_of(s, s.len() as int) <= u64::MAX,
            units == kept_units_of(s, k as int),
            bytes == kept_bytes_of(s, k as int),
        decreases s.len() - k,
    {
        proof {
            lemma_kept_units_mono(s, k + 1, s.len() as int);
        }
        if !is_same_shadowed(roots, k) {
            units = units + roots[k].units;
            bytes = bytes + roots[k].bytes;
        }
        k = k + 1;
    }
    (units, bytes)
}

} // verus!

verus! {

/// Lexicographic order of keys from position `i` on, by character.
pub open spec fn key_less_from(a: Seq<char>, b: Seq<char>, i: int) -> bool
    decreases a.len() - i,
{
    if i < 0 || i >= a.len() {
        0 <= i < b.len()
    } else if i >= b.len() {
        false
    } else if a[i] != b[i] {
        a[i] < b[i]
    } else {
        key_less_from(a, b, i + 1)
    }
}

/// Lexicographic order of keys, by character (the order of their UTF-8 bytes).
pub open spec fn key_less(a: Seq<char>, b: Seq<char>) -> bool {
    key_less_from(a, b, 0)
}

pub(crate) proof fn lemma_key_less_total(a: Seq<char>, b: Seq<char>, i: int)
    requires
        0 <= i <= a.len(),
        i <= b.len(),
        a.take(i) == b.take(i),
        a != b,
        !key_less_from(a, b, i),
    ensures
        key_less_from(b, a, i),
    decreases a.len() - i,
{
    if i == a.len() {
        if i == b.len() {
            assert(a =~= a.take(i));
            assert(b =~= b.take(i));
        }
    } else if i == b.len() {
    } else if a[i] != b[i] {
    } else {
        assert(a.take(i + 1) =~= a.take(i).push(a[i]));
        assert(b.take(i + 1) =~= b.take(i).push(b[i]));
        lemma_key_less_total(a, b, i + 1);
    }
}

/// Whether `a` comes before `b` by character.
pub fn chars_less(a: &[char], b: &[char]) -> (r: bool)
    ensures
        r == key_less(a@, b@),
{
    let mut i: usize = 0;
    while i < a.len() && i < b.len() && a[i] == b[i]
        invariant
            i <= a@.len(),
            i <= b@.len(),
            key_less(a@, b@) == key_less_from(a@, b@, i as int),
        decreases a@.len() - i,
    {
        i = i + 1;
    }
    if i == a.len() {
        i < b.len()
    } else if i == b.len() {
        false
    } else {
        a[i] < b[i]
    }
}

/// The key of a move root's destination.
pub open spec fn dest_key(r: PlannedRoot) -> Seq<char> {
    plan_key_spec(r.destination->Some_0@)
}

/// The move roots among `rs` whose destination has key `key`, in order.
pub open spec fn moves_with_key(rs: Seq<PlannedRoot>, key: Seq<char>) -> Seq<PlannedRoot>
    decreases rs.len(),
{
    if rs.len() == 0 {
        Seq::<PlannedRoot>::empty()
    } else {
        let prev = moves_with_key(rs.drop_last(), key);
        if rs.last().decision is Move && dest_key(rs.last()) == key {
            prev.push(rs.last())
        } else {
            prev
        }
    }
}

/// Every move root carries its destination.
pub open spec fn moves_have_destination(rs: Seq<PlannedRoot>) -> bool {
    forall|i: int| 0 <= i < rs.len() && #[trigger] rs[i].decision is Move ==> rs[i].destination is Some
}

proof fn lemma_moves_with_key_nonempty(rs: Seq<PlannedRoot>, i: int)
    requires
        0 <= i < rs.len(),
        rs[i].decision is Move,
    ensures
        moves_with_key(rs, dest_key(rs[i])).len() > 0,
    decreases rs.len(),
{
    if i < rs.len() - 1 {
        assert(rs.drop_last()[i] == rs[i]);
        lemma_moves_with_key_nonempty(rs.drop_last(), i);
    }
}

proof fn lemma_moves_with_key_first(rs: Seq<PlannedRoot>, key: Seq<char>, n: int)
    requires
        0 <= n <= rs.len(),
        moves_with_key(rs.take(n), key).len() > 0,
    ensures
        moves_with_key(rs, key).len() > 0,
        moves_with_key(rs, key)[0] == moves_with_key(rs.take(n), key)[0],
    decreases rs.len() - n,
{
    if n < rs.len() {
        assert(rs.take(n + 1).drop_last() =~= rs.take(n));
        lemma_moves_with_key_first(rs, key, n + 1);
    } else {
        assert(rs.take(n) =~= rs);
    }
}

/// Sorted by key, without a key twice.
pub open spec fn keys_ordered(keys: Seq<Vec<char>>) -> bool {
    &&& forall|t: int| 0 <= t < keys.len() - 1 ==> key_less(#[trigger] keys[t]@, keys[t + 1]@)
    &&& forall|a: int, b: int| 0 <= a < keys.len() && 0 <= b < keys.len() && a != b ==> #[trigger] keys[a]@ != #[trigger] keys[b]@
}

proof fn lemma_insert_ordered(old_keys: Seq<Vec<char>>, keys: Seq<Vec<char>>, p: int, kv: Seq<char>)
    requires
        keys_ordered(old_keys),
        0 <= p <= old_keys.len(),
        keys.len() == old_keys.len() + 1,
        keys[p]@ == kv,
        forall|q: int| 0 <= q < p ==> #[trigger] keys[q] == old_keys[q],
        forall|q: int| p < q < keys.len() ==> #[trigger] keys[q] == old_keys[q - 1],
        p > 0 ==> key_less(old_keys[p - 1]@, kv),
        p < old_keys.len() ==> key_less(kv, old_keys[p]@),
        forall|q: int| 0 <= q < old_keys.len() ==> #[trigger] old_keys[q]@ != kv,
    ensures
        keys_ordered(keys),
{
    assert forall|q: int| 0 <= q < keys.len() - 1 implies key_less(#[trigger] keys[q]@, keys[q + 1]@) by {
        if q + 1 < p {
            assert(keys[q] == old_keys[q] && keys[q + 1] == old_keys[q + 1]);
        } else if q + 1 == p {
            assert(keys[q] == old_keys[q]);
        } else if q == p {
            assert(keys[q + 1] == old_keys[q]);
        } else {
            assert(keys[q] == old_keys[q - 1] && keys[q + 1] == old_keys[q]);
        }
    }
    assert forall|a: int, b: int| 0 <= a < keys.len() && 0 <= b < keys.len() && a != b implies #[trigger] keys[a]@ != #[trigger] keys[b]@ by {
        let oa = if a < p { a } else { a - 1 };
        let ob = if b < p { b } else { b - 1 };
        if a != p && b != p {
            assert(keys[a] == old_keys[oa] && keys[b] == old_keys[ob]);
        } else if a == p {
            assert(keys[b] == old_keys[ob]);
        } else {
            assert(keys[a] == old_keys[oa]);
        }
    }
}

/// Insert a key that is not there at the position that keeps the keys
/// ordered; that position is returned.
fn insert_key(keys: &mut Vec<Vec<char>>, dests: &mut Vec<String>, key: Vec<char>, d: &String) -> (p: usize)
    requires
        old(keys)@.len() == old(dests)@.len(),
        keys_ordered(old(keys)@),
        forall|q: int| 0 <= q < old(keys)@.len() ==> #[trigger] old(keys)@[q]@ != key@,
    ensures
        keys_ordered(final(keys)@),
        p <= old(keys)@.len(),
        final(keys)@.len() == old(keys)@.len() + 1,
        final(keys)@[p as int] == key,
        forall|q: int| 0 <= q < p ==> #[trigger] final(keys)@[q] == old(keys)@[q],
        forall|q: int| p < q < final(keys)@.len() ==> #[trigger] final(keys)@[q] == old(keys)@[q - 1],
        final(dests)@.len() == final(keys)@.len(),
        final(dests)@[p as int]@ == d@,
        forall|q: int| 0 <= q < p ==> #[trigger] final(dests)@[q] == old(dests)@[q],
        forall|q: int| p < q < final(dests)@.len() ==> #[trigger] final(dests)@[q] == old(dests)@[q - 1],
{
    let ghost old_keys = keys@;
    let ghost old_dests = dests@;
    let mut p: usize = 0;
    while p < keys.len() && chars_less(keys[p].as_slice(), key.as_slice())
        invariant
            p <= keys@.len(),
            keys@ == old_keys,
            p > 0 ==> key_less(keys@[p - 1]@, key@),
        decreases keys@.len() - p,
    {
        p = p + 1;
    }
    proof {
        if p < keys@.len() {
            assert(keys@[p as int]@ != key@);
            assert(keys@[p as int]@.take(0) =~= key@.take(0));
            lemma_key_less_total(keys@[p as int]@, key@, 0);
        }
    }
    let ghost kv = key@;
    keys.insert(p, key);
    dests.insert(p, d.clone());
    proof {
        assert forall|q: int| 0 <= q < p implies #[trigger] keys@[q] == old_keys[q] by {}
        assert forall|q: int| p < q < keys@.len() implies #[trigger] keys@[q] == old_keys[q - 1] by {}
        lemma_insert_ordered(old_keys, keys@, p as int, kv);
    }
    p
}

/// Add `key` with destination `d` to the ordered keys, unless it is there;
/// whether it was added, and where it stands.
fn add_key(keys: &mut Vec<Vec<char>>, dests: &mut Vec<String>, key: Vec<char>, d: &String) -> (r: (bool, usize))
    requires
        old(keys)@.len() == old(dests)@.len(),
        keys_ordered(old(keys)@),
    ensures
        keys_ordered(final(keys)@),
        final(dests)@.len() == final(keys)@.len(),
        r.1 < final(keys)@.len(),
        final(keys)@[r.1 as int]@ == key@,
        !r.0 ==> final(keys)@ == old(keys)@ && final(dests)@ == old(dests)@,
        r.0 ==> final(keys)@.len() == old(keys)@.len() + 1 && final(dests)@[r.1 as int]@ == d@
            && (forall|q: int| 0 <= q < r.1 ==> #[trigger] final(keys)@[q] == old(keys)@[q])
            && (forall|q: int| r.1 < q < final(keys)@.len() ==> #[trigger] final(keys)@[q] == old(keys)@[q - 1])
            && (forall|q: int| 0 <= q < r.1 ==> #[trigger] final(dests)@[q] == old(dests)@[q])
            && (forall|q: int| r.1 < q < final(dests)@.len() ==> #[trigger] final(dests)@[q] == old(dests)@[q - 1])
            && forall|q: int| 0 <= q < old(keys)@.len() ==> #[trigger] old(keys)@[q]@ != key@,
{
    let mut found = false;
    let mut t: usize = 0;
    while t < keys.len() && !found
        invariant
            t <= keys@.len(),
            !found ==> forall|q: int| 0 <= q < t ==> #[trigger] keys@[q]@ != key@,
            found ==> t < keys@.len() && keys@[t as int]@ == key@,
        decreases keys@.len() - t + (if found { 0int } else { 1int }),
    {
        if crate::text::chars_eq(keys[t].as_slice(), key.as_slice()) {
            found = true;
        } else {
            t = t + 1;
        }
    }
    if found {
        return (false, t);
    }
    let ghost kv = key@;
    let p = insert_key(keys, dests, key, d);
    (true, p)
}

/// The distinct destination keys of the move roots, in key order, each with
/// the destination of the first root that has it.
fn destination_keys(rs: &Vec<PlannedRoot>) -> (r: (Vec<Vec<char>>, Vec<String>))
    requires
        moves_have_destination(rs@),
    ensures
        r.0@.len() == r.1@.len(),
        forall|t: int| 0 <= t < r.0@.len() ==> #[trigger] moves_with_key(rs@, r.0@[t]@).len() > 0 && r.1@[t]@
            == moves_with_key(rs@, r.0@[t]@)[0].destination->Some_0@,
        keys_ordered(r.0@),
        forall|i: int| 0 <= i < rs@.len() && #[trigger] rs@[i].decision is Move ==> exists|t: int|
            0 <= t < r.0@.len() && #[trigger] r.0@[t]@ == dest_key(rs@[i]),
{
    let ghost s = rs@;
    let mut keys: Vec<Vec<char>> = Vec::new();
    let mut dests: Vec<String> = Vec::new();
    let mut i: usize = 0;
    while i < rs.len()
        invariant
            i <= s.len(),
            s == rs@,
            moves_have_destination(s),
            keys@.len() == dests@.len(),
            forall|t: int| 0 <= t < keys@.len() ==> #[trigger] moves_with_key(s.take(i as int), keys@[t]@).len() > 0
                && dests@[t]@ == moves_with_key(s.take(i as int), keys@[t]@)[0].destination->Some_0@,
            keys_ordered(keys@),
            forall|j: int| 0 <= j < i && #[trigger] s[j].decision is Move ==> exists|t: int|
                0 <= t < keys@.len() && #[trigger] keys@[t]@ == dest_key(s[j]),
        decreases s.len() - i,
    {
        let r = &rs[i];
        let is_move = match &r.decision {
            crate::organize::model::DecisionValue::Move { .. } => true,
            _ => false,
        };
        let ghost old_keys = keys@;
        let ghost old_dests = dests@;
        if is_move {
            assert(s[i as int].decision is Move);
            match &r.destination {
                Some(d) => {
                    let key = plan_key(d.as_str());
                    let ghost kv = key@;
                    assert(kv == dest_key(s[i as int]));
                    let (added, p) = add_key(&mut keys, &mut dests, key, d);
                    assert(added ==> dests@[p as int]@ == s[i as int].destination->Some_0@);
                    proof {
                        lemma_keys_step(s, i as int, old_keys, old_dests, keys@, dests@, kv, added, p as int);
                    }
                },
                None => {},
            }
        } else {
            proof {
                assert forall|t: int| 0 <= t < keys@.len() implies #[trigger] moves_with_key(s.take(i + 1), keys@[t]@).len() > 0
                    && dests@[t]@ == moves_with_key(s.take(i + 1), keys@[t]@)[0].destination->Some_0@ by {
                    lemma_mwk_step(s, i as int, keys@[t]@);
                    assert(moves_with_key(s.take(i + 1), keys@[t]@) == moves_with_key(s.take(i as int), keys@[t]@));
                }
            }
        }
        i = i + 1;
    }
    proof {
        assert(s.take(s.len() as int) =~= s);
    }
    (keys, dests)
}

proof fn lemma_keys_step(
    s: Seq<PlannedRoot>,
    i: int,
    old_keys: Seq<Vec<char>>,
    old_dests: Seq<String>,
    keys: Seq<Vec<char>>,
    dests: Seq<String>,
    kv: Seq<char>,
    added: bool,
    p: int,
)
    requires
        0 <= i < s.len(),
        s[i].decision is Move,
        s[i].destination is Some,
        kv == dest_key(s[i]),
        forall|t: int| 0 <= t < old_keys.len() ==> #[trigger] moves_with_key(s.take(i), old_keys[t]@).len() > 0
            && old_dests[t]@ == moves_with_key(s.take(i), old_keys[t]@)[0].destination->Some_0@,
        forall|j: int| 0 <= j < i && #[trigger] s[j].decision is Move ==> exists|t: int|
            0 <= t < old_keys.len() && #[trigger] old_keys[t]@ == dest_key(s[j]),
        keys.len() == dests.len(),
        0 <= p < keys.len(),
        keys[p]@ == kv,
        !added ==> keys == old_keys && dests == old_dests,
        added ==> keys.len() == old_keys.len() + 1 && dests[p]@ == s[i].destination->Some_0@
            && (forall|q: int| 0 <= q < p ==> #[trigger] keys[q] == old_keys[q])
            && (forall|q: int| p < q < keys.len() ==> #[trigger] keys[q] == old_keys[q - 1])
            && (forall|q: int| 0 <= q < p ==> #[trigger] dests[q] == old_dests[q])
            && (forall|q: int| p < q < dests.len() ==> #[trigger] dests[q] == old_dests[q - 1])
            && forall|q: int| 0 <= q < old_keys.len() ==> #[trigger] old_keys[q]@ != kv,
    ensures
        forall|t: int| 0 <= t < keys.len() ==> #[trigger] moves_with_key(s.take(i + 1), keys[t]@).len() > 0
            && dests[t]@ == moves_with_key(s.take(i + 1), keys[t]@)[0].destination->Some_0@,
        forall|j: int| 0 <= j < i + 1 && #[trigger] s[j].decision is Move ==> exists|t: int|
            0 <= t < keys.len() && #[trigger] keys[t]@ == dest_key(s[j]),
{
    assert forall|t: int| 0 <= t < keys.len() implies #[trigger] moves_with_key(s.take(i + 1), keys[t]@).len() > 0
        && dests[t]@ == moves_with_key(s.take(i + 1), keys[t]@)[0].destination->Some_0@ by {
        lemma_mwk_step(s, i, keys[t]@);
        if added && t == p {
            assert(moves_with_key(s.take(i), kv).len() == 0) by {
                if moves_with_key(s.take(i), kv).len() > 0 {
                    lemma_first_root_key(s.take(i), kv);
                    let j = choose|j: int| 0 <= j < s.take(i).len() && #[trigger] s.take(i)[j].decision is Move && dest_key(s.take(i)[j]) == kv;
                    assert(s[j] == s.take(i)[j]);
                    assert(s[j].decision is Move);
                    let q = choose|q: int| 0 <= q < old_keys.len() && #[trigger] old_keys[q]@ == dest_key(s[j]);
                    assert(old_keys[q]@ != kv);
                }
            }
            assert(moves_with_key(s.take(i + 1), kv) =~= seq![s[i]]);
        } else {
            let o = if added && t > p { t - 1 } else { t };
            assert(keys[t] == old_keys[o] && dests[t] == old_dests[o]);
            assert(moves_with_key(s.take(i), old_keys[o]@).len() > 0);
        }
    }
    assert forall|j: int| 0 <= j < i + 1 && #[trigger] s[j].decision is Move implies exists|t: int|
        0 <= t < keys.len() && #[trigger] keys[t]@ == dest_key(s[j]) by {
        if j < i {
            let q = choose|q: int| 0 <= q < old_keys.len() && #[trigger] old_keys[q]@ == dest_key(s[j]);
            if added && q >= p {
                assert(keys[q + 1] == old_keys[q]);
            } else {
                assert(keys[q] == old_keys[q]);
            }
        } else {
            assert(keys[p]@ == dest_key(s[j]));
        }
    }
}

proof fn lemma_mwk_step(s: Seq<PlannedRoot>, i: int, key: Seq<char>)
    requires
        0 <= i < s.len(),
    ensures
        moves_with_key(s.take(i + 1), key) == (if s[i].decision is Move && dest_key(s[i]) == key {
            moves_with_key(s.take(i), key).push(s[i])
        } else {
            moves_with_key(s.take(i), key)
        }),
{
    assert(s.take(i + 1).drop_last() =~= s.take(i));
    assert(s.take(i + 1).last() == s[i]);
}

/// A non-empty set of roots of one key has a root of that key before its end.
proof fn lemma_first_root_key(rs: Seq<PlannedRoot>, key: Seq<char>)
    requires
        moves_with_key(rs, key).len() > 0,
    ensures
        exists|j: int| 0 <= j < rs.len() && #[trigger] rs[j].decision is Move && dest_key(rs[j]) == key,
    decreases rs.len(),
{
    let prev = moves_with_key(rs.drop_last(), key);
    if rs.last().decision is Move && dest_key(rs.last()) == key {
        assert(rs[rs.len() - 1].decision is Move);
    } else {
        lemma_first_root_key(rs.drop_last(), key);
        let j = choose|j: int| 0 <= j < rs.drop_last().len() && #[trigger] rs.drop_last()[j].decision is Move && dest_key(rs.drop_last()[j]) == key;
        assert(rs[j] == rs.drop_last()[j]);
    }
}

/// The move roots of one destination key, in order.
fn roots_with_key(rs: &Vec<PlannedRoot>, key: &Vec<char>) -> (r: Vec<PlannedRoot>)
    requires
        moves_have_destination(rs@),
    ensures
        r@ == moves_with_key(rs@, key@),
{
    let ghost s = rs@;
    let mut out: Vec<PlannedRoot> = Vec::new();
    let mut i: usize = 0;
    while i < rs.len()
        invariant
            i <= s.len(),
            s == rs@,
            moves_have_destination(s),
            out@ == moves_with_key(s.take(i as int), key@),
        decreases s.len() - i,
    {
        assert(s.take(i + 1).drop_last() =~= s.take(i as int));
        let r = &rs[i];
        match &r.decision {
            crate::organize::model::DecisionValue::Move { .. } => {
                assert(s[i as int].decision is Move);
                match &r.destination {
                    Some(d) => {
                        let k = plan_key(d.as_str());
                        if crate::text::chars_eq(k.as_slice(), key.as_slice()) {
                            out.push(copy_planned(r));
                        }
                    },
                    None => {},
                }
            },
            _ => {},
        }
        i = i + 1;
    }
    assert(s.take(s.len() as int) =~= s);
    out
}

} // verus!

verus! {

/// Whether `p` is the physical path `path` on `device`.
pub open spec fn sd_is(p: SdPath, device: Seq<char>, path: Seq<char>) -> bool {
    p matches SdPath::Physical { device_slug: d, path: q } && d@ == device && q@ == path
}

/// The path of a physical address (empty for content).
pub open spec fn sd_path_of(p: SdPath) -> Seq<char> {
    match p {
        SdPath::Physical { path, .. } => path@,
        SdPath::Content { .. } => Seq::<char>::empty(),
    }
}

/// The plan root of a decision root: its item, its source below the task
/// root on the task's device, its units and bytes.
pub open spec fn plan_root_is(p: OrganizePlanRoot, r: PlannedRoot, device: Seq<char>, root: Seq<char>) -> bool {
    &&& p.item_id == r.item_id
    &&& p.units == r.units
    &&& p.bytes == r.bytes
    &&& sd_is(p.source, device, join_windows_path_spec(root, r.relative_path@))
}

/// The plan roots of decision roots, one for one.
pub open spec fn plan_roots_are(ps: Seq<OrganizePlanRoot>, rs: Seq<PlannedRoot>, device: Seq<char>, root: Seq<char>) -> bool {
    ps.len() == rs.len() && forall|i: int| 0 <= i < ps.len() ==> #[trigger] plan_root_is(ps[i], rs[i], device, root)
}

/// The key of a move group: that of its destination.
pub open spec fn group_key(g: OrganizeMoveGroup) -> Seq<char> {
    plan_key_spec(sd_path_of(g.destination))
}

/// A move group: the move roots of its key compacted, its destination that of
/// the first of them, its totals those of the kept roots.
pub open spec fn move_group_is(g: OrganizeMoveGroup, phys: Seq<PlannedRoot>, device: Seq<char>, root: Seq<char>) -> bool {
    let rs = moves_with_key(phys, group_key(g));
    &&& rs.len() > 0
    &&& sd_is(g.destination, device, rs[0].destination->Some_0@)
    &&& exists|cs: Seq<PlannedRoot>| same_compacted_is(cs, rs) && #[trigger] plan_roots_are(g.roots@, cs, device, root)
    &&& g.units == kept_units_of(rs, rs.len() as int)
    &&& g.bytes == kept_bytes_of(rs, rs.len() as int)
}

/// The move groups of physical roots: one per destination key, in key order.
pub open spec fn move_groups_are(gs: Seq<OrganizeMoveGroup>, phys: Seq<PlannedRoot>, device: Seq<char>, root: Seq<char>) -> bool {
    &&& forall|t: int| 0 <= t < gs.len() ==> #[trigger] move_group_is(gs[t], phys, device, root)
    &&& forall|t: int| 0 <= t < gs.len() - 1 ==> key_less(#[trigger] group_key(gs[t]), group_key(gs[t + 1]))
    &&& forall|a: int, b: int| 0 <= a < gs.len() && 0 <= b < gs.len() && a != b ==> #[trigger] group_key(gs[a]) != #[trigger] group_key(gs[b])
    &&& forall|i: int| 0 <= i < phys.len() && #[trigger] phys[i].decision is Move ==> exists|t: int|
        0 <= t < gs.len() && #[trigger] group_key(gs[t]) == dest_key(phys[i])
}

/// The totals of every destination key fit in 64 bits.
pub open spec fn group_totals_fit(phys: Seq<PlannedRoot>) -> bool {
    forall|key: Seq<char>| #![trigger moves_with_key(phys, key)]
        kept_units_of(moves_with_key(phys, key), moves_with_key(phys, key).len() as int) <= u64::MAX
            && kept_bytes_of(moves_with_key(phys, key), moves_with_key(phys, key).len() as int) <= u64::MAX
}

pub proof fn lemma_mwk_members(s: Seq<PlannedRoot>, key: Seq<char>, j: int)
    requires
        0 <= j < moves_with_key(s, key).len(),
    ensures
        moves_with_key(s, key)[j].decision is Move,
        dest_key(moves_with_key(s, key)[j]) == key,
    decreases s.len(),
{
    let prev = moves_with_key(s.drop_last(), key);
    if j < prev.len() {
        lemma_mwk_members(s.drop_last(), key, j);
    }
}

/// The plan root of a decision root.
pub fn plan_root(device_slug: &str, root_path: &str, r: &PlannedRoot) -> (p: OrganizePlanRoot)
    ensures
        plan_root_is(p, *r, device_slug@, root_path@),
{
    let source = join_windows_path(root_path, r.relative_path.as_str());
    OrganizePlanRoot {
        item_id: r.item_id,
        source: SdPath::physical(device_slug, source.as_str()),
        units: r.units,
        bytes: r.bytes,
    }
}

/// The plan roots of decision roots, one for one.
pub fn plan_roots(device_slug: &str, root_path: &str, rs: &Vec<PlannedRoot>) -> (ps: Vec<OrganizePlanRoot>)
    ensures
        plan_roots_are(ps@, rs@, device_slug@, root_path@),
{
    let mut ps: Vec<OrganizePlanRoot> = Vec::new();
    let mut i: usize = 0;
    while i < rs.len()
        invariant
            i <= rs@.len(),
            ps@.len() == i,
            forall|j: int| 0 <= j < i ==> #[trigger] plan_root_is(ps@[j], rs@[j], device_slug@, root_path@),
        decreases rs@.len() - i,
    {
        ps.push(plan_root(device_slug, root_path, &rs[i]));
        i = i + 1;
    }
    ps
}

/// The move roots grouped by destination key, in key order; each group's
/// roots compacted, with their totals.
pub fn build_move_groups(device_slug: &str, root_path: &str, phys: &Vec<PlannedRoot>) -> (gs: Vec<OrganizeMoveGroup>)
    requires
        moves_have_destination(phys@),
        group_totals_fit(phys@),
    ensures
        move_groups_are(gs@, phys@, device_slug@, root_path@),
{
    let (keys, dests) = destination_keys(phys);
    let mut gs: Vec<OrganizeMoveGroup> = Vec::new();
    let mut t: usize = 0;
    while t < keys.len()
        invariant
            t <= keys@.len(),
            keys@.len() == dests@.len(),
            moves_have_destination(phys@),
            group_totals_fit(phys@),
            gs@.len() == t,
            forall|q: int| 0 <= q < keys@.len() ==> #[trigger] moves_with_key(phys@, keys@[q]@).len() > 0 && dests@[q]@
                == moves_with_key(phys@, keys@[q]@)[0].destination->Some_0@,
            forall|q: int| 0 <= q < t ==> #[trigger] group_key(gs@[q]) == keys@[q]@,
            forall|q: int| 0 <= q < t ==> #[trigger] move_group_is(gs@[q], phys@, device_slug@, root_path@),
        decreases keys@.len() - t,
    {
        let ghost kv = keys@[t as int]@;
        let members = roots_with_key(phys, &keys[t]);
        let kept = compact_same_action(&members);
        let (units, bytes) = kept_totals(&members);
        let roots = plan_roots(device_slug, root_path, &kept);
        let destination = SdPath::physical(device_slug, dests[t].as_str());
        proof {
            lemma_mwk_members(phys@, kv, 0);
            assert(group_key(OrganizeMoveGroup { destination, roots, units, bytes }) == kv);
        }
        let g = OrganizeMoveGroup { destination, roots, units, bytes };
        assert(plan_roots_are(g.roots@, kept@, device_slug@, root_path@));
        gs.push(g);
        t = t + 1;
    }
    proof {
        assert forall|q: int| 0 <= q < gs@.len() - 1 implies key_less(#[trigger] group_key(gs@[q]), group_key(gs@[q + 1])) by {
            assert(group_key(gs@[q + 1]) == keys@[q + 1]@);
        }
        assert forall|a: int, b: int| 0 <= a < gs@.len() && 0 <= b < gs@.len() && a != b implies #[trigger] group_key(gs@[a]) != #[trigger] group_key(gs@[b]) by {
            assert(keys@[a]@ != keys@[b]@);
        }
        assert forall|i: int| 0 <= i < phys@.len() && #[trigger] phys@[i].decision is Move implies exists|q: int|
            0 <= q < gs@.len() && #[trigger] group_key(gs@[q]) == dest_key(phys@[i]) by {
            let q = choose|q: int| 0 <= q < keys@.len() && #[trigger] keys@[q]@ == dest_key(phys@[i]);
            assert(group_key(gs@[q]) == keys@[q]@);
        }
    }
    gs
}

} // verus!

verus! {

/// Roots compacted for one action never nest, so no subtree is scheduled
/// twice by one action.
pub proof fn law_same_action_roots_do_not_nest(out: Seq<PlannedRoot>, rs: Seq<PlannedRoot>)
    requires
        same_compacted_is(out, rs),
    ensures
        forall|a: int, b: int| 0 <= a < out.len() && 0 <= b < out.len() && a != b ==> !#[trigger] holds(out[a], out[b]),
{
    assert forall|a: int, b: int| 0 <= a < out.len() && 0 <= b < out.len() && a != b implies !#[trigger] holds(out[a], out[b]) by {
        assert(out[a].tree_start != out[b].tree_start);
        assert(out.contains(out[a]));
        assert(out.contains(out[b]));
        let ka = choose|k: int| 0 <= k < rs.len() && rs[k] == out[a] && !#[trigger] same_shadowed(rs, k);
        let kb = choose|k: int| 0 <= k < rs.len() && rs[k] == out[b] && !#[trigger] same_shadowed(rs, k);
        if holds(out[a], out[b]) {
            assert(holds(rs[ka], rs[kb]));
            assert(same_shadowed(rs, kb));
        }
    }
}

/// Every root of a move group is a move whose destination has the group's key.
pub proof fn law_move_group_roots_are_moves(g: OrganizeMoveGroup, phys: Seq<PlannedRoot>, device: Seq<char>, root: Seq<char>)
    requires
        move_group_is(g, phys, device, root),
    ensures
        exists|cs: Seq<PlannedRoot>|
            #![trigger plan_roots_are(g.roots@, cs, device, root)]
            plan_roots_are(g.roots@, cs, device, root) && forall|i: int|
                0 <= i < cs.len() ==> (#[trigger] cs[i]).decision is Move && dest_key(cs[i]) == group_key(g)
                    && phys.contains(cs[i]),
{
    let rs = moves_with_key(phys, group_key(g));
    let cs = choose|cs: Seq<PlannedRoot>| same_compacted_is(cs, rs) && #[trigger] plan_roots_are(g.roots@, cs, device, root);
    assert forall|i: int| 0 <= i < cs.len() implies (#[trigger] cs[i]).decision is Move && dest_key(cs[i]) == group_key(g)
        && phys.contains(cs[i]) by {
        assert(cs.contains(cs[i]));
        let k = choose|k: int| 0 <= k < rs.len() && rs[k] == cs[i] && !#[trigger] same_shadowed(rs, k);
        lemma_mwk_members(phys, group_key(g), k);
        lemma_mwk_contained(phys, group_key(g), k);
    }
}

proof fn lemma_mwk_contained(s: Seq<PlannedRoot>, key: Seq<char>, j: int)
    requires
        0 <= j < moves_with_key(s, key).len(),
    ensures
        s.contains(moves_with_key(s, key)[j]),
    decreases s.len(),
{
    let prev = moves_with_key(s.drop_last(), key);
    if j < prev.len() {
        lemma_mwk_contained(s.drop_last(), key, j);
        let k = choose|k: int| 0 <= k < s.drop_last().len() && s.drop_last()[k] == prev[j];
        assert(s[k] == prev[j]);
    } else {
        assert(s[s.len() - 1] == moves_with_key(s, key)[j]);
    }
}


// ----- moves across destinations -----

/// Whether root `k` lies inside another move root that comes before it in the
/// order (start, longest first, id, position), whatever its destination.
pub open spec fn move_shadowed(rs: Seq<PlannedRoot>, k: int) -> bool {
    exists|j: int|
        0 <= j < rs.len() && j != k && rs[j].decision is Move && #[trigger] holds(rs[j], rs[k]) && (rs[j].tree_start
            != rs[k].tree_start || rs[j].tree_end != rs[k].tree_end || rs[j].item_id < rs[k].item_id || (rs[j].item_id
            == rs[k].item_id && j < k))
}

/// The move roots among the first `k` that lie inside no other move root, in
/// order.
pub open spec fn outer_moves_upto(rs: Seq<PlannedRoot>, k: int) -> Seq<PlannedRoot>
    decreases k,
{
    if k <= 0 {
        Seq::<PlannedRoot>::empty()
    } else {
        let prev = outer_moves_upto(rs, k - 1);
        if rs[k - 1].decision is Move && !move_shadowed(rs, k - 1) {
            prev.push(rs[k - 1])
        } else {
            prev
        }
    }
}

/// The move roots that lie inside no other move root, whatever the
/// destinations, in order: moving the outer root carries the inner subtree,
/// so the inner one is never scheduled on its own.
pub open spec fn outer_moves(rs: Seq<PlannedRoot>) -> Seq<PlannedRoot> {
    outer_moves_upto(rs, rs.len() as int)
}

/// Whether move root `k` lies inside another move root before it.
fn is_move_shadowed(rs: &Vec<PlannedRoot>, k: usize) -> (b: bool)
    requires
        k < rs@.len(),
    ensures
        b == move_shadowed(rs@, k as int),
{
    let ghost s = rs@;
    let e = &rs[k];
    let mut j: usize = 0;
    while j < rs.len()
        invariant
            j <= s.len(),
            s == rs@,
            k < s.len(),
            *e == s[k as int],
            forall|q: int|
                0 <= q < j ==> !(q != k && s[q].decision is Move && #[trigger] holds(s[q], s[k as int]) && (s[q].tree_start
                    != s[k as int].tree_start || s[q].tree_end != s[k as int].tree_end || s[q].item_id
                    < s[k as int].item_id || (s[q].item_id == s[k as int].item_id && q < k))),
        decreases s.len() - j,
    {
        let f = &rs[j];
        let f_move = match &f.decision {
            crate::organize::model::DecisionValue::Move { .. } => true,
            _ => false,
        };
        if j != k && f_move && f.tree_start <= e.tree_start && e.tree_end <= f.tree_end && (f.tree_start
            != e.tree_start || f.tree_end != e.tree_end || f.item_id < e.item_id || (f.item_id == e.item_id
            && j < k)) {
            assert(holds(s[j as int], s[k as int]));
            return true;
        }
        j = j + 1;
    }
    false
}

/// The move roots that lie inside no other move root, in order.
pub fn outer_move_roots(rs: &Vec<PlannedRoot>) -> (r: Vec<PlannedRoot>)
    ensures
        r@ == outer_moves(rs@),
{
    let mut out: Vec<PlannedRoot> = Vec::new();
    let mut k: usize = 0;
    while k < rs.len()
        invariant
            k <= rs@.len(),
            out@ == outer_moves_upto(rs@, k as int),
        decreases rs@.len() - k,
    {
        let is_move = match &rs[k].decision {
            crate::organize::model::DecisionValue::Move { .. } => true,
            _ => false,
        };
        if is_move && !is_move_shadowed(rs, k) {
            out.push(copy_planned(&rs[k]));
        }
        k = k + 1;
    }
    out
}

/// Each outer move root is a move root of `rs` at some position, lying inside
/// no other move root.
pub proof fn lemma_outer_member(rs: Seq<PlannedRoot>, k: int, i: int) -> (p: int)
    requires
        0 <= k <= rs.len(),
        0 <= i < outer_moves_upto(rs, k).len(),
    ensures
        0 <= p < k,
        outer_moves_upto(rs, k)[i] == rs[p],
        rs[p].decision is Move,
        !move_shadowed(rs, p),
    decreases k,
{
    let prev = outer_moves_upto(rs, k - 1);
    if i < prev.len() {
        lemma_outer_member(rs, k - 1, i)
    } else {
        k - 1
    }
}

/// Two outer move roots at different places sit at different positions of
/// `rs`, in the same order.
proof fn lemma_outer_two(rs: Seq<PlannedRoot>, k: int, a: int, b: int) -> (r: (int, int))
    requires
        0 <= k <= rs.len(),
        0 <= a < b < outer_moves_upto(rs, k).len(),
    ensures
        0 <= r.0 < r.1 < k,
        outer_moves_upto(rs, k)[a] == rs[r.0],
        outer_moves_upto(rs, k)[b] == rs[r.1],
        rs[r.0].decision is Move && !move_shadowed(rs, r.0),
        rs[r.1].decision is Move && !move_shadowed(rs, r.1),
    decreases k,
{
    let prev = outer_moves_upto(rs, k - 1);
    if b < prev.len() {
        lemma_outer_two(rs, k - 1, a, b)
    } else {
        let pa = lemma_outer_member(rs, k - 1, a);
        (pa, k - 1)
    }
}

/// Moves of the outer move roots have destinations where those of `rs` do.
pub proof fn lemma_outer_destinations(rs: Seq<PlannedRoot>)
    requires
        moves_have_destination(rs),
    ensures
        moves_have_destination(outer_moves(rs)),
        forall|x: PlannedRoot| #[trigger] outer_moves(rs).contains(x) ==> rs.contains(x),
{
    let om = outer_moves(rs);
    assert forall|i: int| 0 <= i < om.len() && #[trigger] om[i].decision is Move implies om[i].destination is Some by {
        let p = lemma_outer_member(rs, rs.len() as int, i);
    }
    assert forall|x: PlannedRoot| #[trigger] om.contains(x) implies rs.contains(x) by {
        let i = choose|i: int| 0 <= i < om.len() && om[i] == x;
        let p = lemma_outer_member(rs, rs.len() as int, i);
    }
}

/// No two outer move roots nest.
proof fn lemma_outer_moves_do_not_nest(rs: Seq<PlannedRoot>, a: int, b: int)
    requires
        0 <= a < outer_moves(rs).len(),
        0 <= b < outer_moves(rs).len(),
        a != b,
    ensures
        !holds(outer_moves(rs)[a], outer_moves(rs)[b]),
{
    let (lo, hi) = if a < b { (a, b) } else { (b, a) };
    let (p, q) = lemma_outer_two(rs, rs.len() as int, lo, hi);
    if holds(rs[p], rs[q]) {
        if !(rs[p].tree_start != rs[q].tree_start || rs[p].tree_end != rs[q].tree_end || rs[p].item_id
            < rs[q].item_id || (rs[p].item_id == rs[q].item_id && p < q)) {
            assert(holds(rs[q], rs[p]));
            assert(move_shadowed(rs, p));
        } else {
            assert(move_shadowed(rs, q));
        }
    }
    if holds(rs[q], rs[p]) {
        if !(rs[q].tree_start != rs[p].tree_start || rs[q].tree_end != rs[p].tree_end || rs[q].item_id
            < rs[p].item_id || (rs[q].item_id == rs[p].item_id && q < p)) {
            assert(holds(rs[p], rs[q]));
            assert(move_shadowed(rs, q));
        } else {
            assert(move_shadowed(rs, p));
        }
    }
}

proof fn lemma_compacted_member_outer(rs: Seq<PlannedRoot>, key: Seq<char>, cs: Seq<PlannedRoot>, x: PlannedRoot) -> (i: int)
    requires
        same_compacted_is(cs, moves_with_key(outer_moves(rs), key)),
        cs.contains(x),
    ensures
        0 <= i < outer_moves(rs).len(),
        outer_moves(rs)[i] == x,
{
    let ms = moves_with_key(outer_moves(rs), key);
    let k = choose|k: int| 0 <= k < ms.len() && ms[k] == x && !#[trigger] same_shadowed(ms, k);
    lemma_mwk_contained(outer_moves(rs), key, k);
    choose|i: int| 0 <= i < outer_moves(rs).len() && outer_moves(rs)[i] == x
}

/// No physical subtree is moved twice: the roots of any two move groups built
/// from the outer move roots (the same group or two groups of different
/// destinations) never lie one inside the other.
pub proof fn law_moves_across_groups_do_not_nest(
    rs: Seq<PlannedRoot>,
    key1: Seq<char>,
    key2: Seq<char>,
    cs1: Seq<PlannedRoot>,
    cs2: Seq<PlannedRoot>,
    x: PlannedRoot,
    y: PlannedRoot,
)
    requires
        same_compacted_is(cs1, moves_with_key(outer_moves(rs), key1)),
        same_compacted_is(cs2, moves_with_key(outer_moves(rs), key2)),
        cs1.contains(x),
        cs2.contains(y),
        x != y,
    ensures
        !holds(x, y),
{
    let i = lemma_compacted_member_outer(rs, key1, cs1, x);
    let j = lemma_compacted_member_outer(rs, key2, cs2, y);
    lemma_outer_moves_do_not_nest(rs, i, j);
}


/// Every outer move root is a root of `rs`.
pub proof fn lemma_outer_members(rs: Seq<PlannedRoot>)
    ensures
        forall|x: PlannedRoot| #[trigger] outer_moves(rs).contains(x) ==> rs.contains(x),
{
    let om = outer_moves(rs);
    assert forall|x: PlannedRoot| #[trigger] om.contains(x) implies rs.contains(x) by {
        let i = choose|i: int| 0 <= i < om.len() && om[i] == x;
        let p = lemma_outer_member(rs, rs.len() as int, i);
    }
}


// ----- compaction keeps every subtree covered -----

/// Whether root `j` shadows root `k`: another root whose interval holds
/// `k`'s, coming first in the order (start, longest first, id, position).
pub open spec fn shadows(rs: Seq<PlannedRoot>, j: int, k: int) -> bool {
    &&& 0 <= j < rs.len()
    &&& j != k
    &&& holds(rs[j], rs[k])
    &&& (rs[j].tree_start != rs[k].tree_start || rs[j].tree_end != rs[k].tree_end || rs[j].item_id < rs[k].item_id
        || (rs[j].item_id == rs[k].item_id && j < k))
}

/// The roots that shadow root `k`.
pub open spec fn shadower_set(rs: Seq<PlannedRoot>, k: int) -> Set<int> {
    Set::new(|j: int| shadows(rs, j, k))
}

proof fn lemma_shadows_trans(rs: Seq<PlannedRoot>, i: int, j: int, k: int)
    requires
        0 <= k < rs.len(),
        shadows(rs, i, j),
        shadows(rs, j, k),
    ensures
        shadows(rs, i, k),
{
}

/// Every root lies inside a root that nothing shadows.
proof fn lemma_covered(rs: Seq<PlannedRoot>, k: int) -> (j: int)
    requires
        0 <= k < rs.len(),
    ensures
        0 <= j < rs.len(),
        !same_shadowed(rs, j),
        holds(rs[j], rs[k]),
    decreases shadower_set(rs, k).len(),
{
    vstd::set_lib::lemma_int_range(0, rs.len() as int);
    let range = vstd::set_lib::set_int_range(0, rs.len() as int);
    assert(shadower_set(rs, k).subset_of(range));
    vstd::set_lib::lemma_len_subset(shadower_set(rs, k), range);
    if !same_shadowed(rs, k) {
        k
    } else {
        let j0 = choose|j: int|
            0 <= j < rs.len() && j != k && #[trigger] holds(rs[j], rs[k]) && (rs[j].tree_start != rs[k].tree_start
                || rs[j].tree_end != rs[k].tree_end || rs[j].item_id < rs[k].item_id || (rs[j].item_id
                == rs[k].item_id && j < k));
        assert(shadows(rs, j0, k));
        let big = shadower_set(rs, k);
        let small = shadower_set(rs, j0);
        assert forall|i: int| small.contains(i) implies big.remove(j0).contains(i) by {
            lemma_shadows_trans(rs, i, j0, k);
        }
        assert(big.contains(j0));
        vstd::set_lib::lemma_len_subset(small, big.remove(j0));
        let j = lemma_covered(rs, j0);
        j
    }
}

/// Compacting roots of one action loses no subtree: every root lies inside a
/// root that compaction keeps.
pub proof fn law_compaction_covers_every_root(out: Seq<PlannedRoot>, rs: Seq<PlannedRoot>, k: int)
    requires
        same_compacted_is(out, rs),
        0 <= k < rs.len(),
    ensures
        exists|x: PlannedRoot| #[trigger] out.contains(x) && holds(x, rs[k]),
{
    let j = lemma_covered(rs, k);
    assert(out.contains(rs[j]));
}

} // verus!
