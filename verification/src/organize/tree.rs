//! The decision tree: intervals and units of a depth-first snapshot, selection
//! normalization, decision resolution and progress.

use vstd::prelude::*;
use vstd::string::StringExecFns;
use std::collections::{HashMap, HashSet};
use crate::organize::error::OrganizeError;
use crate::organize::model::{
    decision_eq, priority_spec, DecisionPatch, DecisionResolution, DecisionTreeState, DecisionValue,
    ExplicitDecisionRoot, OrganizeDecisionConflictKind, OrganizeItemKind, OrganizeOperationState,
    OrganizeProgressSummary, TreeItemComputed, TreeItemDraft,
};

verus! {

broadcast use vstd::std_specs::hash::group_hash_axioms;

// ----- the shape of a depth-first snapshot -----

/// No two items share an id.
pub open spec fn ids_distinct(items: Seq<TreeItemDraft>) -> bool {
    forall|i: int, j: int| 0 <= i < j < items.len() ==> items[i].item_id != items[j].item_id
}

/// Whether some item in `lo..hi` has the id `id`.
pub open spec fn has_id(items: Seq<TreeItemDraft>, id: u128, lo: int, hi: int) -> bool {
    exists|j: int| lo <= j < hi && #[trigger] items[j].item_id == id
}

pub open spec fn msg_duplicate_item() -> Seq<char> {
    "duplicate item id"@
}

pub open spec fn msg_missing_parent() -> Seq<char> {
    "item refers to a missing parent"@
}

pub open spec fn msg_parent_order() -> Seq<char> {
    "parents must precede children in depth-first input"@
}

pub open spec fn msg_one_root() -> Seq<char> {
    "the organize tree must contain exactly one root"@
}

pub open spec fn msg_depth_first() -> Seq<char> {
    "items are not in fixed depth-first order"@
}

pub open spec fn msg_only_directories() -> Seq<char> {
    "only directories may contain children"@
}

/// What is wrong with the parent of item `i`: it names no item, or an item that
/// does not come before it.
pub open spec fn item_parent_error(items: Seq<TreeItemDraft>, i: int) -> Option<Seq<char>> {
    match items[i].parent_item_id {
        None => None,
        Some(p) => if !has_id(items, p, 0, items.len() as int) {
            Some(msg_missing_parent())
        } else if !has_id(items, p, 0, i) {
            Some(msg_parent_order())
        } else {
            None
        },
    }
}

/// The parent error of the first of the first `k` items that has one.
pub open spec fn parent_error(items: Seq<TreeItemDraft>, k: int) -> Option<Seq<char>>
    decreases k,
{
    if k <= 0 {
        None
    } else {
        match parent_error(items, k - 1) {
            Some(m) => Some(m),
            None => item_parent_error(items, k - 1),
        }
    }
}

/// How many of the first `k` items have no parent.
pub open spec fn root_count(items: Seq<TreeItemDraft>, k: int) -> nat
    decreases k,
{
    if k <= 0 {
        0
    } else {
        root_count(items, k - 1) + if items[k - 1].parent_item_id is None {
            1nat
        } else {
            0nat
        }
    }
}

/// The index of item `i`'s parent, or -1 for the root.
pub open spec fn parent_index(items: Seq<TreeItemDraft>, i: int) -> int {
    match items[i].parent_item_id {
        None => -1,
        Some(p) => choose|j: int| 0 <= j < items.len() && #[trigger] items[j].item_id == p,
    }
}

/// The parent index of every item.
pub open spec fn parent_indexes(items: Seq<TreeItemDraft>) -> Seq<int> {
    Seq::new(items.len(), |i: int| parent_index(items, i))
}

/// Whether `a` is `j` or one of its ancestors, following parent indexes.
pub open spec fn is_anc(par: Seq<int>, a: int, j: int) -> bool
    decreases j,
{
    if j == a {
        true
    } else if j < 0 || j >= par.len() || par[j] < 0 || par[j] >= j {
        false
    } else {
        is_anc(par, a, par[j])
    }
}

/// Items are in depth-first order: the parent of each item after the first is
/// the item before it or one of that item's ancestors.
pub open spec fn depth_first(par: Seq<int>) -> bool {
    forall|i: int| 1 <= i < par.len() ==> par[i] >= 0 && #[trigger] is_anc(par, par[i], i - 1)
}

/// Whether item `i` has a child: in depth-first order, its first child follows it.
pub open spec fn has_child(par: Seq<int>, i: int) -> bool {
    i + 1 < par.len() && par[i + 1] == i
}

/// Whether some non-directory item has a child.
pub open spec fn kind_error(items: Seq<TreeItemDraft>, par: Seq<int>) -> bool {
    exists|i: int| 0 <= i < items.len() && #[trigger] has_child(par, i) && items[i].kind != OrganizeItemKind::Directory
}

/// The first position from `e` on that is not in the subtree of `i`.
pub open spec fn scan_end(par: Seq<int>, i: int, e: int) -> int
    decreases par.len() - e,
{
    if e >= par.len() || !is_anc(par, i, e) {
        e
    } else {
        scan_end(par, i, e + 1)
    }
}

/// The end of the subtree of `i`: the first position after it that is outside it.
pub open spec fn subtree_end(par: Seq<int>, i: int) -> int {
    scan_end(par, i, i + 1)
}

/// How many items in `a..b` have no child.
pub open spec fn leaf_count(par: Seq<int>, a: int, b: int) -> nat
    decreases b - a,
{
    if b <= a {
        0
    } else {
        leaf_count(par, a, b - 1) + if has_child(par, b - 1) {
            0nat
        } else {
            1nat
        }
    }
}

/// The total size of the items in `a..b`.
pub open spec fn size_sum(items: Seq<TreeItemDraft>, a: int, b: int) -> nat
    decreases b - a,
{
    if b <= a {
        0
    } else {
        size_sum(items, a, b - 1) + items[b - 1].size_bytes as nat
    }
}

/// `n`, capped at `u64::MAX`.
pub open spec fn saturate(n: nat) -> u64 {
    if n <= u64::MAX {
        n as u64
    } else {
        u64::MAX
    }
}

/// The tree values of item `i`: its depth-first interval, the leaf items of its
/// subtree as units, and the subtree's total size, saturated.
pub open spec fn computed_at(items: Seq<TreeItemDraft>, i: int) -> TreeItemComputed {
    let par = parent_indexes(items);
    let end = subtree_end(par, i);
    TreeItemComputed {
        item_id: items[i].item_id,
        tree_start: i as i64,
        tree_end: end as i64,
        unit_count: leaf_count(par, i, end) as u64,
        aggregate_size_bytes: saturate(size_sum(items, i, end)),
    }
}

/// What `compute_tree` returns for `items`: the first problem found in the order
/// duplicate ids, parent references, root count, depth-first order, children of
/// non-directories; else the tree values of every item.
pub open spec fn compute_tree_spec(items: Seq<TreeItemDraft>) -> Result<Seq<TreeItemComputed>, Seq<char>> {
    let par = parent_indexes(items);
    if !ids_distinct(items) {
        Err(msg_duplicate_item())
    } else if parent_error(items, items.len() as int) is Some {
        Err(parent_error(items, items.len() as int)->Some_0)
    } else if root_count(items, items.len() as int) != 1 {
        Err(msg_one_root())
    } else if !depth_first(par) {
        Err(msg_depth_first())
    } else if kind_error(items, par) {
        Err(msg_only_directories())
    } else {
        Ok(Seq::new(items.len(), |i: int| computed_at(items, i)))
    }
}

// ----- lemmas on ancestry -----

pub proof fn lemma_anc_le(par: Seq<int>, a: int, j: int)
    requires
        is_anc(par, a, j),
    ensures
        a <= j,
    decreases j,
{
    if j != a {
        lemma_anc_le(par, a, par[j]);
    }
}

pub proof fn lemma_anc_trans(par: Seq<int>, a: int, b: int, j: int)
    requires
        is_anc(par, a, b),
        is_anc(par, b, j),
    ensures
        is_anc(par, a, j),
    decreases j,
{
    if j != b {
        lemma_anc_trans(par, a, b, par[j]);
    }
}

/// The ancestors of a node form a chain: of two of them, the smaller one is an
/// ancestor of the larger.
pub proof fn lemma_anc_linear(par: Seq<int>, a: int, b: int, j: int)
    requires
        is_anc(par, a, j),
        is_anc(par, b, j),
        a <= b,
    ensures
        is_anc(par, a, b),
    decreases j,
{
    if j == b {
    } else if j == a {
        lemma_anc_le(par, b, j);
    } else {
        lemma_anc_linear(par, a, b, par[j]);
    }
}

pub proof fn lemma_scan_end(par: Seq<int>, x: int, e: int, i: int)
    requires
        e <= i <= par.len(),
        forall|k: int| e <= k < i ==> #[trigger] is_anc(par, x, k),
        i == par.len() || !is_anc(par, x, i),
    ensures
        scan_end(par, x, e) == i,
    decreases i - e,
{
    if e < i {
        lemma_scan_end(par, x, e + 1, i);
    }
}

pub proof fn lemma_leaf_count_split(par: Seq<int>, a: int, b: int)
    requires
        0 <= a <= b,
    ensures
        leaf_count(par, 0, b) == leaf_count(par, 0, a) + leaf_count(par, a, b),
    decreases b - a,
{
    if b > a {
        lemma_leaf_count_split(par, a, b - 1);
    }
}

pub proof fn lemma_size_sum_split(items: Seq<TreeItemDraft>, a: int, b: int)
    requires
        0 <= a <= b,
    ensures
        size_sum(items, 0, b) == size_sum(items, 0, a) + size_sum(items, a, b),
    decreases b - a,
{
    if b > a {
        lemma_size_sum_split(items, a, b - 1);
    }
}

pub proof fn lemma_size_sum_bound(items: Seq<TreeItemDraft>, b: int)
    requires
        0 <= b,
    ensures
        size_sum(items, 0, b) <= b * 0xffff_ffff_ffff_ffffnat,
    decreases b,
{
    if b > 0 {
        lemma_size_sum_bound(items, b - 1);
        assert(size_sum(items, 0, b) <= (b - 1) * 0xffff_ffff_ffff_ffffnat + 0xffff_ffff_ffff_ffffnat);
        assert((b - 1) * 0xffff_ffff_ffff_ffffnat + 0xffff_ffff_ffff_ffffnat == b * 0xffff_ffff_ffff_ffffnat) by (nonlinear_arith);
    }
}

} // verus!

verus! {

/// The parent indexes of exec values, as integers.
pub open spec fn int_seq(v: Seq<i64>) -> Seq<int> {
    v.map_values(|x: i64| x as int)
}

/// Whether a parent-index sequence has its root first and every other parent
/// before its child.
pub open spec fn parents_precede(p: Seq<int>) -> bool {
    &&& p.len() >= 1
    &&& p[0] == -1
    &&& forall|i: int| 1 <= i < p.len() ==> 0 <= #[trigger] p[i] < i
}

/// Whether `st` is a prefix of `s0`.
pub open spec fn is_prefix(st: Seq<usize>, s0: Seq<usize>) -> bool {
    st.len() <= s0.len() && forall|k: int| 0 <= k < st.len() ==> #[trigger] st[k] == s0[k]
}

/// The stack of open subtrees while items `0..i` have been read: the ancestors
/// of item `i - 1`, in increasing order, each containing every item read after it.
pub open spec fn open_chain(p: Seq<int>, st: Seq<usize>, i: int) -> bool {
    &&& st.len() >= 1
    &&& st[0] == 0
    &&& st.last() == i - 1
    &&& forall|a: int, b: int| 0 <= a < b < st.len() ==> st[a] < st[b]
    &&& forall|a: int| 0 <= a < p.len() ==> (#[trigger] is_anc(p, a, i - 1) <==> st.contains(a as usize))
    &&& forall|k: int, e: int| 0 <= k < st.len() && st[k] < e < i ==> #[trigger] is_anc(p, st[k] as int, e)
}

proof fn lemma_chain_push(p: Seq<int>, st: Seq<usize>, s0: Seq<usize>, i: usize)
    requires
        parents_precede(p),
        p.len() <= usize::MAX,
        1 <= i < p.len(),
        open_chain(p, s0, i as int),
        st.len() >= 1,
        is_prefix(st, s0),
        st.last() as int == p[i as int],
        forall|k: int| st.len() <= k < s0.len() ==> s0[k] as int > p[i as int],
    ensures
        open_chain(p, st.push(i), i + 1),
{
    let pi = p[i as int];
    let ns = st.push(i);
    let m = st.len() - 1;
    assert(ns[m] == st[m] && st[m] == s0[m]);
    assert(s0.contains(pi as usize));
    assert(is_anc(p, pi, i - 1));
    assert forall|k: int| 0 <= k < st.len() implies s0[k] as int <= pi && #[trigger] ns[k] == s0[k] by {
        assert(ns[k] == st[k]);
        if k < m {
            assert(s0[k] < s0[m]);
        }
    }
    assert(ns[ns.len() - 1] == i);
    assert forall|a: int, b: int| 0 <= a < b < ns.len() implies ns[a] < ns[b] by {
        assert(ns[a] == s0[a]);
        if b < st.len() {
            assert(ns[b] == s0[b]);
        } else {
            assert(ns[b] == i);
        }
    }
    assert forall|a: int| 0 <= a < p.len() implies (#[trigger] is_anc(p, a, i as int) <==> ns.contains(a as usize)) by {
        if is_anc(p, a, i as int) {
            if a != i {
                assert(is_anc(p, a, pi));
                lemma_anc_trans(p, a, pi, i - 1);
                lemma_anc_le(p, a, pi);
                assert(s0.contains(a as usize));
                let k = choose|k: int| 0 <= k < s0.len() && s0[k] == a as usize;
                if k >= st.len() {
                    assert(s0[k] as int > pi);
                    assert(false);
                }
                assert(ns[k] == a as usize);
                assert(ns.contains(a as usize));
            } else {
                assert(ns.contains(a as usize));
            }
        }
        if ns.contains(a as usize) {
            let k = choose|k: int| 0 <= k < ns.len() && ns[k] == a as usize;
            if k < st.len() {
                assert(ns[k] == s0[k]);
                assert(s0.contains(a as usize));
                assert(0 <= a);
                assert(is_anc(p, a, i - 1));
                assert(a <= pi);
                lemma_anc_linear(p, a, pi, i - 1);
                assert(is_anc(p, a, i as int));
            } else {
                assert(a == i);
            }
        }
    }
    assert forall|k: int, e: int| 0 <= k < ns.len() && ns[k] < e < i + 1 implies #[trigger] is_anc(p, ns[k] as int, e) by {
        if k < st.len() {
            let s = ns[k] as int;
            assert(ns[k] == s0[k]);
            if e < i {
                assert(is_anc(p, s0[k] as int, e));
            } else {
                assert(s0.contains(s as usize));
                assert(is_anc(p, s, i - 1));
                lemma_anc_linear(p, s, pi, i - 1);
                assert(is_anc(p, s, e));
            }
        } else {
            assert(ns[k] == i);
        }
    }
}

/// The end of every subtree, or `None` when the items are not in depth-first order.
fn subtree_ends(par: &Vec<i64>) -> (r: Option<Vec<usize>>)
    requires
        parents_precede(int_seq(par@)),
    ensures
        r is None <==> !depth_first(int_seq(par@)),
        r matches Some(e) ==> e@.len() == par@.len() && forall|i: int|
            0 <= i < par@.len() ==> #[trigger] e@[i] as int == subtree_end(int_seq(par@), i),
{
    let n = par.len();
    let ghost p = int_seq(par@);
    assert(p.len() == n);
    let mut ends: Vec<usize> = Vec::new();
    let mut k: usize = 0;
    while k < n
        invariant
            k <= n,
            ends@.len() == k,
        decreases n - k,
    {
        ends.push(n);
        k = k + 1;
    }
    let mut stack: Vec<usize> = Vec::new();
    stack.push(0);
    assert(open_chain(p, stack@, 1)) by {
        assert forall|a: int| 0 <= a < p.len() implies (#[trigger] is_anc(p, a, 0) <==> stack@.contains(a as usize)) by {
            if is_anc(p, a, 0) {
                lemma_anc_le(p, a, 0);
                assert(stack@[0] == 0);
            }
        }
    }
    let mut i: usize = 1;
    assert(is_prefix(stack@, stack@));
    while i < n
        invariant
            1 <= i <= n,
            n == par@.len(),
            p == int_seq(par@),
            parents_precede(p),
            ends@.len() == n,
            open_chain(p, stack@, i as int),
            forall|x: int| 0 <= x < i && !stack@.contains(x as usize) ==> #[trigger] ends@[x] as int == subtree_end(p, x),
            forall|j: int| 1 <= j < i ==> #[trigger] is_anc(p, p[j], j - 1),
        decreases n - i,
    {
        let pi = par[i] as usize;
        assert(pi as int == p[i as int]);
        let ghost s0 = stack@;
        assert(is_prefix(stack@, s0));
        while stack[stack.len() - 1] > pi
            invariant
                1 <= i < n,
                n == par@.len(),
                p == int_seq(par@),
                parents_precede(p),
                pi as int == p[i as int],
                ends@.len() == n,
                open_chain(p, s0, i as int),
                stack@.len() >= 1,
                is_prefix(stack@, s0),
                forall|k: int| stack@.len() <= k < s0.len() ==> s0[k] > pi,
                forall|x: int| 0 <= x < i && !stack@.contains(x as usize) ==> #[trigger] ends@[x] as int == subtree_end(p, x),
            decreases stack@.len(),
        {
            let ghost before = stack@;
            assert(before.len() >= 2) by {
                if before.len() == 1 {
                    assert(before[0] == s0[0]);
                }
            }
            let x = stack.pop().unwrap();
            assert(stack@ =~= before.drop_last());
            assert(x == before[before.len() - 1]);
            assert(x == s0[stack@.len() as int]);
            proof {
                let xi = x as int;
                assert(xi < i) by {
                    if stack@.len() + 1 < s0.len() {
                        assert(s0[stack@.len() as int] < s0[s0.len() - 1]);
                    }
                }
                assert forall|e: int| xi + 1 <= e < i implies #[trigger] is_anc(p, xi, e) by {
                    assert(is_anc(p, s0[stack@.len() as int] as int, e));
                }
                if is_anc(p, xi, i as int) {
                    assert(is_anc(p, xi, p[i as int]));
                    lemma_anc_le(p, xi, p[i as int]);
                    assert(false);
                }
                lemma_scan_end(p, xi, xi + 1, i as int);
            }
            ends.set(x, i);
            proof {
                assert forall|y: int| 0 <= y < i && !stack@.contains(y as usize) implies #[trigger] ends@[y] as int == subtree_end(p, y) by {
                    if y != x as int {
                        if before.contains(y as usize) {
                            let k = choose|k: int| 0 <= k < before.len() && before[k] == y as usize;
                            if k < stack@.len() {
                                assert(stack@[k] == before[k]);
                                assert(false);
                            } else {
                                assert(k == before.len() - 1);
                                assert(false);
                            }
                        }
                    }
                }
            }
        }
        if stack[stack.len() - 1] != pi {
            proof {
                assert(!s0.contains(pi)) by {
                    if s0.contains(pi) {
                        let k = choose|k: int| 0 <= k < s0.len() && s0[k] == pi;
                        if k < stack@.len() {
                            assert(stack@[k] == s0[k]);
                            assert(stack@[stack@.len() - 1] == s0[stack@.len() - 1]);
                            if k < stack@.len() - 1 {
                                assert(s0[k] < s0[stack@.len() - 1]);
                            }
                        }
                    }
                }
                assert(!is_anc(p, p[i as int], i - 1));
                assert(!depth_first(p));
            }
            return None;
        }
        proof {
            lemma_chain_push(p, stack@, s0, i);
        }
        let ghost before_push = stack@;
        stack.push(i);
        proof {
            assert forall|x: int| 0 <= x < i + 1 && !stack@.contains(x as usize) implies #[trigger] ends@[x] as int == subtree_end(p, x) by {
                if x == i {
                    assert(stack@[stack@.len() - 1] == i);
                }
                if before_push.contains(x as usize) {
                    let k = choose|k: int| 0 <= k < before_push.len() && before_push[k] == x as usize;
                    assert(stack@[k] == before_push[k]);
                }
            }
            assert(is_anc(p, p[i as int], i - 1)) by {
                assert(s0.contains(pi)) by {
                    assert(s0[stack@.len() - 2] == before_push[before_push.len() - 1]);
                }
            }
        }
        i = i + 1;
    }
    let ghost sf = stack@;
    assert(is_prefix(stack@, sf));
    while stack.len() > 0
        invariant
            n == par@.len(),
            p == int_seq(par@),
            parents_precede(p),
            ends@.len() == n,
            open_chain(p, sf, n as int),
            is_prefix(stack@, sf),
            forall|x: int| 0 <= x < n && !stack@.contains(x as usize) ==> #[trigger] ends@[x] as int == subtree_end(p, x),
        decreases stack@.len(),
    {
        let ghost before = stack@;
        let x = stack.pop().unwrap();
        assert(stack@ =~= before.drop_last());
        assert(x == before[before.len() - 1]);
        assert(x == sf[stack@.len() as int]);
        proof {
            let xi = x as int;
            assert(xi < n) by {
                if stack@.len() + 1 < sf.len() {
                    assert(sf[stack@.len() as int] < sf[sf.len() - 1]);
                }
            }
            assert forall|e: int| xi + 1 <= e < n implies #[trigger] is_anc(p, xi, e) by {
                assert(is_anc(p, sf[stack@.len() as int] as int, e));
            }
            lemma_scan_end(p, xi, xi + 1, n as int);
        }
        ends.set(x, n);
        proof {
            assert forall|y: int| 0 <= y < n && !stack@.contains(y as usize) implies #[trigger] ends@[y] as int == subtree_end(p, y) by {
                if y != x as int {
                    if before.contains(y as usize) {
                        let k = choose|k: int| 0 <= k < before.len() && before[k] == y as usize;
                        if k < stack@.len() {
                            assert(stack@[k] == before[k]);
                            assert(false);
                        } else {
                            assert(false);
                        }
                    }
                }
            }
        }
    }
    proof {
        assert forall|j: int| 1 <= j < p.len() implies p[j] >= 0 && #[trigger] is_anc(p, p[j], j - 1) by {
            assert(is_anc(p, p[j], j - 1));
        }
        assert forall|x: int| 0 <= x < n implies #[trigger] ends@[x] as int == subtree_end(p, x) by {
            assert(!stack@.contains(x as usize));
        }
    }
    Some(ends)
}

} // verus!

verus! {

/// The index of every item by id, or `None` when two items share an id.
fn index_by_id(items: &[TreeItemDraft]) -> (r: Option<HashMap<u128, usize>>)
    ensures
        r is None <==> !ids_distinct(items@),
        r matches Some(m) ==> (forall|id: u128| #[trigger] m@.contains_key(id) <==> has_id(items@, id, 0, items@.len() as int))
            && (forall|id: u128| #[trigger] m@.contains_key(id) ==> m@[id] < items@.len() && items@[m@[id] as int].item_id == id),
{
    let mut m: HashMap<u128, usize> = HashMap::new();
    let mut i: usize = 0;
    while i < items.len()
        invariant
            i <= items.len(),
            forall|a: int, b: int| 0 <= a < b < i ==> items@[a].item_id != items@[b].item_id,
            forall|id: u128| #[trigger] m@.contains_key(id) <==> has_id(items@, id, 0, i as int),
            forall|id: u128| #[trigger] m@.contains_key(id) ==> m@[id] < i && items@[m@[id] as int].item_id == id,
        decreases items.len() - i,
    {
        let id = items[i].item_id;
        if m.contains_key(&id) {
            proof {
                let j = m@[id] as int;
                assert(items@[j].item_id == items@[i as int].item_id);
                assert(!ids_distinct(items@));
            }
            return None;
        }
        m.insert(id, i);
        proof {
            assert forall|id2: u128| #[trigger] m@.contains_key(id2) <==> has_id(items@, id2, 0, i + 1) by {
                if has_id(items@, id2, 0, i + 1) {
                    let j = choose|j: int| 0 <= j < i + 1 && #[trigger] items@[j].item_id == id2;
                    if j < i {
                        assert(has_id(items@, id2, 0, i as int));
                    }
                }
                if m@.contains_key(id2) && id2 != id {
                    assert(has_id(items@, id2, 0, i as int));
                    let j = choose|j: int| 0 <= j < i && #[trigger] items@[j].item_id == id2;
                    assert(items@[j].item_id == id2);
                }
                if id2 == id {
                    assert(items@[i as int].item_id == id2);
                }
            }
            assert forall|a: int, b: int| 0 <= a < b < i + 1 implies items@[a].item_id != items@[b].item_id by {
                if b == i && items@[a].item_id == id {
                    assert(has_id(items@, id, 0, i as int));
                }
            }
        }
        i = i + 1;
    }
    Some(m)
}

/// The parent index of every item and the number of roots, or the first parent error.
fn link_parents(items: &[TreeItemDraft], index: &HashMap<u128, usize>) -> (r: Result<(Vec<i64>, usize), OrganizeError>)
    requires
        ids_distinct(items@),
        items@.len() <= i64::MAX,
        forall|id: u128| #[trigger] index@.contains_key(id) <==> has_id(items@, id, 0, items@.len() as int),
        forall|id: u128| #[trigger] index@.contains_key(id) ==> index@[id] < items@.len() && items@[index@[id] as int].item_id == id,
    ensures
        match parent_error(items@, items@.len() as int) {
            Some(m) => r matches Err(OrganizeError::InvalidTree(e)) && e@ == m,
            None => r matches Ok((v, roots)) && int_seq(v@) == parent_indexes(items@)
                && roots == root_count(items@, items@.len() as int),
        },
{
    let mut v: Vec<i64> = Vec::new();
    let mut roots: usize = 0;
    let mut i: usize = 0;
    while i < items.len()
        invariant
            i <= items.len(),
            items@.len() <= i64::MAX,
            ids_distinct(items@),
            forall|id: u128| #[trigger] index@.contains_key(id) <==> has_id(items@, id, 0, items@.len() as int),
            forall|id: u128| #[trigger] index@.contains_key(id) ==> index@[id] < items@.len() && items@[index@[id] as int].item_id == id,
            parent_error(items@, i as int) is None,
            v@.len() == i,
            forall|j: int| 0 <= j < i ==> #[trigger] v@[j] as int == parent_index(items@, j),
            roots == root_count(items@, i as int),
            roots <= i,
        decreases items.len() - i,
    {
        match items[i].parent_item_id {
            None => {
                v.push(-1);
                roots = roots + 1;
            },
            Some(p) => {
                match index.get(&p) {
                    None => {
                        assert(parent_error(items@, i + 1) == Some(msg_missing_parent()));
                        proof {
                            lemma_parent_error_stays(items@, i + 1, items@.len() as int);
                        }
                        return Err(OrganizeError::InvalidTree(String::from_str("item refers to a missing parent")));
                    },
                    Some(j) => {
                        let j = *j;
                        if j >= i {
                            proof {
                                if has_id(items@, p, 0, i as int) {
                                    let k = choose|k: int| 0 <= k < i && #[trigger] items@[k].item_id == p;
                                    assert(items@[j as int].item_id == p);
                                    assert(false);
                                }
                                assert(parent_error(items@, i + 1) == Some(msg_parent_order()));
                                lemma_parent_error_stays(items@, i + 1, items@.len() as int);
                            }
                            return Err(
                                OrganizeError::InvalidTree(
                                    String::from_str("parents must precede children in depth-first input"),
                                ),
                            );
                        }
                        proof {
                            assert(items@[j as int].item_id == p);
                            assert(has_id(items@, p, 0, i as int));
                            let c = choose|c: int| 0 <= c < items@.len() && #[trigger] items@[c].item_id == p;
                            if c != j as int {
                                if c < j {
                                    assert(items@[c].item_id != items@[j as int].item_id);
                                } else {
                                    assert(items@[j as int].item_id != items@[c].item_id);
                                }
                            }
                            assert(parent_index(items@, i as int) == j as int);
                        }
                        v.push(j as i64);
                    },
                }
            },
        }
        proof {
            assert forall|k: int| 0 <= k < i + 1 implies #[trigger] v@[k] as int == parent_index(items@, k) by {
                if k < i {
                }
            }
        }
        i = i + 1;
    }
    assert(int_seq(v@) =~= parent_indexes(items@));
    Ok((v, roots))
}

proof fn lemma_parent_error_stays(items: Seq<TreeItemDraft>, k: int, n: int)
    requires
        0 <= k <= n,
        parent_error(items, k) is Some,
    ensures
        parent_error(items, n) == parent_error(items, k),
    decreases n - k,
{
    if k < n {
        lemma_parent_error_stays(items, k + 1, n);
    }
}

/// Whether some non-directory item has a child.
fn has_kind_error(items: &[TreeItemDraft], par: &Vec<i64>) -> (b: bool)
    requires
        par@.len() == items@.len(),
        items@.len() < i64::MAX,
    ensures
        b == kind_error(items@, int_seq(par@)),
{
    let ghost p = int_seq(par@);
    let n = items.len();
    let mut i: usize = 0;
    while i < n
        invariant
            n == items@.len(),
            n < i64::MAX,
            par@.len() == n,
            p == int_seq(par@),
            i <= n,
            forall|j: int| 0 <= j < i ==> !(#[trigger] has_child(p, j) && items@[j].kind != OrganizeItemKind::Directory),
        decreases n - i,
    {
        let child_follows = i + 1 < n && par[i + 1] == i as i64;
        assert(child_follows == has_child(p, i as int));
        if child_follows && items[i].kind != OrganizeItemKind::Directory {
            return true;
        }
        i = i + 1;
    }
    false
}

/// The tree values of a snapshot listed in depth-first order: each item's
/// interval `[index, end of its subtree)`, its units (the leaf items of its
/// subtree) and its aggregate size (saturated). The items are refused, in this
/// order, for duplicate ids, a parent that is missing or does not come first,
/// a root count other than one, an order that is not depth-first, and a child
/// under a non-directory.
pub fn compute_tree(items: &[TreeItemDraft]) -> (r: Result<Vec<TreeItemComputed>, OrganizeError>)
    requires
        items@.len() < i64::MAX,
    ensures
        match compute_tree_spec(items@) {
            Ok(v) => r matches Ok(c) && c@ == v,
            Err(m) => r matches Err(OrganizeError::InvalidTree(e)) && e@ == m,
        },
{
    let index = match index_by_id(items) {
        Some(m) => m,
        None => {
            return Err(OrganizeError::InvalidTree(String::from_str("duplicate item id")));
        },
    };
    let (par, roots) = match link_parents(items, &index) {
        Ok(x) => x,
        Err(e) => {
            return Err(e);
        },
    };
    let n = items.len();
    let ghost p = int_seq(par@);
    if roots != 1 {
        return Err(OrganizeError::InvalidTree(String::from_str("the organize tree must contain exactly one root")));
    }
    proof {
        assert(p =~= parent_indexes(items@));
        lemma_single_root_first(items@);
    }
    let ends = match subtree_ends(&par) {
        Some(e) => e,
        None => {
            return Err(OrganizeError::InvalidTree(String::from_str("items are not in fixed depth-first order")));
        },
    };
    if has_kind_error(items, &par) {
        return Err(OrganizeError::InvalidTree(String::from_str("only directories may contain children")));
    }
    // prefix counts of leaves and sizes
    let mut leaves: Vec<u64> = Vec::new();
    let mut bytes: Vec<u128> = Vec::new();
    leaves.push(0);
    bytes.push(0);
    let mut i: usize = 0;
    while i < n
        invariant
            i <= n,
            n == items@.len(),
            n < i64::MAX,
            par@.len() == n,
            p == int_seq(par@),
            leaves@.len() == i + 1,
            bytes@.len() == i + 1,
            forall|k: int| 0 <= k <= i ==> #[trigger] leaves@[k] as int == leaf_count(p, 0, k),
            forall|k: int| 0 <= k <= i ==> #[trigger] bytes@[k] as int == size_sum(items@, 0, k),
            forall|k: int| 0 <= k <= i ==> #[trigger] leaves@[k] <= k,
        decreases n - i,
    {
        let is_leaf = !(i + 1 < n && par[i + 1] == i as i64);
        assert(is_leaf == !has_child(p, i as int));
        let l = leaves[i] + if is_leaf { 1u64 } else { 0u64 };
        proof {
            lemma_size_sum_bound(items@, i + 1);
            assert((i + 1) * 0xffff_ffff_ffff_ffffnat <= 0xffff_ffff_ffff_fffe_0000_0000_0000_0001nat) by (nonlinear_arith)
                requires
                    i + 1 <= 0x7fff_ffff_ffff_ffffnat,
            ;
        }
        let b = bytes[i] + items[i].size_bytes as u128;
        leaves.push(l);
        bytes.push(b);
        i = i + 1;
    }
    let mut out: Vec<TreeItemComputed> = Vec::new();
    let mut j: usize = 0;
    while j < n
        invariant
            j <= n,
            n == items@.len(),
            n < i64::MAX,
            par@.len() == n,
            p == int_seq(par@),
            p == parent_indexes(items@),
            ends@.len() == n,
            forall|k: int| 0 <= k < n ==> #[trigger] ends@[k] as int == subtree_end(p, k),
            leaves@.len() == n + 1,
            bytes@.len() == n + 1,
            forall|k: int| 0 <= k <= n ==> #[trigger] leaves@[k] as int == leaf_count(p, 0, k),
            forall|k: int| 0 <= k <= n ==> #[trigger] bytes@[k] as int == size_sum(items@, 0, k),
            out@.len() == j,
            forall|k: int| 0 <= k < j ==> #[trigger] out@[k] == computed_at(items@, k),
        decreases n - j,
    {
        let e = ends[j];
        proof {
            lemma_subtree_end_bounds(p, j as int);
        }
        assert(j < e && e <= n);
        proof {
            lemma_leaf_count_split(p, j as int, e as int);
            lemma_size_sum_split(items@, j as int, e as int);
        }
        let units = leaves[e] - leaves[j];
        let total = bytes[e] - bytes[j];
        let agg: u64 = if total > 0xffff_ffff_ffff_ffffu128 { 0xffff_ffff_ffff_ffffu64 } else { total as u64 };
        let c = TreeItemComputed {
            item_id: items[j].item_id,
            tree_start: j as i64,
            tree_end: e as i64,
            unit_count: units,
            aggregate_size_bytes: agg,
        };
        assert(c == computed_at(items@, j as int));
        out.push(c);
        j = j + 1;
    }
    assert(out@ =~= Seq::new(items@.len(), |i: int| computed_at(items@, i)));
    Ok(out)
}

proof fn lemma_subtree_end_bounds(p: Seq<int>, i: int)
    requires
        0 <= i < p.len(),
    ensures
        i < subtree_end(p, i) <= p.len(),
{
    lemma_scan_end_bounds(p, i, i + 1);
}

proof fn lemma_scan_end_bounds(p: Seq<int>, i: int, e: int)
    requires
        e <= p.len(),
    ensures
        e <= scan_end(p, i, e) <= p.len(),
    decreases p.len() - e,
{
    if e < p.len() && is_anc(p, i, e) {
        lemma_scan_end_bounds(p, i, e + 1);
    }
}

/// With every parent before its child and exactly one root, the root comes first.
proof fn lemma_single_root_first(items: Seq<TreeItemDraft>)
    requires
        parent_error(items, items.len() as int) is None,
        root_count(items, items.len() as int) == 1,
        ids_distinct(items),
    ensures
        parents_precede(parent_indexes(items)),
{
    let p = parent_indexes(items);
    let n = items.len() as int;
    lemma_no_parent_error_each(items, n);
    assert(n >= 1) by {
        if n == 0 {
            assert(root_count(items, 0) == 0);
        }
    }
    assert(items[0].parent_item_id is None) by {
        if items[0].parent_item_id is Some {
            assert(item_parent_error(items, 0) is None);
            assert(!has_id(items, items[0].parent_item_id->Some_0, 0, 0));
        }
    }
    lemma_roots_after_first(items, n);
    assert forall|i: int| 1 <= i < p.len() implies 0 <= #[trigger] p[i] < i by {
        assert(items[i].parent_item_id is Some);
        let q = items[i].parent_item_id->Some_0;
        assert(item_parent_error(items, i) is None);
        assert(has_id(items, q, 0, i));
        let w = choose|w: int| 0 <= w < i && #[trigger] items[w].item_id == q;
        let c = choose|c: int| 0 <= c < items.len() && #[trigger] items[c].item_id == q;
        if c != w {
            if c < w {
                assert(items[c].item_id != items[w].item_id);
            } else {
                assert(items[w].item_id != items[c].item_id);
            }
        }
        assert(p[i] == parent_index(items, i));
    }
}

proof fn lemma_no_parent_error_each(items: Seq<TreeItemDraft>, k: int)
    requires
        0 <= k <= items.len(),
        parent_error(items, k) is None,
    ensures
        forall|i: int| 0 <= i < k ==> #[trigger] item_parent_error(items, i) is None,
    decreases k,
{
    if k > 0 {
        lemma_no_parent_error_each(items, k - 1);
    }
}

/// When the first item is a root and there is one root, every later item has a parent.
proof fn lemma_roots_after_first(items: Seq<TreeItemDraft>, k: int)
    requires
        1 <= k <= items.len(),
        items[0].parent_item_id is None,
        root_count(items, k) == 1,
    ensures
        forall|i: int| 1 <= i < k ==> #[trigger] items[i].parent_item_id is Some,
    decreases k,
{
    if k > 1 {
        lemma_root_count_mono(items, 1, k - 1);
        assert(root_count(items, 1) == 1) by {
            assert(root_count(items, 0) == 0);
        }
        lemma_roots_after_first(items, k - 1);
    }
}

proof fn lemma_root_count_mono(items: Seq<TreeItemDraft>, a: int, b: int)
    requires
        0 <= a <= b,
    ensures
        root_count(items, a) <= root_count(items, b),
    decreases b - a,
{
    if b > a {
        lemma_root_count_mono(items, a, b - 1);
    }
}

} // verus!

verus! {

// ----- selections -----

/// Whether two half-open intervals share a point.
pub open spec fn ranges_overlap_spec(ls: i64, le: i64, rs: i64, re: i64) -> bool {
    ls < re && rs < le
}

/// Whether two half-open intervals share a point.
pub fn ranges_overlap(left_start: i64, left_end: i64, right_start: i64, right_end: i64) -> (b: bool)
    ensures
        b == ranges_overlap_spec(left_start, left_end, right_start, right_end),
{
    left_start < right_end && right_start < left_end
}

/// The ids of `sel` in order, each kept at its first occurrence.
pub open spec fn dedup_ids(sel: Seq<u128>) -> Seq<u128>
    decreases sel.len(),
{
    if sel.len() == 0 {
        Seq::<u128>::empty()
    } else {
        let d = dedup_ids(sel.drop_last());
        if d.contains(sel.last()) {
            d
        } else {
            d.push(sel.last())
        }
    }
}

pub open spec fn msg_unknown_selection() -> Seq<char> {
    "selection contains an unknown item"@
}

pub open spec fn msg_invalid_interval() -> Seq<char> {
    "selection contains an invalid interval"@
}

/// What is wrong with selecting `id`: it has no interval, or an empty or negative one.
pub open spec fn selected_id_error(id: u128, iv: Map<u128, (i64, i64)>) -> Option<Seq<char>> {
    if !iv.contains_key(id) {
        Some(msg_unknown_selection())
    } else if iv[id].0 < 0 || iv[id].0 >= iv[id].1 {
        Some(msg_invalid_interval())
    } else {
        None
    }
}

/// The error of the first of the first `k` ids that has one.
pub open spec fn selection_error(ids: Seq<u128>, iv: Map<u128, (i64, i64)>, k: int) -> Option<Seq<char>>
    decreases k,
{
    if k <= 0 {
        None
    } else {
        match selection_error(ids, iv, k - 1) {
            Some(m) => Some(m),
            None => selected_id_error(ids[k - 1], iv),
        }
    }
}

/// Whether interval `a` contains interval `b`.
pub open spec fn covers(a: (i64, i64), b: (i64, i64)) -> bool {
    a.0 <= b.0 && b.1 <= a.1
}

/// Whether the `k`-th selected id lies inside another selected interval (for two
/// equal intervals, the later one is the one inside).
pub open spec fn shadowed(ids: Seq<u128>, iv: Map<u128, (i64, i64)>, k: int) -> bool {
    exists|j: int|
        0 <= j < ids.len() && j != k && #[trigger] covers(iv[ids[j]], iv[ids[k]]) && (iv[ids[j]] != iv[ids[k]] || j < k)
}

/// Whether `x` is an outermost selected item.
pub open spec fn outermost(ids: Seq<u128>, iv: Map<u128, (i64, i64)>, x: u128) -> bool {
    exists|k: int| 0 <= k < ids.len() && ids[k] == x && !#[trigger] shadowed(ids, iv, k)
}

/// What `normalize_selection` returns: the error of the first bad id, or the
/// outermost selected items, once each, in increasing interval start.
pub open spec fn normalized_selection_is(
    r: Result<Vec<u128>, OrganizeError>,
    sel: Seq<u128>,
    iv: Map<u128, (i64, i64)>,
) -> bool {
    let ids = dedup_ids(sel);
    match selection_error(ids, iv, ids.len() as int) {
        Some(m) => r matches Err(OrganizeError::InvalidTree(e)) && e@ == m,
        None => r matches Ok(out) && out@ == normalized_ids(sel, iv) && out@.no_duplicates() && (forall|x: u128|
            #[trigger] out@.contains(x) <==> outermost(ids, iv, x)) && (forall|a: int, b: int|
            0 <= a < b < out@.len() ==> iv[out@[a]].0 < iv[out@[b]].0),
    }
}

proof fn lemma_dedup_facts(sel: Seq<u128>)
    ensures
        dedup_ids(sel).no_duplicates(),
        forall|x: u128| #[trigger] dedup_ids(sel).contains(x) <==> sel.contains(x),
    decreases sel.len(),
{
    if sel.len() > 0 {
        lemma_dedup_facts(sel.drop_last());
        let d = dedup_ids(sel.drop_last());
        assert forall|x: u128| #[trigger] dedup_ids(sel).contains(x) <==> sel.contains(x) by {
            if sel.contains(x) {
                let k = choose|k: int| 0 <= k < sel.len() && sel[k] == x;
                if k < sel.len() - 1 {
                    assert(sel.drop_last()[k] == x);
                }
            }
            if sel.drop_last().contains(x) {
                let k = choose|k: int| 0 <= k < sel.len() - 1 && sel.drop_last()[k] == x;
                assert(sel[k] == x);
            }
            if !d.contains(sel.last()) {
                assert(d.push(sel.last())[d.len() as int] == sel.last());
                if d.contains(x) {
                    let k = choose|k: int| 0 <= k < d.len() && d[k] == x;
                    assert(d.push(sel.last())[k] == x);
                }
                if d.push(sel.last()).contains(x) && x != sel.last() {
                    let k = choose|k: int| 0 <= k < d.len() + 1 && d.push(sel.last())[k] == x;
                    assert(d[k] == x);
                }
            }
        }
    }
}

/// `e` inserted into `s` before the first entry whose interval start is not smaller.
pub open spec fn sorted_insert(s: Seq<(u128, i64, i64)>, e: (u128, i64, i64)) -> Seq<(u128, i64, i64)>
    decreases s.len(),
{
    if s.len() == 0 {
        seq![e]
    } else if s[0].1 < e.1 {
        seq![s[0]] + sorted_insert(s.drop_first(), e)
    } else {
        seq![e] + s
    }
}

proof fn lemma_sorted_insert_at(s: Seq<(u128, i64, i64)>, e: (u128, i64, i64), pos: int)
    requires
        0 <= pos <= s.len(),
        forall|a: int| 0 <= a < pos ==> s[a].1 < e.1,
        pos == s.len() || s[pos].1 >= e.1,
    ensures
        sorted_insert(s, e) == s.insert(pos, e),
    decreases s.len(),
{
    if s.len() == 0 {
        assert(s.insert(pos, e) =~= seq![e]);
    } else if pos == 0 {
        assert(s.insert(pos, e) =~= seq![e] + s);
    } else {
        let t = s.drop_first();
        assert forall|a: int| 0 <= a < pos - 1 implies t[a].1 < e.1 by {
            assert(t[a] == s[a + 1]);
        }
        if pos < s.len() {
            assert(t[pos - 1] == s[pos]);
        }
        lemma_sorted_insert_at(t, e, pos - 1);
        assert(seq![s[0]] + t.insert(pos - 1, e) =~= s.insert(pos, e));
    }
}

/// The entries kept among the first `k` selected ids, in increasing interval start.
pub open spec fn kept_sorted(ids: Seq<u128>, iv: Map<u128, (i64, i64)>, k: int) -> Seq<(u128, i64, i64)>
    decreases k,
{
    if k <= 0 {
        Seq::<(u128, i64, i64)>::empty()
    } else {
        let prev = kept_sorted(ids, iv, k - 1);
        if shadowed(ids, iv, k - 1) {
            prev
        } else {
            sorted_insert(prev, (ids[k - 1], iv[ids[k - 1]].0, iv[ids[k - 1]].1))
        }
    }
}

/// The normalized selection: the outermost selected ids in increasing interval start.
pub open spec fn normalized_ids(sel: Seq<u128>, iv: Map<u128, (i64, i64)>) -> Seq<u128> {
    let ids = dedup_ids(sel);
    kept_sorted(ids, iv, ids.len() as int).map_values(|e: (u128, i64, i64)| e.0)
}

/// Insert `e` into `v`, kept in increasing interval start.
fn insert_by_start(v: &mut Vec<(u128, i64, i64)>, e: (u128, i64, i64))
    requires
        forall|a: int, b: int| 0 <= a < b < old(v)@.len() ==> old(v)@[a].1 < old(v)@[b].1,
        forall|a: int| 0 <= a < old(v)@.len() ==> old(v)@[a].1 != e.1,
    ensures
        final(v)@.len() == old(v)@.len() + 1,
        final(v)@ == sorted_insert(old(v)@, e),
        forall|a: int, b: int| 0 <= a < b < final(v)@.len() ==> final(v)@[a].1 < final(v)@[b].1,
        forall|x: (u128, i64, i64)| #[trigger] final(v)@.contains(x) <==> (old(v)@.contains(x) || x == e),
{
    let mut pos: usize = 0;
    while pos < v.len() && v[pos].1 < e.1
        invariant
            pos <= v@.len(),
            v@ == old(v)@,
            forall|a: int| 0 <= a < pos ==> v@[a].1 < e.1,
        decreases v@.len() - pos,
    {
        pos = pos + 1;
    }
    let ghost before = v@;
    v.insert(pos, e);
    proof {
        assert(v@ == before.insert(pos as int, e));
        lemma_sorted_insert_at(before, e, pos as int);
        assert forall|a: int, b: int| 0 <= a < b < v@.len() implies v@[a].1 < v@[b].1 by {
            if b < pos {
            } else if b == pos {
                assert(v@[a] == before[a]);
            } else if a < pos {
                assert(v@[b] == before[b - 1]);
                assert(before[b - 1].1 > e.1 || before[b - 1].1 < e.1);
                if pos < before.len() {
                    assert(before[pos as int].1 >= e.1);
                    assert(before[pos as int].1 > e.1);
                    if b - 1 > pos {
                        assert(before[pos as int].1 < before[b - 1].1);
                    }
                }
            } else if a == pos {
                assert(v@[b] == before[b - 1]);
                assert(before[pos as int].1 >= e.1);
                assert(before[pos as int].1 != e.1);
                if b - 1 > pos {
                    assert(before[pos as int].1 < before[b - 1].1);
                }
            } else {
                assert(v@[a] == before[a - 1] && v@[b] == before[b - 1]);
            }
        }
        assert forall|x: (u128, i64, i64)| #[trigger] v@.contains(x) <==> (before.contains(x) || x == e) by {
            if v@.contains(x) {
                let k = choose|k: int| 0 <= k < v@.len() && v@[k] == x;
                if k < pos {
                    assert(before[k] == x);
                } else if k > pos {
                    assert(before[k - 1] == x);
                }
            }
            if before.contains(x) {
                let k = choose|k: int| 0 <= k < before.len() && before[k] == x;
                if k < pos {
                    assert(v@[k] == x);
                } else {
                    assert(v@[k + 1] == x);
                }
            }
            if x == e {
                assert(v@[pos as int] == e);
            }
        }
    }
}

/// The outermost items of a selection: duplicates are ignored, every selected
/// item must have a valid interval, and an item inside another selected item's
/// interval is dropped. The result is ordered by interval start.
pub fn normalize_selection(selected: &[u128], intervals: &HashMap<u128, (i64, i64)>) -> (r: Result<Vec<u128>, OrganizeError>)
    ensures
        normalized_selection_is(r, selected@, intervals@),
{
    let ghost iv = intervals@;
    let mut seen: HashSet<u128> = HashSet::new();
    let mut entries: Vec<(u128, i64, i64)> = Vec::new();
    let mut i: usize = 0;
    proof {
        assert(selected@.take(0) =~= Seq::<u128>::empty());
    }
    while i < selected.len()
        invariant
            i <= selected.len(),
            iv == intervals@,
            seen@ == dedup_ids(selected@.take(i as int)).to_set(),
            entries@.len() == dedup_ids(selected@.take(i as int)).len(),
            forall|k: int| 0 <= k < entries@.len() ==> #[trigger] entries@[k].0 == dedup_ids(selected@.take(i as int))[k]
                && iv.contains_key(entries@[k].0) && iv[entries@[k].0] == (entries@[k].1, entries@[k].2),
            selection_error(dedup_ids(selected@.take(i as int)), iv, entries@.len() as int) is None,
            forall|k: int| 0 <= k < entries@.len() ==> 0 <= #[trigger] entries@[k].1 < entries@[k].2,
        decreases selected.len() - i,
    {
        let id = selected[i];
        let ghost d0 = dedup_ids(selected@.take(i as int));
        assert(selected@.take(i + 1).drop_last() =~= selected@.take(i as int));
        assert(selected@.take(i + 1).last() == id);
        if !seen.insert(id) {
            proof {
                assert(d0.to_set().contains(id));
                assert(d0.contains(id));
            }
            i = i + 1;
            continue;
        }
        assert(!d0.contains(id)) by {
            if d0.contains(id) {
                let k = choose|k: int| 0 <= k < d0.len() && d0[k] == id;
                assert(d0.to_set().contains(id));
            }
        }
        let ghost d1 = dedup_ids(selected@.take(i + 1));
        assert(d1 == d0.push(id));
        proof {
            lemma_selection_error_same(d1, d0, iv, d0.len() as int);
        }
        let (start, end) = match intervals.get(&id) {
            Some(v) => *v,
            None => {
                proof {
                    lemma_selection_error_extend(selected@, iv, i as int);
                }
                return Err(OrganizeError::InvalidTree(String::from_str("selection contains an unknown item")));
            },
        };
        if start < 0 || start >= end {
            proof {
                lemma_selection_error_extend(selected@, iv, i as int);
            }
            return Err(OrganizeError::InvalidTree(String::from_str("selection contains an invalid interval")));
        }
        entries.push((id, start, end));
        proof {
            assert forall|y: u128| #[trigger] seen@.contains(y) <==> d1.to_set().contains(y) by {
                if d1.contains(y) {
                    let q = choose|q: int| 0 <= q < d1.len() && d1[q] == y;
                    if q < d0.len() {
                        assert(d0[q] == y);
                        assert(d0.contains(y));
                    }
                }
                if d0.contains(y) {
                    let q = choose|q: int| 0 <= q < d0.len() && d0[q] == y;
                    assert(d1[q] == y);
                }
                assert(d1[d0.len() as int] == id);
            }
            assert(seen@ =~= d1.to_set());
            assert(selection_error(d1, iv, d1.len() as int) is None);
        }
        i = i + 1;
    }
    assert(selected@.take(selected@.len() as int) =~= selected@);
    let ghost ids = dedup_ids(selected@);
    proof {
        lemma_dedup_facts(selected@);
    }
    let n = entries.len();
    // keep the entries that lie in no other selected interval
    let mut kept: Vec<(u128, i64, i64)> = Vec::new();
    let mut k: usize = 0;
    while k < n
        invariant
            k <= n,
            n == entries@.len(),
            n == ids.len(),
            ids.no_duplicates(),
            forall|q: int| 0 <= q < n ==> #[trigger] entries@[q].0 == ids[q] && iv.contains_key(entries@[q].0)
                && iv[entries@[q].0] == (entries@[q].1, entries@[q].2),
            forall|q: int| 0 <= q < n ==> 0 <= #[trigger] entries@[q].1 < entries@[q].2,
            forall|a: int, b: int| 0 <= a < b < kept@.len() ==> kept@[a].1 < kept@[b].1,
            forall|x: (u128, i64, i64)| #[trigger] kept@.contains(x) <==> exists|q: int|
                0 <= q < k && entries@[q] == x && !#[trigger] shadowed(ids, iv, q),
            kept@ == kept_sorted(ids, iv, k as int),
        decreases n - k,
    {
        let e = entries[k];
        let mut inside = false;
        let mut j: usize = 0;
        while j < n
            invariant
                j <= n,
                n == entries@.len(),
                n == ids.len(),
                k < n,
                e == entries@[k as int],
                forall|q: int| 0 <= q < n ==> #[trigger] entries@[q].0 == ids[q] && iv.contains_key(entries@[q].0)
                    && iv[entries@[q].0] == (entries@[q].1, entries@[q].2),
                inside <==> exists|q: int|
                    0 <= q < j && q != k && #[trigger] covers(iv[ids[q]], iv[ids[k as int]]) && (iv[ids[q]]
                        != iv[ids[k as int]] || q < k),
            decreases n - j,
        {
            let f = entries[j];
            let cond = j != k && f.1 <= e.1 && e.2 <= f.2 && (f.1 != e.1 || f.2 != e.2 || j < k);
            proof {
                assert(entries@[j as int].0 == ids[j as int]);
                assert(entries@[k as int].0 == ids[k as int]);
                assert(iv[ids[j as int]] == (f.1, f.2));
                assert(iv[ids[k as int]] == (e.1, e.2));
                assert(cond == (j != k && covers(iv[ids[j as int]], iv[ids[k as int]]) && (iv[ids[j as int]]
                    != iv[ids[k as int]] || j < k)));
            }
            let ghost old_inside = inside;
            if cond {
                inside = true;
            }
            proof {
                if exists|q: int|
                    0 <= q < j + 1 && q != k && #[trigger] covers(iv[ids[q]], iv[ids[k as int]]) && (iv[ids[q]]
                        != iv[ids[k as int]] || q < k) {
                    let q = choose|q: int|
                        0 <= q < j + 1 && q != k && #[trigger] covers(iv[ids[q]], iv[ids[k as int]]) && (iv[ids[q]]
                            != iv[ids[k as int]] || q < k);
                    if q < j {
                        assert(old_inside);
                    }
                }
                if inside {
                    if !old_inside {
                        assert(covers(iv[ids[j as int]], iv[ids[k as int]]));
                    }
                }
            }
            j = j + 1;
        }
        assert(inside == shadowed(ids, iv, k as int));
        assert(entries@[k as int].0 == ids[k as int]);
        assert(e == (ids[k as int], iv[ids[k as int]].0, iv[ids[k as int]].1));
        let ghost before = kept@;
        if !inside {
            proof {
                assert forall|a: int| 0 <= a < kept@.len() implies kept@[a].1 != e.1 by {
                    assert(kept@.contains(kept@[a]));
                    let q = choose|q: int| 0 <= q < k && entries@[q] == kept@[a] && !#[trigger] shadowed(ids, iv, q);
                    if entries@[q].1 == e.1 {
                        let fq = (entries@[q].1, entries@[q].2);
                        let fk = (e.1, e.2);
                        assert(entries@[q].0 == ids[q]);
                        assert(entries@[k as int].0 == ids[k as int]);
                        assert(iv[ids[q]] == fq);
                        assert(iv[ids[k as int]] == fk);
                        if fq.1 <= fk.1 {
                            assert(covers(iv[ids[k as int]], iv[ids[q]]));
                            assert(shadowed(ids, iv, q));
                        } else {
                            assert(covers(iv[ids[q]], iv[ids[k as int]]));
                            assert(shadowed(ids, iv, k as int));
                        }
                    }
                }
            }
            insert_by_start(&mut kept, e);
        }
        proof {
            assert forall|x: (u128, i64, i64)| #[trigger] kept@.contains(x) <==> exists|q: int|
                0 <= q < k + 1 && entries@[q] == x && !#[trigger] shadowed(ids, iv, q) by {
                if kept@.contains(x) && !before.contains(x) {
                    assert(x == e);
                    assert(entries@[k as int] == x && !shadowed(ids, iv, k as int));
                }
                if exists|q: int| 0 <= q < k + 1 && entries@[q] == x && !#[trigger] shadowed(ids, iv, q) {
                    let q = choose|q: int| 0 <= q < k + 1 && entries@[q] == x && !#[trigger] shadowed(ids, iv, q);
                    if q < k {
                        assert(before.contains(x));
                    }
                }
            }
        }
        k = k + 1;
    }
    let mut out: Vec<u128> = Vec::new();
    let mut m: usize = 0;
    while m < kept.len()
        invariant
            m <= kept@.len(),
            out@.len() == m,
            forall|q: int| 0 <= q < m ==> #[trigger] out@[q] == kept@[q].0,
        decreases kept@.len() - m,
    {
        out.push(kept[m].0);
        m = m + 1;
    }
    proof {
        assert forall|q: int| 0 <= q < kept@.len() implies iv.contains_key(#[trigger] kept@[q].0) && iv[kept@[q].0] == (kept@[q].1, kept@[q].2) by {
            assert(kept@.contains(kept@[q]));
            let w = choose|w: int| 0 <= w < n && entries@[w] == kept@[q] && !#[trigger] shadowed(ids, iv, w);
            assert(entries@[w].0 == ids[w]);
        }
        assert forall|a: int, b: int| 0 <= a < b < out@.len() implies iv[out@[a]].0 < iv[out@[b]].0 by {
            assert(out@[a] == kept@[a].0 && out@[b] == kept@[b].0);
        }
        assert(out@ =~= kept@.map_values(|e: (u128, i64, i64)| e.0));
        assert forall|x: u128| #[trigger] out@.contains(x) <==> outermost(ids, iv, x) by {
            if out@.contains(x) {
                let q = choose|q: int| 0 <= q < out@.len() && out@[q] == x;
                assert(kept@.contains(kept@[q]));
                let w = choose|w: int| 0 <= w < n && entries@[w] == kept@[q] && !#[trigger] shadowed(ids, iv, w);
                assert(ids[w] == x);
            }
            if outermost(ids, iv, x) {
                let w = choose|w: int| 0 <= w < ids.len() && ids[w] == x && !#[trigger] shadowed(ids, iv, w);
                assert(kept@.contains(entries@[w]));
                let q = choose|q: int| 0 <= q < kept@.len() && kept@[q] == entries@[w];
                assert(out@[q] == x);
            }
        }
        assert forall|a: int, b: int| 0 <= a < b < out@.len() implies out@[a] != out@[b] by {
            assert(kept@[a].1 < kept@[b].1);
            assert(iv[out@[a]].0 < iv[out@[b]].0);
        }
    }
    Ok(out)
}

proof fn lemma_selection_error_same(a: Seq<u128>, b: Seq<u128>, iv: Map<u128, (i64, i64)>, k: int)
    requires
        0 <= k <= a.len(),
        k <= b.len(),
        forall|j: int| 0 <= j < k ==> a[j] == b[j],
    ensures
        selection_error(a, iv, k) == selection_error(b, iv, k),
    decreases k,
{
    if k > 0 {
        lemma_selection_error_same(a, b, iv, k - 1);
    }
}

proof fn lemma_selection_error_extend(sel: Seq<u128>, iv: Map<u128, (i64, i64)>, i: int)
    requires
        0 <= i < sel.len(),
        !dedup_ids(sel.take(i)).contains(sel[i]),
        selection_error(dedup_ids(sel.take(i + 1)), iv, dedup_ids(sel.take(i)).len() as int) is None,
        dedup_ids(sel.take(i + 1)) == dedup_ids(sel.take(i)).push(sel[i]),
        selected_id_error(sel[i], iv) is Some,
    ensures
        selection_error(dedup_ids(sel), iv, dedup_ids(sel).len() as int) == selected_id_error(sel[i], iv),
{
    let d1 = dedup_ids(sel.take(i + 1));
    let k = d1.len() as int;
    assert(sel.take(sel.len() as int) =~= sel);
    assert(selection_error(d1, iv, k) == selected_id_error(sel[i], iv));
    lemma_dedup_prefix(sel, i + 1, sel.len() as int);
    let d = dedup_ids(sel);
    lemma_selection_error_same(d1, d, iv, k);
    lemma_selection_error_stays(d, iv, k, d.len() as int);
}

proof fn lemma_selection_error_stays(ids: Seq<u128>, iv: Map<u128, (i64, i64)>, k: int, n: int)
    requires
        0 <= k <= n,
        selection_error(ids, iv, k) is Some,
    ensures
        selection_error(ids, iv, n) == selection_error(ids, iv, k),
    decreases n - k,
{
    if k < n {
        lemma_selection_error_stays(ids, iv, k + 1, n);
    }
}

/// The dedup of a prefix is a prefix of the dedup of a longer prefix.
proof fn lemma_dedup_prefix(sel: Seq<u128>, a: int, b: int)
    requires
        0 <= a <= b <= sel.len(),
    ensures
        dedup_ids(sel.take(a)).len() <= dedup_ids(sel.take(b)).len(),
        forall|j: int| 0 <= j < dedup_ids(sel.take(a)).len() ==> #[trigger] dedup_ids(sel.take(a))[j] == dedup_ids(sel.take(b))[j],
    decreases b - a,
{
    if a < b {
        lemma_dedup_prefix(sel, a, b - 1);
        assert(sel.take(b).drop_last() =~= sel.take(b - 1));
    }
    if b == sel.len() {
        assert(sel.take(b) =~= sel);
    }
}

} // verus!

verus! {

// ----- decision roots -----

/// The interval of a decision root.
pub open spec fn root_ivl(r: ExplicitDecisionRoot) -> (i64, i64) {
    (r.tree_start, r.tree_end)
}

/// Whether root `k` lies inside another root's interval (for two equal
/// intervals, the later root is the one inside).
pub open spec fn root_shadowed(decs: Seq<ExplicitDecisionRoot>, k: int) -> bool {
    exists|j: int|
        0 <= j < decs.len() && j != k && #[trigger] covers(root_ivl(decs[j]), root_ivl(decs[k])) && (root_ivl(decs[j])
            != root_ivl(decs[k]) || j < k)
}

/// The commit order of roots: by decision priority (moves, keeps, discards),
/// then by interval start.
pub open spec fn root_before(a: ExplicitDecisionRoot, b: ExplicitDecisionRoot) -> bool {
    priority_spec(a.decision) < priority_spec(b.decision) || (priority_spec(a.decision) == priority_spec(
        b.decision,
    ) && a.tree_start < b.tree_start)
}

/// What `compact_operation_roots` returns: the roots that lie in no other root,
/// in commit order.
pub open spec fn compacted_is(out: Seq<ExplicitDecisionRoot>, decs: Seq<ExplicitDecisionRoot>) -> bool {
    &&& forall|x: ExplicitDecisionRoot| #[trigger] out.contains(x) <==> exists|k: int|
        0 <= k < decs.len() && decs[k] == x && !#[trigger] root_shadowed(decs, k)
    &&& forall|a: int, b: int| 0 <= a < b < out.len() ==> root_before(out[a], out[b])
}

/// Insert `e` into `v`, kept in commit order.
fn insert_root(v: &mut Vec<ExplicitDecisionRoot>, e: ExplicitDecisionRoot)
    requires
        forall|a: int, b: int| 0 <= a < b < old(v)@.len() ==> root_before(old(v)@[a], old(v)@[b]),
        forall|a: int| 0 <= a < old(v)@.len() ==> old(v)@[a].tree_start != e.tree_start,
    ensures
        forall|a: int, b: int| 0 <= a < b < final(v)@.len() ==> root_before(final(v)@[a], final(v)@[b]),
        forall|x: ExplicitDecisionRoot| #[trigger] final(v)@.contains(x) <==> (old(v)@.contains(x) || x == e),
{
    let ep = e.decision.priority();
    let mut pos: usize = 0;
    while pos < v.len() && (v[pos].decision.priority() < ep || (v[pos].decision.priority() == ep
        && v[pos].tree_start < e.tree_start))
        invariant
            pos <= v@.len(),
            v@ == old(v)@,
            ep == priority_spec(e.decision),
            forall|a: int| 0 <= a < pos ==> root_before(v@[a], e),
        decreases v@.len() - pos,
    {
        pos = pos + 1;
    }
    let ghost before = v@;
    v.insert(pos, e);
    proof {
        if pos < before.len() {
            assert(!root_before(before[pos as int], e));
            assert(root_before(e, before[pos as int]));
        }
        assert forall|a: int, b: int| 0 <= a < b < v@.len() implies root_before(v@[a], v@[b]) by {
            if b < pos {
            } else if b == pos {
                assert(v@[a] == before[a]);
            } else if a < pos {
                assert(v@[a] == before[a]);
                assert(v@[b] == before[b - 1]);
                if b - 1 > pos {
                    assert(root_before(before[pos as int], before[b - 1]));
                }
            } else if a == pos {
                assert(v@[b] == before[b - 1]);
                if b - 1 > pos {
                    assert(root_before(before[pos as int], before[b - 1]));
                }
            } else {
                assert(v@[a] == before[a - 1] && v@[b] == before[b - 1]);
            }
        }
        assert forall|x: ExplicitDecisionRoot| #[trigger] v@.contains(x) <==> (before.contains(x) || x == e) by {
            if v@.contains(x) {
                let k = choose|k: int| 0 <= k < v@.len() && v@[k] == x;
                if k < pos {
                    assert(before[k] == x);
                } else if k > pos {
                    assert(before[k - 1] == x);
                }
            }
            if before.contains(x) {
                let k = choose|k: int| 0 <= k < before.len() && before[k] == x;
                if k < pos {
                    assert(v@[k] == x);
                } else {
                    assert(v@[k + 1] == x);
                }
            }
            if x == e {
                assert(v@[pos as int] == e);
            }
        }
    }
}

/// The decision roots that lie inside no other root, in commit order: moves
/// first, then keeps, then discards, each by interval start.
pub fn compact_operation_roots(decisions: &[ExplicitDecisionRoot]) -> (r: Vec<ExplicitDecisionRoot>)
    ensures
        compacted_is(r@, decisions@),
{
    let n = decisions.len();
    let ghost decs = decisions@;
    let mut kept: Vec<ExplicitDecisionRoot> = Vec::new();
    let mut k: usize = 0;
    while k < n
        invariant
            k <= n,
            n == decs.len(),
            decs == decisions@,
            forall|a: int, b: int| 0 <= a < b < kept@.len() ==> root_before(kept@[a], kept@[b]),
            forall|x: ExplicitDecisionRoot| #[trigger] kept@.contains(x) <==> exists|q: int|
                0 <= q < k && decs[q] == x && !#[trigger] root_shadowed(decs, q),
        decreases n - k,
    {
        let e = &decisions[k];
        let mut inside = false;
        let mut j: usize = 0;
        while j < n
            invariant
                j <= n,
                n == decs.len(),
                decs == decisions@,
                k < n,
                *e == decs[k as int],
                inside <==> exists|q: int|
                    0 <= q < j && q != k && #[trigger] covers(root_ivl(decs[q]), root_ivl(decs[k as int]))
                        && (root_ivl(decs[q]) != root_ivl(decs[k as int]) || q < k),
            decreases n - j,
        {
            let f = &decisions[j];
            let cond = j != k && f.tree_start <= e.tree_start && e.tree_end <= f.tree_end && (f.tree_start
                != e.tree_start || f.tree_end != e.tree_end || j < k);
            assert(cond == (j != k && covers(root_ivl(decs[j as int]), root_ivl(decs[k as int])) && (root_ivl(
                decs[j as int],
            ) != root_ivl(decs[k as int]) || j < k)));
            let ghost old_inside = inside;
            if cond {
                inside = true;
            }
            proof {
                if exists|q: int|
                    0 <= q < j + 1 && q != k && #[trigger] covers(root_ivl(decs[q]), root_ivl(decs[k as int]))
                        && (root_ivl(decs[q]) != root_ivl(decs[k as int]) || q < k) {
                    let q = choose|q: int|
                        0 <= q < j + 1 && q != k && #[trigger] covers(root_ivl(decs[q]), root_ivl(decs[k as int]))
                            && (root_ivl(decs[q]) != root_ivl(decs[k as int]) || q < k);
                    if q < j {
                        assert(old_inside);
                    }
                }
                if inside && !old_inside {
                    assert(covers(root_ivl(decs[j as int]), root_ivl(decs[k as int])));
                }
            }
            j = j + 1;
        }
        assert(inside == root_shadowed(decs, k as int));
        let ghost before = kept@;
        if !inside {
            proof {
                assert forall|a: int| 0 <= a < kept@.len() implies kept@[a].tree_start != e.tree_start by {
                    assert(kept@.contains(kept@[a]));
                    let q = choose|q: int| 0 <= q < k && decs[q] == kept@[a] && !#[trigger] root_shadowed(decs, q);
                    if decs[q].tree_start == e.tree_start {
                        if decs[q].tree_end <= e.tree_end {
                            assert(covers(root_ivl(decs[k as int]), root_ivl(decs[q])));
                            assert(root_shadowed(decs, q));
                        } else {
                            assert(covers(root_ivl(decs[q]), root_ivl(decs[k as int])));
                            assert(root_shadowed(decs, k as int));
                        }
                    }
                }
            }
            insert_root(&mut kept, e.duplicate());
        }
        proof {
            assert forall|x: ExplicitDecisionRoot| #[trigger] kept@.contains(x) <==> exists|q: int|
                0 <= q < k + 1 && decs[q] == x && !#[trigger] root_shadowed(decs, q) by {
                if kept@.contains(x) && !before.contains(x) {
                    assert(decs[k as int] == x && !root_shadowed(decs, k as int));
                }
                if exists|q: int| 0 <= q < k + 1 && decs[q] == x && !#[trigger] root_shadowed(decs, q) {
                    let q = choose|q: int| 0 <= q < k + 1 && decs[q] == x && !#[trigger] root_shadowed(decs, q);
                    if q < k {
                        assert(before.contains(x));
                    }
                }
            }
        }
        k = k + 1;
    }
    kept
}

} // verus!

verus! {

// ----- progress -----

/// Whether node `k` lies in no node with another id.
pub open spec fn outer_node(nodes: Seq<TreeItemComputed>, k: int) -> bool {
    !exists|j: int|
        0 <= j < nodes.len() && #[trigger] nodes[j].item_id != nodes[k].item_id && nodes[j].tree_start
            <= nodes[k].tree_start && nodes[k].tree_end <= nodes[j].tree_end
}

/// The units of the outer nodes among the first `k`.
pub open spec fn outer_units(nodes: Seq<TreeItemComputed>, k: int) -> nat
    decreases k,
{
    if k <= 0 {
        0
    } else {
        outer_units(nodes, k - 1) + if outer_node(nodes, k - 1) {
            nodes[k - 1].unit_count as nat
        } else {
            0nat
        }
    }
}

/// Which decisions a unit sum counts.
pub enum UnitKind {
    All,
    Keep,
    Discard,
    Move,
}

pub open spec fn counts(kind: UnitKind, d: DecisionValue) -> bool {
    match kind {
        UnitKind::All => true,
        UnitKind::Keep => d is Keep,
        UnitKind::Discard => d is Discard,
        UnitKind::Move => d is Move,
    }
}

/// The units of the first `k` roots that lie in no other root and whose
/// decision `kind` counts.
pub open spec fn kept_units(decs: Seq<ExplicitDecisionRoot>, kind: UnitKind, k: int) -> nat
    decreases k,
{
    if k <= 0 {
        0
    } else {
        kept_units(decs, kind, k - 1) + if !root_shadowed(decs, k - 1) && counts(kind, decs[k - 1].decision) {
            decs[k - 1].unit_count as nat
        } else {
            0nat
        }
    }
}

/// Whether a root that lies in no other root has no units or an empty interval.
pub open spec fn invalid_kept_root(decs: Seq<ExplicitDecisionRoot>) -> bool {
    exists|k: int|
        0 <= k < decs.len() && !#[trigger] root_shadowed(decs, k) && (decs[k].unit_count == 0 || decs[k].tree_start
            >= decs[k].tree_end)
}

pub open spec fn msg_invalid_root() -> Seq<char> {
    "decision root has invalid interval or units"@
}

pub open spec fn msg_roots_exceed() -> Seq<char> {
    "decision roots exceed tree units"@
}

/// What `reduce_progress` returns: the units of the outer nodes as the total;
/// the units of the compacted roots as processed (saturated), split by decision;
/// the rest as unmarked. Refused when a compacted root is invalid or the
/// processed units pass the total.
pub open spec fn progress_is(
    r: Result<OrganizeProgressSummary, OrganizeError>,
    nodes: Seq<TreeItemComputed>,
    decs: Seq<ExplicitDecisionRoot>,
) -> bool {
    let total = outer_units(nodes, nodes.len() as int);
    let processed = saturate(kept_units(decs, UnitKind::All, decs.len() as int));
    if invalid_kept_root(decs) {
        r matches Err(OrganizeError::InvalidTree(e)) && e@ == msg_invalid_root()
    } else if processed > total {
        r matches Err(OrganizeError::InvalidTree(e)) && e@ == msg_roots_exceed()
    } else {
        r matches Ok(s) && s.total_units == total && s.processed_units == processed && s.keep_units
            == kept_units(decs, UnitKind::Keep, decs.len() as int) && s.discard_units == kept_units(
            decs,
            UnitKind::Discard,
            decs.len() as int,
        ) && s.move_units == kept_units(decs, UnitKind::Move, decs.len() as int) && s.unmarked_units
            == total - processed
    }
}

proof fn lemma_kept_units_all(decs: Seq<ExplicitDecisionRoot>, k: int)
    requires
        0 <= k,
    ensures
        kept_units(decs, UnitKind::All, k) == kept_units(decs, UnitKind::Keep, k) + kept_units(
            decs,
            UnitKind::Discard,
            k,
        ) + kept_units(decs, UnitKind::Move, k),
    decreases k,
{
    if k > 0 {
        lemma_kept_units_all(decs, k - 1);
    }
}

proof fn lemma_kept_units_mono(decs: Seq<ExplicitDecisionRoot>, kind: UnitKind, a: int, b: int)
    requires
        0 <= a <= b,
    ensures
        kept_units(decs, kind, a) <= kept_units(decs, kind, b),
    decreases b - a,
{
    if a < b {
        lemma_kept_units_mono(decs, kind, a, b - 1);
    }
}

proof fn lemma_outer_units_mono(nodes: Seq<TreeItemComputed>, a: int, b: int)
    requires
        0 <= a <= b,
    ensures
        outer_units(nodes, a) <= outer_units(nodes, b),
    decreases b - a,
{
    if a < b {
        lemma_outer_units_mono(nodes, a, b - 1);
    }
}

/// Whether root `k` lies inside another root.
fn root_is_shadowed(decisions: &[ExplicitDecisionRoot], k: usize) -> (b: bool)
    requires
        k < decisions@.len(),
    ensures
        b == root_shadowed(decisions@, k as int),
{
    let ghost decs = decisions@;
    let n = decisions.len();
    let e = &decisions[k];
    let mut j: usize = 0;
    while j < n
        invariant
            j <= n,
            n == decs.len(),
            decs == decisions@,
            k < n,
            *e == decs[k as int],
            forall|q: int|
                0 <= q < j ==> !(q != k && #[trigger] covers(root_ivl(decs[q]), root_ivl(decs[k as int])) && (root_ivl(
                    decs[q],
                ) != root_ivl(decs[k as int]) || q < k)),
        decreases n - j,
    {
        let f = &decisions[j];
        if j != k && f.tree_start <= e.tree_start && e.tree_end <= f.tree_end && (f.tree_start != e.tree_start
            || f.tree_end != e.tree_end || j < k) {
            assert(covers(root_ivl(decs[j as int]), root_ivl(decs[k as int])));
            return true;
        }
        j = j + 1;
    }
    false
}

/// Progress of a task: the units of its outer nodes, and how many of them the
/// compacted decision roots mark keep, discard or move.
pub fn reduce_progress(nodes: &[TreeItemComputed], decisions: &[ExplicitDecisionRoot]) -> (r: Result<
    OrganizeProgressSummary,
    OrganizeError,
>)
    requires
        outer_units(nodes@, nodes@.len() as int) <= u64::MAX,
        !invalid_kept_root(decisions@) ==> kept_units(decisions@, UnitKind::Keep, decisions@.len() as int) <= u64::MAX
            && kept_units(decisions@, UnitKind::Discard, decisions@.len() as int) <= u64::MAX && kept_units(
            decisions@,
            UnitKind::Move,
            decisions@.len() as int,
        ) <= u64::MAX,
    ensures
        progress_is(r, nodes@, decisions@),
{
    let ghost ns = nodes@;
    let ghost decs = decisions@;
    let n = nodes.len();
    let mut total: u64 = 0;
    let mut k: usize = 0;
    while k < n
        invariant
            k <= n,
            n == ns.len(),
            ns == nodes@,
            outer_units(ns, n as int) <= u64::MAX,
            total == outer_units(ns, k as int),
        decreases n - k,
    {
        let node = &nodes[k];
        let mut outer = true;
        let mut j: usize = 0;
        while j < n
            invariant
                j <= n,
                k < n,
                n == ns.len(),
                ns == nodes@,
                *node == ns[k as int],
                outer <==> !exists|q: int|
                    0 <= q < j && #[trigger] ns[q].item_id != ns[k as int].item_id && ns[q].tree_start
                        <= ns[k as int].tree_start && ns[k as int].tree_end <= ns[q].tree_end,
            decreases n - j,
        {
            let other = &nodes[j];
            if other.item_id != node.item_id && other.tree_start <= node.tree_start && node.tree_end <= other.tree_end {
                outer = false;
            }
            j = j + 1;
        }
        proof {
            lemma_outer_units_mono(ns, k + 1, n as int);
        }
        if outer {
            total = total + node.unit_count;
        }
        k = k + 1;
    }
    let m = decisions.len();
    let mut q: usize = 0;
    while q < m
        invariant
            q <= m,
            m == decs.len(),
            decs == decisions@,
            forall|w: int|
                0 <= w < q ==> !(!#[trigger] root_shadowed(decs, w) && (decs[w].unit_count == 0 || decs[w].tree_start
                    >= decs[w].tree_end)),
        decreases m - q,
    {
        let root = &decisions[q];
        if !root_is_shadowed(decisions, q) && (root.unit_count == 0 || root.tree_start >= root.tree_end) {
            return Err(OrganizeError::InvalidTree(String::from_str("decision root has invalid interval or units")));
        }
        q = q + 1;
    }
    assert(!invalid_kept_root(decs));
    let mut keep: u64 = 0;
    let mut discard: u64 = 0;
    let mut moved: u64 = 0;
    let mut q: usize = 0;
    while q < m
        invariant
            q <= m,
            m == decs.len(),
            decs == decisions@,
            kept_units(decs, UnitKind::Keep, m as int) <= u64::MAX,
            kept_units(decs, UnitKind::Discard, m as int) <= u64::MAX,
            kept_units(decs, UnitKind::Move, m as int) <= u64::MAX,
            keep == kept_units(decs, UnitKind::Keep, q as int),
            discard == kept_units(decs, UnitKind::Discard, q as int),
            moved == kept_units(decs, UnitKind::Move, q as int),
        decreases m - q,
    {
        proof {
            lemma_kept_units_mono(decs, UnitKind::Keep, q + 1, m as int);
            lemma_kept_units_mono(decs, UnitKind::Discard, q + 1, m as int);
            lemma_kept_units_mono(decs, UnitKind::Move, q + 1, m as int);
        }
        if !root_is_shadowed(decisions, q) {
            let root = &decisions[q];
            match root.decision {
                DecisionValue::Keep => {
                    keep = keep + root.unit_count;
                },
                DecisionValue::Discard => {
                    discard = discard + root.unit_count;
                },
                DecisionValue::Move { .. } => {
                    moved = moved + root.unit_count;
                },
            }
        }
        q = q + 1;
    }
    proof {
        lemma_kept_units_all(decs, m as int);
    }
    let sum: u128 = keep as u128 + discard as u128 + moved as u128;
    let processed: u64 = if sum > 0xffff_ffff_ffff_ffffu128 {
        0xffff_ffff_ffff_ffffu64
    } else {
        sum as u64
    };
    if processed > total {
        return Err(OrganizeError::InvalidTree(String::from_str("decision roots exceed tree units")));
    }
    Ok(
        OrganizeProgressSummary {
            total_units: total,
            processed_units: processed,
            keep_units: keep,
            discard_units: discard,
            move_units: moved,
            unmarked_units: total - processed,
        },
    )
}

} // verus!

verus! {

// ----- confirmation of a conflicting decision -----

/// The units of the roots whose decision `kind` counts.
pub open spec fn roots_units(roots: Seq<ExplicitDecisionRoot>, kind: UnitKind) -> nat
    decreases roots.len(),
{
    if roots.len() == 0 {
        0
    } else {
        roots_units(roots.drop_last(), kind) + if counts(kind, roots.last().decision) {
            roots.last().unit_count as nat
        } else {
            0nat
        }
    }
}

/// The total aggregate size of the roots.
pub open spec fn roots_bytes(roots: Seq<ExplicitDecisionRoot>) -> nat
    decreases roots.len(),
{
    if roots.len() == 0 {
        0
    } else {
        roots_bytes(roots.drop_last()) + roots.last().aggregate_size_bytes as nat
    }
}

/// The ids of the roots.
pub open spec fn root_ids(roots: Seq<ExplicitDecisionRoot>) -> Seq<u128> {
    roots.map_values(|r: ExplicitDecisionRoot| r.item_id)
}

/// Whether a resolution asks to confirm `kind` over `roots`: their units by
/// decision (saturated), no unmarked units, their total size and their ids.
pub open spec fn confirmation_is(res: DecisionResolution, kind: OrganizeDecisionConflictKind, roots: Seq<ExplicitDecisionRoot>) -> bool {
    match res {
        DecisionResolution::ConfirmationRequired {
            conflict_kind,
            keep_units,
            discard_units,
            move_units,
            unmarked_units,
            affected_bytes,
            conflicting_roots,
        } => conflict_kind == kind && keep_units == saturate(roots_units(roots, UnitKind::Keep))
            && discard_units == saturate(roots_units(roots, UnitKind::Discard)) && move_units == saturate(
            roots_units(roots, UnitKind::Move),
        ) && unmarked_units == 0 && affected_bytes == roots_bytes(roots) && conflicting_roots@ == root_ids(roots),
        _ => false,
    }
}

/// The confirmation request for `kind` over `roots`.
fn conflict(conflict_kind: OrganizeDecisionConflictKind, roots: &Vec<ExplicitDecisionRoot>) -> (r: DecisionResolution)
    requires
        roots_bytes(roots@) <= u64::MAX,
    ensures
        confirmation_is(r, conflict_kind, roots@),
{
    let ghost rs = roots@;
    let mut keep: u64 = 0;
    let mut discard: u64 = 0;
    let mut moved: u64 = 0;
    let mut bytes: u64 = 0;
    let mut ids: Vec<u128> = Vec::new();
    let mut i: usize = 0;
    while i < roots.len()
        invariant
            i <= roots@.len(),
            rs == roots@,
            roots_bytes(rs) <= u64::MAX,
            keep == saturate(roots_units(rs.take(i as int), UnitKind::Keep)),
            discard == saturate(roots_units(rs.take(i as int), UnitKind::Discard)),
            moved == saturate(roots_units(rs.take(i as int), UnitKind::Move)),
            bytes == roots_bytes(rs.take(i as int)),
            ids@ == root_ids(rs.take(i as int)),
        decreases roots@.len() - i,
    {
        let r = &roots[i];
        assert(rs.take(i + 1).drop_last() =~= rs.take(i as int));
        proof {
            lemma_roots_bytes_prefix(rs, i + 1);
        }
        match r.decision {
            DecisionValue::Keep => {
                keep = keep.saturating_add(r.unit_count);
            },
            DecisionValue::Discard => {
                discard = discard.saturating_add(r.unit_count);
            },
            DecisionValue::Move { .. } => {
                moved = moved.saturating_add(r.unit_count);
            },
        }
        bytes = bytes + r.aggregate_size_bytes;
        ids.push(r.item_id);
        assert(ids@ =~= root_ids(rs.take(i + 1)));
        i = i + 1;
    }
    assert(rs.take(roots@.len() as int) =~= rs);
    DecisionResolution::ConfirmationRequired {
        conflict_kind,
        keep_units: keep,
        discard_units: discard,
        move_units: moved,
        unmarked_units: 0,
        affected_bytes: bytes,
        conflicting_roots: ids,
    }
}

proof fn lemma_roots_bytes_prefix(rs: Seq<ExplicitDecisionRoot>, k: int)
    requires
        0 <= k <= rs.len(),
    ensures
        roots_bytes(rs.take(k)) <= roots_bytes(rs),
    decreases rs.len() - k,
{
    if k < rs.len() {
        lemma_roots_bytes_prefix(rs, k + 1);
        assert(rs.take(k + 1).drop_last() =~= rs.take(k));
    } else {
        assert(rs.take(k) =~= rs);
    }
}

} // verus!

verus! {

// ----- resolving a decision request -----

/// The interval of every node id; a later node with the same id wins.
pub open spec fn node_intervals(nodes: Seq<TreeItemComputed>) -> Map<u128, (i64, i64)>
    decreases nodes.len(),
{
    if nodes.len() == 0 {
        Map::<u128, (i64, i64)>::empty()
    } else {
        node_intervals(nodes.drop_last()).insert(nodes.last().item_id, (nodes.last().tree_start, nodes.last().tree_end))
    }
}

/// The first of the first `k` nodes with id `id`.
pub open spec fn first_node(nodes: Seq<TreeItemComputed>, id: u128, k: int) -> Option<TreeItemComputed>
    decreases k,
{
    if k <= 0 {
        None
    } else {
        match first_node(nodes, id, k - 1) {
            Some(n) => Some(n),
            None => if nodes[k - 1].item_id == id {
                Some(nodes[k - 1])
            } else {
                None
            },
        }
    }
}

/// The roots among the first `k` that lie strictly below the interval `(s, e)`.
pub open spec fn descendant_roots(decs: Seq<ExplicitDecisionRoot>, s: i64, e: i64, k: int) -> Seq<ExplicitDecisionRoot>
    decreases k,
{
    if k <= 0 {
        Seq::<ExplicitDecisionRoot>::empty()
    } else {
        let prev = descendant_roots(decs, s, e, k - 1);
        if decs[k - 1].tree_start > s && decs[k - 1].tree_end <= e {
            prev.push(decs[k - 1])
        } else {
            prev
        }
    }
}

/// The roots among the first `k` that a decision on `item` (interval `(s, e)`)
/// replaces: its own root and the roots strictly below it.
pub open spec fn replaced_roots(decs: Seq<ExplicitDecisionRoot>, s: i64, e: i64, item: u128, k: int) -> Seq<ExplicitDecisionRoot>
    decreases k,
{
    if k <= 0 {
        Seq::<ExplicitDecisionRoot>::empty()
    } else {
        let prev = replaced_roots(decs, s, e, item, k - 1);
        if (decs[k - 1].tree_start > s && decs[k - 1].tree_end <= e) || decs[k - 1].item_id == item {
            prev.push(decs[k - 1])
        } else {
            prev
        }
    }
}

/// The nearest root strictly above the interval `(s, e)` among the first `k`:
/// the one with the greatest start, the last such one on ties.
pub open spec fn nearest_ancestor(decs: Seq<ExplicitDecisionRoot>, s: i64, e: i64, k: int) -> Option<ExplicitDecisionRoot>
    decreases k,
{
    if k <= 0 {
        None
    } else {
        let prev = nearest_ancestor(decs, s, e, k - 1);
        let r = decs[k - 1];
        if r.tree_start < s && e <= r.tree_end && (prev is None || prev->Some_0.tree_start <= r.tree_start) {
            Some(r)
        } else {
            prev
        }
    }
}

/// Whether some root's decision differs from `req`.
pub open spec fn some_differs(roots: Seq<ExplicitDecisionRoot>, req: DecisionValue) -> bool {
    exists|q: int| 0 <= q < roots.len() && !decision_eq(#[trigger] roots[q].decision, req)
}

/// The explicit root a decision on `item` creates, from the item's first node.
pub open spec fn upsert_for(nodes: Seq<TreeItemComputed>, item: u128, req: DecisionValue) -> ExplicitDecisionRoot {
    let node = first_node(nodes, item, nodes.len() as int)->Some_0;
    ExplicitDecisionRoot {
        item_id: item,
        tree_start: node.tree_start,
        tree_end: node.tree_end,
        unit_count: node.unit_count,
        aggregate_size_bytes: node.aggregate_size_bytes,
        decision: req,
        operation_state: OrganizeOperationState::NoOperation,
    }
}

/// What one selected item contributes: a stop for confirmation, or roots to
/// delete, a root to upsert and an inherited ancestor.
pub enum ResolveStep {
    Stop(OrganizeDecisionConflictKind, Seq<ExplicitDecisionRoot>),
    Go(Seq<u128>, Option<ExplicitDecisionRoot>, Option<u128>),
}

/// The step of one item once its ancestor is settled: confirm overriding a
/// differing descendant unless allowed, else delete (after `pre`) the item's
/// own root and its descendants and upsert the requested decision.
pub open spec fn after_ancestor(
    nodes: Seq<TreeItemComputed>,
    desc: Seq<ExplicitDecisionRoot>,
    repl: Seq<ExplicitDecisionRoot>,
    item: u128,
    requested: Option<DecisionValue>,
    confirm_descendant_override: bool,
    pre: Seq<u128>,
) -> ResolveStep {
    if requested is Some && some_differs(desc, requested->Some_0) && !confirm_descendant_override {
        ResolveStep::Stop(OrganizeDecisionConflictKind::DescendantOverride, desc)
    } else {
        ResolveStep::Go(
            pre + root_ids(repl),
            match requested {
                Some(d) => Some(upsert_for(nodes, item, d)),
                None => None,
            },
            None,
        )
    }
}

/// The step of one selected item: an ancestor with the requested decision makes
/// it inherited; another ancestor needs confirmation of the split, or is deleted.
pub open spec fn resolve_step(
    nodes: Seq<TreeItemComputed>,
    decs: Seq<ExplicitDecisionRoot>,
    iv: Map<u128, (i64, i64)>,
    item: u128,
    requested: Option<DecisionValue>,
    confirm_descendant_override: bool,
    confirm_ancestor_split: bool,
) -> ResolveStep {
    let s = iv[item].0;
    let e = iv[item].1;
    let desc = descendant_roots(decs, s, e, decs.len() as int);
    let repl = replaced_roots(decs, s, e, item, decs.len() as int);
    match nearest_ancestor(decs, s, e, decs.len() as int) {
        Some(a) => if requested is Some && decision_eq(requested->Some_0, a.decision) {
            ResolveStep::Go(Seq::<u128>::empty(), None, Some(a.item_id))
        } else if !confirm_ancestor_split {
            ResolveStep::Stop(OrganizeDecisionConflictKind::AncestorSplit, seq![a])
        } else {
            after_ancestor(nodes, desc, repl, item, requested, confirm_descendant_override, seq![a.item_id])
        },
        None => after_ancestor(nodes, desc, repl, item, requested, confirm_descendant_override, Seq::<u128>::empty()),
    }
}

/// The steps of the first `k` selected items folded together: the first stop,
/// or the roots to delete, the roots to upsert and the first inherited ancestor.
pub open spec fn resolve_fold(
    nodes: Seq<TreeItemComputed>,
    decs: Seq<ExplicitDecisionRoot>,
    iv: Map<u128, (i64, i64)>,
    sel: Seq<u128>,
    requested: Option<DecisionValue>,
    cd: bool,
    ca: bool,
    k: int,
) -> Result<(Seq<u128>, Seq<ExplicitDecisionRoot>, Option<u128>), (OrganizeDecisionConflictKind, Seq<ExplicitDecisionRoot>)>
    decreases k,
{
    if k <= 0 {
        Ok((Seq::<u128>::empty(), Seq::<ExplicitDecisionRoot>::empty(), None))
    } else {
        match resolve_fold(nodes, decs, iv, sel, requested, cd, ca, k - 1) {
            Err(x) => Err(x),
            Ok((d, u, inh)) => match resolve_step(nodes, decs, iv, sel[k - 1], requested, cd, ca) {
                ResolveStep::Stop(kind, roots) => Err((kind, roots)),
                ResolveStep::Go(dd, uu, ii) => Ok(
                    (
                        d + dd,
                        match uu {
                            Some(x) => u.push(x),
                            None => u,
                        },
                        match inh {
                            Some(x) => Some(x),
                            None => ii,
                        },
                    ),
                ),
            },
        }
    }
}

/// Whether some selected item's interval overlaps root `r`.
pub open spec fn overlaps_selection(r: ExplicitDecisionRoot, iv: Map<u128, (i64, i64)>, sel: Seq<u128>) -> bool {
    exists|q: int|
        0 <= q < sel.len() && #[trigger] ranges_overlap_spec(iv[sel[q]].0, iv[sel[q]].1, r.tree_start, r.tree_end)
}

/// The first of the first `k` applied roots that overlaps the selection.
pub open spec fn applied_block(decs: Seq<ExplicitDecisionRoot>, iv: Map<u128, (i64, i64)>, sel: Seq<u128>, k: int) -> Option<u128>
    decreases k,
{
    if k <= 0 {
        None
    } else {
        match applied_block(decs, iv, sel, k - 1) {
            Some(x) => Some(x),
            None => if decs[k - 1].operation_state == OrganizeOperationState::Applied && overlaps_selection(
                decs[k - 1],
                iv,
                sel,
            ) {
                Some(decs[k - 1].item_id)
            } else {
                None
            },
        }
    }
}

pub open spec fn msg_empty_selection() -> Seq<char> {
    "selection is empty"@
}

/// What resolving a decision request comes to.
pub enum Resolved {
    Error(Seq<char>),
    Immutable(u128),
    Confirm(OrganizeDecisionConflictKind, Seq<ExplicitDecisionRoot>),
    Inherited(u128),
    Patch(Seq<u128>, Seq<ExplicitDecisionRoot>),
}

/// The resolution of setting `requested` on `sel`: the selection is normalized
/// against the node intervals; an applied root that overlaps it is immutable;
/// then every selected item is stepped in turn.
pub open spec fn resolve_spec(
    nodes: Seq<TreeItemComputed>,
    decs: Seq<ExplicitDecisionRoot>,
    sel: Seq<u128>,
    requested: Option<DecisionValue>,
    cd: bool,
    ca: bool,
) -> Resolved {
    let iv = node_intervals(nodes);
    let ids = dedup_ids(sel);
    match selection_error(ids, iv, ids.len() as int) {
        Some(m) => Resolved::Error(m),
        None => {
            let norm = normalized_ids(sel, iv);
            if norm.len() == 0 {
                Resolved::Error(msg_empty_selection())
            } else {
                match applied_block(decs, iv, norm, decs.len() as int) {
                    Some(id) => Resolved::Immutable(id),
                    None => match resolve_fold(nodes, decs, iv, norm, requested, cd, ca, norm.len() as int) {
                        Err((kind, roots)) => Resolved::Confirm(kind, roots),
                        Ok((d, u, inh)) => if d.len() == 0 && u.len() == 0 && inh is Some {
                            Resolved::Inherited(inh->Some_0)
                        } else {
                            Resolved::Patch(d, u)
                        },
                    },
                }
            }
        },
    }
}

/// Whether an exec resolution is the spec resolution.
pub open spec fn resolution_matches(r: Result<DecisionResolution, OrganizeError>, s: Resolved) -> bool {
    match s {
        Resolved::Error(m) => r matches Err(OrganizeError::InvalidTree(e)) && e@ == m,
        Resolved::Immutable(id) => r matches Err(OrganizeError::AppliedDecisionImmutable(x)) && x == id,
        Resolved::Confirm(kind, roots) => r matches Ok(res) && confirmation_is(res, kind, roots),
        Resolved::Inherited(a) => r matches Ok(DecisionResolution::InheritedNoOp { ancestor_item_id }) && ancestor_item_id == a,
        Resolved::Patch(d, u) => r matches Ok(DecisionResolution::Apply(patch)) && patch.upsert_roots@ == u && (
        forall|a: int, b: int| 0 <= a < b < patch.delete_roots@.len() ==> patch.delete_roots@[a] < patch.delete_roots@[b]) && (
        forall|x: u128| #[trigger] patch.delete_roots@.contains(x) <==> d.contains(x)),
    }
}

/// The byte total of a confirmation the request would ask for, or 0.
pub open spec fn confirmation_bytes(s: Resolved) -> nat {
    match s {
        Resolved::Confirm(_, roots) => roots_bytes(roots),
        _ => 0,
    }
}

} // verus!

verus! {

/// The interval of every node, by id (the last node of an id wins).
pub fn build_intervals(nodes: &[TreeItemComputed]) -> (m: HashMap<u128, (i64, i64)>)
    ensures
        m@ == node_intervals(nodes@),
{
    let mut m: HashMap<u128, (i64, i64)> = HashMap::new();
    let mut i: usize = 0;
    while i < nodes.len()
        invariant
            i <= nodes@.len(),
            m@ == node_intervals(nodes@.take(i as int)),
        decreases nodes@.len() - i,
    {
        let n = &nodes[i];
        m.insert(n.item_id, (n.tree_start, n.tree_end));
        assert(nodes@.take(i + 1).drop_last() =~= nodes@.take(i as int));
        i = i + 1;
    }
    assert(nodes@.take(nodes@.len() as int) =~= nodes@);
    m
}

proof fn lemma_node_intervals_has_node(nodes: Seq<TreeItemComputed>, id: u128)
    requires
        node_intervals(nodes).contains_key(id),
    ensures
        first_node(nodes, id, nodes.len() as int) is Some,
    decreases nodes.len(),
{
    if nodes.last().item_id == id {
        lemma_first_node_found(nodes, id, nodes.len() - 1, nodes.len() as int);
    } else {
        lemma_node_intervals_has_node(nodes.drop_last(), id);
        lemma_first_node_prefix(nodes, id, nodes.len() - 1);
    }
}

proof fn lemma_first_node_found(nodes: Seq<TreeItemComputed>, id: u128, j: int, k: int)
    requires
        0 <= j < k <= nodes.len(),
        nodes[j].item_id == id,
    ensures
        first_node(nodes, id, k) is Some,
    decreases k,
{
    if k - 1 > j {
        lemma_first_node_found(nodes, id, j, k - 1);
    }
}

proof fn lemma_first_node_prefix(nodes: Seq<TreeItemComputed>, id: u128, k: int)
    requires
        0 <= k < nodes.len(),
        first_node(nodes.drop_last(), id, k) is Some,
    ensures
        first_node(nodes, id, nodes.len() as int) is Some,
    decreases nodes.len() - k,
{
    lemma_first_node_same(nodes, nodes.drop_last(), id, k);
    lemma_first_node_stays(nodes, id, k, nodes.len() as int);
}

proof fn lemma_first_node_same(a: Seq<TreeItemComputed>, b: Seq<TreeItemComputed>, id: u128, k: int)
    requires
        0 <= k <= a.len(),
        k <= b.len(),
        forall|j: int| 0 <= j < k ==> a[j] == b[j],
    ensures
        first_node(a, id, k) == first_node(b, id, k),
    decreases k,
{
    if k > 0 {
        lemma_first_node_same(a, b, id, k - 1);
    }
}

proof fn lemma_first_node_stays(nodes: Seq<TreeItemComputed>, id: u128, k: int, n: int)
    requires
        0 <= k <= n,
        first_node(nodes, id, k) is Some,
    ensures
        first_node(nodes, id, n) == first_node(nodes, id, k),
    decreases n - k,
{
    if k < n {
        lemma_first_node_stays(nodes, id, k + 1, n);
    }
}

fn find_node(nodes: &[TreeItemComputed], id: u128) -> (r: Option<usize>)
    ensures
        match r {
            Some(j) => j < nodes@.len() && first_node(nodes@, id, nodes@.len() as int) == Some(nodes@[j as int]),
            None => first_node(nodes@, id, nodes@.len() as int) is None,
        },
{
    let mut i: usize = 0;
    while i < nodes.len()
        invariant
            i <= nodes@.len(),
            first_node(nodes@, id, i as int) is None,
        decreases nodes@.len() - i,
    {
        if nodes[i].item_id == id {
            assert(first_node(nodes@, id, i + 1) == Some(nodes@[i as int]));
            proof {
                lemma_first_node_stays(nodes@, id, i + 1, nodes@.len() as int);
            }
            return Some(i);
        }
        i = i + 1;
    }
    None
}

fn descendants_of(decs: &[ExplicitDecisionRoot], s: i64, e: i64) -> (r: Vec<ExplicitDecisionRoot>)
    ensures
        r@ == descendant_roots(decs@, s, e, decs@.len() as int),
{
    let mut r: Vec<ExplicitDecisionRoot> = Vec::new();
    let mut i: usize = 0;
    while i < decs.len()
        invariant
            i <= decs@.len(),
            r@ == descendant_roots(decs@, s, e, i as int),
        decreases decs@.len() - i,
    {
        let d = &decs[i];
        if d.tree_start > s && d.tree_end <= e {
            r.push(d.duplicate());
        }
        i = i + 1;
    }
    r
}

fn replaced_of(decs: &[ExplicitDecisionRoot], s: i64, e: i64, item: u128) -> (r: Vec<ExplicitDecisionRoot>)
    ensures
        r@ == replaced_roots(decs@, s, e, item, decs@.len() as int),
{
    let mut r: Vec<ExplicitDecisionRoot> = Vec::new();
    let mut i: usize = 0;
    while i < decs.len()
        invariant
            i <= decs@.len(),
            r@ == replaced_roots(decs@, s, e, item, i as int),
        decreases decs@.len() - i,
    {
        let d = &decs[i];
        if (d.tree_start > s && d.tree_end <= e) || d.item_id == item {
            r.push(d.duplicate());
        }
        i = i + 1;
    }
    r
}

fn nearest_ancestor_of(decs: &[ExplicitDecisionRoot], s: i64, e: i64) -> (r: Option<usize>)
    ensures
        match r {
            Some(j) => j < decs@.len() && nearest_ancestor(decs@, s, e, decs@.len() as int) == Some(decs@[j as int]),
            None => nearest_ancestor(decs@, s, e, decs@.len() as int) is None,
        },
{
    let mut best: Option<usize> = None;
    let mut i: usize = 0;
    while i < decs.len()
        invariant
            i <= decs@.len(),
            match best {
                Some(j) => j < i && nearest_ancestor(decs@, s, e, i as int) == Some(decs@[j as int]),
                None => nearest_ancestor(decs@, s, e, i as int) is None,
            },
        decreases decs@.len() - i,
    {
        let d = &decs[i];
        if d.tree_start < s && e <= d.tree_end {
            let better = match best {
                None => true,
                Some(j) => decs[j].tree_start <= d.tree_start,
            };
            if better {
                best = Some(i);
            }
        }
        i = i + 1;
    }
    best
}

fn first_applied_block(decs: &[ExplicitDecisionRoot], intervals: &HashMap<u128, (i64, i64)>, sel: &Vec<u128>) -> (r: Option<u128>)
    requires
        forall|q: int| 0 <= q < sel@.len() ==> intervals@.contains_key(#[trigger] sel@[q]),
    ensures
        r == applied_block(decs@, intervals@, sel@, decs@.len() as int),
{
    let ghost iv = intervals@;
    let mut i: usize = 0;
    while i < decs.len()
        invariant
            i <= decs@.len(),
            iv == intervals@,
            forall|q: int| 0 <= q < sel@.len() ==> iv.contains_key(#[trigger] sel@[q]),
            applied_block(decs@, iv, sel@, i as int) is None,
        decreases decs@.len() - i,
    {
        let root = &decs[i];
        if root.operation_state == OrganizeOperationState::Applied {
            let mut j: usize = 0;
            while j < sel.len()
                invariant
                    j <= sel@.len(),
                    i < decs@.len(),
                    *root == decs@[i as int],
                    root.operation_state == OrganizeOperationState::Applied,
                    applied_block(decs@, iv, sel@, i as int) is None,
                    iv == intervals@,
                    forall|q: int| 0 <= q < sel@.len() ==> iv.contains_key(#[trigger] sel@[q]),
                    forall|q: int| 0 <= q < j ==> !#[trigger] ranges_overlap_spec(iv[sel@[q]].0, iv[sel@[q]].1, root.tree_start, root.tree_end),
                decreases sel@.len() - j,
            {
                let id = sel[j];
                assert(iv.contains_key(sel@[j as int]));
                let (s, e) = match intervals.get(&id) {
                    Some(v) => *v,
                    None => (0, 0),
                };
                if ranges_overlap(s, e, root.tree_start, root.tree_end) {
                    assert(overlaps_selection(decs@[i as int], iv, sel@));
                    assert(decs@[i as int].operation_state == OrganizeOperationState::Applied);
                    assert(decs@[i as int].item_id == root.item_id);
                    assert(applied_block(decs@, iv, sel@, i as int) is None);
                    assert(applied_block(decs@, iv, sel@, i + 1) == Some(root.item_id));
                    proof {
                        lemma_applied_block_stays(decs@, iv, sel@, i + 1, decs@.len() as int);
                    }
                    return Some(root.item_id);
                }
                j = j + 1;
            }
            assert(!overlaps_selection(decs@[i as int], iv, sel@));
        }
        i = i + 1;
    }
    None
}

proof fn lemma_applied_block_stays(decs: Seq<ExplicitDecisionRoot>, iv: Map<u128, (i64, i64)>, sel: Seq<u128>, k: int, n: int)
    requires
        0 <= k <= n,
        applied_block(decs, iv, sel, k) is Some,
    ensures
        applied_block(decs, iv, sel, n) == applied_block(decs, iv, sel, k),
    decreases n - k,
{
    if k < n {
        lemma_applied_block_stays(decs, iv, sel, k + 1, n);
    }
}

proof fn lemma_fold_err_stays(
    nodes: Seq<TreeItemComputed>,
    decs: Seq<ExplicitDecisionRoot>,
    iv: Map<u128, (i64, i64)>,
    sel: Seq<u128>,
    requested: Option<DecisionValue>,
    cd: bool,
    ca: bool,
    k: int,
    n: int,
)
    requires
        0 <= k <= n,
        resolve_fold(nodes, decs, iv, sel, requested, cd, ca, k) is Err,
    ensures
        resolve_fold(nodes, decs, iv, sel, requested, cd, ca, n) == resolve_fold(nodes, decs, iv, sel, requested, cd, ca, k),
    decreases n - k,
{
    if k < n {
        lemma_fold_err_stays(nodes, decs, iv, sel, requested, cd, ca, k + 1, n);
    }
}

/// Add `x` to a strictly increasing vector unless it is there.
fn insert_unique_sorted(v: &mut Vec<u128>, x: u128)
    requires
        forall|a: int, b: int| 0 <= a < b < old(v)@.len() ==> old(v)@[a] < old(v)@[b],
    ensures
        forall|a: int, b: int| 0 <= a < b < final(v)@.len() ==> final(v)@[a] < final(v)@[b],
        forall|y: u128| #[trigger] final(v)@.contains(y) <==> (old(v)@.contains(y) || y == x),
{
    let mut pos: usize = 0;
    while pos < v.len() && v[pos] < x
        invariant
            pos <= v@.len(),
            v@ == old(v)@,
            forall|a: int| 0 <= a < pos ==> v@[a] < x,
        decreases v@.len() - pos,
    {
        pos = pos + 1;
    }
    if pos < v.len() && v[pos] == x {
        return;
    }
    let ghost before = v@;
    v.insert(pos, x);
    proof {
        assert forall|a: int, b: int| 0 <= a < b < v@.len() implies v@[a] < v@[b] by {
            if b < pos {
            } else if b == pos {
                assert(v@[a] == before[a]);
            } else if a < pos {
                assert(v@[b] == before[b - 1]);
                if b - 1 > pos {
                    assert(before[pos as int] < before[b - 1]);
                }
            } else if a == pos {
                assert(v@[b] == before[b - 1]);
                if b - 1 > pos {
                    assert(before[pos as int] < before[b - 1]);
                }
            } else {
                assert(v@[a] == before[a - 1] && v@[b] == before[b - 1]);
            }
        }
        assert forall|y: u128| #[trigger] v@.contains(y) <==> (before.contains(y) || y == x) by {
            if v@.contains(y) {
                let k = choose|k: int| 0 <= k < v@.len() && v@[k] == y;
                if k < pos {
                    assert(before[k] == y);
                } else if k > pos {
                    assert(before[k - 1] == y);
                }
            }
            if before.contains(y) {
                let k = choose|k: int| 0 <= k < before.len() && before[k] == y;
                if k < pos {
                    assert(v@[k] == y);
                } else {
                    assert(v@[k + 1] == y);
                }
            }
            if y == x {
                assert(v@[pos as int] == x);
            }
        }
    }
}

} // verus!

verus! {

proof fn lemma_selection_ok_each(ids: Seq<u128>, iv: Map<u128, (i64, i64)>, k: int)
    requires
        0 <= k <= ids.len(),
        selection_error(ids, iv, k) is None,
    ensures
        forall|j: int| 0 <= j < k ==> #[trigger] selected_id_error(ids[j], iv) is None,
    decreases k,
{
    if k > 0 {
        lemma_selection_ok_each(ids, iv, k - 1);
    }
}

/// Whether some root of `roots` has a decision other than `req`.
fn any_differs(roots: &Vec<ExplicitDecisionRoot>, req: &DecisionValue) -> (b: bool)
    ensures
        b == some_differs(roots@, *req),
{
    let mut i: usize = 0;
    while i < roots.len()
        invariant
            i <= roots@.len(),
            forall|q: int| 0 <= q < i ==> decision_eq(#[trigger] roots@[q].decision, *req),
        decreases roots@.len() - i,
    {
        if !roots[i].decision.eq(req) {
            assert(!decision_eq(roots@[i as int].decision, *req));
            return true;
        }
        i = i + 1;
    }
    false
}

/// Resolve a request to set (or, with `None`, clear) the decision of the
/// selected items. The selection is normalized to its outermost items; an
/// applied root overlapping it refuses the request. Each selected item then
/// inherits an equal decision from its nearest ancestor root, or splits that
/// ancestor (after confirmation), overrides differing descendant roots (after
/// confirmation), and gets the requested root. When nothing changes but an
/// ancestor already holds the decision, the result says so.
pub fn resolve_set_decision(
    state: &DecisionTreeState,
    selected: &[u128],
    requested: Option<DecisionValue>,
    confirm_descendant_override: bool,
    confirm_ancestor_split: bool,
) -> (r: Result<DecisionResolution, OrganizeError>)
    requires
        confirmation_bytes(
            resolve_spec(
                state.nodes@,
                state.decisions@,
                selected@,
                requested,
                confirm_descendant_override,
                confirm_ancestor_split,
            ),
        ) <= u64::MAX,
    ensures
        resolution_matches(
            r,
            resolve_spec(
                state.nodes@,
                state.decisions@,
                selected@,
                requested,
                confirm_descendant_override,
                confirm_ancestor_split,
            ),
        ),
{
    let ghost nodes = state.nodes@;
    let ghost decs = state.decisions@;
    let ghost cd = confirm_descendant_override;
    let ghost ca = confirm_ancestor_split;
    let ghost spec = resolve_spec(nodes, decs, selected@, requested, cd, ca);
    let intervals = build_intervals(state.nodes.as_slice());
    let ghost iv = intervals@;
    let ghost ids = dedup_ids(selected@);
    let sel = match normalize_selection(selected, &intervals) {
        Ok(v) => v,
        Err(e) => {
            return Err(e);
        },
    };
    proof {
        lemma_selection_ok_each(ids, iv, ids.len() as int);
        assert forall|q: int| 0 <= q < sel@.len() implies iv.contains_key(#[trigger] sel@[q]) by {
            assert(sel@.contains(sel@[q]));
            assert(outermost(ids, iv, sel@[q]));
            let w = choose|w: int| 0 <= w < ids.len() && ids[w] == sel@[q] && !#[trigger] shadowed(ids, iv, w);
            assert(selected_id_error(ids[w], iv) is None);
        }
    }
    if sel.len() == 0 {
        return Err(OrganizeError::InvalidTree(String::from_str("selection is empty")));
    }
    let decisions = state.decisions.as_slice();
    match first_applied_block(decisions, &intervals, &sel) {
        Some(id) => {
            return Err(OrganizeError::AppliedDecisionImmutable(id));
        },
        None => {},
    }
    let ghost norm = sel@;
    let mut deletes: Vec<u128> = Vec::new();
    let ghost mut dg: Seq<u128> = Seq::<u128>::empty();
    let mut upserts: Vec<ExplicitDecisionRoot> = Vec::new();
    let mut inherited: Option<u128> = None;
    let mut k: usize = 0;
    while k < sel.len()
        invariant
            k <= sel@.len(),
            norm == sel@,
            norm == normalized_ids(selected@, iv),
            nodes == state.nodes@,
            decs == state.decisions@,
            decs == decisions@,
            iv == intervals@,
            iv == node_intervals(nodes),
            cd == confirm_descendant_override,
            ca == confirm_ancestor_split,
            spec == resolve_spec(nodes, decs, selected@, requested, cd, ca),
            confirmation_bytes(spec) <= u64::MAX,
            norm.len() > 0,
            selection_error(ids, iv, ids.len() as int) is None,
            ids == dedup_ids(selected@),
            applied_block(decs, iv, norm, decs.len() as int) is None,
            forall|q: int| 0 <= q < norm.len() ==> iv.contains_key(#[trigger] norm[q]),
            resolve_fold(nodes, decs, iv, norm, requested, cd, ca, k as int) == Ok::<
                (Seq<u128>, Seq<ExplicitDecisionRoot>, Option<u128>),
                (OrganizeDecisionConflictKind, Seq<ExplicitDecisionRoot>),
            >((dg, upserts@, inherited)),
            forall|a: int, b: int| 0 <= a < b < deletes@.len() ==> deletes@[a] < deletes@[b],
            forall|x: u128| #[trigger] deletes@.contains(x) <==> dg.contains(x),
        decreases sel@.len() - k,
    {
        let item = sel[k];
        assert(iv.contains_key(norm[k as int]));
        let (s, e) = match intervals.get(&item) {
            Some(v) => *v,
            None => (0, 0),
        };
        let desc = descendants_of(decisions, s, e);
        let repl = replaced_of(decisions, s, e, item);
        let anc = nearest_ancestor_of(decisions, s, e);
        let ghost step = resolve_step(nodes, decs, iv, item, requested, cd, ca);
        let ghost mut pre: Seq<u128> = Seq::<u128>::empty();
        match anc {
            Some(j) => {
                let a = &decisions[j];
                let inherit = match &requested {
                    Some(req) => req.eq(&a.decision),
                    None => false,
                };
                if inherit {
                    assert(step == ResolveStep::Go(Seq::<u128>::empty(), None, Some(a.item_id)));
                    if inherited.is_none() {
                        inherited = Some(a.item_id);
                    }
                    proof {
                        assert(dg + Seq::<u128>::empty() =~= dg);
                    }
                    k = k + 1;
                    continue;
                }
                if !confirm_ancestor_split {
                    let roots = vec![a.duplicate()];
                    proof {
                        assert(roots@ =~= seq![decs[j as int]]);
                        assert(step == ResolveStep::Stop(OrganizeDecisionConflictKind::AncestorSplit, roots@));
                        lemma_fold_err_stays(nodes, decs, iv, norm, requested, cd, ca, k + 1, norm.len() as int);
                    }
                    return Ok(conflict(OrganizeDecisionConflictKind::AncestorSplit, &roots));
                }
                insert_unique_sorted(&mut deletes, a.item_id);
                proof {
                    pre = seq![a.item_id];
                }
            },
            None => {},
        }
        let differs = match &requested {
            Some(req) => any_differs(&desc, req),
            None => false,
        };
        if differs && !confirm_descendant_override {
            proof {
                assert(step == ResolveStep::Stop(OrganizeDecisionConflictKind::DescendantOverride, desc@));
                lemma_fold_err_stays(nodes, decs, iv, norm, requested, cd, ca, k + 1, norm.len() as int);
            }
            return Ok(conflict(OrganizeDecisionConflictKind::DescendantOverride, &desc));
        }
        let ghost d_before = dg;
        proof {
            assert(root_ids(repl@).take(0) =~= Seq::<u128>::empty());
            assert(d_before + pre + Seq::<u128>::empty() =~= d_before + pre);
            assert(pre.len() == 0 || (pre.len() == 1 && deletes@.contains(pre[0])));
            assert forall|x: u128| #[trigger] deletes@.contains(x) <==> (d_before + pre).contains(x) by {
                if pre.len() == 0 {
                    assert(d_before + pre =~= d_before);
                } else {
                    if x == pre[0] {
                        assert((d_before + pre)[d_before.len() as int] == x);
                    }
                    if (d_before + pre).contains(x) {
                        let w = choose|w: int| 0 <= w < (d_before + pre).len() && (d_before + pre)[w] == x;
                        if w < d_before.len() {
                            assert(d_before[w] == x);
                        }
                    }
                    if d_before.contains(x) {
                        let w = choose|w: int| 0 <= w < d_before.len() && d_before[w] == x;
                        assert((d_before + pre)[w] == x);
                    }
                }
            }
        }
        let mut t: usize = 0;
        while t < repl.len()
            invariant
                t <= repl@.len(),
                forall|a: int, b: int| 0 <= a < b < deletes@.len() ==> deletes@[a] < deletes@[b],
                forall|x: u128| #[trigger] deletes@.contains(x) <==> (d_before + pre + root_ids(repl@).take(t as int)).contains(x),
            decreases repl@.len() - t,
        {
            let ghost prev = d_before + pre + root_ids(repl@).take(t as int);
            insert_unique_sorted(&mut deletes, repl[t].item_id);
            proof {
                let next = d_before + pre + root_ids(repl@).take(t + 1);
                assert(next =~= prev.push(repl@[t as int].item_id));
                assert forall|x: u128| #[trigger] deletes@.contains(x) <==> next.contains(x) by {
                    if prev.contains(x) {
                        let w = choose|w: int| 0 <= w < prev.len() && prev[w] == x;
                        assert(next[w] == x);
                    }
                    if next.contains(x) && x != repl@[t as int].item_id {
                        let w = choose|w: int| 0 <= w < next.len() && next[w] == x;
                        assert(w < prev.len());
                        assert(prev[w] == x);
                    }
                    if x == repl@[t as int].item_id {
                        assert(next[prev.len() as int] == x);
                    }
                }
            }
            t = t + 1;
        }
        proof {
            assert(root_ids(repl@).take(repl@.len() as int) =~= root_ids(repl@));
            dg = d_before + (pre + root_ids(repl@));
            assert(d_before + pre + root_ids(repl@) =~= dg);
        }
        match &requested {
            Some(req) => {
                proof {
                    lemma_node_intervals_has_node(nodes, item);
                }
                let jn = match find_node(state.nodes.as_slice(), item) {
                    Some(j) => j,
                    None => {
                        return Err(OrganizeError::InvalidTree(String::from_str("selected node disappeared")));
                    },
                };
                let node = &state.nodes[jn];
                let root = ExplicitDecisionRoot {
                    item_id: item,
                    tree_start: node.tree_start,
                    tree_end: node.tree_end,
                    unit_count: node.unit_count,
                    aggregate_size_bytes: node.aggregate_size_bytes,
                    decision: req.duplicate(),
                    operation_state: OrganizeOperationState::NoOperation,
                };
                assert(root == upsert_for(nodes, item, *req));
                upserts.push(root);
            },
            None => {},
        }
        proof {
            assert(step == ResolveStep::Go(
                pre + root_ids(repl@),
                match requested {
                    Some(d) => Some(upsert_for(nodes, item, d)),
                    None => None,
                },
                None,
            ));
        }
        k = k + 1;
    }
    if deletes.len() == 0 && upserts.len() == 0 {
        match inherited {
            Some(a) => {
                proof {
                    assert(dg.len() == 0) by {
                        if dg.len() > 0 {
                            assert(dg.contains(dg[0]));
                            assert(deletes@.contains(dg[0]));
                        }
                    }
                }
                return Ok(DecisionResolution::InheritedNoOp { ancestor_item_id: a });
            },
            None => {},
        }
    }
    proof {
        if dg.len() == 0 {
            assert forall|x: u128| #[trigger] deletes@.contains(x) implies false by {
                assert(dg.contains(x));
            }
            if deletes@.len() > 0 {
                assert(deletes@.contains(deletes@[0]));
            }
        }
    }
    Ok(DecisionResolution::Apply(DecisionPatch { delete_roots: deletes, upsert_roots: upserts }))
}

} // verus!

verus! {

// ----- laws -----

/// Progress splits the total: the processed and unmarked units add up to the
/// total units, and the keep, discard and move units add up to the processed
/// units unless the processed count saturated.
pub proof fn law_progress_partitions_total(
    r: Result<OrganizeProgressSummary, OrganizeError>,
    nodes: Seq<TreeItemComputed>,
    decs: Seq<ExplicitDecisionRoot>,
)
    requires
        progress_is(r, nodes, decs),
        r is Ok,
    ensures
        r->Ok_0.processed_units + r->Ok_0.unmarked_units == r->Ok_0.total_units,
        r->Ok_0.processed_units < u64::MAX ==> r->Ok_0.keep_units + r->Ok_0.discard_units + r->Ok_0.move_units
            == r->Ok_0.processed_units,
{
    lemma_kept_units_all(decs, decs.len() as int);
}

/// Compacted decision roots never nest: no root the compaction keeps lies
/// inside another kept root.
pub proof fn law_compacted_roots_do_not_nest(out: Seq<ExplicitDecisionRoot>, decs: Seq<ExplicitDecisionRoot>)
    requires
        compacted_is(out, decs),
    ensures
        forall|a: int, b: int|
            0 <= a < out.len() && 0 <= b < out.len() && a != b ==> !#[trigger] covers(root_ivl(out[a]), root_ivl(out[b])),
{
    assert forall|a: int, b: int|
        0 <= a < out.len() && 0 <= b < out.len() && a != b implies !#[trigger] covers(root_ivl(out[a]), root_ivl(out[b])) by {
        let (lo, hi) = if a < b { (a, b) } else { (b, a) };
        assert(root_before(out[lo], out[hi]));
        assert(out[a] != out[b]);
        assert(out.contains(out[a]));
        assert(out.contains(out[b]));
        let ka = choose|k: int| 0 <= k < decs.len() && decs[k] == out[a] && !#[trigger] root_shadowed(decs, k);
        let kb = choose|k: int| 0 <= k < decs.len() && decs[k] == out[b] && !#[trigger] root_shadowed(decs, k);
        if covers(root_ivl(out[a]), root_ivl(out[b])) {
            assert(ka != kb);
            if root_ivl(out[a]) != root_ivl(out[b]) || ka < kb {
                assert(covers(root_ivl(decs[ka]), root_ivl(decs[kb])));
                assert(root_shadowed(decs, kb));
            } else {
                assert(covers(root_ivl(decs[kb]), root_ivl(decs[ka])));
                assert(root_shadowed(decs, ka));
            }
        }
    }
}

/// A normalized selection never nests: no selected item kept lies inside the
/// interval of another kept item.
pub proof fn law_normalized_selection_does_not_nest(
    r: Result<Vec<u128>, OrganizeError>,
    sel: Seq<u128>,
    iv: Map<u128, (i64, i64)>,
)
    requires
        normalized_selection_is(r, sel, iv),
        r is Ok,
    ensures
        forall|a: int, b: int|
            0 <= a < r->Ok_0@.len() && 0 <= b < r->Ok_0@.len() && a != b ==> !#[trigger] covers(
                iv[r->Ok_0@[a]],
                iv[r->Ok_0@[b]],
            ),
{
    let out = r->Ok_0@;
    let ids = dedup_ids(sel);
    assert forall|a: int, b: int|
        0 <= a < out.len() && 0 <= b < out.len() && a != b implies !#[trigger] covers(iv[out[a]], iv[out[b]]) by {
        assert(out.contains(out[a]));
        assert(out.contains(out[b]));
        assert(outermost(ids, iv, out[a]));
        assert(outermost(ids, iv, out[b]));
        let ka = choose|k: int| 0 <= k < ids.len() && ids[k] == out[a] && !#[trigger] shadowed(ids, iv, k);
        let kb = choose|k: int| 0 <= k < ids.len() && ids[k] == out[b] && !#[trigger] shadowed(ids, iv, k);
        assert(out[a] != out[b]);
        if covers(iv[out[a]], iv[out[b]]) {
            if iv[out[a]] != iv[out[b]] || ka < kb {
                assert(covers(iv[ids[ka]], iv[ids[kb]]));
                assert(shadowed(ids, iv, kb));
            } else {
                assert(covers(iv[ids[kb]], iv[ids[ka]]));
                assert(shadowed(ids, iv, ka));
            }
        }
    }
}

/// Two intervals overlap in either order.
pub proof fn law_ranges_overlap_symmetric(ls: i64, le: i64, rs: i64, re: i64)
    ensures
        ranges_overlap_spec(ls, le, rs, re) == ranges_overlap_spec(rs, re, ls, le),
{
}


/// In a depth-first order, everything from an ancestor up to its descendant
/// lies in the ancestor's subtree.
proof fn lemma_desc_contiguous(par: Seq<int>, p: int, c: int)
    requires
        depth_first(par),
        0 <= p <= c < par.len(),
        is_anc(par, p, c),
    ensures
        forall|x: int| p <= x <= c ==> #[trigger] is_anc(par, p, x),
    decreases c,
{
    if c > p {
        assert(is_anc(par, par[c], c - 1));
        lemma_anc_trans(par, p, par[c], c - 1);
        lemma_desc_contiguous(par, p, c - 1);
    }
}

proof fn lemma_scan_end_desc(par: Seq<int>, x: int, e: int)
    requires
        0 <= e <= par.len(),
    ensures
        forall|k: int| e <= k < scan_end(par, x, e) ==> #[trigger] is_anc(par, x, k),
    decreases par.len() - e,
{
    if e < par.len() && is_anc(par, x, e) {
        lemma_scan_end_desc(par, x, e + 1);
    }
}

proof fn lemma_scan_end_reaches(par: Seq<int>, x: int, e: int, m: int)
    requires
        0 <= e <= m <= par.len(),
        forall|k: int| e <= k < m ==> #[trigger] is_anc(par, x, k),
    ensures
        scan_end(par, x, e) >= m,
    decreases par.len() - e,
{
    if e < m {
        assert(is_anc(par, x, e));
        lemma_scan_end_reaches(par, x, e + 1, m);
    } else {
        lemma_scan_end_bounds(par, x, e);
    }
}

/// The subtrees `compute_tree` gives nest: an item starts after its parent,
/// inside the parent's subtree, and its subtree ends no later than the
/// parent's.
pub proof fn law_computed_subtrees_nest(items: Seq<TreeItemDraft>, c: int)
    requires
        items.len() < i64::MAX,
        compute_tree_spec(items) is Ok,
        0 <= c < items.len(),
        items[c].parent_item_id is Some,
    ensures
        ({
            let v = compute_tree_spec(items)->Ok_0;
            let p = parent_indexes(items)[c];
            &&& 0 <= p < c
            &&& v[p].tree_start < v[c].tree_start < v[p].tree_end
            &&& v[c].tree_end <= v[p].tree_end
        }),
{
    let par = parent_indexes(items);
    lemma_single_root_first(items);
    lemma_no_parent_error_each(items, items.len() as int);
    if c == 0 {
        assert(item_parent_error(items, 0) is None);
        assert(!has_id(items, items[0].parent_item_id->Some_0, 0, 0));
    }
    assert(c >= 1);
    let p = par[c];
    assert(p >= 0 && is_anc(par, p, c - 1));
    lemma_anc_le(par, p, c - 1);
    assert(is_anc(par, p, p));
    assert(is_anc(par, p, c));
    lemma_desc_contiguous(par, p, c);
    lemma_subtree_end_bounds(par, c);
    lemma_subtree_end_bounds(par, p);
    let ec = subtree_end(par, c);
    lemma_scan_end_desc(par, c, c + 1);
    assert forall|k: int| p + 1 <= k < ec implies #[trigger] is_anc(par, p, k) by {
        if k > c {
            assert(is_anc(par, c, k));
            lemma_anc_trans(par, p, c, k);
        }
    }
    lemma_scan_end_reaches(par, p, p + 1, ec);
}


// ----- compaction keeps every decision root covered -----

/// Whether decision root `j` shadows root `k`.
pub open spec fn root_shadows(decs: Seq<ExplicitDecisionRoot>, j: int, k: int) -> bool {
    &&& 0 <= j < decs.len()
    &&& j != k
    &&& covers(root_ivl(decs[j]), root_ivl(decs[k]))
    &&& (root_ivl(decs[j]) != root_ivl(decs[k]) || j < k)
}

/// The roots that shadow root `k`.
pub open spec fn root_shadower_set(decs: Seq<ExplicitDecisionRoot>, k: int) -> Set<int> {
    Set::new(|j: int| root_shadows(decs, j, k))
}

proof fn lemma_root_covered(decs: Seq<ExplicitDecisionRoot>, k: int) -> (j: int)
    requires
        0 <= k < decs.len(),
    ensures
        0 <= j < decs.len(),
        !root_shadowed(decs, j),
        covers(root_ivl(decs[j]), root_ivl(decs[k])),
    decreases root_shadower_set(decs, k).len(),
{
    vstd::set_lib::lemma_int_range(0, decs.len() as int);
    let range = vstd::set_lib::set_int_range(0, decs.len() as int);
    assert(root_shadower_set(decs, k).subset_of(range));
    vstd::set_lib::lemma_len_subset(root_shadower_set(decs, k), range);
    if !root_shadowed(decs, k) {
        k
    } else {
        let j0 = choose|j: int|
            0 <= j < decs.len() && j != k && #[trigger] covers(root_ivl(decs[j]), root_ivl(decs[k])) && (root_ivl(
                decs[j],
            ) != root_ivl(decs[k]) || j < k);
        assert(root_shadows(decs, j0, k));
        let big = root_shadower_set(decs, k);
        let small = root_shadower_set(decs, j0);
        assert forall|i: int| small.contains(i) implies big.remove(j0).contains(i) by {
            assert(root_shadows(decs, i, k));
        }
        assert(big.contains(j0));
        vstd::set_lib::lemma_len_subset(small, big.remove(j0));
        lemma_root_covered(decs, j0)
    }
}

/// Compacting decision roots loses no subtree: every input root lies inside a
/// root that compaction keeps.
pub proof fn law_compaction_keeps_roots_covered(out: Seq<ExplicitDecisionRoot>, decs: Seq<ExplicitDecisionRoot>, k: int)
    requires
        compacted_is(out, decs),
        0 <= k < decs.len(),
    ensures
        exists|x: ExplicitDecisionRoot| #[trigger] out.contains(x) && covers(root_ivl(x), root_ivl(decs[k])),
{
    let j = lemma_root_covered(decs, k);
    assert(out.contains(decs[j]));
}

} // verus!
