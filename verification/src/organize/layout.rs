//! The layout of the included tree of a task: checking that its rows form one
//! tree, then numbering it depth first with the children of each directory
//! in key order, and counting the units and bytes under each row.

use vstd::prelude::*;
use vstd::string::StringExecFns;
use crate::organize::error::OrganizeError;
use crate::organize::grouping::{chars_less, key_less, key_less_from, lemma_key_less_total};
use crate::organize::plan::OrganizeTaskItemRecord;
use crate::text::{chars_eq, chars_of, str_eq};

verus! {

/// Rows of one table: no two share an id.
pub open spec fn ids_distinct(items: Seq<OrganizeTaskItemRecord>) -> bool {
    forall|i: int, j: int|
        0 <= i < items.len() && 0 <= j < items.len() && i != j ==> items[i].id != items[j].id
}

/// Row `j` is the row that row `i` names as its parent.
pub open spec fn parent_row_is(items: Seq<OrganizeTaskItemRecord>, i: int, j: int) -> bool {
    0 <= i < items.len() && 0 <= j < items.len() && items[i].parent_id == Some(items[j].id)
}

/// Row `i` names a parent that no row holds.
pub open spec fn parent_missing(items: Seq<OrganizeTaskItemRecord>, i: int) -> bool {
    items[i].parent_id is Some && !(exists|j: int| parent_row_is(items, i, j))
}

/// Some row names a parent that no row holds.
pub open spec fn has_missing_parent(items: Seq<OrganizeTaskItemRecord>) -> bool {
    exists|i: int| 0 <= i < items.len() && #[trigger] parent_missing(items, i)
}

/// The number of rows without a parent among the first `k`.
pub open spec fn root_count(items: Seq<OrganizeTaskItemRecord>, k: int) -> nat
    decreases k,
{
    if k <= 0 {
        0
    } else {
        root_count(items, k - 1) + if items[k - 1].parent_id is None {
            1nat
        } else {
            0nat
        }
    }
}

/// Some row names row `x` as its parent.
pub open spec fn has_child(items: Seq<OrganizeTaskItemRecord>, x: int) -> bool {
    exists|c: int| #[trigger] parent_row_is(items, c, x)
}

/// A row that is not a directory has children.
pub open spec fn non_directory_has_child(items: Seq<OrganizeTaskItemRecord>) -> bool {
    exists|x: int| 0 <= x < items.len() && items[x].kind@ != "directory"@ && #[trigger] has_child(items, x)
}

/// The parent row of row `i`.
pub open spec fn parent_of(items: Seq<OrganizeTaskItemRecord>, i: int) -> int {
    choose|j: int| parent_row_is(items, i, j)
}

/// Walking up from row `i` through parents reaches a row without a parent
/// within `k` steps.
pub open spec fn reaches_root(items: Seq<OrganizeTaskItemRecord>, i: int, k: nat) -> bool
    decreases k,
{
    if items[i].parent_id is None {
        true
    } else if k == 0 {
        false
    } else {
        reaches_root(items, parent_of(items, i), (k - 1) as nat)
    }
}

/// The number of steps from row `i` up to a row without a parent, walking at
/// most `k`.
pub open spec fn depth_of(items: Seq<OrganizeTaskItemRecord>, i: int, k: nat) -> nat
    decreases k,
{
    if items[i].parent_id is None || k == 0 {
        0
    } else {
        1 + depth_of(items, parent_of(items, i), (k - 1) as nat)
    }
}

/// Every row reaches the root through its parents.
pub open spec fn all_reach_root(items: Seq<OrganizeTaskItemRecord>) -> bool {
    forall|i: int| 0 <= i < items.len() ==> #[trigger] reaches_root(items, i, items.len())
}

/// The order of siblings: by key, then by row position.
pub open spec fn sibling_before(items: Seq<OrganizeTaskItemRecord>, a: int, b: int) -> bool {
    key_less(items[a].relative_path_key@, items[b].relative_path_key@) || (items[a].relative_path_key@
        == items[b].relative_path_key@ && a < b)
}

/// Row `c` is the first child of row `x`.
pub open spec fn first_child(items: Seq<OrganizeTaskItemRecord>, c: int, x: int) -> bool {
    &&& parent_row_is(items, c, x)
    &&& forall|w: int| #[trigger] parent_row_is(items, w, x) && w != c ==> sibling_before(items, c, w)
}

/// Row `c` is the last child of row `x`.
pub open spec fn last_child(items: Seq<OrganizeTaskItemRecord>, c: int, x: int) -> bool {
    &&& parent_row_is(items, c, x)
    &&& forall|w: int| #[trigger] parent_row_is(items, w, x) && w != c ==> sibling_before(items, w, c)
}

/// Row `s` is the sibling that comes right after row `c`.
pub open spec fn next_sibling(items: Seq<OrganizeTaskItemRecord>, c: int, s: int) -> bool {
    &&& 0 <= c < items.len()
    &&& 0 <= s < items.len()
    &&& items[c].parent_id is Some
    &&& items[s].parent_id == items[c].parent_id
    &&& sibling_before(items, c, s)
    &&& forall|w: int|
        0 <= w < items.len() && #[trigger] items[w].parent_id == items[c].parent_id && w != c && w != s ==> !(
        sibling_before(items, c, w) && sibling_before(items, w, s))
}

// ---- the order of keys ----

pub(crate) proof fn lemma_key_less_irrefl(a: Seq<char>, i: int)
    requires
        0 <= i,
    ensures
        !key_less_from(a, a, i),
    decreases a.len() - i,
{
    if i < a.len() {
        lemma_key_less_irrefl(a, i + 1);
    }
}

pub(crate) proof fn lemma_key_less_trans(a: Seq<char>, b: Seq<char>, c: Seq<char>, i: int)
    requires
        0 <= i,
        key_less_from(a, b, i),
        key_less_from(b, c, i),
    ensures
        key_less_from(a, c, i),
    decreases a.len() - i,
{
    if i < a.len() && a[i] == b[i] && b[i] == c[i] {
        lemma_key_less_trans(a, b, c, i + 1);
    }
}

/// The sibling order is a strict total order on rows.
proof fn lemma_sibling_order(items: Seq<OrganizeTaskItemRecord>)
    ensures
        forall|a: int| !#[trigger] sibling_before(items, a, a),
        forall|a: int, b: int, c: int|
            #[trigger] sibling_before(items, a, b) && #[trigger] sibling_before(items, b, c) ==> sibling_before(
                items,
                a,
                c,
            ),
        forall|a: int, b: int|
            a != b ==> #[trigger] sibling_before(items, a, b) || #[trigger] sibling_before(items, b, a),
{
    assert forall|a: int| !#[trigger] sibling_before(items, a, a) by {
        lemma_key_less_irrefl(items[a].relative_path_key@, 0);
    }
    assert forall|a: int, b: int, c: int|
        #[trigger] sibling_before(items, a, b) && #[trigger] sibling_before(items, b, c) implies sibling_before(
            items,
            a,
            c,
        ) by {
        let ka = items[a].relative_path_key@;
        let kb = items[b].relative_path_key@;
        let kc = items[c].relative_path_key@;
        if key_less(ka, kb) && key_less(kb, kc) {
            lemma_key_less_trans(ka, kb, kc, 0);
        }
    }
    assert forall|a: int, b: int| a != b implies #[trigger] sibling_before(items, a, b) || #[trigger] sibling_before(
        items,
        b,
        a,
    ) by {
        let ka = items[a].relative_path_key@;
        let kb = items[b].relative_path_key@;
        if ka != kb && !key_less(ka, kb) {
            assert(ka.take(0) =~= kb.take(0));
            lemma_key_less_total(ka, kb, 0);
        }
    }
}

/// Whether row `a` comes before row `b` among siblings.
fn sibling_before_exec(items: &Vec<OrganizeTaskItemRecord>, keys: &Vec<Vec<char>>, a: usize, b: usize) -> (r: bool)
    requires
        a < items@.len(),
        b < items@.len(),
        keys@.len() == items@.len(),
        forall|i: int| 0 <= i < items@.len() ==> (#[trigger] keys@[i])@ == items@[i].relative_path_key@,
    ensures
        r == sibling_before(items@, a as int, b as int),
{
    let ka = &keys[a];
    let kb = &keys[b];
    chars_less(ka.as_slice(), kb.as_slice()) || (chars_eq(ka.as_slice(), kb.as_slice()) && a < b)
}

// ---- checking the rows ----

/// The parent row of each row, or `None` where some row names a parent no
/// row holds.
fn resolve_parents(items: &Vec<OrganizeTaskItemRecord>) -> (r: Option<Vec<Option<usize>>>)
    ensures
        r is None <==> has_missing_parent(items@),
        r matches Some(p) ==> p@.len() == items@.len() && forall|i: int|
            0 <= i < items@.len() ==> match #[trigger] p@[i] {
                None => items@[i].parent_id is None,
                Some(j) => parent_row_is(items@, i, j as int),
            },
{
    let mut out: Vec<Option<usize>> = Vec::new();
    let mut i: usize = 0;
    while i < items.len()
        invariant
            i <= items@.len(),
            out@.len() == i,
            forall|k: int| 0 <= k < i ==> !#[trigger] parent_missing(items@, k),
            forall|k: int|
                0 <= k < i ==> match #[trigger] out@[k] {
                    None => items@[k].parent_id is None,
                    Some(j) => parent_row_is(items@, k, j as int),
                },
        decreases items@.len() - i,
    {
        match items[i].parent_id {
            None => {
                out.push(None);
            },
            Some(p) => {
                let mut j: usize = 0;
                let mut found: Option<usize> = None;
                while j < items.len() && found.is_none()
                    invariant
                        i < items@.len(),
                        j <= items@.len(),
                        items@[i as int].parent_id == Some(p),
                        found is None ==> forall|m: int| 0 <= m < j ==> items@[m].id != p,
                        found matches Some(f) ==> parent_row_is(items@, i as int, f as int),
                    decreases items@.len() - j + if found is None { 1int } else { 0int },
                {
                    if items[j].id == p {
                        found = Some(j);
                    } else {
                        j = j + 1;
                    }
                }
                match found {
                    None => {
                        assert(parent_missing(items@, i as int));
                        return None;
                    },
                    Some(f) => {
                        out.push(Some(f));
                    },
                }
            },
        }
        i = i + 1;
    }
    assert(!has_missing_parent(items@));
    Some(out)
}

proof fn lemma_two_roots(items: Seq<OrganizeTaskItemRecord>, a: int, b: int, k: int)
    requires
        0 <= a < b < k <= items.len(),
        items[a].parent_id is None,
        items[b].parent_id is None,
    ensures
        root_count(items, k) >= 2,
    decreases k,
{
    lemma_root_count_mono(items, a + 1, b);
    lemma_root_count_mono(items, b + 1, k);
}

proof fn lemma_root_count_mono(items: Seq<OrganizeTaskItemRecord>, a: int, b: int)
    requires
        0 <= a <= b,
    ensures
        root_count(items, a) <= root_count(items, b),
    decreases b - a,
{
    if a < b {
        lemma_root_count_mono(items, a, b - 1);
    }
}

/// The number of rows without a parent, and the last of them.
fn count_roots(items: &Vec<OrganizeTaskItemRecord>) -> (r: (usize, usize))
    ensures
        r.0 == root_count(items@, items@.len() as int),
        r.0 > 0 ==> r.1 < items@.len() && items@[r.1 as int].parent_id is None,
        r.0 == 1 ==> forall|i: int| 0 <= i < items@.len() && (#[trigger] items@[i]).parent_id is None ==> i == r.1,
{
    let mut count: usize = 0;
    let mut last: usize = 0;
    let mut i: usize = 0;
    while i < items.len()
        invariant
            i <= items@.len(),
            count == root_count(items@, i as int),
            count <= i,
            count > 0 ==> last < i && items@[last as int].parent_id is None,
            count == 1 ==> forall|m: int| 0 <= m < i && (#[trigger] items@[m]).parent_id is None ==> m == last,
        decreases items@.len() - i,
    {
        if items[i].parent_id.is_none() {
            proof {
                if count == 0 {
                    assert forall|m: int| 0 <= m < i && (#[trigger] items@[m]).parent_id is None implies false by {
                        lemma_root_count_mono(items@, m + 1, i as int);
                    }
                }
            }
            count = count + 1;
            last = i;
        }
        i = i + 1;
    }
    (count, last)
}

/// Which rows have children.
fn child_flags(items: &Vec<OrganizeTaskItemRecord>, par: &Vec<Option<usize>>) -> (r: Vec<bool>)
    requires
        par@.len() == items@.len(),
        ids_distinct(items@),
        forall|i: int|
            0 <= i < items@.len() ==> match #[trigger] par@[i] {
                None => items@[i].parent_id is None,
                Some(j) => parent_row_is(items@, i, j as int),
            },
    ensures
        r@.len() == items@.len(),
        forall|x: int| 0 <= x < items@.len() ==> #[trigger] r@[x] == has_child(items@, x),
{
    let n = items.len();
    let mut flags: Vec<bool> = Vec::new();
    let mut k: usize = 0;
    while k < n
        invariant
            k <= n,
            flags@.len() == k,
            forall|x: int| 0 <= x < k ==> !#[trigger] flags@[x],
        decreases n - k,
    {
        flags.push(false);
        k = k + 1;
    }
    let mut i: usize = 0;
    while i < n
        invariant
            n == items@.len(),
            par@.len() == n,
            i <= n,
            flags@.len() == n,
            ids_distinct(items@),
            forall|c: int|
                0 <= c < n ==> match #[trigger] par@[c] {
                    None => items@[c].parent_id is None,
                    Some(j) => parent_row_is(items@, c, j as int),
                },
            forall|x: int| 0 <= x < n ==> #[trigger] flags@[x] == exists|c: int| 0 <= c < i && parent_row_is(items@, c, x),
        decreases n - i,
    {
        match par[i] {
            Some(p) => {
                flags.set(p, true);
                proof {
                    assert forall|x: int| 0 <= x < n implies #[trigger] flags@[x] == exists|c: int|
                        0 <= c < i + 1 && parent_row_is(items@, c, x) by {
                        if x == p {
                            assert(parent_row_is(items@, i as int, x));
                        } else if flags@[x] {
                        } else {
                            assert(!parent_row_is(items@, i as int, x));
                        }
                    }
                }
            },
            None => {
                proof {
                    assert forall|x: int| 0 <= x < n implies #[trigger] flags@[x] == exists|c: int|
                        0 <= c < i + 1 && parent_row_is(items@, c, x) by {
                        assert(!parent_row_is(items@, i as int, x));
                    }
                }
            },
        }
        i = i + 1;
    }
    proof {
        assert forall|x: int| 0 <= x < n implies #[trigger] flags@[x] == has_child(items@, x) by {
            if has_child(items@, x) {
                let c = choose|c: int| #[trigger] parent_row_is(items@, c, x);
                assert(0 <= c < n && parent_row_is(items@, c, x));
            }
        }
    }
    flags
}


/// The parent row a resolved index names is the parent of the row.
proof fn lemma_parent_of(items: Seq<OrganizeTaskItemRecord>, i: int, j: int)
    requires
        ids_distinct(items),
        parent_row_is(items, i, j),
    ensures
        parent_of(items, i) == j,
{
    let c = parent_of(items, i);
    assert(parent_row_is(items, i, c));
}

proof fn lemma_depth_bound(items: Seq<OrganizeTaskItemRecord>, i: int, k: nat)
    ensures
        depth_of(items, i, k) <= k,
    decreases k,
{
    if !(items[i].parent_id is None || k == 0) {
        lemma_depth_bound(items, parent_of(items, i), (k - 1) as nat);
    }
}

proof fn lemma_reach_stable(items: Seq<OrganizeTaskItemRecord>, i: int, k: nat)
    requires
        reaches_root(items, i, k),
    ensures
        reaches_root(items, i, k + 1),
        depth_of(items, i, k) == depth_of(items, i, k + 1),
    decreases k,
{
    if items[i].parent_id is Some && k > 0 {
        lemma_reach_stable(items, parent_of(items, i), (k - 1) as nat);
    }
}

/// The number of steps from each row up to the root, or `None` where some
/// row does not reach the root.
fn depths(items: &Vec<OrganizeTaskItemRecord>, par: &Vec<Option<usize>>) -> (r: Option<Vec<usize>>)
    requires
        par@.len() == items@.len(),
        ids_distinct(items@),
        forall|i: int|
            0 <= i < items@.len() ==> match #[trigger] par@[i] {
                None => items@[i].parent_id is None,
                Some(j) => parent_row_is(items@, i, j as int),
            },
    ensures
        r is None <==> !all_reach_root(items@),
        r matches Some(d) ==> {
            &&& d@.len() == items@.len()
            &&& forall|y: int|
                0 <= y < items@.len() ==> #[trigger] d@[y] <= items@.len() && match par@[y] {
                    None => d@[y] == 0,
                    Some(p) => d@[y] == d@[p as int] + 1,
                }
        },
{
    let n = items.len();
    let mut out: Vec<usize> = Vec::new();
    let mut y: usize = 0;
    while y < n
        invariant
            n == items@.len(),
            par@.len() == n,
            ids_distinct(items@),
            forall|i: int|
                0 <= i < n ==> match #[trigger] par@[i] {
                    None => items@[i].parent_id is None,
                    Some(j) => parent_row_is(items@, i, j as int),
                },
            y <= n,
            out@.len() == y,
            forall|m: int|
                0 <= m < y ==> #[trigger] reaches_root(items@, m, n as nat) && out@[m] == depth_of(
                    items@,
                    m,
                    n as nat,
                ),
        decreases n - y,
    {
        let mut cur: usize = y;
        let mut steps: usize = 0;
        while par[cur].is_some() && steps < n
            invariant
                n == items@.len(),
                par@.len() == n,
                ids_distinct(items@),
                forall|i: int|
                    0 <= i < n ==> match #[trigger] par@[i] {
                        None => items@[i].parent_id is None,
                        Some(j) => parent_row_is(items@, i, j as int),
                    },
                y < n,
                cur < n,
                steps <= n,
                reaches_root(items@, y as int, n as nat) == reaches_root(items@, cur as int, (n - steps) as nat),
                depth_of(items@, y as int, n as nat) == steps + depth_of(items@, cur as int, (n - steps) as nat),
            decreases n - steps,
        {
            let next = par[cur].unwrap();
            proof {
                lemma_parent_of(items@, cur as int, next as int);
            }
            cur = next;
            steps = steps + 1;
        }
        if par[cur].is_some() {
            assert(!reaches_root(items@, y as int, n as nat));
            return None;
        }
        out.push(steps);
        y = y + 1;
    }
    proof {
        assert forall|m: int| 0 <= m < n implies #[trigger] out@[m] <= n && match par@[m] {
            None => out@[m] == 0,
            Some(p) => out@[m] == out@[p as int] + 1,
        } by {
            assert(reaches_root(items@, m, n as nat));
            lemma_depth_bound(items@, m, n as nat);
            if let Some(p) = par@[m] {
                lemma_parent_of(items@, m, p as int);
                assert(reaches_root(items@, p as int, (n - 1) as nat));
                lemma_reach_stable(items@, p as int, (n - 1) as nat);
            }
        }
        assert(all_reach_root(items@));
    }
    Some(out)
}


// ---- numbering the tree ----

/// What the numbering reads: the resolved parent, the depth and the key of
/// each row.
spec fn tree_ctx(
    items: Seq<OrganizeTaskItemRecord>,
    par: Seq<Option<usize>>,
    dep: Seq<usize>,
    keys: Seq<Vec<char>>,
) -> bool {
    let n = items.len();
    &&& ids_distinct(items)
    &&& par.len() == n
    &&& dep.len() == n
    &&& keys.len() == n
    &&& forall|i: int|
        0 <= i < n ==> match #[trigger] par[i] {
            None => items[i].parent_id is None,
            Some(j) => parent_row_is(items, i, j as int),
        }
    &&& forall|i: int| 0 <= i < n ==> #[trigger] dep[i] <= n
    &&& forall|i: int|
        0 <= i < n ==> match #[trigger] par[i] {
            None => dep[i] == 0,
            Some(p) => dep[i] == dep[p as int] + 1,
        }
    &&& forall|i: int| 0 <= i < n ==> (#[trigger] keys[i])@ == items[i].relative_path_key@
}

proof fn lemma_child_par(
    items: Seq<OrganizeTaskItemRecord>,
    par: Seq<Option<usize>>,
    dep: Seq<usize>,
    keys: Seq<Vec<char>>,
    c: int,
    x: int,
)
    requires
        tree_ctx(items, par, dep, keys),
        0 <= c < items.len(),
        0 <= x < items.len(),
    ensures
        parent_row_is(items, c, x) <==> (par[c] matches Some(p) && p as int == x),
        parent_row_is(items, c, x) ==> dep[c] == dep[x] + 1,
{
    if let Some(p) = par[c] {
        assert(parent_row_is(items, c, p as int));
    }
}

/// The state of a depth-first numbering: where each row starts and ends,
/// which rows were entered and which finished, and the rows in the order
/// they were entered.
struct Walk {
    start: Vec<usize>,
    end: Vec<usize>,
    seen: Vec<bool>,
    done: Vec<bool>,
    order: Vec<usize>,
}

/// A row starts where its previous sibling ends, or right after its parent
/// starts when it is the first child.
spec fn entry_ok(items: Seq<OrganizeTaskItemRecord>, w: Walk, y: int) -> bool {
    &&& forall|p: int| #[trigger] next_sibling(items, p, y) ==> w.start@[y] == w.end@[p]
    &&& forall|x: int| #[trigger] first_child(items, y, x) ==> w.start@[y] == w.start@[x] + 1
}

/// A row ends one after it starts when it has no children, else where its
/// last child ends.
spec fn exit_ok(items: Seq<OrganizeTaskItemRecord>, w: Walk, y: int) -> bool {
    &&& !has_child(items, y) ==> w.end@[y] == w.start@[y] + 1
    &&& forall|c: int| #[trigger] last_child(items, c, y) ==> w.end@[y] == w.end@[c]
}

spec fn walk_inv(items: Seq<OrganizeTaskItemRecord>, w: Walk) -> bool {
    let n = items.len();
    &&& w.start@.len() == n
    &&& w.end@.len() == n
    &&& w.seen@.len() == n
    &&& w.done@.len() == n
    &&& w.order@.len() <= n
    &&& forall|k: int|
        0 <= k < w.order@.len() ==> (#[trigger] w.order@[k]) < n && w.seen@[w.order@[k] as int] && w.start@[w.order@[k] as int] == k
    &&& forall|y: int|
        0 <= y < n && #[trigger] w.seen@[y] ==> {
            &&& w.start@[y] < w.order@.len()
            &&& w.order@[w.start@[y] as int] == y
            &&& entry_ok(items, w, y)
            &&& forall|x: int| #[trigger] parent_row_is(items, y, x) ==> w.seen@[x]
            &&& forall|p: int| #[trigger] next_sibling(items, p, y) ==> w.done@[p]
        }
    &&& forall|y: int|
        0 <= y < n && #[trigger] w.done@[y] ==> {
            &&& w.seen@[y]
            &&& w.end@[y] <= w.order@.len()
            &&& w.start@[y] < w.end@[y]
            &&& exit_ok(items, w, y)
            &&& forall|c: int| #[trigger] parent_row_is(items, c, y) ==> w.done@[c] && w.start@[y] < w.start@[c]
                && w.end@[c] <= w.end@[y]
        }
}

/// How a walk may change while row `x` is numbered: entered rows keep their
/// start, finished rows their end, and the rows newly entered are `x` and
/// rows deeper than it, all finished unless `x` itself.
spec fn walk_grows(items: Seq<OrganizeTaskItemRecord>, dep: Seq<usize>, a: Walk, b: Walk, x: int) -> bool {
    let n = items.len();
    &&& forall|y: int| 0 <= y < n && #[trigger] a.seen@[y] ==> b.seen@[y] && b.start@[y] == a.start@[y]
    &&& forall|y: int| 0 <= y < n && #[trigger] a.done@[y] ==> b.done@[y] && b.end@[y] == a.end@[y]
    &&& forall|y: int|
        0 <= y < n && !a.seen@[y] && #[trigger] b.seen@[y] ==> y == x || (b.done@[y] && dep[y] > dep[x])
    &&& forall|y: int| 0 <= y < n && #[trigger] b.done@[y] ==> a.done@[y] || !a.seen@[y]
    &&& a.order@.len() <= b.order@.len()
}

/// Row `c` comes after `prev` among siblings; every row does when there is
/// no `prev`.
spec fn comes_after(items: Seq<OrganizeTaskItemRecord>, prev: Option<usize>, c: int) -> bool {
    match prev {
        None => true,
        Some(p) => sibling_before(items, p as int, c),
    }
}

/// The first child of `x` that comes after `prev`.
fn next_child(
    x: usize,
    prev: Option<usize>,
    items: &Vec<OrganizeTaskItemRecord>,
    par: &Vec<Option<usize>>,
    dep: &Vec<usize>,
    keys: &Vec<Vec<char>>,
) -> (r: Option<usize>)
    requires
        tree_ctx(items@, par@, dep@, keys@),
        x < items@.len(),
        prev matches Some(p) ==> p < items@.len(),
    ensures
        match r {
            None => forall|c: int| #[trigger] parent_row_is(items@, c, x as int) ==> !comes_after(items@, prev, c),
            Some(c) => {
                &&& parent_row_is(items@, c as int, x as int)
                &&& comes_after(items@, prev, c as int)
                &&& forall|w: int|
                    #[trigger] parent_row_is(items@, w, x as int) && comes_after(items@, prev, w) && w != c
                        ==> sibling_before(items@, c as int, w)
            },
        },
{
    proof {
        lemma_sibling_order(items@);
    }
    let n = items.len();
    let mut best: Option<usize> = None;
    let mut j: usize = 0;
    while j < n
        invariant
            tree_ctx(items@, par@, dep@, keys@),
            n == items@.len(),
            x < n,
            prev matches Some(p) ==> p < n,
            j <= n,
            forall|a: int| !#[trigger] sibling_before(items@, a, a),
            forall|a: int, b: int, c: int|
                #[trigger] sibling_before(items@, a, b) && #[trigger] sibling_before(items@, b, c) ==> sibling_before(
                    items@,
                    a,
                    c,
                ),
            forall|a: int, b: int|
                a != b ==> #[trigger] sibling_before(items@, a, b) || #[trigger] sibling_before(items@, b, a),
            match best {
                None => forall|c: int|
                    0 <= c < j && #[trigger] parent_row_is(items@, c, x as int) ==> !comes_after(items@, prev, c),
                Some(b) => {
                    &&& b < j
                    &&& parent_row_is(items@, b as int, x as int)
                    &&& comes_after(items@, prev, b as int)
                    &&& forall|w: int|
                        0 <= w < j && #[trigger] parent_row_is(items@, w, x as int) && comes_after(items@, prev, w) && w
                            != b ==> sibling_before(items@, b as int, w)
                },
            },
        decreases n - j,
    {
        proof {
            lemma_child_par(items@, par@, dep@, keys@, j as int, x as int);
        }
        let is_child = match par[j] {
            Some(p) => p == x,
            None => false,
        };
        if is_child {
            let after = match prev {
                None => true,
                Some(p) => sibling_before_exec(items, keys, p, j),
            };
            if after {
                let better = match best {
                    None => true,
                    Some(b) => sibling_before_exec(items, keys, j, b),
                };
                if better {
                    best = Some(j);
                }
            }
        }
        j = j + 1;
    }
    proof {
        assert forall|c: int| #[trigger] parent_row_is(items@, c, x as int) implies 0 <= c < n by {}
    }
    best
}


/// Value `v` occurs in `s`.
spec fn in_seq(s: Seq<usize>, v: int) -> bool {
    exists|k: int| 0 <= k < s.len() && s[k] == v
}

/// Distinct positions below `n` number at most `n`, and exactly `n` when
/// they cover all of them.
proof fn lemma_distinct_len(s: Seq<usize>, n: int)
    requires
        0 <= n,
        forall|k: int| 0 <= k < s.len() ==> (#[trigger] s[k]) < n,
        forall|a: int, b: int| 0 <= a < b < s.len() ==> #[trigger] s[a] != #[trigger] s[b],
    ensures
        s.len() <= n,
        (forall|v: int| 0 <= v < n ==> #[trigger] in_seq(s, v)) ==> s.len() == n,
{
    let t = s.map_values(|v: usize| v as int);
    assert forall|a: int, b: int| 0 <= a < t.len() && 0 <= b < t.len() && a != b implies t[a] != t[b] by {
        if a < b {
            assert(s[a] != s[b]);
        } else {
            assert(s[b] != s[a]);
        }
    }
    assert(t.no_duplicates());
    t.unique_seq_to_set();
    vstd::set_lib::lemma_int_range(0, n);
    assert(t.to_set().subset_of(vstd::set_lib::set_int_range(0, n)));
    vstd::set_lib::lemma_len_subset(t.to_set(), vstd::set_lib::set_int_range(0, n));
    if forall|v: int| 0 <= v < n ==> #[trigger] in_seq(s, v) {
        assert forall|v: int| vstd::set_lib::set_int_range(0, n).contains(v) implies t.to_set().contains(v) by {
            assert(in_seq(s, v));
            let k = choose|k: int| 0 <= k < s.len() && s[k] == v;
            assert(t[k] == v);
        }
        vstd::set_lib::lemma_len_subset(vstd::set_lib::set_int_range(0, n), t.to_set());
    }
}

/// Number row `x` and the rows under it, starting at the next free position.
fn visit(
    x: usize,
    items: &Vec<OrganizeTaskItemRecord>,
    par: &Vec<Option<usize>>,
    dep: &Vec<usize>,
    keys: &Vec<Vec<char>>,
    w: &mut Walk,
)
    requires
        tree_ctx(items@, par@, dep@, keys@),
        x < items@.len(),
        walk_inv(items@, *old(w)),
        !old(w).seen@[x as int],
        forall|p: int| #[trigger] parent_row_is(items@, x as int, p) ==> old(w).seen@[p],
        forall|p: int|
            #[trigger] next_sibling(items@, p, x as int) ==> old(w).done@[p] && old(w).end@[p] == old(w).order@.len(),
        forall|p: int| #[trigger] first_child(items@, x as int, p) ==> old(w).order@.len() == old(w).start@[p] + 1,
    ensures
        walk_inv(items@, *final(w)),
        walk_grows(items@, dep@, *old(w), *final(w), x as int),
        final(w).seen@[x as int],
        final(w).done@[x as int],
        final(w).start@[x as int] == old(w).order@.len(),
        final(w).end@[x as int] == final(w).order@.len(),
        forall|y: int|
            0 <= y < items@.len() && !old(w).seen@[y] && #[trigger] final(w).seen@[y] ==> final(w).start@[y]
                >= old(w).order@.len(),
    decreases items@.len() - dep@[x as int],
{
    let ghost w0 = *w;
    let n = items.len();
    let s0 = w.order.len();
    proof {
        lemma_sibling_order(items@);
        assert forall|k: int| 0 <= k < w.order@.len() implies #[trigger] w.order@[k] != x by {}
        lemma_distinct_len(w.order@.push(x), n as int);
    }
    w.start.set(x, s0);
    w.seen.set(x, true);
    w.order.push(x);
    assert(walk_inv(items@, *w));
    let mut prev: Option<usize> = None;
    let mut next = next_child(x, prev, items, par, dep, keys);
    while next.is_some()
        invariant
            tree_ctx(items@, par@, dep@, keys@),
            n == items@.len(),
            x < n,
            walk_inv(items@, *w),
            w.seen@[x as int],
            !w.done@[x as int],
            w.start@[x as int] == s0,
            s0 == w0.order@.len(),
            !w0.seen@[x as int],
            forall|y: int| 0 <= y < n && #[trigger] w0.seen@[y] ==> w.seen@[y] && w.start@[y] == w0.start@[y],
            forall|y: int| 0 <= y < n && #[trigger] w0.done@[y] ==> w.done@[y] && w.end@[y] == w0.end@[y],
            forall|y: int|
                0 <= y < n && !w0.seen@[y] && #[trigger] w.seen@[y] ==> y == x || (w.done@[y] && dep@[y] > dep@[x as int]),
            forall|y: int| 0 <= y < n && #[trigger] w.done@[y] ==> w0.done@[y] || !w0.seen@[y],
            forall|y: int| 0 <= y < n && !w0.seen@[y] && #[trigger] w.seen@[y] && y != x ==> w.start@[y] > s0,
            forall|y: int| #[trigger] parent_row_is(items@, y, x as int) ==> !w0.seen@[y],
            w0.order@.len() < w.order@.len(),
            forall|c: int| #[trigger] parent_row_is(items@, c, x as int) ==> (w.seen@[c] <==> !comes_after(items@, prev, c)),
            forall|c: int| #[trigger] parent_row_is(items@, c, x as int) && w.seen@[c] ==> w.done@[c],
            prev matches Some(q) ==> parent_row_is(items@, q as int, x as int) && w.done@[q as int] && w.end@[q as int]
                == w.order@.len(),
            prev is None ==> w.order@.len() == s0 + 1,
            match next {
                None => forall|c: int| #[trigger] parent_row_is(items@, c, x as int) ==> !comes_after(items@, prev, c),
                Some(c) => {
                    &&& parent_row_is(items@, c as int, x as int)
                    &&& comes_after(items@, prev, c as int)
                    &&& forall|v: int|
                        #[trigger] parent_row_is(items@, v, x as int) && comes_after(items@, prev, v) && v != c
                            ==> sibling_before(items@, c as int, v)
                },
            },
            forall|a: int| !#[trigger] sibling_before(items@, a, a),
            forall|a: int, b: int, c: int|
                #[trigger] sibling_before(items@, a, b) && #[trigger] sibling_before(items@, b, c) ==> sibling_before(
                    items@,
                    a,
                    c,
                ),
            forall|a: int, b: int|
                a != b ==> #[trigger] sibling_before(items@, a, b) || #[trigger] sibling_before(items@, b, a),
        decreases n - w.order@.len(),
    {
        let c = next.unwrap();
        proof {
            lemma_child_par(items@, par@, dep@, keys@, c as int, x as int);
            assert forall|p: int| #[trigger] next_sibling(items@, p, c as int) implies w.done@[p] && w.end@[p]
                == w.order@.len() by {
                assert(parent_row_is(items@, p, x as int));
                if let Some(q) = prev {
                    if p != q {
                        assert(items@[q as int].parent_id == items@[p].parent_id);
                        if sibling_before(items@, p, q as int) {
                        } else {
                            assert(sibling_before(items@, q as int, p));
                        }
                    }
                }
            }
            assert forall|p: int| #[trigger] first_child(items@, c as int, p) implies w.order@.len() == w.start@[p]
                + 1 by {
                lemma_child_par(items@, par@, dep@, keys@, c as int, p);
                if let Some(q) = prev {
                    assert(parent_row_is(items@, q as int, x as int));
                }
            }
        }
        let ghost w1 = *w;
        visit(c, items, par, dep, keys, w);
        proof {
            assert forall|v: int| #[trigger] parent_row_is(items@, v, x as int) implies (w.seen@[v] <==> !comes_after(
                items@,
                Some(c),
                v,
            )) by {
                lemma_child_par(items@, par@, dep@, keys@, v, x as int);
                if v != c {
                    assert(w.seen@[v] == w1.seen@[v]);
                }
            }
        }
        prev = Some(c);
        next = next_child(x, prev, items, par, dep, keys);
    }
    let e = w.order.len();
    proof {
        assert forall|c: int| #[trigger] last_child(items@, c, x as int) implies e == w.end@[c] by {
            if let Some(q) = prev {
                if q as int != c {
                    assert(parent_row_is(items@, q as int, x as int));
                }
            }
        }
        assert(!has_child(items@, x as int) ==> e == s0 + 1);
    }
    w.end.set(x, e);
    w.done.set(x, true);
}


/// Every row is finished once the root is, when every row reaches the root.
proof fn lemma_all_done(
    items: Seq<OrganizeTaskItemRecord>,
    par: Seq<Option<usize>>,
    dep: Seq<usize>,
    keys: Seq<Vec<char>>,
    w: Walk,
    root: int,
    y: int,
)
    requires
        tree_ctx(items, par, dep, keys),
        walk_inv(items, w),
        0 <= root < items.len(),
        w.done@[root],
        forall|i: int| 0 <= i < items.len() && (#[trigger] items[i]).parent_id is None ==> i == root,
        0 <= y < items.len(),
    ensures
        w.done@[y],
    decreases dep[y],
{
    match par[y] {
        None => {},
        Some(p) => {
            assert(parent_row_is(items, y, p as int));
            assert(dep[y] == dep[p as int] + 1);
            lemma_all_done(items, par, dep, keys, w, root, p as int);
        },
    }
}

// ---- the layout ----

/// The place of one row in the tree: the interval of positions it spans,
/// the units under it and their bytes.
#[derive(Clone, Copy, Debug, PartialEq, Eq, Structural)]
pub struct TreeSlot {
    pub id: i32,
    pub tree_start: i64,
    pub tree_end: i64,
    pub unit_count: i64,
    pub aggregate_size_bytes: i64,
}

/// The layout of an included tree, with the totals of the task.
#[derive(Clone, Debug)]
pub struct IncludedTreeLayout {
    /// The place of each row, in the order of the rows.
    pub slots: Vec<TreeSlot>,
    pub total_entries: i64,
    pub total_units: i64,
    pub total_bytes: i64,
    /// The first of the positions past every stored interval, where rows are
    /// parked before they take their place.
    pub parked_start: i64,
}

/// The starts of the slots.
pub open spec fn slot_starts(slots: Seq<TreeSlot>) -> Seq<i64> {
    Seq::new(slots.len(), |i: int| slots[i].tree_start)
}

/// The rows without children among the first `k` whose start lies in
/// `[lo, hi)`.
pub open spec fn leaf_units_in(items: Seq<OrganizeTaskItemRecord>, starts: Seq<i64>, lo: int, hi: int, k: int) -> nat
    decreases k,
{
    if k <= 0 {
        0
    } else {
        leaf_units_in(items, starts, lo, hi, k - 1) + if !has_child(items, k - 1) && lo <= starts[k - 1] < hi {
            1nat
        } else {
            0nat
        }
    }
}

/// The bytes of the rows without children among the first `k` whose start
/// lies in `[lo, hi)`.
pub open spec fn leaf_bytes_in(items: Seq<OrganizeTaskItemRecord>, starts: Seq<i64>, lo: int, hi: int, k: int) -> int
    decreases k,
{
    if k <= 0 {
        0
    } else {
        leaf_bytes_in(items, starts, lo, hi, k - 1) + if !has_child(items, k - 1) && lo <= starts[k - 1] < hi {
            items[k - 1].size_bytes as int
        } else {
            0int
        }
    }
}

/// The rows without children among the first `k`.
pub open spec fn leaf_count(items: Seq<OrganizeTaskItemRecord>, k: int) -> nat
    decreases k,
{
    if k <= 0 {
        0
    } else {
        leaf_count(items, k - 1) + if !has_child(items, k - 1) {
            1nat
        } else {
            0nat
        }
    }
}

/// The bytes of the files among the first `k` rows.
pub open spec fn file_bytes(items: Seq<OrganizeTaskItemRecord>, k: int) -> int
    decreases k,
{
    if k <= 0 {
        0
    } else {
        file_bytes(items, k - 1) + if items[k - 1].kind@ == "file"@ {
            items[k - 1].size_bytes as int
        } else {
            0int
        }
    }
}

/// The sizes of the first `k` rows, each taken without its sign.
pub open spec fn abs_size_total(items: Seq<OrganizeTaskItemRecord>, k: int) -> nat
    decreases k,
{
    if k <= 0 {
        0
    } else {
        abs_size_total(items, k - 1) + if items[k - 1].size_bytes < 0 {
            (-(items[k - 1].size_bytes as int)) as nat
        } else {
            items[k - 1].size_bytes as nat
        }
    }
}

/// The greatest stored tree end among the first `k` rows.
pub open spec fn max_tree_end(items: Seq<OrganizeTaskItemRecord>, k: int) -> Option<i64>
    decreases k,
{
    if k <= 0 {
        None
    } else {
        let m = max_tree_end(items, k - 1);
        match items[k - 1].tree_end {
            None => m,
            Some(e) => match m {
                Some(x) if x >= e => Some(x),
                _ => Some(e),
            },
        }
    }
}

/// One past the greatest stored tree end (0 when there is none), held at
/// the largest `i64`.
pub open spec fn parked_start_spec(items: Seq<OrganizeTaskItemRecord>) -> i64 {
    let m: int = match max_tree_end(items, items.len() as int) {
        None => 0,
        Some(e) => e as int,
    };
    if m >= i64::MAX {
        i64::MAX
    } else {
        (m + 1) as i64
    }
}

/// Whether `slots` is the layout of the tree of `items`: each row's slot
/// names it; the root spans every position; every row spans at least one
/// position and lies inside its parent's span; a row without children spans
/// one; a first child starts right after its parent, each later child where
/// the one before it ends, and a parent ends where its last child ends; the
/// units under a row are the rows without children inside its span, and its
/// bytes are theirs.
pub open spec fn layout_is(items: Seq<OrganizeTaskItemRecord>, slots: Seq<TreeSlot>) -> bool {
    let n = items.len();
    &&& slots.len() == n
    &&& forall|i: int| 0 <= i < n ==> (#[trigger] slots[i]).id == items[i].id
    &&& forall|r: int|
        0 <= r < n && (#[trigger] items[r]).parent_id is None ==> slots[r].tree_start == 0 && slots[r].tree_end == n
    &&& forall|x: int| 0 <= x < n && !#[trigger] has_child(items, x) ==> slots[x].tree_end == slots[x].tree_start + 1
    &&& forall|c: int, x: int| #[trigger] first_child(items, c, x) ==> slots[c].tree_start == slots[x].tree_start + 1
    &&& forall|c: int, x: int| #[trigger] last_child(items, c, x) ==> slots[x].tree_end == slots[c].tree_end
    &&& forall|c: int, t: int| #[trigger] next_sibling(items, c, t) ==> slots[t].tree_start == slots[c].tree_end
    &&& forall|x: int| 0 <= x < n ==> (#[trigger] slots[x]).tree_start < slots[x].tree_end
    &&& forall|c: int, x: int|
        #[trigger] parent_row_is(items, c, x) ==> slots[x].tree_start < slots[c].tree_start && slots[c].tree_end
            <= slots[x].tree_end
    &&& forall|x: int|
        0 <= x < n ==> (#[trigger] slots[x]).unit_count == leaf_units_in(
            items,
            slot_starts(slots),
            slots[x].tree_start as int,
            slots[x].tree_end as int,
            n as int,
        ) && slots[x].aggregate_size_bytes == leaf_bytes_in(
            items,
            slot_starts(slots),
            slots[x].tree_start as int,
            slots[x].tree_end as int,
            n as int,
        )
}

pub open spec fn msg_missing_parent() -> Seq<char> {
    "included item refers to a missing parent"@
}

pub open spec fn msg_one_root() -> Seq<char> {
    "included tree must contain exactly one root"@
}

pub open spec fn msg_only_directories() -> Seq<char> {
    "only directories may contain children"@
}

pub open spec fn msg_cycle() -> Seq<char> {
    "included tree contains a cycle or unreachable item"@
}

proof fn lemma_leaf_sums_bound(items: Seq<OrganizeTaskItemRecord>, starts: Seq<i64>, lo: int, hi: int, k: int)
    requires
        0 <= k,
    ensures
        leaf_units_in(items, starts, lo, hi, k) <= k,
        -(abs_size_total(items, k) as int) <= leaf_bytes_in(items, starts, lo, hi, k) <= abs_size_total(items, k),
        -(abs_size_total(items, k) as int) <= file_bytes(items, k) <= abs_size_total(items, k),
        leaf_count(items, k) <= k,
    decreases k,
{
    if k > 0 {
        lemma_leaf_sums_bound(items, starts, lo, hi, k - 1);
    }
}

proof fn lemma_abs_mono(items: Seq<OrganizeTaskItemRecord>, a: int, b: int)
    requires
        0 <= a <= b,
    ensures
        abs_size_total(items, a) <= abs_size_total(items, b),
    decreases b - a,
{
    if a < b {
        lemma_abs_mono(items, a, b - 1);
    }
}

/// The slot of each row from its interval.
fn place_rows(
    items: &Vec<OrganizeTaskItemRecord>,
    flags: &Vec<bool>,
    starts: &Vec<i64>,
    ends: &Vec<i64>,
) -> (slots: Vec<TreeSlot>)
    requires
        items@.len() < i64::MAX,
        flags@.len() == items@.len(),
        starts@.len() == items@.len(),
        ends@.len() == items@.len(),
        forall|x: int| 0 <= x < items@.len() ==> #[trigger] flags@[x] == has_child(items@, x),
        abs_size_total(items@, items@.len() as int) <= i64::MAX,
    ensures
        slots@.len() == items@.len(),
        slot_starts(slots@) == starts@,
        forall|x: int|
            0 <= x < items@.len() ==> {
                &&& (#[trigger] slots@[x]).id == items@[x].id
                &&& slots@[x].tree_start == starts@[x]
                &&& slots@[x].tree_end == ends@[x]
                &&& slots@[x].unit_count == leaf_units_in(items@, starts@, starts@[x] as int, ends@[x] as int, items@.len() as int)
                &&& slots@[x].aggregate_size_bytes == leaf_bytes_in(items@, starts@, starts@[x] as int, ends@[x] as int, items@.len() as int)
            },
{
    let n = items.len();
    let mut slots: Vec<TreeSlot> = Vec::new();
    let mut x: usize = 0;
    while x < n
        invariant
            n == items@.len(),
            n < i64::MAX,
            flags@.len() == n,
            starts@.len() == n,
            ends@.len() == n,
            forall|y: int| 0 <= y < n ==> #[trigger] flags@[y] == has_child(items@, y),
            abs_size_total(items@, n as int) <= i64::MAX,
            x <= n,
            slots@.len() == x,
            forall|y: int|
                0 <= y < x ==> {
                    &&& (#[trigger] slots@[y]).id == items@[y].id
                    &&& slots@[y].tree_start == starts@[y]
                    &&& slots@[y].tree_end == ends@[y]
                    &&& slots@[y].unit_count == leaf_units_in(items@, starts@, starts@[y] as int, ends@[y] as int, n as int)
                    &&& slots@[y].aggregate_size_bytes == leaf_bytes_in(items@, starts@, starts@[y] as int, ends@[y] as int, n as int)
                },
        decreases n - x,
    {
        let lo = starts[x];
        let hi = ends[x];
        let mut units: i64 = 0;
        let mut bytes: i64 = 0;
        let mut z: usize = 0;
        while z < n
            invariant
                n == items@.len(),
                n < i64::MAX,
                flags@.len() == n,
                starts@.len() == n,
                forall|y: int| 0 <= y < n ==> #[trigger] flags@[y] == has_child(items@, y),
                abs_size_total(items@, n as int) <= i64::MAX,
                z <= n,
                units == leaf_units_in(items@, starts@, lo as int, hi as int, z as int),
                bytes == leaf_bytes_in(items@, starts@, lo as int, hi as int, z as int),
            decreases n - z,
        {
            proof {
                lemma_leaf_sums_bound(items@, starts@, lo as int, hi as int, z + 1);
                lemma_abs_mono(items@, z + 1, n as int);
            }
            if !flags[z] && lo <= starts[z] && starts[z] < hi {
                units = units + 1;
                bytes = bytes + items[z].size_bytes;
            }
            z = z + 1;
        }
        slots.push(TreeSlot {
            id: items[x].id,
            tree_start: lo,
            tree_end: hi,
            unit_count: units,
            aggregate_size_bytes: bytes,
        });
        x = x + 1;
    }
    assert(slot_starts(slots@) =~= starts@);
    slots
}


/// The number of rows without children, the bytes of the files, and the
/// first parked position.
fn layout_totals(items: &Vec<OrganizeTaskItemRecord>, flags: &Vec<bool>) -> (r: (i64, i64, i64))
    requires
        items@.len() < i64::MAX,
        flags@.len() == items@.len(),
        forall|x: int| 0 <= x < items@.len() ==> #[trigger] flags@[x] == has_child(items@, x),
        abs_size_total(items@, items@.len() as int) <= i64::MAX,
    ensures
        r.0 == leaf_count(items@, items@.len() as int),
        r.1 == file_bytes(items@, items@.len() as int),
        r.2 == parked_start_spec(items@),
{
    let n = items.len();
    let mut units: i64 = 0;
    let mut bytes: i64 = 0;
    let mut max_end: Option<i64> = None;
    let mut i: usize = 0;
    while i < n
        invariant
            n == items@.len(),
            n < i64::MAX,
            flags@.len() == n,
            forall|x: int| 0 <= x < n ==> #[trigger] flags@[x] == has_child(items@, x),
            abs_size_total(items@, n as int) <= i64::MAX,
            i <= n,
            units == leaf_count(items@, i as int),
            bytes == file_bytes(items@, i as int),
            max_end == max_tree_end(items@, i as int),
        decreases n - i,
    {
        proof {
            lemma_leaf_sums_bound(items@, Seq::empty(), 0, 0, i + 1);
            lemma_abs_mono(items@, i + 1, n as int);
        }
        if !flags[i] {
            units = units + 1;
        }
        if str_eq(&items[i].kind, "file") {
            bytes = bytes + items[i].size_bytes;
        }
        match items[i].tree_end {
            None => {},
            Some(e) => {
                max_end = match max_end {
                    Some(m) => if m >= e { Some(m) } else { Some(e) },
                    None => Some(e),
                };
            },
        }
        i = i + 1;
    }
    proof {
        reveal_strlit("file");
    }
    let m: i64 = match max_end {
        None => 0,
        Some(e) => e,
    };
    let parked = if m == i64::MAX { i64::MAX } else { m + 1 };
    (units, bytes, parked)
}

/// The parked interval of the row at position `i`: `i` past the first parked
/// position, one long, both held at the largest `i64`.
pub fn parked_interval(parked_start: i64, i: usize) -> (r: (i64, i64))
    ensures
        r.0 == (if parked_start + i >= i64::MAX { i64::MAX as int } else { parked_start + i }),
        r.1 == (if r.0 + 1 >= i64::MAX { i64::MAX as int } else { r.0 + 1 }),
{
    let wide: i128 = parked_start as i128 + i as i128;
    let s: i64 = if wide >= i64::MAX as i128 { i64::MAX } else { wide as i64 };
    let e: i64 = if s == i64::MAX { i64::MAX } else { s + 1 };
    (s, e)
}

/// The layout of the included rows of a task: the rows must name parents
/// that exist, have exactly one root, keep children under directories only
/// and all reach the root; then the tree is numbered depth first, the
/// children of each row in key order.
pub fn layout_included_tree(items: &Vec<OrganizeTaskItemRecord>) -> (r: Result<IncludedTreeLayout, OrganizeError>)
    requires
        items@.len() < i64::MAX,
        ids_distinct(items@),
        abs_size_total(items@, items@.len() as int) <= i64::MAX,
    ensures
        if has_missing_parent(items@) {
            r matches Err(OrganizeError::InvalidTree(m)) && m@ == msg_missing_parent()
        } else if items@.len() > 0 && root_count(items@, items@.len() as int) != 1 {
            r matches Err(OrganizeError::InvalidTree(m)) && m@ == msg_one_root()
        } else if non_directory_has_child(items@) {
            r matches Err(OrganizeError::InvalidTree(m)) && m@ == msg_only_directories()
        } else if !all_reach_root(items@) {
            r matches Err(OrganizeError::InvalidTree(m)) && m@ == msg_cycle()
        } else {
            r matches Ok(l) && {
                &&& layout_is(items@, l.slots@)
                &&& l.total_entries == items@.len()
                &&& l.total_units == leaf_count(items@, items@.len() as int)
                &&& l.total_bytes == file_bytes(items@, items@.len() as int)
                &&& l.parked_start == parked_start_spec(items@)
            }
        },
{
    proof {
        reveal_strlit("included item refers to a missing parent");
        reveal_strlit("included tree must contain exactly one root");
        reveal_strlit("only directories may contain children");
        reveal_strlit("included tree contains a cycle or unreachable item");
        reveal_strlit("directory");
    }
    let n = items.len();
    let par = match resolve_parents(items) {
        None => return Err(OrganizeError::InvalidTree(String::from_str("included item refers to a missing parent"))),
        Some(p) => p,
    };
    let (roots, root) = count_roots(items);
    if n > 0 && roots != 1 {
        return Err(OrganizeError::InvalidTree(String::from_str("included tree must contain exactly one root")));
    }
    let flags = child_flags(items, &par);
    let mut i: usize = 0;
    while i < n
        invariant
            n == items@.len(),
            i <= n,
            flags@.len() == n,
            forall|x: int| 0 <= x < n ==> #[trigger] flags@[x] == has_child(items@, x),
            forall|x: int| 0 <= x < i && #[trigger] has_child(items@, x) ==> items@[x].kind@ == "directory"@,
            !has_missing_parent(items@),
            !(n > 0 && root_count(items@, n as int) != 1),
        decreases n - i,
    {
        if flags[i] && !str_eq(&items[i].kind, "directory") {
            assert(has_child(items@, i as int));
            assert(non_directory_has_child(items@));
            return Err(OrganizeError::InvalidTree(String::from_str("only directories may contain children")));
        }
        i = i + 1;
    }
    let dep = match depths(items, &par) {
        None => return Err(
            OrganizeError::InvalidTree(String::from_str("included tree contains a cycle or unreachable item")),
        ),
        Some(d) => d,
    };
    let mut keys: Vec<Vec<char>> = Vec::new();
    let mut w = Walk { start: Vec::new(), end: Vec::new(), seen: Vec::new(), done: Vec::new(), order: Vec::new() };
    let mut k: usize = 0;
    while k < n
        invariant
            n == items@.len(),
            k <= n,
            keys@.len() == k,
            forall|y: int| 0 <= y < k ==> (#[trigger] keys@[y])@ == items@[y].relative_path_key@,
            w.start@.len() == k,
            w.end@.len() == k,
            w.seen@.len() == k,
            w.done@.len() == k,
            w.order@.len() == 0,
            forall|y: int| 0 <= y < k ==> !#[trigger] w.seen@[y] && !w.done@[y],
        decreases n - k,
    {
        keys.push(chars_of(items[k].relative_path_key.as_str()));
        w.start.push(0);
        w.end.push(0);
        w.seen.push(false);
        w.done.push(false);
        k = k + 1;
    }
    assert(tree_ctx(items@, par@, dep@, keys@));
    assert(walk_inv(items@, w));
    if n > 0 {
        proof {
            assert forall|p: int| #[trigger] next_sibling(items@, p, root as int) implies false by {}
            assert forall|p: int| #[trigger] first_child(items@, root as int, p) implies false by {}
            assert forall|p: int| #[trigger] parent_row_is(items@, root as int, p) implies false by {}
        }
        visit(root, items, &par, &dep, &keys, &mut w);
        proof {
            assert forall|y: int| 0 <= y < n implies #[trigger] w.done@[y] by {
                lemma_all_done(items@, par@, dep@, keys@, w, root as int, y);
            }
            assert forall|a: int, b: int| 0 <= a < b < w.order@.len() implies #[trigger] w.order@[a]
                != #[trigger] w.order@[b] by {}
            assert forall|v: int| 0 <= v < n implies #[trigger] in_seq(w.order@, v) by {
                assert(w.done@[v]);
                assert(w.order@[w.start@[v] as int] == v);
            }
            lemma_distinct_len(w.order@, n as int);
        }
    }
    let mut starts: Vec<i64> = Vec::new();
    let mut ends: Vec<i64> = Vec::new();
    let mut x: usize = 0;
    while x < n
        invariant
            n == items@.len(),
            n < i64::MAX,
            walk_inv(items@, w),
            n > 0 ==> w.order@.len() == n,
            forall|y: int| 0 <= y < n ==> #[trigger] w.done@[y],
            x <= n,
            starts@.len() == x,
            ends@.len() == x,
            forall|y: int| 0 <= y < x ==> #[trigger] starts@[y] == w.start@[y] && ends@[y] == w.end@[y],
        decreases n - x,
    {
        assert(w.done@[x as int]);
        starts.push(w.start[x] as i64);
        ends.push(w.end[x] as i64);
        x = x + 1;
    }
    let slots = place_rows(items, &flags, &starts, &ends);
    let (units, bytes, parked) = layout_totals(items, &flags);
    proof {
        assert forall|r: int| 0 <= r < n && (#[trigger] items@[r]).parent_id is None implies slots@[r].tree_start
            == 0 && slots@[r].tree_end == n by {
            assert(r == root);
        }
        assert forall|c: int, t: int| #[trigger] next_sibling(items@, c, t) implies slots@[t].tree_start
            == slots@[c].tree_end by {
            assert(w.done@[t]);
            assert(entry_ok(items@, w, t));
        }
        assert forall|c: int, p: int| #[trigger] first_child(items@, c, p) implies slots@[c].tree_start
            == slots@[p].tree_start + 1 by {
            assert(w.done@[c]);
            assert(entry_ok(items@, w, c));
        }
        assert forall|c: int, p: int| #[trigger] last_child(items@, c, p) implies slots@[p].tree_end
            == slots@[c].tree_end by {
            assert(w.done@[p]);
            assert(exit_ok(items@, w, p));
        }
        assert forall|y: int| 0 <= y < n implies (#[trigger] slots@[y]).tree_start < slots@[y].tree_end by {
            assert(w.done@[y]);
        }
        assert forall|c: int, p: int| #[trigger] parent_row_is(items@, c, p) implies slots@[p].tree_start
            < slots@[c].tree_start && slots@[c].tree_end <= slots@[p].tree_end by {
            assert(w.done@[p]);
        }
        assert forall|y: int| 0 <= y < n && !#[trigger] has_child(items@, y) implies slots@[y].tree_end
            == slots@[y].tree_start + 1 by {
            assert(w.done@[y]);
            assert(exit_ok(items@, w, y));
        }
    }
    Ok(IncludedTreeLayout { slots, total_entries: n as i64, total_units: units, total_bytes: bytes, parked_start: parked })
}

} // verus!
