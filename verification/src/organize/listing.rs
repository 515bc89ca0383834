//! Listing the children of an item page by page: which children a filter
//! shows, their order, and where a page starts and ends.

use vstd::prelude::*;
use vstd::string::StringExecFns;
use crate::organize::error::OrganizeError;
use crate::organize::grouping::{chars_less, key_less, lemma_key_less_total};
use crate::organize::layout::{lemma_key_less_irrefl, lemma_key_less_trans};
use crate::organize::model::OrganizeTaskStatus;
use crate::organize::plan::OrganizeTaskItemRecord;
use crate::organize::records::{task_status, task_status_text_spec};
use crate::organize::records::{effective_decision, first_with_uuid, stops_at, walk_from_parent, WalkEnd, WalkStop};
use crate::text::{chars_eq, chars_of, str_eq};

verus! {

/// Which children a listing shows.
#[derive(Clone, Copy, Debug, PartialEq, Eq, Structural)]
pub enum OrganizeItemFilter {
    All,
    Unmarked,
    Keep,
    Discard,
    Move,
    Failed,
    Changed,
    Missing,
}

/// What a listing orders children by.
#[derive(Clone, Copy, Debug, PartialEq, Eq, Structural)]
pub enum OrganizeItemSort {
    Name,
    Modified,
    Size,
    Progress,
}

/// The direction of a listing.
#[derive(Clone, Copy, Debug, PartialEq, Eq, Structural)]
pub enum OrganizeSortDirection {
    Asc,
    Desc,
}

/// The row whose decision applies to `item`: its own when it is included
/// with a decision, else the nearest decided included ancestor.
pub open spec fn effective_row(items: Seq<OrganizeTaskItemRecord>, item: OrganizeTaskItemRecord) -> Option<
    OrganizeTaskItemRecord,
> {
    if stops_at(WalkStop::DecidedIncluded, item) {
        first_with_uuid(items, item.uuid, 0)
    } else {
        match walk_from_parent(items, item, WalkStop::DecidedIncluded) {
            WalkEnd::Found(x) => Some(x),
            _ => None,
        }
    }
}

/// The decision kind that applies to `item`.
pub open spec fn effective_kind(items: Seq<OrganizeTaskItemRecord>, item: OrganizeTaskItemRecord) -> Option<Seq<char>> {
    match effective_row(items, item) {
        Some(r) => match r.decision_kind {
            Some(k) => Some(k@),
            None => None,
        },
        None => None,
    }
}

/// Whether `filter` shows `item`.
pub open spec fn filter_matches_spec(
    items: Seq<OrganizeTaskItemRecord>,
    item: OrganizeTaskItemRecord,
    filter: OrganizeItemFilter,
) -> bool {
    match filter {
        OrganizeItemFilter::All => true,
        OrganizeItemFilter::Unmarked => effective_kind(items, item) is None,
        OrganizeItemFilter::Keep => effective_kind(items, item) == Some("keep"@),
        OrganizeItemFilter::Discard => effective_kind(items, item) == Some("discard"@),
        OrganizeItemFilter::Move => effective_kind(items, item) == Some("move"@),
        OrganizeItemFilter::Failed => item.operation_state@ == "failed"@,
        OrganizeItemFilter::Changed => item.external_state@ == "changed"@,
        OrganizeItemFilter::Missing => item.external_state@ == "missing"@,
    }
}

/// The walks that a filter reads end at a row or a missing parent.
pub open spec fn filter_walks_end(items: Seq<OrganizeTaskItemRecord>, item: OrganizeTaskItemRecord) -> bool {
    !stops_at(WalkStop::DecidedIncluded, item) ==> !(walk_from_parent(items, item, WalkStop::DecidedIncluded) is Exhausted)
}

/// Whether `filter` shows `item`, among all the items of its task.
pub fn selection_filter_matches(
    item: &OrganizeTaskItemRecord,
    all_items: &[OrganizeTaskItemRecord],
    filter: OrganizeItemFilter,
) -> (r: bool)
    requires
        filter_walks_end(all_items@, *item),
    ensures
        r == filter_matches_spec(all_items@, *item, filter),
{
    proof {
        reveal_strlit("keep");
        reveal_strlit("discard");
        reveal_strlit("move");
        reveal_strlit("failed");
        reveal_strlit("changed");
        reveal_strlit("missing");
    }
    match filter {
        OrganizeItemFilter::All => true,
        OrganizeItemFilter::Failed => str_eq(item.operation_state.as_str(), "failed"),
        OrganizeItemFilter::Changed => str_eq(item.external_state.as_str(), "changed"),
        OrganizeItemFilter::Missing => str_eq(item.external_state.as_str(), "missing"),
        _ => {
            let kind: Option<&String> = match effective_decision(all_items, item) {
                Some(a) => match &a.decision_kind {
                    Some(k) => Some(k),
                    None => None,
                },
                None => None,
            };
            match filter {
                OrganizeItemFilter::Unmarked => kind.is_none(),
                OrganizeItemFilter::Keep => match kind {
                    Some(k) => str_eq(k.as_str(), "keep"),
                    None => false,
                },
                OrganizeItemFilter::Discard => match kind {
                    Some(k) => str_eq(k.as_str(), "discard"),
                    None => false,
                },
                _ => match kind {
                    Some(k) => str_eq(k.as_str(), "move"),
                    None => false,
                },
            }
        },
    }
}

/// What a child is ordered by: its name, modification time, size and
/// progress, then its id.
#[derive(Clone, Debug)]
pub struct ChildSortKey {
    pub name: String,
    pub modified_at_100ns: i64,
    pub size_bytes: i64,
    pub progress: i64,
    pub item_id: u128,
}

/// `a` comes before `b` in the field `sort` names.
pub open spec fn primary_less(a: ChildSortKey, b: ChildSortKey, sort: OrganizeItemSort) -> bool {
    match sort {
        OrganizeItemSort::Name => key_less(a.name@, b.name@),
        OrganizeItemSort::Modified => a.modified_at_100ns < b.modified_at_100ns,
        OrganizeItemSort::Size => a.size_bytes < b.size_bytes,
        OrganizeItemSort::Progress => a.progress < b.progress,
    }
}

/// `a` and `b` agree in the field `sort` names.
pub open spec fn primary_eq(a: ChildSortKey, b: ChildSortKey, sort: OrganizeItemSort) -> bool {
    match sort {
        OrganizeItemSort::Name => a.name@ == b.name@,
        OrganizeItemSort::Modified => a.modified_at_100ns == b.modified_at_100ns,
        OrganizeItemSort::Size => a.size_bytes == b.size_bytes,
        OrganizeItemSort::Progress => a.progress == b.progress,
    }
}

/// The ascending order of children: by the sorted field, then by id.
pub open spec fn key_order_less(a: ChildSortKey, b: ChildSortKey, sort: OrganizeItemSort) -> bool {
    primary_less(a, b, sort) || (primary_eq(a, b, sort) && a.item_id < b.item_id)
}

/// `a` is listed before `b`.
pub open spec fn listed_before(a: ChildSortKey, b: ChildSortKey, sort: OrganizeItemSort, dir: OrganizeSortDirection) -> bool {
    match dir {
        OrganizeSortDirection::Asc => key_order_less(a, b, sort),
        OrganizeSortDirection::Desc => key_order_less(b, a, sort),
    }
}

proof fn lemma_listing_order(sort: OrganizeItemSort, dir: OrganizeSortDirection)
    ensures
        forall|a: ChildSortKey| !#[trigger] listed_before(a, a, sort, dir),
        forall|a: ChildSortKey, b: ChildSortKey, c: ChildSortKey|
            #[trigger] listed_before(a, b, sort, dir) && #[trigger] listed_before(b, c, sort, dir) ==> listed_before(
                a,
                c,
                sort,
                dir,
            ),
        forall|a: ChildSortKey, b: ChildSortKey|
            a.item_id != b.item_id ==> #[trigger] listed_before(a, b, sort, dir) || #[trigger] listed_before(
                b,
                a,
                sort,
                dir,
            ),
{
    assert forall|a: ChildSortKey| !#[trigger] key_order_less(a, a, sort) by {
        lemma_key_less_irrefl(a.name@, 0);
    }
    assert forall|a: ChildSortKey, b: ChildSortKey, c: ChildSortKey|
        #[trigger] key_order_less(a, b, sort) && #[trigger] key_order_less(b, c, sort) implies key_order_less(
            a,
            c,
            sort,
        ) by {
        if sort == OrganizeItemSort::Name && key_less(a.name@, b.name@) && key_less(b.name@, c.name@) {
            lemma_key_less_trans(a.name@, b.name@, c.name@, 0);
        }
    }
    assert forall|a: ChildSortKey, b: ChildSortKey| a.item_id != b.item_id implies #[trigger] key_order_less(
        a,
        b,
        sort,
    ) || #[trigger] key_order_less(b, a, sort) by {
        if sort == OrganizeItemSort::Name && a.name@ != b.name@ && !key_less(a.name@, b.name@) {
            assert(a.name@.take(0) =~= b.name@.take(0));
            lemma_key_less_total(a.name@, b.name@, 0);
        }
    }
    assert forall|a: ChildSortKey| !#[trigger] listed_before(a, a, sort, dir) by {
        assert(!key_order_less(a, a, sort));
    }
    assert forall|a: ChildSortKey, b: ChildSortKey, c: ChildSortKey|
        #[trigger] listed_before(a, b, sort, dir) && #[trigger] listed_before(b, c, sort, dir) implies listed_before(
            a,
            c,
            sort,
            dir,
        ) by {
        if dir == OrganizeSortDirection::Asc {
            assert(key_order_less(a, b, sort) && key_order_less(b, c, sort));
        } else {
            assert(key_order_less(c, b, sort) && key_order_less(b, a, sort));
        }
    }
    assert forall|a: ChildSortKey, b: ChildSortKey| a.item_id != b.item_id implies #[trigger] listed_before(
        a,
        b,
        sort,
        dir,
    ) || #[trigger] listed_before(b, a, sort, dir) by {
        assert(key_order_less(a, b, sort) || key_order_less(b, a, sort));
    }
}

fn str_less(a: &str, b: &str) -> (r: bool)
    ensures
        r == key_less(a@, b@),
{
    let x = chars_of(a);
    let y = chars_of(b);
    chars_less(x.as_slice(), y.as_slice())
}

/// Whether `a` is listed before `b`.
pub fn listed_before_exec(a: &ChildSortKey, b: &ChildSortKey, sort: OrganizeItemSort, dir: OrganizeSortDirection) -> (r:
    bool)
    ensures
        r == listed_before(*a, *b, sort, dir),
{
    let (x, y) = match dir {
        OrganizeSortDirection::Asc => (a, b),
        OrganizeSortDirection::Desc => (b, a),
    };
    let less = match sort {
        OrganizeItemSort::Name => str_less(x.name.as_str(), y.name.as_str()),
        OrganizeItemSort::Modified => x.modified_at_100ns < y.modified_at_100ns,
        OrganizeItemSort::Size => x.size_bytes < y.size_bytes,
        OrganizeItemSort::Progress => x.progress < y.progress,
    };
    let same = match sort {
        OrganizeItemSort::Name => str_eq(x.name.as_str(), y.name.as_str()),
        OrganizeItemSort::Modified => x.modified_at_100ns == y.modified_at_100ns,
        OrganizeItemSort::Size => x.size_bytes == y.size_bytes,
        OrganizeItemSort::Progress => x.progress == y.progress,
    };
    less || (same && x.item_id < y.item_id)
}


/// Row `i` is a child of the row with id `parent_row_id` that `filter` shows.
pub open spec fn shown_child(
    items: Seq<OrganizeTaskItemRecord>,
    parent_row_id: i32,
    filter: OrganizeItemFilter,
    i: int,
) -> bool {
    0 <= i < items.len() && items[i].parent_id == Some(parent_row_id) && filter_matches_spec(items, items[i], filter)
}

/// The shown children among the first `k` rows.
pub open spec fn shown_count(items: Seq<OrganizeTaskItemRecord>, parent_row_id: i32, filter: OrganizeItemFilter, k: int) -> nat
    decreases k,
{
    if k <= 0 {
        0
    } else {
        shown_count(items, parent_row_id, filter, k - 1) + if shown_child(items, parent_row_id, filter, k - 1) {
            1nat
        } else {
            0nat
        }
    }
}

/// `l` lists the shown children, each once, in listing order.
pub open spec fn listing_is(
    l: Seq<usize>,
    items: Seq<OrganizeTaskItemRecord>,
    keys: Seq<ChildSortKey>,
    parent_row_id: i32,
    filter: OrganizeItemFilter,
    sort: OrganizeItemSort,
    dir: OrganizeSortDirection,
) -> bool {
    &&& forall|x: usize| #[trigger] l.contains(x) <==> shown_child(items, parent_row_id, filter, x as int)
    &&& forall|a: int, b: int|
        0 <= a < b < l.len() ==> listed_before(keys[l[a] as int], keys[l[b] as int], sort, dir)
}

/// The first position from `i` on whose row is listed after `cursor`, or
/// the end.
pub open spec fn first_after(
    l: Seq<usize>,
    keys: Seq<ChildSortKey>,
    cursor: ChildSortKey,
    sort: OrganizeItemSort,
    dir: OrganizeSortDirection,
    i: int,
) -> int
    decreases l.len() - i,
{
    if i < 0 || i >= l.len() {
        l.len() as int
    } else if listed_before(cursor, keys[l[i] as int], sort, dir) {
        i
    } else {
        first_after(l, keys, cursor, sort, dir, i + 1)
    }
}

/// The page size a requested limit gives: between 1 and 200.
pub open spec fn page_limit(limit: u32) -> int {
    if limit < 1 {
        1
    } else if limit > 200 {
        200
    } else {
        limit as int
    }
}

/// The fields of a sort key as values.
pub open spec fn key_view(k: ChildSortKey) -> (Seq<char>, i64, i64, i64, u128) {
    (k.name@, k.modified_at_100ns, k.size_bytes, k.progress, k.item_id)
}

/// One page of children.
#[derive(Clone, Debug)]
pub struct ChildPage {
    /// The rows of the page, in listing order.
    pub rows: Vec<usize>,
    /// The key of the last row of the page, when more children follow.
    pub next: Option<ChildSortKey>,
    /// How many children the filter shows in all.
    pub matching_child_count: u64,
}

/// Whether `p` is the page of listing `l` that starts after `cursor`.
pub open spec fn page_is(
    p: ChildPage,
    l: Seq<usize>,
    keys: Seq<ChildSortKey>,
    cursor: Option<ChildSortKey>,
    sort: OrganizeItemSort,
    dir: OrganizeSortDirection,
    limit: u32,
) -> bool {
    let start = match cursor {
        None => 0,
        Some(c) => first_after(l, keys, c, sort, dir, 0),
    };
    let end = if start + page_limit(limit) < l.len() { start + page_limit(limit) } else { l.len() as int };
    &&& p.rows@ == l.subrange(start, end)
    &&& if end < l.len() {
        p.next matches Some(k) && key_view(k) == key_view(keys[l[end - 1] as int])
    } else {
        p.next is None
    }
}

fn copy_key(k: &ChildSortKey) -> (r: ChildSortKey)
    ensures
        key_view(r) == key_view(*k),
{
    ChildSortKey {
        name: crate::text::copy_string(k.name.as_str()),
        modified_at_100ns: k.modified_at_100ns,
        size_bytes: k.size_bytes,
        progress: k.progress,
        item_id: k.item_id,
    }
}

/// The page of the children of the row with id `parent_row_id` that
/// `filter` shows, in listing order, starting after `cursor` when there is
/// one, at most `limit` (held between 1 and 200) long.
pub fn page_children(
    items: &Vec<OrganizeTaskItemRecord>,
    keys: &Vec<ChildSortKey>,
    parent_row_id: i32,
    filter: OrganizeItemFilter,
    sort: OrganizeItemSort,
    dir: OrganizeSortDirection,
    cursor: &Option<ChildSortKey>,
    limit: u32,
) -> (p: ChildPage)
    requires
        keys@.len() == items@.len(),
        items@.len() <= u64::MAX,
        forall|i: int| 0 <= i < items@.len() ==> #[trigger] filter_walks_end(items@, items@[i]),
        forall|i: int, j: int|
            shown_child(items@, parent_row_id, filter, i) && shown_child(items@, parent_row_id, filter, j) && i != j
                ==> #[trigger] keys@[i].item_id != #[trigger] keys@[j].item_id,
    ensures
        p.matching_child_count == shown_count(items@, parent_row_id, filter, items@.len() as int),
        exists|l: Seq<usize>|
            #[trigger] listing_is(l, items@, keys@, parent_row_id, filter, sort, dir) && page_is(
                p,
                l,
                keys@,
                *cursor,
                sort,
                dir,
                limit,
            ),
{
    proof {
        lemma_listing_order(sort, dir);
    }
    let n = items.len();
    let mut l: Vec<usize> = Vec::new();
    let mut count: u64 = 0;
    let mut i: usize = 0;
    while i < n
        invariant
            n == items@.len(),
            n <= u64::MAX,
            keys@.len() == n,
            i <= n,
            count == shown_count(items@, parent_row_id, filter, i as int),
            count <= i,
            forall|k: int| 0 <= k < n ==> #[trigger] filter_walks_end(items@, items@[k]),
            forall|a: int, b: int|
                shown_child(items@, parent_row_id, filter, a) && shown_child(items@, parent_row_id, filter, b) && a != b
                    ==> #[trigger] keys@[a].item_id != #[trigger] keys@[b].item_id,
            forall|x: usize| #[trigger] l@.contains(x) <==> (x < i && shown_child(items@, parent_row_id, filter, x as int)),
            forall|a: int, b: int|
                0 <= a < b < l@.len() ==> listed_before(keys@[l@[a] as int], keys@[l@[b] as int], sort, dir),
            forall|a: ChildSortKey| !#[trigger] listed_before(a, a, sort, dir),
            forall|a: ChildSortKey, b: ChildSortKey, c: ChildSortKey|
                #[trigger] listed_before(a, b, sort, dir) && #[trigger] listed_before(b, c, sort, dir) ==> listed_before(
                    a,
                    c,
                    sort,
                    dir,
                ),
            forall|a: ChildSortKey, b: ChildSortKey|
                a.item_id != b.item_id ==> #[trigger] listed_before(a, b, sort, dir) || #[trigger] listed_before(
                    b,
                    a,
                    sort,
                    dir,
                ),
        decreases n - i,
    {
        let is_child = match items[i].parent_id {
            Some(p) => p == parent_row_id,
            None => false,
        };
        if is_child && selection_filter_matches(&items[i], items.as_slice(), filter) {
            assert(shown_child(items@, parent_row_id, filter, i as int));
            assert forall|q: int| 0 <= q < l@.len() implies (#[trigger] l@[q]) < i by {
                assert(l@.contains(l@[q]));
            }
            let mut p: usize = 0;
            while p < l.len() && !listed_before_exec(&keys[i], &keys[l[p]], sort, dir)
                invariant
                    n == items@.len(),
                    keys@.len() == n,
                    i < n,
                    p <= l@.len(),
                    forall|x: usize| #[trigger] l@.contains(x) ==> x < i,
                    forall|q: int| 0 <= q < l@.len() ==> (#[trigger] l@[q]) < i,
                    forall|q: int| 0 <= q < p ==> !listed_before(keys@[i as int], keys@[l@[q] as int], sort, dir),
                decreases l@.len() - p,
            {
                assert(l@.contains(l@[p as int]));
                p = p + 1;
            }
            let ghost old_l = l@;
            proof {
                assert forall|q: int| 0 <= q < old_l.len() implies #[trigger] old_l[q] != i by {
                    assert(old_l.contains(old_l[q]));
                }
                assert forall|q: int| 0 <= q < p implies listed_before(keys@[old_l[q] as int], keys@[i as int], sort, dir) by {
                    assert(old_l.contains(old_l[q]));
                    assert(shown_child(items@, parent_row_id, filter, old_l[q] as int));
                }
                if p < old_l.len() {
                    assert forall|q: int| p <= q < old_l.len() implies listed_before(
                        keys@[i as int],
                        keys@[old_l[q] as int],
                        sort,
                        dir,
                    ) by {
                        if q > p {
                            assert(listed_before(keys@[old_l[p as int] as int], keys@[old_l[q] as int], sort, dir));
                        }
                    }
                }
            }
            l.insert(p, i);
            proof {
                assert forall|x: usize| #[trigger] l@.contains(x) <==> (x < i + 1 && shown_child(
                    items@,
                    parent_row_id,
                    filter,
                    x as int,
                )) by {
                    if l@.contains(x) {
                        let q = choose|q: int| 0 <= q < l@.len() && l@[q] == x;
                        if q < p {
                            assert(old_l[q] == x);
                            assert(old_l.contains(x));
                        } else if q > p {
                            assert(old_l[q - 1] == x);
                            assert(old_l.contains(x));
                        }
                    }
                    if x < i + 1 && shown_child(items@, parent_row_id, filter, x as int) {
                        if x == i {
                            assert(l@[p as int] == x);
                        } else {
                            assert(old_l.contains(x));
                            let q = choose|q: int| 0 <= q < old_l.len() && old_l[q] == x;
                            if q < p {
                                assert(l@[q] == x);
                            } else {
                                assert(l@[q + 1] == x);
                            }
                        }
                    }
                }
                assert forall|a: int, b: int| 0 <= a < b < l@.len() implies listed_before(
                    keys@[l@[a] as int],
                    keys@[l@[b] as int],
                    sort,
                    dir,
                ) by {
                    if a < p && b < p {
                        assert(l@[a] == old_l[a] && l@[b] == old_l[b]);
                    } else if a < p && b == p {
                    } else if a < p {
                        assert(l@[a] == old_l[a] && l@[b] == old_l[b - 1]);
                        assert(listed_before(keys@[old_l[a] as int], keys@[i as int], sort, dir));
                    } else if a == p {
                        assert(l@[b] == old_l[b - 1]);
                    } else {
                        assert(l@[a] == old_l[a - 1] && l@[b] == old_l[b - 1]);
                    }
                }
            }
            count = count + 1;
        } else {
            proof {
                assert(!shown_child(items@, parent_row_id, filter, i as int));
            }
        }
        i = i + 1;
    }
    assert forall|q: int| 0 <= q < l@.len() implies (#[trigger] l@[q]) < n by {
        assert(l@.contains(l@[q]));
    }
    let start: usize = match cursor {
        None => 0,
        Some(c) => {
            let mut s: usize = 0;
            while s < l.len() && !listed_before_exec(c, &keys[l[s]], sort, dir)
                invariant
                    s <= l@.len(),
                    keys@.len() == n,
                    forall|x: usize| #[trigger] l@.contains(x) ==> x < n,
                    forall|q: int| 0 <= q < l@.len() ==> (#[trigger] l@[q]) < n,
                    first_after(l@, keys@, *c, sort, dir, 0) == first_after(l@, keys@, *c, sort, dir, s as int),
                decreases l@.len() - s,
            {
                assert(l@.contains(l@[s as int]));
                s = s + 1;
            }
            s
        },
    };
    let lim: usize = if limit < 1 { 1 } else if limit > 200 { 200 } else { limit as usize };
    let end: usize = if lim < l.len() - start { start + lim } else { l.len() };
    let mut rows: Vec<usize> = Vec::new();
    let mut k: usize = start;
    while k < end
        invariant
            start <= k <= end <= l@.len(),
            rows@ == l@.subrange(start as int, k as int),
        decreases end - k,
    {
        rows.push(l[k]);
        k = k + 1;
        assert(rows@ =~= l@.subrange(start as int, k as int));
    }
    let next = if end < l.len() {
        assert(l@.contains(l@[end - 1]));
        Some(copy_key(&keys[l[end - 1]]))
    } else {
        None
    };
    let page = ChildPage { rows, next, matching_child_count: count };
    assert(listing_is(l@, items@, keys@, parent_row_id, filter, sort, dir));
    assert(page_is(page, l@, keys@, *cursor, sort, dir, limit));
    page
}


/// Where a listing of children stopped, and the query it belongs to.
#[derive(Clone, Debug)]
pub struct ChildCursor {
    pub revision: i64,
    pub parent_item_id: u128,
    pub filter: OrganizeItemFilter,
    pub sort: OrganizeItemSort,
    pub direction: OrganizeSortDirection,
    pub name: String,
    pub modified_at_100ns: i64,
    pub size_bytes: i64,
    pub progress: i64,
    pub item_id: u128,
}

/// A cursor continues a listing only for the same revision, parent, filter,
/// sort and direction.
pub fn check_child_cursor(
    cursor: &ChildCursor,
    revision: i64,
    parent_item_id: u128,
    filter: OrganizeItemFilter,
    sort: OrganizeItemSort,
    direction: OrganizeSortDirection,
) -> (r: Result<(), OrganizeError>)
    ensures
        (cursor.revision == revision && cursor.parent_item_id == parent_item_id && cursor.filter == filter
            && cursor.sort == sort && cursor.direction == direction) ==> r is Ok,
        !(cursor.revision == revision && cursor.parent_item_id == parent_item_id && cursor.filter == filter
            && cursor.sort == sort && cursor.direction == direction) ==> (r matches Err(OrganizeError::InvalidTree(m))
            && m@ == "child cursor does not match query"@),
{
    proof {
        reveal_strlit("child cursor does not match query");
    }
    if cursor.revision != revision || cursor.parent_item_id != parent_item_id || cursor.filter != filter
        || cursor.sort != sort || cursor.direction != direction {
        return Err(OrganizeError::InvalidTree(String::from_str("child cursor does not match query")));
    }
    Ok(())
}

/// The sort key a cursor stopped at.
pub fn cursor_key(cursor: &ChildCursor) -> (k: ChildSortKey)
    ensures
        key_view(k) == (cursor.name@, cursor.modified_at_100ns, cursor.size_bytes, cursor.progress, cursor.item_id),
{
    ChildSortKey {
        name: crate::text::copy_string(cursor.name.as_str()),
        modified_at_100ns: cursor.modified_at_100ns,
        size_bytes: cursor.size_bytes,
        progress: cursor.progress,
        item_id: cursor.item_id,
    }
}

/// The cursor that continues a listing after the row with sort key `last`.
pub fn next_child_cursor(
    revision: i64,
    parent_item_id: u128,
    filter: OrganizeItemFilter,
    sort: OrganizeItemSort,
    direction: OrganizeSortDirection,
    last: &ChildSortKey,
) -> (c: ChildCursor)
    ensures
        c.revision == revision,
        c.parent_item_id == parent_item_id,
        c.filter == filter,
        c.sort == sort,
        c.direction == direction,
        (c.name@, c.modified_at_100ns, c.size_bytes, c.progress, c.item_id) == key_view(*last),
{
    ChildCursor {
        revision,
        parent_item_id,
        filter,
        sort,
        direction,
        name: crate::text::copy_string(last.name.as_str()),
        modified_at_100ns: last.modified_at_100ns,
        size_bytes: last.size_bytes,
        progress: last.progress,
        item_id: last.item_id,
    }
}


// ---- listing tasks ----

/// The texts of strings.
pub open spec fn texts(v: Seq<String>) -> Seq<Seq<char>> {
    v.map_values(|x: String| x@)
}

/// The status texts a filter names, each once, in text order.
pub open spec fn status_keys_are(keys: Seq<Seq<char>>, statuses: Seq<OrganizeTaskStatus>) -> bool {
    &&& forall|t: Seq<char>| #[trigger] keys.contains(t) <==> exists|i: int|
        0 <= i < statuses.len() && #[trigger] task_status_text_spec(statuses[i]) == t
    &&& forall|a: int, b: int| 0 <= a < b < keys.len() ==> key_less(keys[a], keys[b])
}

/// The status texts of a filter, sorted and without repeats.
pub fn status_filter_keys(statuses: &Vec<OrganizeTaskStatus>) -> (r: Vec<String>)
    ensures
        status_keys_are(texts(r@), statuses@),
{
    let mut keys: Vec<String> = Vec::new();
    let mut i: usize = 0;
    while i < statuses.len()
        invariant
            i <= statuses@.len(),
            forall|t: Seq<char>| #[trigger] texts(keys@).contains(t) <==> exists|k: int|
                0 <= k < i && #[trigger] task_status_text_spec(statuses@[k]) == t,
            forall|a: int, b: int| 0 <= a < b < keys@.len() ==> key_less(keys@[a]@, keys@[b]@),
        decreases statuses@.len() - i,
    {
        let t = task_status(statuses[i]);
        let ghost tv = t@;
        let ghost old_keys = keys@;
        assert(forall|a: int, b: int| 0 <= a < b < old_keys.len() ==> key_less(old_keys[a]@, old_keys[b]@));
        let mut p: usize = 0;
        while p < keys.len() && str_less(keys[p].as_str(), t.as_str())
            invariant
                p <= keys@.len(),
                keys@ == old_keys,
                t@ == tv,
                forall|q: int| 0 <= q < p ==> key_less(keys@[q]@, tv),
            decreases keys@.len() - p,
        {
            p = p + 1;
        }
        proof {
            assert forall|q: int| 0 <= q < old_keys.len() implies texts(old_keys)[q] == old_keys[q]@ by {}
        }
        if p < keys.len() && str_eq(keys[p].as_str(), t.as_str()) {
            proof {
                assert(texts(keys@)[p as int] == tv);
                assert forall|x: Seq<char>| #[trigger] texts(keys@).contains(x) <==> exists|k: int|
                    0 <= k < i + 1 && #[trigger] task_status_text_spec(statuses@[k]) == x by {
                    if x == tv {
                        assert(task_status_text_spec(statuses@[i as int]) == x);
                        assert(texts(keys@).contains(x));
                    }
                    if exists|k: int| 0 <= k < i + 1 && #[trigger] task_status_text_spec(statuses@[k]) == x {
                        let k = choose|k: int| 0 <= k < i + 1 && #[trigger] task_status_text_spec(statuses@[k]) == x;
                        if k < i {
                            assert(exists|k2: int| 0 <= k2 < i && #[trigger] task_status_text_spec(statuses@[k2]) == x);
                        }
                    }
                    if texts(keys@).contains(x) {
                        assert(exists|k2: int| 0 <= k2 < i && #[trigger] task_status_text_spec(statuses@[k2]) == x);
                        let k2 = choose|k2: int| 0 <= k2 < i && #[trigger] task_status_text_spec(statuses@[k2]) == x;
                        assert(0 <= k2 < i + 1 && task_status_text_spec(statuses@[k2]) == x);
                    }
                }
            }
        } else {
            proof {
                lemma_text_order();
                if p < keys.len() {
                    assert(keys@[p as int]@ != tv);
                    assert(!key_less(keys@[p as int]@, tv));
                    assert(key_less(tv, keys@[p as int]@));
                }
            }
            keys.insert(p, t);
            proof {
                assert forall|q: int| 0 <= q < keys@.len() implies texts(keys@)[q] == keys@[q]@ by {}
                assert forall|x: Seq<char>| #[trigger] texts(keys@).contains(x) <==> exists|k: int|
                    0 <= k < i + 1 && #[trigger] task_status_text_spec(statuses@[k]) == x by {
                    if texts(keys@).contains(x) {
                        let q = choose|q: int| 0 <= q < texts(keys@).len() && texts(keys@)[q] == x;
                        if q < p {
                            assert(keys@[q] == old_keys[q]);
                            assert(texts(old_keys)[q] == x);
                            assert(texts(old_keys).contains(x));
                            let k2 = choose|k2: int| 0 <= k2 < i && #[trigger] task_status_text_spec(statuses@[k2]) == x;
                            assert(0 <= k2 < i + 1 && task_status_text_spec(statuses@[k2]) == x);
                        } else if q > p {
                            assert(keys@[q] == old_keys[q - 1]);
                            assert(texts(old_keys)[q - 1] == x);
                            assert(texts(old_keys).contains(x));
                            let k2 = choose|k2: int| 0 <= k2 < i && #[trigger] task_status_text_spec(statuses@[k2]) == x;
                            assert(0 <= k2 < i + 1 && task_status_text_spec(statuses@[k2]) == x);
                        } else {
                            assert(task_status_text_spec(statuses@[i as int]) == x);
                        }
                    }
                    if exists|k: int| 0 <= k < i + 1 && #[trigger] task_status_text_spec(statuses@[k]) == x {
                        let k = choose|k: int| 0 <= k < i + 1 && #[trigger] task_status_text_spec(statuses@[k]) == x;
                        if k == i {
                            assert(texts(keys@)[p as int] == x);
                        } else {
                            assert(exists|k2: int| 0 <= k2 < i && #[trigger] task_status_text_spec(statuses@[k2]) == x);
                            assert(texts(old_keys).contains(x));
                            let q = choose|q: int| 0 <= q < texts(old_keys).len() && texts(old_keys)[q] == x;
                            if q < p {
                                assert(texts(keys@)[q] == x);
                            } else {
                                assert(texts(keys@)[q + 1] == x);
                            }
                        }
                    }
                }
                assert forall|a: int, b: int| 0 <= a < b < keys@.len() implies key_less(keys@[a]@, keys@[b]@) by {
                    if b < p {
                        assert(keys@[a] == old_keys[a] && keys@[b] == old_keys[b]);
                    } else if b == p {
                        assert(keys@[a] == old_keys[a]);
                    } else if a < p {
                        assert(keys@[a] == old_keys[a] && keys@[b] == old_keys[b - 1]);
                        if b - 1 > p {
                            assert(key_less(old_keys[p as int]@, old_keys[b - 1]@));
                            lemma_key_less_trans(tv, old_keys[p as int]@, old_keys[b - 1]@, 0);
                        }
                        lemma_key_less_trans(old_keys[a]@, tv, old_keys[b - 1]@, 0);
                    } else if a == p {
                        assert(keys@[b] == old_keys[b - 1]);
                        if b - 1 > p {
                            assert(key_less(old_keys[p as int]@, old_keys[b - 1]@));
                            lemma_key_less_trans(tv, old_keys[p as int]@, old_keys[b - 1]@, 0);
                        }
                    } else {
                        assert(keys@[a] == old_keys[a - 1] && keys@[b] == old_keys[b - 1]);
                    }
                }
            }
        }
        i = i + 1;
    }
    keys
}

proof fn lemma_text_order()
    ensures
        forall|a: Seq<char>, b: Seq<char>| a != b ==> #[trigger] key_less(a, b) || #[trigger] key_less(b, a),
{
    assert forall|a: Seq<char>, b: Seq<char>| a != b implies #[trigger] key_less(a, b) || #[trigger] key_less(b, a) by {
        if !key_less(a, b) {
            assert(a.take(0) =~= b.take(0));
            lemma_key_less_total(a, b, 0);
        }
    }
}


/// Whether two optional lists of texts are equal.
pub open spec fn same_keys(a: Option<Vec<String>>, b: Option<Vec<String>>) -> bool {
    match (a, b) {
        (None, None) => true,
        (Some(x), Some(y)) => texts(x@) == texts(y@),
        _ => false,
    }
}

fn same_keys_exec(a: &Option<Vec<String>>, b: &Option<Vec<String>>) -> (r: bool)
    ensures
        r == same_keys(*a, *b),
{
    match (a, b) {
        (None, None) => true,
        (Some(x), Some(y)) => {
            if x.len() != y.len() {
                assert(texts(x@).len() != texts(y@).len());
                return false;
            }
            let mut i: usize = 0;
            while i < x.len()
                invariant
                    i <= x@.len(),
                    x@.len() == y@.len(),
                    same_keys(*a, *b) == (texts(x@) == texts(y@)),
                    forall|k: int| 0 <= k < i ==> x@[k]@ == y@[k]@,
                decreases x@.len() - i,
            {
                if !str_eq(x[i].as_str(), y[i].as_str()) {
                    assert(texts(x@)[i as int] != texts(y@)[i as int]);
                    return false;
                }
                i = i + 1;
            }
            assert(texts(x@) =~= texts(y@));
            true
        },
        _ => false,
    }
}

/// `k` holds the status texts of filter `statuses`, or is `None` without a
/// filter.
pub open spec fn status_keys_for(k: Option<Vec<String>>, statuses: Option<Vec<OrganizeTaskStatus>>) -> bool {
    match (k, statuses) {
        (None, None) => true,
        (Some(v), Some(st)) => status_keys_are(texts(v@), st@),
        _ => false,
    }
}

/// What listing tasks does before it reads them.
#[derive(Clone, Debug)]
pub enum TaskListPlan {
    /// The filter names no status: nothing is listed.
    Nothing,
    /// Tasks with these status texts (all when `None`) are read.
    Query { statuses: Option<Vec<String>> },
}

/// Listing tasks: the status filter as sorted texts without repeats; a
/// cursor must carry the same filter; an empty filter lists nothing.
/// `cursor_statuses` is the filter a given cursor carries, `None` when there
/// is no cursor.
pub fn plan_task_list(
    statuses: &Option<Vec<OrganizeTaskStatus>>,
    cursor_statuses: &Option<Option<Vec<String>>>,
) -> (r: Result<TaskListPlan, OrganizeError>)
    ensures
        match r {
            Ok(TaskListPlan::Query { statuses: k }) => {
                &&& status_keys_for(k, *statuses)
                &&& k matches Some(v) ==> v@.len() > 0
                &&& *cursor_statuses matches Some(c) ==> same_keys(c, k)
            },
            Ok(TaskListPlan::Nothing) => exists|k: Option<Vec<String>>|
                #[trigger] status_keys_for(k, *statuses) && (k matches Some(v) && v@.len() == 0) && (
                *cursor_statuses matches Some(c) ==> same_keys(c, k)),
            Err(e) => (e matches OrganizeError::InvalidTree(m) && m@ == "task cursor filter mismatch"@) && exists|
                k: Option<Vec<String>>,
            | #[trigger] status_keys_for(k, *statuses) && (*cursor_statuses matches Some(c) && !same_keys(c, k)),
        },
{
    proof {
        reveal_strlit("task cursor filter mismatch");
    }
    let keys: Option<Vec<String>> = match statuses {
        Some(st) => Some(status_filter_keys(st)),
        None => None,
    };
    assert(status_keys_for(keys, *statuses));
    match cursor_statuses {
        Some(c) => {
            if !same_keys_exec(c, &keys) {
                return Err(OrganizeError::InvalidTree(String::from_str("task cursor filter mismatch")));
            }
        },
        None => {},
    }
    match keys {
        Some(v) => {
            if v.len() == 0 {
                return Ok(TaskListPlan::Nothing);
            }
            Ok(TaskListPlan::Query { statuses: Some(v) })
        },
        None => Ok(TaskListPlan::Query { statuses: None }),
    }
}

/// Where a task stands in the listing: when it was last updated (seconds and
/// nanoseconds since the Unix epoch) and its id.
#[derive(Clone, Copy, Debug, PartialEq, Eq, Structural)]
pub struct TaskPosition {
    pub updated_secs: i64,
    pub updated_nanos: u32,
    pub task_id: u128,
}

/// `a` comes before `b` by update time, then by id.
pub open spec fn position_less(a: TaskPosition, b: TaskPosition) -> bool {
    a.updated_secs < b.updated_secs || (a.updated_secs == b.updated_secs && (a.updated_nanos < b.updated_nanos || (
    a.updated_nanos == b.updated_nanos && a.task_id < b.task_id)))
}

/// The page size a requested limit gives: between 1 and 100.
pub open spec fn task_page_limit(limit: u32) -> int {
    if limit < 1 {
        1
    } else if limit > 100 {
        100
    } else {
        limit as int
    }
}

/// The positions among the first `k` rows that a cursor keeps: those before
/// it, or all without one.
pub open spec fn kept_rows(rows: Seq<TaskPosition>, cursor: Option<TaskPosition>, k: int) -> Seq<usize>
    decreases k,
{
    if k <= 0 {
        Seq::empty()
    } else {
        let rest = kept_rows(rows, cursor, k - 1);
        if match cursor {
            None => true,
            Some(c) => position_less(rows[k - 1], c),
        } {
            rest.push((k - 1) as usize)
        } else {
            rest
        }
    }
}

proof fn lemma_kept_rows_bound(rows: Seq<TaskPosition>, cursor: Option<TaskPosition>, k: int)
    requires
        0 <= k <= rows.len(),
    ensures
        kept_rows(rows, cursor, k).len() <= k,
        forall|q: int| 0 <= q < kept_rows(rows, cursor, k).len() ==> (#[trigger] kept_rows(rows, cursor, k)[q]) < k,
    decreases k,
{
    if k > 0 {
        lemma_kept_rows_bound(rows, cursor, k - 1);
    }
}

/// One page of tasks from rows ordered newest first: the rows before the
/// cursor, at most `limit` (held between 1 and 100) of them, and the
/// position of the last when more follow.
pub fn page_tasks(rows: &Vec<TaskPosition>, cursor: Option<TaskPosition>, limit: u32) -> (r: (Vec<usize>, Option<
    TaskPosition,
>))
    requires
        rows@.len() <= usize::MAX,
    ensures
        ({
            let kept = kept_rows(rows@, cursor, rows@.len() as int);
            let lim = task_page_limit(limit);
            &&& r.0@ == kept.take(if kept.len() < lim { kept.len() as int } else { lim })
            &&& r.1 == if kept.len() > lim {
                Some(rows@[kept[lim - 1] as int])
            } else {
                None::<TaskPosition>
            }
        }),
{
    let n = rows.len();
    let mut kept: Vec<usize> = Vec::new();
    let mut i: usize = 0;
    while i < n
        invariant
            n == rows@.len(),
            i <= n,
            kept@ == kept_rows(rows@, cursor, i as int),
        decreases n - i,
    {
        let keep = match cursor {
            None => true,
            Some(c) => {
                let a = rows[i];
                a.updated_secs < c.updated_secs || (a.updated_secs == c.updated_secs && (a.updated_nanos
                    < c.updated_nanos || (a.updated_nanos == c.updated_nanos && a.task_id < c.task_id)))
            },
        };
        if keep {
            kept.push(i);
        }
        i = i + 1;
    }
    proof {
        lemma_kept_rows_bound(rows@, cursor, n as int);
    }
    let lim: usize = if limit < 1 { 1 } else if limit > 100 { 100 } else { limit as usize };
    let has_next = kept.len() > lim;
    let take = if kept.len() < lim { kept.len() } else { lim };
    let mut page: Vec<usize> = Vec::new();
    let mut k: usize = 0;
    while k < take
        invariant
            take <= kept@.len(),
            k <= take,
            page@ == kept@.take(k as int),
        decreases take - k,
    {
        page.push(kept[k]);
        k = k + 1;
        assert(page@ =~= kept@.take(k as int));
    }
    let next = if has_next { Some(rows[kept[lim - 1]]) } else { None };
    (page, next)
}


proof fn lemma_first_after_skips(
    l: Seq<usize>,
    keys: Seq<ChildSortKey>,
    cursor: ChildSortKey,
    sort: OrganizeItemSort,
    dir: OrganizeSortDirection,
    i: int,
    e: int,
)
    requires
        0 <= i <= e <= l.len(),
        forall|j: int| i <= j < e ==> !listed_before(cursor, keys[l[j] as int], sort, dir),
    ensures
        first_after(l, keys, cursor, sort, dir, i) == first_after(l, keys, cursor, sort, dir, e),
    decreases e - i,
{
    if i < e {
        lemma_first_after_skips(l, keys, cursor, sort, dir, i + 1, e);
    }
}

/// A page's cursor continues the listing right after the page: the first
/// row listed after the key of the row at position `e - 1` is the row at `e`,
/// so consecutive pages neither skip nor repeat a row.
pub proof fn law_cursor_continues_after_page(
    l: Seq<usize>,
    items: Seq<OrganizeTaskItemRecord>,
    keys: Seq<ChildSortKey>,
    parent_row_id: i32,
    filter: OrganizeItemFilter,
    sort: OrganizeItemSort,
    dir: OrganizeSortDirection,
    e: int,
    cursor: ChildSortKey,
)
    requires
        listing_is(l, items, keys, parent_row_id, filter, sort, dir),
        0 < e <= l.len(),
        key_view(cursor) == key_view(keys[l[e - 1] as int]),
    ensures
        first_after(l, keys, cursor, sort, dir, 0) == e,
{
    lemma_listing_order(sort, dir);
    let last = keys[l[e - 1] as int];
    assert forall|x: ChildSortKey| listed_before(cursor, x, sort, dir) == listed_before(last, x, sort, dir) by {}
    assert forall|j: int| 0 <= j < e implies !listed_before(cursor, keys[l[j] as int], sort, dir) by {
        if j < e - 1 {
            assert(listed_before(keys[l[j] as int], last, sort, dir));
            if listed_before(last, keys[l[j] as int], sort, dir) {
                assert(listed_before(last, last, sort, dir));
            }
        } else {
            assert(!listed_before(last, last, sort, dir));
        }
    }
    lemma_first_after_skips(l, keys, cursor, sort, dir, 0, e);
    if e < l.len() {
        assert(listed_before(last, keys[l[e] as int], sort, dir));
    }
}

} // verus!
