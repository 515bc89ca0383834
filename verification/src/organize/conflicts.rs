//! Unsafe moves of a commit plan: a destination equal to or inside its
//! source, one that overlaps a discard root, and destinations that form a
//! cycle.

use vstd::prelude::*;
use vstd::string::StringExecFns;
use crate::addressing::SdPath;
use crate::organize::commit::{OrganizeMoveGroup, OrganizePlanRoot, OrganizeTopologyConflict};
use crate::organize::grouping::{sd_is, sd_path_of};
use crate::organize::plan::{is_ancestor_key, key_ancestor_spec, keys_overlap, keys_overlap_spec, plan_key, plan_key_spec};
use crate::text::{chars_eq, copy_string, str_eq};

verus! {

/// One move of a plan: its item, source path, destination path and
/// destination address.
pub type PlanMove = (u128, Seq<char>, Seq<char>, SdPath);

/// A conflict as the plan reports it: item, source path, destination address
/// and reason.
pub type ConflictView = (u128, Seq<char>, SdPath, Seq<char>);

/// The moves of the physical roots of a physical group, in order.
pub open spec fn root_moves(roots: Seq<OrganizePlanRoot>, dest: SdPath) -> Seq<PlanMove>
    decreases roots.len(),
{
    if roots.len() == 0 {
        Seq::<PlanMove>::empty()
    } else {
        let prev = root_moves(roots.drop_last(), dest);
        if roots.last().source is Physical {
            prev.push((roots.last().item_id, sd_path_of(roots.last().source), sd_path_of(dest), dest))
        } else {
            prev
        }
    }
}

/// The moves of the groups, group by group.
pub open spec fn move_list(gs: Seq<OrganizeMoveGroup>) -> Seq<PlanMove>
    decreases gs.len(),
{
    if gs.len() == 0 {
        Seq::<PlanMove>::empty()
    } else {
        move_list(gs.drop_last()) + if gs.last().destination is Physical {
            root_moves(gs.last().roots@, gs.last().destination)
        } else {
            Seq::<PlanMove>::empty()
        }
    }
}

/// The keys of the physical discard roots, in order.
pub open spec fn discard_keys(ds: Seq<OrganizePlanRoot>) -> Seq<Seq<char>>
    decreases ds.len(),
{
    if ds.len() == 0 {
        Seq::<Seq<char>>::empty()
    } else {
        let prev = discard_keys(ds.drop_last());
        if ds.last().source is Physical {
            prev.push(plan_key_spec(sd_path_of(ds.last().source)))
        } else {
            prev
        }
    }
}

pub open spec fn msg_equals_source() -> Seq<char> {
    "a move destination cannot equal its source"@
}

pub open spec fn msg_inside_source() -> Seq<char> {
    "a move destination cannot be inside its source"@
}

pub open spec fn msg_overlaps_discard() -> Seq<char> {
    "a move destination overlaps a discard root"@
}

pub open spec fn msg_forms_cycle() -> Seq<char> {
    "move destinations form a cycle"@
}

/// Why a move is unsafe on its own: its destination key equals its source key,
/// lies inside it, or overlaps a discard key.
pub open spec fn move_reason(m: PlanMove, dks: Seq<Seq<char>>) -> Option<Seq<char>> {
    let sk = plan_key_spec(m.1);
    let dk = plan_key_spec(m.2);
    if sk == dk {
        Some(msg_equals_source())
    } else if key_ancestor_spec(sk, dk) {
        Some(msg_inside_source())
    } else if exists|j: int| 0 <= j < dks.len() && #[trigger] keys_overlap_spec(dks[j], dk) {
        Some(msg_overlaps_discard())
    } else {
        None
    }
}

/// The conflicts of the first `k` moves that are unsafe on their own.
pub open spec fn reason_conflicts(ms: Seq<PlanMove>, dks: Seq<Seq<char>>, k: int) -> Seq<ConflictView>
    decreases k,
{
    if k <= 0 {
        Seq::<ConflictView>::empty()
    } else {
        let prev = reason_conflicts(ms, dks, k - 1);
        match move_reason(ms[k - 1], dks) {
            Some(m) => prev.push((ms[k - 1].0, ms[k - 1].1, ms[k - 1].3, m)),
            None => prev,
        }
    }
}

/// The first move from position `j` on whose source key is `key`.
pub open spec fn first_source(ms: Seq<PlanMove>, key: Seq<char>, j: int) -> Option<int>
    decreases ms.len() - j,
{
    if j < 0 || j >= ms.len() {
        None
    } else if plan_key_spec(ms[j].1) == key {
        Some(j)
    } else {
        first_source(ms, key, j + 1)
    }
}

/// Whether the walk from `key` can go `steps` steps, each to the destination
/// key of the first move that leaves the current key.
pub open spec fn walk_goes_on(ms: Seq<PlanMove>, key: Seq<char>, steps: nat) -> bool
    decreases steps,
{
    if steps == 0 {
        true
    } else {
        match first_source(ms, key, 0) {
            Some(j) => walk_goes_on(ms, plan_key_spec(ms[j].2), (steps - 1) as nat),
            None => false,
        }
    }
}

/// Whether the walk from move `i`'s source comes back to a key it passed: it
/// goes on for more steps than there are moves.
pub open spec fn in_cycle(ms: Seq<PlanMove>, i: int) -> bool {
    walk_goes_on(ms, plan_key_spec(ms[i].1), (ms.len() + 1) as nat)
}

/// The cycle conflicts of the first `k` moves.
pub open spec fn cycle_conflicts(ms: Seq<PlanMove>, k: int) -> Seq<ConflictView>
    decreases k,
{
    if k <= 0 {
        Seq::<ConflictView>::empty()
    } else {
        let prev = cycle_conflicts(ms, k - 1);
        if in_cycle(ms, k - 1) {
            prev.push((ms[k - 1].0, ms[k - 1].1, ms[k - 1].3, msg_forms_cycle()))
        } else {
            prev
        }
    }
}

/// `e` put after every conflict whose item is not greater (a stable insert).
pub open spec fn insert_by_item(t: Seq<ConflictView>, e: ConflictView) -> Seq<ConflictView>
    decreases t.len(),
{
    if t.len() == 0 {
        seq![e]
    } else if t.last().0 > e.0 {
        insert_by_item(t.drop_last(), e).push(t.last())
    } else {
        t.push(e)
    }
}

/// Conflicts stably sorted by item.
pub open spec fn sort_by_item(s: Seq<ConflictView>) -> Seq<ConflictView>
    decreases s.len(),
{
    if s.len() == 0 {
        Seq::<ConflictView>::empty()
    } else {
        insert_by_item(sort_by_item(s.drop_last()), s.last())
    }
}

/// Conflicts with each run of one item and one reason cut to its first.
pub open spec fn dedup_conflicts(s: Seq<ConflictView>) -> Seq<ConflictView>
    decreases s.len(),
{
    if s.len() == 0 {
        Seq::<ConflictView>::empty()
    } else {
        let d = dedup_conflicts(s.drop_last());
        if d.len() > 0 && d.last().0 == s.last().0 && d.last().3 == s.last().3 {
            d
        } else {
            d.push(s.last())
        }
    }
}

/// The unsafe conflicts of a plan's groups and discard roots: those of each
/// move on its own, then the cycles, sorted by item, repeats dropped.
pub open spec fn plan_conflicts(gs: Seq<OrganizeMoveGroup>, ds: Seq<OrganizePlanRoot>) -> Seq<ConflictView> {
    let ms = move_list(gs);
    dedup_conflicts(
        sort_by_item(reason_conflicts(ms, discard_keys(ds), ms.len() as int) + cycle_conflicts(ms, ms.len() as int)),
    )
}

/// A reported conflict and its view, on the task's device.
pub open spec fn conflict_is(c: OrganizeTopologyConflict, a: ConflictView, device: Seq<char>) -> bool {
    &&& c.item_id == a.0
    &&& sd_is(c.source, device, a.1)
    &&& c.destination == a.2
    &&& c.reason@ == a.3
}

/// Reported conflicts and their views, one for one.
pub open spec fn conflicts_are(cs: Seq<OrganizeTopologyConflict>, vs: Seq<ConflictView>, device: Seq<char>) -> bool {
    cs.len() == vs.len() && forall|i: int| 0 <= i < cs.len() ==> #[trigger] conflict_is(cs[i], vs[i], device)
}

/// A copy of an address.
pub fn copy_sd_path(p: &SdPath) -> (r: SdPath)
    ensures
        r == *p,
{
    match p {
        SdPath::Physical { device_slug, path } => SdPath::Physical {
            device_slug: device_slug.clone(),
            path: path.clone(),
        },
        SdPath::Content { content_id } => SdPath::Content { content_id: *content_id },
    }
}

/// A copy of a conflict.
pub fn copy_conflict(c: &OrganizeTopologyConflict) -> (r: OrganizeTopologyConflict)
    ensures
        r == *c,
{
    OrganizeTopologyConflict {
        item_id: c.item_id,
        source: copy_sd_path(&c.source),
        destination: copy_sd_path(&c.destination),
        reason: c.reason.clone(),
    }
}

} // verus!

verus! {

/// The moves of the groups, as parallel lists of items, source paths,
/// destination paths and destination addresses.
fn collect_moves(gs: &Vec<OrganizeMoveGroup>) -> (r: (Vec<u128>, Vec<String>, Vec<String>, Vec<SdPath>))
    ensures
        r.0@.len() == move_list(gs@).len(),
        r.1@.len() == move_list(gs@).len(),
        r.2@.len() == move_list(gs@).len(),
        r.3@.len() == move_list(gs@).len(),
        forall|i: int| 0 <= i < r.0@.len() ==> #[trigger] move_list(gs@)[i] == (r.0@[i], r.1@[i]@, r.2@[i]@, r.3@[i]),
{
    let ghost g = gs@;
    let mut ids: Vec<u128> = Vec::new();
    let mut srcs: Vec<String> = Vec::new();
    let mut dsts: Vec<String> = Vec::new();
    let mut dpaths: Vec<SdPath> = Vec::new();
    let mut t: usize = 0;
    while t < gs.len()
        invariant
            t <= g.len(),
            g == gs@,
            ids@.len() == move_list(g.take(t as int)).len(),
            srcs@.len() == ids@.len(),
            dsts@.len() == ids@.len(),
            dpaths@.len() == ids@.len(),
            forall|i: int| 0 <= i < ids@.len() ==> #[trigger] move_list(g.take(t as int))[i] == (ids@[i], srcs@[i]@, dsts@[i]@, dpaths@[i]),
        decreases g.len() - t,
    {
        assert(g.take(t + 1).drop_last() =~= g.take(t as int));
        let grp = &gs[t];
        let ghost base = move_list(g.take(t as int));
        match &grp.destination {
            SdPath::Physical { path: dp, .. } => {
                let ghost rs = grp.roots@;
                let mut k: usize = 0;
                while k < grp.roots.len()
                    invariant
                        k <= rs.len(),
                        rs == grp.roots@,
                        grp.destination is Physical,
                        sd_path_of(grp.destination) == dp@,
                        ids@.len() == base.len() + root_moves(rs.take(k as int), grp.destination).len(),
                        srcs@.len() == ids@.len(),
                        dsts@.len() == ids@.len(),
                        dpaths@.len() == ids@.len(),
                        forall|i: int| 0 <= i < ids@.len() ==> #[trigger] (base + root_moves(rs.take(k as int), grp.destination))[i] == (ids@[i], srcs@[i]@, dsts@[i]@, dpaths@[i]),
                    decreases rs.len() - k,
                {
                    assert(rs.take(k + 1).drop_last() =~= rs.take(k as int));
                    let root = &grp.roots[k];
                    let ghost before = base + root_moves(rs.take(k as int), grp.destination);
                    match &root.source {
                        SdPath::Physical { path: sp, .. } => {
                            ids.push(root.item_id);
                            srcs.push(sp.clone());
                            dsts.push(dp.clone());
                            dpaths.push(copy_sd_path(&grp.destination));
                            assert(base + root_moves(rs.take(k + 1), grp.destination) =~= before.push(
                                (root.item_id, sp@, dp@, grp.destination),
                            ));
                        },
                        SdPath::Content { .. } => {
                            assert(base + root_moves(rs.take(k + 1), grp.destination) =~= before);
                        },
                    }
                    k = k + 1;
                }
                assert(rs.take(rs.len() as int) =~= rs);
                assert(move_list(g.take(t + 1)) =~= base + root_moves(rs, grp.destination));
            },
            SdPath::Content { .. } => {
                assert(move_list(g.take(t + 1)) =~= base);
            },
        }
        t = t + 1;
    }
    assert(g.take(g.len() as int) =~= g);
    (ids, srcs, dsts, dpaths)
}

/// The keys of the physical discard roots.
fn collect_discard_keys(ds: &Vec<OrganizePlanRoot>) -> (r: Vec<Vec<char>>)
    ensures
        r@.len() == discard_keys(ds@).len(),
        forall|i: int| 0 <= i < r@.len() ==> #[trigger] r@[i]@ == discard_keys(ds@)[i],
{
    let ghost s = ds@;
    let mut keys: Vec<Vec<char>> = Vec::new();
    let mut i: usize = 0;
    while i < ds.len()
        invariant
            i <= s.len(),
            s == ds@,
            keys@.len() == discard_keys(s.take(i as int)).len(),
            forall|j: int| 0 <= j < keys@.len() ==> #[trigger] keys@[j]@ == discard_keys(s.take(i as int))[j],
        decreases s.len() - i,
    {
        assert(s.take(i + 1).drop_last() =~= s.take(i as int));
        let ghost before = discard_keys(s.take(i as int));
        match &ds[i].source {
            SdPath::Physical { path, .. } => {
                keys.push(plan_key(path.as_str()));
                assert(discard_keys(s.take(i + 1)) =~= before.push(plan_key_spec(path@)));
            },
            SdPath::Content { .. } => {
                assert(discard_keys(s.take(i + 1)) =~= before);
            },
        }
        i = i + 1;
    }
    assert(s.take(s.len() as int) =~= s);
    keys
}

/// The first move whose source key is `key`.
fn first_source_index(skeys: &Vec<Vec<char>>, key: &Vec<char>, Ghost(ms): Ghost<Seq<PlanMove>>) -> (r: Option<usize>)
    requires
        skeys@.len() == ms.len(),
        forall|i: int| 0 <= i < ms.len() ==> #[trigger] skeys@[i]@ == plan_key_spec(ms[i].1),
    ensures
        match r {
            Some(j) => j < ms.len() && first_source(ms, key@, 0) == Some(j as int),
            None => first_source(ms, key@, 0) is None,
        },
{
    let mut j: usize = 0;
    while j < skeys.len()
        invariant
            j <= ms.len(),
            skeys@.len() == ms.len(),
            forall|i: int| 0 <= i < ms.len() ==> #[trigger] skeys@[i]@ == plan_key_spec(ms[i].1),
            first_source(ms, key@, 0) == first_source(ms, key@, j as int),
        decreases ms.len() - j,
    {
        if chars_eq(skeys[j].as_slice(), key.as_slice()) {
            return Some(j);
        }
        j = j + 1;
    }
    None
}

/// Whether the walk from `start` goes on for `steps` steps.
fn walk_goes_on_exec(
    skeys: &Vec<Vec<char>>,
    dkeys: &Vec<Vec<char>>,
    start: &Vec<char>,
    steps: u128,
    Ghost(ms): Ghost<Seq<PlanMove>>,
) -> (b: bool)
    requires
        skeys@.len() == ms.len(),
        dkeys@.len() == ms.len(),
        forall|i: int| 0 <= i < ms.len() ==> #[trigger] skeys@[i]@ == plan_key_spec(ms[i].1),
        forall|i: int| 0 <= i < ms.len() ==> #[trigger] dkeys@[i]@ == plan_key_spec(ms[i].2),
    ensures
        b == walk_goes_on(ms, start@, steps as nat),
{
    let mut cur: Vec<char> = crate::text::copy_chars(start.as_slice());
    let mut s: u128 = 0;
    while s < steps
        invariant
            s <= steps,
            skeys@.len() == ms.len(),
            dkeys@.len() == ms.len(),
            forall|i: int| 0 <= i < ms.len() ==> #[trigger] skeys@[i]@ == plan_key_spec(ms[i].1),
            forall|i: int| 0 <= i < ms.len() ==> #[trigger] dkeys@[i]@ == plan_key_spec(ms[i].2),
            walk_goes_on(ms, start@, steps as nat) == walk_goes_on(ms, cur@, (steps - s) as nat),
        decreases steps - s,
    {
        let ghost prev = cur@;
        match first_source_index(skeys, &cur, Ghost(ms)) {
            Some(j) => {
                cur = crate::text::copy_chars(dkeys[j].as_slice());
                assert(walk_goes_on(ms, prev, (steps - s) as nat) == walk_goes_on(ms, cur@, (steps - s - 1) as nat));
            },
            None => {
                return false;
            },
        }
        s = s + 1;
    }
    true
}

} // verus!

verus! {

/// The parallel lists of the moves: items, source paths, destination
/// addresses, and the keys of sources and destinations.
pub open spec fn moves_match(
    ms: Seq<PlanMove>,
    ids: Seq<u128>,
    srcs: Seq<String>,
    dpaths: Seq<SdPath>,
    skeys: Seq<Vec<char>>,
    dkeys: Seq<Vec<char>>,
) -> bool {
    &&& ids.len() == ms.len()
    &&& srcs.len() == ms.len()
    &&& dpaths.len() == ms.len()
    &&& skeys.len() == ms.len()
    &&& dkeys.len() == ms.len()
    &&& forall|i: int| 0 <= i < ms.len() ==> #[trigger] ms[i] == (ids[i], srcs[i]@, ms[i].2, dpaths[i])
    &&& forall|i: int| 0 <= i < ms.len() ==> #[trigger] skeys[i]@ == plan_key_spec(ms[i].1)
    &&& forall|i: int| 0 <= i < ms.len() ==> #[trigger] dkeys[i]@ == plan_key_spec(ms[i].2)
}

/// The conflicts of the moves that are unsafe on their own, in move order.
fn reason_conflict_list(
    device_slug: &str,
    ids: &Vec<u128>,
    srcs: &Vec<String>,
    dpaths: &Vec<SdPath>,
    skeys: &Vec<Vec<char>>,
    dkeys: &Vec<Vec<char>>,
    discards: &Vec<Vec<char>>,
    Ghost(ms): Ghost<Seq<PlanMove>>,
    Ghost(dks): Ghost<Seq<Seq<char>>>,
) -> (out: Vec<OrganizeTopologyConflict>)
    requires
        moves_match(ms, ids@, srcs@, dpaths@, skeys@, dkeys@),
        discards@.len() == dks.len(),
        forall|j: int| 0 <= j < dks.len() ==> #[trigger] discards@[j]@ == dks[j],
    ensures
        conflicts_are(out@, reason_conflicts(ms, dks, ms.len() as int), device_slug@),
{
    let mut out: Vec<OrganizeTopologyConflict> = Vec::new();
    let mut i: usize = 0;
    while i < ids.len()
        invariant
            i <= ms.len(),
            moves_match(ms, ids@, srcs@, dpaths@, skeys@, dkeys@),
            discards@.len() == dks.len(),
            forall|j: int| 0 <= j < dks.len() ==> #[trigger] discards@[j]@ == dks[j],
            conflicts_are(out@, reason_conflicts(ms, dks, i as int), device_slug@),
        decreases ms.len() - i,
    {
        let sk = &skeys[i];
        let dk = &dkeys[i];
        let mut overlap = false;
        let mut j: usize = 0;
        while j < discards.len() && !overlap
            invariant
                j <= dks.len(),
                discards@.len() == dks.len(),
                forall|q: int| 0 <= q < dks.len() ==> #[trigger] discards@[q]@ == dks[q],
                overlap <==> exists|q: int| 0 <= q < j && #[trigger] keys_overlap_spec(dks[q], dk@),
            decreases dks.len() - j,
        {
            if keys_overlap(discards[j].as_slice(), dk.as_slice()) {
                overlap = true;
            }
            j = j + 1;
        }
        proof {
            if !overlap {
                assert(j == dks.len());
            }
        }
        let reason: Option<&str> = if chars_eq(sk.as_slice(), dk.as_slice()) {
            Some("a move destination cannot equal its source")
        } else if is_ancestor_key(sk.as_slice(), dk.as_slice()) {
            Some("a move destination cannot be inside its source")
        } else if overlap {
            Some("a move destination overlaps a discard root")
        } else {
            None
        };
        let ghost before = out@;
        proof {
            reveal_strlit("a move destination cannot equal its source");
            reveal_strlit("a move destination cannot be inside its source");
            reveal_strlit("a move destination overlaps a discard root");
        }
        assert(match move_reason(ms[i as int], dks) {
            Some(m) => reason matches Some(t) && t@ == m,
            None => reason is None,
        });
        match reason {
            Some(text) => {
                let c = OrganizeTopologyConflict {
                    item_id: ids[i],
                    source: SdPath::physical(device_slug, srcs[i].as_str()),
                    destination: copy_sd_path(&dpaths[i]),
                    reason: String::from_str(text),
                };
                out.push(c);
                proof {
                    assert forall|q: int| 0 <= q < out@.len() implies #[trigger] conflict_is(out@[q], reason_conflicts(ms, dks, i + 1)[q], device_slug@) by {
                        if q < before.len() {
                            assert(out@[q] == before[q]);
                        }
                    }
                }
            },
            None => {},
        }
        i = i + 1;
    }
    out
}

/// Append the cycle conflicts of the moves, in move order.
fn push_cycle_conflicts(
    out: &mut Vec<OrganizeTopologyConflict>,
    device_slug: &str,
    ids: &Vec<u128>,
    srcs: &Vec<String>,
    dpaths: &Vec<SdPath>,
    skeys: &Vec<Vec<char>>,
    dkeys: &Vec<Vec<char>>,
    Ghost(ms): Ghost<Seq<PlanMove>>,
    Ghost(base): Ghost<Seq<ConflictView>>,
)
    requires
        moves_match(ms, ids@, srcs@, dpaths@, skeys@, dkeys@),
        conflicts_are(old(out)@, base, device_slug@),
    ensures
        conflicts_are(final(out)@, base + cycle_conflicts(ms, ms.len() as int), device_slug@),
{
    let n = ids.len();
    let steps: u128 = n as u128 + 1;
    let mut i: usize = 0;
    assert(base + cycle_conflicts(ms, 0) =~= base);
    while i < n
        invariant
            i <= n,
            n == ms.len(),
            steps == ms.len() + 1,
            moves_match(ms, ids@, srcs@, dpaths@, skeys@, dkeys@),
            conflicts_are(out@, base + cycle_conflicts(ms, i as int), device_slug@),
        decreases n - i,
    {
        let cyc = walk_goes_on_exec(skeys, dkeys, &skeys[i], steps, Ghost(ms));
        assert(cyc == in_cycle(ms, i as int));
        let ghost before = out@;
        if cyc {
            proof {
                reveal_strlit("move destinations form a cycle");
            }
            let c = OrganizeTopologyConflict {
                item_id: ids[i],
                source: SdPath::physical(device_slug, srcs[i].as_str()),
                destination: copy_sd_path(&dpaths[i]),
                reason: String::from_str("move destinations form a cycle"),
            };
            out.push(c);
            proof {
                let v = base + cycle_conflicts(ms, i + 1);
                assert(v =~= (base + cycle_conflicts(ms, i as int)).push((ms[i as int].0, ms[i as int].1, ms[i as int].3, msg_forms_cycle())));
                assert forall|q: int| 0 <= q < out@.len() implies #[trigger] conflict_is(out@[q], v[q], device_slug@) by {
                    if q < before.len() {
                        assert(out@[q] == before[q]);
                    }
                }
            }
        } else {
            assert(base + cycle_conflicts(ms, i + 1) =~= base + cycle_conflicts(ms, i as int));
        }
        i = i + 1;
    }
}

} // verus!

verus! {

proof fn lemma_insert_by_item(t: Seq<ConflictView>, e: ConflictView, p: int)
    requires
        0 <= p <= t.len(),
        forall|q: int| p <= q < t.len() ==> #[trigger] t[q].0 > e.0,
        p == 0 || t[p - 1].0 <= e.0,
    ensures
        insert_by_item(t, e) == t.take(p).push(e) + t.skip(p),
    decreases t.len(),
{
    if t.len() == 0 {
        assert(t.take(p).push(e) + t.skip(p) =~= seq![e]);
    } else if p == t.len() {
        assert(t.take(p) =~= t);
        assert(t.take(p).push(e) + t.skip(p) =~= t.push(e));
    } else {
        let d = t.drop_last();
        assert(t.last().0 > e.0);
        assert forall|q: int| p <= q < d.len() implies #[trigger] d[q].0 > e.0 by {
            assert(d[q] == t[q]);
        }
        if p > 0 {
            assert(d[p - 1] == t[p - 1]);
        }
        lemma_insert_by_item(d, e, p);
        assert(d.take(p) =~= t.take(p));
        assert((d.take(p).push(e) + d.skip(p)).push(t.last()) =~= t.take(p).push(e) + t.skip(p));
    }
}

/// Conflicts stably sorted by item.
fn sort_conflicts(raw: &Vec<OrganizeTopologyConflict>, Ghost(vs): Ghost<Seq<ConflictView>>, Ghost(device): Ghost<Seq<char>>) -> (out: Vec<OrganizeTopologyConflict>)
    requires
        conflicts_are(raw@, vs, device),
    ensures
        conflicts_are(out@, sort_by_item(vs), device),
{
    let mut out: Vec<OrganizeTopologyConflict> = Vec::new();
    let mut i: usize = 0;
    while i < raw.len()
        invariant
            i <= vs.len(),
            conflicts_are(raw@, vs, device),
            conflicts_are(out@, sort_by_item(vs.take(i as int)), device),
        decreases vs.len() - i,
    {
        let e = copy_conflict(&raw[i]);
        let ghost t = sort_by_item(vs.take(i as int));
        let ghost ev = vs[i as int];
        assert(conflict_is(raw@[i as int], vs[i as int], device));
        let mut p: usize = out.len();
        while p > 0 && out[p - 1].item_id > e.item_id
            invariant
                p <= out@.len(),
                conflicts_are(out@, t, device),
                e.item_id == ev.0,
                forall|q: int| p <= q < t.len() ==> #[trigger] t[q].0 > ev.0,
            decreases p,
        {
            assert(conflict_is(out@[p - 1], t[p - 1], device));
            p = p - 1;
        }
        proof {
            if p > 0 {
                assert(conflict_is(out@[p - 1], t[p - 1], device));
            }
            lemma_insert_by_item(t, ev, p as int);
            assert(vs.take(i + 1).drop_last() =~= vs.take(i as int));
            assert(vs.take(i + 1).last() == ev);
        }
        let ghost before = out@;
        out.insert(p, e);
        proof {
            let nt = sort_by_item(vs.take(i + 1));
            assert(nt == t.take(p as int).push(ev) + t.skip(p as int));
            assert forall|q: int| 0 <= q < out@.len() implies #[trigger] conflict_is(out@[q], nt[q], device) by {
                if q < p {
                    assert(out@[q] == before[q]);
                    assert(nt[q] == t[q]);
                    assert(conflict_is(before[q], t[q], device));
                } else if q > p {
                    assert(out@[q] == before[q - 1]);
                    assert(nt[q] == t[q - 1]);
                    assert(conflict_is(before[q - 1], t[q - 1], device));
                }
            }
        }
        i = i + 1;
    }
    assert(vs.take(vs.len() as int) =~= vs);
    out
}

/// Conflicts with each run of one item and one reason cut to its first.
fn dedup_conflict_list(sorted: &Vec<OrganizeTopologyConflict>, Ghost(vs): Ghost<Seq<ConflictView>>, Ghost(device): Ghost<Seq<char>>) -> (out: Vec<OrganizeTopologyConflict>)
    requires
        conflicts_are(sorted@, vs, device),
    ensures
        conflicts_are(out@, dedup_conflicts(vs), device),
{
    let mut out: Vec<OrganizeTopologyConflict> = Vec::new();
    let mut i: usize = 0;
    while i < sorted.len()
        invariant
            i <= vs.len(),
            conflicts_are(sorted@, vs, device),
            conflicts_are(out@, dedup_conflicts(vs.take(i as int)), device),
        decreases vs.len() - i,
    {
        let ghost d = dedup_conflicts(vs.take(i as int));
        proof {
            assert(vs.take(i + 1).drop_last() =~= vs.take(i as int));
            assert(vs.take(i + 1).last() == vs[i as int]);
            assert(conflict_is(sorted@[i as int], vs[i as int], device));
            if out@.len() > 0 {
                assert(conflict_is(out@[out@.len() - 1], d[d.len() - 1], device));
            }
        }
        let c = &sorted[i];
        let repeat = out.len() > 0 && out[out.len() - 1].item_id == c.item_id && str_eq(
            out[out.len() - 1].reason.as_str(),
            c.reason.as_str(),
        );
        if !repeat {
            let ghost before = out@;
            out.push(copy_conflict(c));
            proof {
                assert forall|q: int| 0 <= q < out@.len() implies #[trigger] conflict_is(out@[q], dedup_conflicts(vs.take(i + 1))[q], device) by {
                    if q < before.len() {
                        assert(out@[q] == before[q]);
                    }
                }
            }
        }
        i = i + 1;
    }
    assert(vs.take(vs.len() as int) =~= vs);
    out
}

/// The unsafe conflicts of a plan's move groups against each other and its
/// discard roots: a destination equal to or inside its source, one that
/// overlaps a discard root, destinations that form a cycle; sorted by item,
/// each item and reason once.
pub fn find_unsafe_conflicts(
    device_slug: &str,
    move_groups: &Vec<OrganizeMoveGroup>,
    discard_roots: &Vec<OrganizePlanRoot>,
) -> (r: Vec<OrganizeTopologyConflict>)
    ensures
        conflicts_are(r@, plan_conflicts(move_groups@, discard_roots@), device_slug@),
{
    let ghost ms = move_list(move_groups@);
    let ghost dks = discard_keys(discard_roots@);
    let discards = collect_discard_keys(discard_roots);
    let (ids, srcs, dsts, dpaths) = collect_moves(move_groups);
    let mut skeys: Vec<Vec<char>> = Vec::new();
    let mut dkeys: Vec<Vec<char>> = Vec::new();
    let mut i: usize = 0;
    while i < ids.len()
        invariant
            i <= ms.len(),
            ids@.len() == ms.len(),
            srcs@.len() == ms.len(),
            dsts@.len() == ms.len(),
            dpaths@.len() == ms.len(),
            forall|q: int| 0 <= q < ms.len() ==> #[trigger] ms[q] == (ids@[q], srcs@[q]@, dsts@[q]@, dpaths@[q]),
            skeys@.len() == i,
            dkeys@.len() == i,
            forall|q: int| 0 <= q < i ==> #[trigger] skeys@[q]@ == plan_key_spec(ms[q].1),
            forall|q: int| 0 <= q < i ==> #[trigger] dkeys@[q]@ == plan_key_spec(ms[q].2),
        decreases ms.len() - i,
    {
        skeys.push(plan_key(srcs[i].as_str()));
        dkeys.push(plan_key(dsts[i].as_str()));
        i = i + 1;
    }
    assert(moves_match(ms, ids@, srcs@, dpaths@, skeys@, dkeys@));
    let mut raw = reason_conflict_list(device_slug, &ids, &srcs, &dpaths, &skeys, &dkeys, &discards, Ghost(ms), Ghost(dks));
    push_cycle_conflicts(&mut raw, device_slug, &ids, &srcs, &dpaths, &skeys, &dkeys, Ghost(ms), Ghost(reason_conflicts(ms, dks, ms.len() as int)));
    let ghost vs = reason_conflicts(ms, dks, ms.len() as int) + cycle_conflicts(ms, ms.len() as int);
    let sorted = sort_conflicts(&raw, Ghost(vs), Ghost(device_slug@));
    dedup_conflict_list(&sorted, Ghost(sort_by_item(vs)), Ghost(device_slug@))
}

} // verus!
