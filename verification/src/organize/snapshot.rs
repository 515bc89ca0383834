//! Snapshots of a task root: the scanned items, their keys and signatures,
//! their totals, and the stored drafts they become.

use vstd::prelude::*;
use vstd::string::StringExecFns;
use crate::ids::{push_i32, signed_decimal};
use crate::organize::error::OrganizeError;
use crate::organize::model::{DecisionValue, OrganizeItemKind, OrganizeOperationState};
use crate::organize::plan::trim_seps;
use crate::organize::grouping::{chars_less, key_less, lemma_key_less_total};
use crate::text::chars_eq;
use crate::organize::layout::{lemma_key_less_irrefl, lemma_key_less_trans};
use crate::text::{
    chars_of, copy_string, decimal, lowercase, lowercase_chars, push_decimal, push_str, replace_chars, replace_seq,
    string_from_chars,
};

verus! {

/// Progress of a snapshot scan.
#[derive(Clone, Debug)]
pub struct SnapshotProgress {
    pub current_path: String,
    pub entries_scanned: usize,
}

/// The error every snapshot gives where the platform has no snapshot support.
pub fn unsupported_snapshot() -> (r: Result<(), OrganizeError>)
    ensures
        r matches Err(OrganizeError::UnsupportedPlatform),
{
    Err(OrganizeError::UnsupportedPlatform)
}

/// The key of a relative path: `/` made `\`, leading and trailing `\`
/// removed, lowercased.
pub open spec fn relative_key_spec(value: Seq<char>) -> Seq<char> {
    lowercase(trim_backslash_ends(replace_seq(value, '/', '\\')))
}

/// `s` without leading and trailing `\`.
pub open spec fn trim_backslash_ends(s: Seq<char>) -> Seq<char>
    decreases s.len(),
{
    if s.len() > 0 && s[0] == '\\' {
        trim_backslash_ends(s.drop_first())
    } else if s.len() > 0 && s.last() == '\\' {
        trim_backslash_ends(s.drop_last())
    } else {
        s
    }
}

/// The key of a relative path.
pub fn normalize_relative_key(value: &str) -> (r: String)
    ensures
        r@ == relative_key_spec(value@),
{
    let c = chars_of(value);
    let rep = replace_chars(c.as_slice(), '/', '\\');
    let mut a: usize = 0;
    let mut b: usize = rep.len();
    let ghost v = rep@;
    assert(v.subrange(0, b as int) =~= v);
    while a < b && rep[a] == '\\'
        invariant
            a <= b <= v.len(),
            b == v.len(),
            v == rep@,
            trim_backslash_ends(v.subrange(a as int, b as int)) == trim_backslash_ends(v),
        decreases b - a,
    {
        assert(v.subrange(a as int, b as int).drop_first() =~= v.subrange(a + 1, b as int));
        a = a + 1;
    }
    while a < b && rep[b - 1] == '\\'
        invariant
            a <= b <= v.len(),
            v == rep@,
            trim_backslash_ends(v.subrange(a as int, b as int)) == trim_backslash_ends(v),
            a == b || v[a as int] != '\\',
        decreases b - a,
    {
        let ghost t = v.subrange(a as int, b as int);
        assert(t.drop_last() =~= v.subrange(a as int, b - 1));
        assert(t[0] == v[a as int]);
        b = b - 1;
    }
    proof {
        let t = v.subrange(a as int, b as int);
        if t.len() > 0 {
            assert(t[0] == v[a as int]);
            assert(t.last() == v[b - 1]);
        }
    }
    let mut mid: Vec<char> = Vec::new();
    let mut i: usize = a;
    while i < b
        invariant
            a <= i <= b <= v.len(),
            v == rep@,
            mid@ == v.subrange(a as int, i as int),
        decreases b - i,
    {
        mid.push(rep[i]);
        i = i + 1;
        assert(mid@ =~= v.subrange(a as int, i as int));
    }
    let low = lowercase_chars(mid.as_slice());
    string_from_chars(low.as_slice())
}

/// The change signature of an item from its metadata: length, modification
/// time and the read-only flag, joined with `:`.
pub open spec fn signature_spec(len: u64, modified: i64, readonly: bool) -> Seq<char> {
    decimal(len as nat) + ":"@ + signed_decimal(modified as int) + ":"@ + if readonly {
        "1"@
    } else {
        "0"@
    }
}

/// The decimal digit character for `d`.
fn digit_of(d: u64) -> (c: char)
    requires
        d < 10,
    ensures
        c == crate::text::digit_char(d as nat),
{
    if d == 0 {
        '0'
    } else if d == 1 {
        '1'
    } else if d == 2 {
        '2'
    } else if d == 3 {
        '3'
    } else if d == 4 {
        '4'
    } else if d == 5 {
        '5'
    } else if d == 6 {
        '6'
    } else if d == 7 {
        '7'
    } else if d == 8 {
        '8'
    } else {
        '9'
    }
}

/// Append the decimal digits of `n` to `v`.
pub fn push_u64(v: &mut Vec<char>, n: u64)
    ensures
        final(v)@ == old(v)@ + decimal(n as nat),
    decreases n,
{
    if n >= 10 {
        push_u64(v, n / 10);
    }
    let c = digit_of(n % 10);
    v.push(c);
    assert(v@ =~= old(v)@ + decimal(n as nat));
}

/// The change signature of an item from its metadata. It is not a content hash.
pub fn metadata_signature(len: u64, modified: i64, readonly: bool) -> (s: String)
    ensures
        s@ == signature_spec(len, modified, readonly),
{
    let mut v: Vec<char> = Vec::new();
    push_u64(&mut v, len);
    v.push(':');
    push_i64(&mut v, modified);
    v.push(':');
    v.push(if readonly { '1' } else { '0' });
    proof {
        reveal_strlit(":");
        reveal_strlit("1");
        reveal_strlit("0");
    }
    assert(v@ =~= signature_spec(len, modified, readonly));
    string_from_chars(v.as_slice())
}

fn push_i64(v: &mut Vec<char>, n: i64)
    ensures
        final(v)@ == old(v)@ + signed_decimal(n as int),
{
    if n < 0 {
        v.push('-');
        let m: u64 = if n == i64::MIN { 9223372036854775808u64 } else { (-n) as u64 };
        assert(m as int == -(n as int));
        push_u64(v, m);
        assert(v@ =~= old(v)@ + signed_decimal(n as int));
    } else {
        push_u64(v, n as u64);
        assert(v@ =~= old(v)@ + signed_decimal(n as int));
    }
}

/// The modification time in 100 ns ticks since the Unix epoch, from seconds
/// and nanoseconds (wrapped to 64 bits as the stored column is).
pub open spec fn ticks_spec(secs: u64, nanos: u32) -> i64 {
    (secs as int * 10_000_000 + nanos as int / 100) as i64
}

/// The modification time in 100 ns ticks since the Unix epoch.
pub fn modified_at_100ns(secs: u64, nanos: u32) -> (t: i64)
    ensures
        t == ticks_spec(secs, nanos),
{
    let wide: i128 = secs as i128 * 10_000_000 + nanos as i128 / 100;
    wide as i64
}

} // verus!

verus! {

/// One scanned node before database ids are assigned.
#[derive(Clone, Debug)]
pub struct SnapshotScanItem {
    pub uuid: u128,
    pub parent_index: Option<usize>,
    pub relative_path: String,
    pub relative_path_key: String,
    pub name: String,
    pub extension: Option<String>,
    pub kind: OrganizeItemKind,
    pub size_bytes: i64,
    pub modified_at_100ns: i64,
    pub metadata_signature: String,
}

/// The totals of a snapshot.
#[derive(Clone, Copy, Debug, PartialEq, Eq, Structural)]
pub struct SnapshotTotals {
    pub total_entries: i64,
    pub total_units: i64,
    pub total_bytes: i64,
    pub scan_issue_count: i64,
}

/// A snapshot item as it is stored; times in milliseconds since the Unix epoch.
#[derive(Clone, Debug)]
pub struct SnapshotItemDraft {
    pub id: Option<i32>,
    pub uuid: u128,
    pub task_id: u128,
    pub parent_id: Option<i32>,
    pub entry_uuid: Option<u128>,
    pub relative_path: String,
    pub relative_path_key: String,
    pub name: String,
    pub extension: Option<String>,
    pub kind: OrganizeItemKind,
    pub size_bytes: i64,
    pub aggregate_size_bytes: i64,
    pub modified_at_100ns: i64,
    pub metadata_signature: String,
    pub tree_start: Option<i64>,
    pub tree_end: Option<i64>,
    pub unit_count: Option<i64>,
    pub membership_state: String,
    pub external_state: String,
    pub decision_kind: Option<DecisionValue>,
    pub move_destination: Option<String>,
    pub operation_state: OrganizeOperationState,
    pub last_error: Option<String>,
    pub applied_at: Option<i64>,
    pub created_at: i64,
    pub updated_at: i64,
}

/// The units of the first `k` items: those that are not directories.
pub open spec fn scan_units(items: Seq<SnapshotScanItem>, k: int) -> nat
    decreases k,
{
    if k <= 0 {
        0
    } else {
        scan_units(items, k - 1) + if items[k - 1].kind != OrganizeItemKind::Directory {
            1nat
        } else {
            0nat
        }
    }
}

/// The bytes of the first `k` items, negative sizes as 0.
pub open spec fn scan_bytes(items: Seq<SnapshotScanItem>, k: int) -> nat
    decreases k,
{
    if k <= 0 {
        0
    } else {
        scan_bytes(items, k - 1) + if items[k - 1].size_bytes > 0 {
            items[k - 1].size_bytes as nat
        } else {
            0nat
        }
    }
}

proof fn lemma_scan_sums_mono(items: Seq<SnapshotScanItem>, a: int, b: int)
    requires
        0 <= a <= b,
    ensures
        scan_units(items, a) <= scan_units(items, b),
        scan_bytes(items, a) <= scan_bytes(items, b),
    decreases b - a,
{
    if a < b {
        lemma_scan_sums_mono(items, a, b - 1);
    }
}

proof fn lemma_scan_units_bound(items: Seq<SnapshotScanItem>, b: int)
    requires
        0 <= b,
    ensures
        scan_units(items, b) <= b,
    decreases b,
{
    if b > 0 {
        lemma_scan_units_bound(items, b - 1);
    }
}

/// The totals of scanned items: their count, the units of what is not a
/// directory, and their bytes.
pub fn snapshot_totals(items: &Vec<SnapshotScanItem>) -> (t: SnapshotTotals)
    requires
        items@.len() <= i64::MAX,
        scan_bytes(items@, items@.len() as int) <= i64::MAX,
    ensures
        t.total_entries == items@.len(),
        t.total_units == scan_units(items@, items@.len() as int),
        t.total_bytes == scan_bytes(items@, items@.len() as int),
        t.scan_issue_count == 0,
{
    let mut units: i64 = 0;
    let mut bytes: i64 = 0;
    let mut i: usize = 0;
    while i < items.len()
        invariant
            i <= items@.len(),
            items@.len() <= i64::MAX,
            scan_bytes(items@, items@.len() as int) <= i64::MAX,
            units == scan_units(items@, i as int),
            bytes == scan_bytes(items@, i as int),
        decreases items@.len() - i,
    {
        proof {
            lemma_scan_sums_mono(items@, i + 1, items@.len() as int);
            lemma_scan_units_bound(items@, i + 1);
        }
        if items[i].kind != OrganizeItemKind::Directory {
            units = units + 1;
        }
        if items[i].size_bytes > 0 {
            bytes = bytes + items[i].size_bytes;
        }
        i = i + 1;
    }
    SnapshotTotals { total_entries: items.len() as i64, total_units: units, total_bytes: bytes, scan_issue_count: 0 }
}

/// The relative path of a child: its name, or the parent's path, `\` and its name.
pub open spec fn child_relative_spec(parent: Seq<char>, name: Seq<char>) -> Seq<char> {
    if parent.len() == 0 {
        name
    } else {
        parent + seq!['\\'] + name
    }
}

/// The relative path of a child entry.
pub fn child_relative_path(parent: &str, name: &str) -> (r: String)
    ensures
        r@ == child_relative_spec(parent@, name@),
{
    let p = chars_of(parent);
    if p.len() == 0 {
        return copy_string(name);
    }
    let mut v = p;
    v.push('\\');
    push_str(&mut v, name);
    string_from_chars(v.as_slice())
}

/// The size a scanned item is stored with: 0 for directories and reparse
/// points, else its length.
pub open spec fn scan_size_spec(kind: OrganizeItemKind, len: u64) -> i64 {
    if kind == OrganizeItemKind::Directory || kind == OrganizeItemKind::ReparsePoint {
        0
    } else {
        len as i64
    }
}

/// The size a scanned item is stored with.
pub fn scan_size(kind: OrganizeItemKind, len: u64) -> (s: i64)
    ensures
        s == scan_size_spec(kind, len),
{
    if kind == OrganizeItemKind::Directory || kind == OrganizeItemKind::ReparsePoint {
        0
    } else {
        len as i64
    }
}

/// The kind of a scanned entry: a reparse point first, then a directory, else a file.
pub fn classify(is_reparse_point: bool, is_dir: bool) -> (k: OrganizeItemKind)
    ensures
        k == (if is_reparse_point {
            OrganizeItemKind::ReparsePoint
        } else if is_dir {
            OrganizeItemKind::Directory
        } else {
            OrganizeItemKind::File
        }),
{
    if is_reparse_point {
        OrganizeItemKind::ReparsePoint
    } else if is_dir {
        OrganizeItemKind::Directory
    } else {
        OrganizeItemKind::File
    }
}

/// The first item from position `i` on whose parent index is out of bounds.
pub open spec fn bad_parent_from(items: Seq<SnapshotScanItem>, n: int, i: int) -> bool
    decreases items.len() - i,
{
    if i < 0 || i >= items.len() {
        false
    } else {
        (items[i].parent_index matches Some(p) && p >= n) || bad_parent_from(items, n, i + 1)
    }
}

/// Whether `d` is the stored draft of scanned item `index`: the row id
/// assigned to it, the row of its parent, its own values, a placeholder
/// interval of one unit at its position, included and present, undecided.
pub open spec fn draft_is(
    d: SnapshotItemDraft,
    item: SnapshotScanItem,
    row_ids: Seq<i32>,
    index: int,
    task_id: u128,
    created_at: i64,
) -> bool {
    &&& d.id == Some(row_ids[index])
    &&& d.uuid == item.uuid
    &&& d.task_id == task_id
    &&& d.parent_id == match item.parent_index {
        Some(p) => Some(row_ids[p as int]),
        None => None::<i32>,
    }
    &&& d.entry_uuid is None
    &&& d.relative_path@ == item.relative_path@
    &&& d.relative_path_key@ == item.relative_path_key@
    &&& d.name@ == item.name@
    &&& d.extension == item.extension
    &&& d.kind == item.kind
    &&& d.size_bytes == item.size_bytes
    &&& d.aggregate_size_bytes == item.size_bytes
    &&& d.modified_at_100ns == item.modified_at_100ns
    &&& d.metadata_signature@ == item.metadata_signature@
    &&& d.tree_start == Some(index as i64)
    &&& d.tree_end == Some((index + 1) as i64)
    &&& d.unit_count == Some(1i64)
    &&& d.membership_state@ == "included"@
    &&& d.external_state@ == "present"@
    &&& d.decision_kind is None
    &&& d.move_destination is None
    &&& d.operation_state == OrganizeOperationState::NoOperation
    &&& d.last_error is None
    &&& d.applied_at is None
    &&& d.created_at == created_at
    &&& d.updated_at == created_at
}

/// The stored drafts of scanned items once the caller assigned their row ids.
pub fn materialize_snapshot_drafts(
    task_id: u128,
    items: &Vec<SnapshotScanItem>,
    row_ids: &Vec<i32>,
    created_at: i64,
) -> (r: Result<Vec<SnapshotItemDraft>, OrganizeError>)
    requires
        items@.len() < i64::MAX,
    ensures
        if items@.len() != row_ids@.len() {
            r matches Err(OrganizeError::InvalidTree(m)) && m@ == "snapshot row id count does not match items"@
        } else if bad_parent_from(items@, row_ids@.len() as int, 0) {
            r matches Err(OrganizeError::InvalidTree(m)) && m@ == "snapshot parent index is out of bounds"@
        } else {
            r matches Ok(ds) && ds@.len() == items@.len() && forall|i: int|
                0 <= i < ds@.len() ==> #[trigger] draft_is(ds@[i], items@[i], row_ids@, i, task_id, created_at)
        },
{
    proof {
        reveal_strlit("snapshot row id count does not match items");
        reveal_strlit("snapshot parent index is out of bounds");
        reveal_strlit("included");
        reveal_strlit("present");
    }
    if items.len() != row_ids.len() {
        return Err(OrganizeError::InvalidTree(String::from_str("snapshot row id count does not match items")));
    }
    let mut drafts: Vec<SnapshotItemDraft> = Vec::new();
    let mut index: usize = 0;
    while index < items.len()
        invariant
            index <= items@.len(),
            items@.len() == row_ids@.len(),
            items@.len() < i64::MAX,
            bad_parent_from(items@, row_ids@.len() as int, 0) == bad_parent_from(items@, row_ids@.len() as int, index as int),
            drafts@.len() == index,
            forall|i: int| 0 <= i < index ==> #[trigger] draft_is(drafts@[i], items@[i], row_ids@, i, task_id, created_at),
        decreases items@.len() - index,
    {
        let item = &items[index];
        let parent_id: Option<i32> = match item.parent_index {
            Some(p) => {
                if p >= row_ids.len() {
                    return Err(OrganizeError::InvalidTree(String::from_str("snapshot parent index is out of bounds")));
                }
                Some(row_ids[p])
            },
            None => None,
        };
        drafts.push(SnapshotItemDraft {
            id: Some(row_ids[index]),
            uuid: item.uuid,
            task_id,
            parent_id,
            entry_uuid: None,
            relative_path: item.relative_path.clone(),
            relative_path_key: item.relative_path_key.clone(),
            name: item.name.clone(),
            extension: match &item.extension {
                Some(e) => Some(e.clone()),
                None => None,
            },
            kind: item.kind,
            size_bytes: item.size_bytes,
            aggregate_size_bytes: item.size_bytes,
            modified_at_100ns: item.modified_at_100ns,
            metadata_signature: item.metadata_signature.clone(),
            tree_start: Some(index as i64),
            tree_end: Some(index as i64 + 1),
            unit_count: Some(1),
            membership_state: String::from_str("included"),
            external_state: String::from_str("present"),
            decision_kind: None,
            move_destination: None,
            operation_state: OrganizeOperationState::NoOperation,
            last_error: None,
            applied_at: None,
            created_at,
            updated_at: created_at,
        });
        index = index + 1;
    }
    Ok(drafts)
}


/// The keys of directory entry names.
pub open spec fn entry_keys(names: Seq<String>) -> Seq<Seq<char>> {
    names.map_values(|n: String| relative_key_spec(n@))
}

/// Entry `a` is walked before entry `b`: by key, then in the order listed.
pub open spec fn entry_before(keys: Seq<Seq<char>>, a: int, b: int) -> bool {
    key_less(keys[a], keys[b]) || (keys[a] == keys[b] && a < b)
}

proof fn lemma_entry_order(keys: Seq<Seq<char>>)
    ensures
        forall|a: int| !#[trigger] entry_before(keys, a, a),
        forall|a: int, b: int, c: int|
            #[trigger] entry_before(keys, a, b) && #[trigger] entry_before(keys, b, c) ==> entry_before(keys, a, c),
        forall|a: int, b: int| a != b ==> #[trigger] entry_before(keys, a, b) || #[trigger] entry_before(keys, b, a),
{
    assert forall|a: int| !#[trigger] entry_before(keys, a, a) by {
        lemma_key_less_irrefl(keys[a], 0);
    }
    assert forall|a: int, b: int, c: int|
        #[trigger] entry_before(keys, a, b) && #[trigger] entry_before(keys, b, c) implies entry_before(keys, a, c) by {
        if key_less(keys[a], keys[b]) && key_less(keys[b], keys[c]) {
            lemma_key_less_trans(keys[a], keys[b], keys[c], 0);
        }
    }
    assert forall|a: int, b: int| a != b implies #[trigger] entry_before(keys, a, b) || #[trigger] entry_before(
        keys,
        b,
        a,
    ) by {
        if keys[a] != keys[b] && !key_less(keys[a], keys[b]) {
            assert(keys[a].take(0) =~= keys[b].take(0));
            lemma_key_less_total(keys[a], keys[b], 0);
        }
    }
}

/// The order in which the entries of a directory are walked: by the key of
/// their names, entries with equal keys in the order listed.
pub fn entry_order(names: &Vec<String>) -> (r: Vec<usize>)
    ensures
        r@.len() == names@.len(),
        forall|x: usize| #[trigger] r@.contains(x) <==> x < names@.len(),
        forall|a: int, b: int| 0 <= a < b < r@.len() ==> entry_before(entry_keys(names@), r@[a] as int, r@[b] as int),
{
    let n = names.len();
    let mut keys: Vec<Vec<char>> = Vec::new();
    let mut k: usize = 0;
    while k < n
        invariant
            n == names@.len(),
            k <= n,
            keys@.len() == k,
            forall|j: int| 0 <= j < k ==> (#[trigger] keys@[j])@ == relative_key_spec(names@[j]@),
        decreases n - k,
    {
        let key = normalize_relative_key(names[k].as_str());
        keys.push(chars_of(key.as_str()));
        k = k + 1;
    }
    let ghost ks = entry_keys(names@);
    assert forall|j: int| 0 <= j < n implies (#[trigger] keys@[j])@ == ks[j] by {}
    proof {
        lemma_entry_order(ks);
    }
    let mut order: Vec<usize> = Vec::new();
    let mut i: usize = 0;
    while i < n
        invariant
            n == names@.len(),
            ks == entry_keys(names@),
            keys@.len() == n,
            forall|j: int| 0 <= j < n ==> (#[trigger] keys@[j])@ == ks[j],
            i <= n,
            order@.len() == i,
            forall|x: usize| #[trigger] order@.contains(x) <==> x < i,
            forall|a: int, b: int| 0 <= a < b < order@.len() ==> entry_before(ks, order@[a] as int, order@[b] as int),
            forall|a: int| !#[trigger] entry_before(ks, a, a),
            forall|a: int, b: int, c: int|
                #[trigger] entry_before(ks, a, b) && #[trigger] entry_before(ks, b, c) ==> entry_before(ks, a, c),
            forall|a: int, b: int| a != b ==> #[trigger] entry_before(ks, a, b) || #[trigger] entry_before(ks, b, a),
        decreases n - i,
    {
        assert forall|q: int| 0 <= q < order@.len() implies (#[trigger] order@[q]) < i by {
            assert(order@.contains(order@[q]));
        }
        let mut p: usize = 0;
        while p < order.len() && !(chars_less(keys[i].as_slice(), keys[order[p]].as_slice()) || (chars_eq(
            keys[i].as_slice(),
            keys[order[p]].as_slice(),
        ) && i < order[p]))
            invariant
                n == names@.len(),
                keys@.len() == n,
                forall|j: int| 0 <= j < n ==> (#[trigger] keys@[j])@ == ks[j],
                i < n,
                p <= order@.len(),
                forall|q: int| 0 <= q < order@.len() ==> (#[trigger] order@[q]) < i,
                forall|q: int| 0 <= q < p ==> !entry_before(ks, i as int, order@[q] as int),
            decreases order@.len() - p,
        {
            p = p + 1;
        }
        let ghost old_o = order@;
        proof {
            assert forall|q: int| 0 <= q < p implies entry_before(ks, old_o[q] as int, i as int) by {
                assert(old_o[q] < i);
            }
            if p < old_o.len() {
                assert(entry_before(ks, i as int, old_o[p as int] as int));
                assert forall|q: int| p <= q < old_o.len() implies entry_before(ks, i as int, old_o[q] as int) by {
                    if q > p {
                        assert(entry_before(ks, old_o[p as int] as int, old_o[q] as int));
                    }
                }
            }
        }
        order.insert(p, i);
        proof {
            assert forall|x: usize| #[trigger] order@.contains(x) <==> x < i + 1 by {
                if order@.contains(x) {
                    let q = choose|q: int| 0 <= q < order@.len() && order@[q] == x;
                    if q < p {
                        assert(old_o[q] == x && old_o.contains(x));
                    } else if q > p {
                        assert(old_o[q - 1] == x && old_o.contains(x));
                    }
                }
                if x < i + 1 {
                    if x == i {
                        assert(order@[p as int] == x);
                    } else {
                        assert(old_o.contains(x));
                        let q = choose|q: int| 0 <= q < old_o.len() && old_o[q] == x;
                        if q < p {
                            assert(order@[q] == x);
                        } else {
                            assert(order@[q + 1] == x);
                        }
                    }
                }
            }
            assert forall|a: int, b: int| 0 <= a < b < order@.len() implies entry_before(
                ks,
                order@[a] as int,
                order@[b] as int,
            ) by {
                if a < p && b < p {
                    assert(order@[a] == old_o[a] && order@[b] == old_o[b]);
                } else if a < p && b == p {
                } else if a < p {
                    assert(order@[a] == old_o[a] && order@[b] == old_o[b - 1]);
                    assert(entry_before(ks, old_o[a] as int, i as int));
                } else if a == p {
                    assert(order@[b] == old_o[b - 1]);
                } else {
                    assert(order@[a] == old_o[a - 1] && order@[b] == old_o[b - 1]);
                }
            }
        }
        i = i + 1;
    }
    order
}


/// Modification times are counted in 100 ns ticks: one more second is ten
/// million more ticks, and nanoseconds count only in whole hundreds (while the
/// count fits in 64 bits).
pub proof fn law_ticks_are_hundred_nanoseconds(secs: u64, nanos: u32)
    requires
        secs < 900_000_000_000,
        nanos < 1_000_000_000,
    ensures
        ticks_spec((secs + 1) as u64, nanos) == ticks_spec(secs, nanos) + 10_000_000,
        ticks_spec(secs, (nanos - nanos % 100) as u32) == ticks_spec(secs, nanos),
        ticks_spec(0, nanos) == nanos / 100,
        ticks_spec(secs, 0) == secs * 10_000_000,
{
    assert(secs as int * 10_000_000 <= 899_999_999_999 * 10_000_000) by (nonlinear_arith)
        requires
            secs < 900_000_000_000,
    ;
    assert((secs + 1) as int * 10_000_000 == secs as int * 10_000_000 + 10_000_000) by (nonlinear_arith);
    assert((nanos - nanos % 100) as int / 100 == nanos as int / 100) by (nonlinear_arith)
        requires
            nanos >= 0,
    ;
}


proof fn lemma_lower_backslash(c: char)
    ensures
        (crate::text::ascii_lower(c) == '\\') == (c == '\\'),
{
    if 'A' <= c <= 'Z' {
        assert((((c as u32) + 32) as char) as u32 == (c as u32) + 32);
    }
}

proof fn lemma_lower_trim_ends(x: Seq<char>)
    ensures
        crate::text::ascii_lower_seq(trim_backslash_ends(x)) == trim_backslash_ends(crate::text::ascii_lower_seq(x)),
        crate::text::all_ascii(x) ==> crate::text::all_ascii(trim_backslash_ends(x)),
    decreases x.len(),
{
    let lx = crate::text::ascii_lower_seq(x);
    if x.len() > 0 {
        lemma_lower_backslash(x[0]);
        lemma_lower_backslash(x.last());
        assert(lx[0] == crate::text::ascii_lower(x[0]));
        assert(lx.last() == crate::text::ascii_lower(x.last()));
        if x[0] == '\\' {
            assert(lx.drop_first() =~= crate::text::ascii_lower_seq(x.drop_first()));
            lemma_lower_trim_ends(x.drop_first());
            if crate::text::all_ascii(x) {
                assert(crate::text::all_ascii(x.drop_first())) by {
                    assert forall|k: int| 0 <= k < x.drop_first().len() implies crate::text::is_ascii_char(#[trigger] x.drop_first()[k]) by {
                        assert(crate::text::is_ascii_char(x[k + 1]));
                    }
                }
            }
        } else if x.last() == '\\' {
            assert(lx.drop_last() =~= crate::text::ascii_lower_seq(x.drop_last()));
            lemma_lower_trim_ends(x.drop_last());
            if crate::text::all_ascii(x) {
                assert(crate::text::all_ascii(x.drop_last())) by {
                    assert forall|k: int| 0 <= k < x.drop_last().len() implies crate::text::is_ascii_char(#[trigger] x.drop_last()[k]) by {
                        assert(crate::text::is_ascii_char(x[k]));
                    }
                }
            }
        }
    }
}

/// A relative key does not depend on case or separator style: two ASCII
/// relative paths that are the same once `/` is read as `\` and ASCII case is
/// ignored have the same key.
pub proof fn law_relative_key_ignores_case_and_separators(a: Seq<char>, b: Seq<char>)
    requires
        crate::text::all_ascii(a),
        crate::text::all_ascii(b),
        crate::text::ascii_lower_seq(crate::text::replace_seq(a, '/', '\\')) == crate::text::ascii_lower_seq(
            crate::text::replace_seq(b, '/', '\\'),
        ),
    ensures
        relative_key_spec(a) == relative_key_spec(b),
{
    let ra = crate::text::replace_seq(a, '/', '\\');
    let rb = crate::text::replace_seq(b, '/', '\\');
    assert(crate::text::all_ascii(ra)) by {
        assert forall|i: int| 0 <= i < ra.len() implies crate::text::is_ascii_char(#[trigger] ra[i]) by {
            assert(crate::text::is_ascii_char(a[i]));
        }
    }
    assert(crate::text::all_ascii(rb)) by {
        assert forall|i: int| 0 <= i < rb.len() implies crate::text::is_ascii_char(#[trigger] rb[i]) by {
            assert(crate::text::is_ascii_char(b[i]));
        }
    }
    lemma_lower_trim_ends(ra);
    lemma_lower_trim_ends(rb);
}

} // verus!
