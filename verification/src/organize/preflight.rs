//! The preflight of a commit: before any file is touched, each physical root
//! is checked against what was reviewed, and a changed root fails with the
//! reason it changed.

use vstd::prelude::*;
use vstd::string::StringExecFns;
use crate::ids::{uuid_hyphenated, uuid_text};
use crate::organize::model::OrganizeItemKind;
use crate::organize::plan::OrganizeTaskItemRecord;
use crate::text::{chars_of, copy_string, join_seq, push_str, skip_chars, starts_with_chars, starts_with_seq, str_eq, string_from_chars};

verus! {

/// The outcome of one root: whether it may be committed, and why not.
#[derive(Clone, Debug)]
pub struct PreflightRootResult {
    pub item_id: u128,
    pub ok: bool,
    pub reason: Option<String>,
}

/// The outcomes of every root of a commit.
#[derive(Clone, Debug)]
pub struct PreflightReport {
    pub roots: Vec<PreflightRootResult>,
}

/// The lines of the roots that failed: each id and its reason.
pub open spec fn reason_lines(roots: Seq<PreflightRootResult>) -> Seq<Seq<char>>
    decreases roots.len(),
{
    if roots.len() == 0 {
        Seq::empty()
    } else {
        let rest = reason_lines(roots.drop_last());
        match roots.last().reason {
            Some(r) => rest.push(uuid_hyphenated(roots.last().item_id) + ": "@ + r@),
            None => rest,
        }
    }
}

impl PreflightReport {
    /// Whether every root passed.
    pub fn is_ok(&self) -> (r: bool)
        ensures
            r == forall|i: int| 0 <= i < self.roots@.len() ==> (#[trigger] self.roots@[i]).ok,
    {
        let mut i: usize = 0;
        while i < self.roots.len()
            invariant
                i <= self.roots@.len(),
                forall|k: int| 0 <= k < i ==> (#[trigger] self.roots@[k]).ok,
            decreases self.roots@.len() - i,
        {
            if !self.roots[i].ok {
                return false;
            }
            i = i + 1;
        }
        true
    }

    /// The failed roots, each as its id and reason, joined with `; `.
    pub fn failure_message(&self) -> (s: String)
        ensures
            s@ == join_seq(reason_lines(self.roots@), "; "@),
    {
        proof {
            reveal_strlit(": ");
            reveal_strlit("; ");
        }
        let mut out: Vec<char> = Vec::new();
        let mut any: bool = false;
        let mut i: usize = 0;
        while i < self.roots.len()
            invariant
                i <= self.roots@.len(),
                any == (reason_lines(self.roots@.take(i as int)).len() > 0),
                out@ == join_seq(reason_lines(self.roots@.take(i as int)), "; "@),
            decreases self.roots@.len() - i,
        {
            let ghost before = reason_lines(self.roots@.take(i as int));
            assert(self.roots@.take(i + 1).drop_last() =~= self.roots@.take(i as int));
            match &self.roots[i].reason {
                Some(r) => {
                    let ghost line = uuid_hyphenated(self.roots@[i as int].item_id) + ": "@ + r@;
                    if any {
                        push_str(&mut out, "; ");
                    }
                    let id = uuid_text(self.roots[i].item_id);
                    push_str(&mut out, id.as_str());
                    push_str(&mut out, ": ");
                    push_str(&mut out, r.as_str());
                    proof {
                        let after = before.push(line);
                        assert(after.drop_last() =~= before);
                        if !any {
                            assert(out@ =~= line);
                        } else {
                            assert(out@ =~= join_seq(before, "; "@) + "; "@ + line);
                        }
                    }
                    any = true;
                },
                None => {},
            }
            i = i + 1;
        }
        assert(self.roots@.take(self.roots@.len() as int) =~= self.roots@);
        string_from_chars(out.as_slice())
    }
}

/// The kind a stored kind names; anything unknown reads as a directory.
pub open spec fn parse_kind_spec(kind: Seq<char>) -> OrganizeItemKind {
    if kind == "file"@ {
        OrganizeItemKind::File
    } else if kind == "reparse_point"@ {
        OrganizeItemKind::ReparsePoint
    } else if kind == "unreadable"@ {
        OrganizeItemKind::Unreadable
    } else {
        OrganizeItemKind::Directory
    }
}

/// The kind a stored kind names.
pub fn parse_kind(kind: &str) -> (k: OrganizeItemKind)
    ensures
        k == parse_kind_spec(kind@),
{
    if str_eq(kind, "file") {
        OrganizeItemKind::File
    } else if str_eq(kind, "reparse_point") {
        OrganizeItemKind::ReparsePoint
    } else if str_eq(kind, "unreadable") {
        OrganizeItemKind::Unreadable
    } else {
        OrganizeItemKind::Directory
    }
}

/// A key relative to a root key: what follows the root and a `\`, or the
/// key itself when it is not under the root (or the root is empty).
pub open spec fn relative_to_root_spec(root: Seq<char>, value: Seq<char>) -> Seq<char> {
    if root.len() > 0 && starts_with_seq(value, root + seq!['\\']) {
        value.skip(root.len() + 1int)
    } else {
        value
    }
}

/// A key relative to a root key.
pub fn relative_to_root(root: &str, value: &str) -> (r: String)
    ensures
        r@ == relative_to_root_spec(root@, value@),
{
    let rc = chars_of(root);
    if rc.len() == 0 {
        return copy_string(value);
    }
    let vc = chars_of(value);
    let mut prefix = chars_of(root);
    prefix.push('\\');
    assert(prefix@ =~= root@ + seq!['\\']);
    if starts_with_chars(vc.as_slice(), prefix.as_slice()) {
        let rest = skip_chars(vc.as_slice(), prefix.len());
        string_from_chars(rest.as_slice())
    } else {
        copy_string(value)
    }
}

/// What the first look at a root decides.
#[derive(Clone, Debug)]
pub enum PreflightStep {
    /// The root changed; the reason says how.
    Failed(String),
    /// The root is a file that did not change.
    Passed,
    /// The root is a directory: its subtree is scanned and compared.
    ScanSubtree,
}

/// The first look at a root: its kind must be the reviewed one, and a file
/// must keep its signature; a directory goes on to its subtree.
pub fn entry_check(
    reviewed_kind: OrganizeItemKind,
    current_kind: OrganizeItemKind,
    current_is_dir: bool,
    signature_matches: bool,
) -> (r: PreflightStep)
    ensures
        current_kind != reviewed_kind ==> (r matches PreflightStep::Failed(m) && m@ == "source kind changed"@),
        current_kind == reviewed_kind && !current_is_dir && !signature_matches ==> (r matches PreflightStep::Failed(
            m,
        ) && m@ == "source metadata changed"@),
        current_kind == reviewed_kind && !current_is_dir && signature_matches ==> r is Passed,
        current_kind == reviewed_kind && current_is_dir ==> r is ScanSubtree,
{
    proof {
        reveal_strlit("source kind changed");
        reveal_strlit("source metadata changed");
    }
    if current_kind != reviewed_kind {
        return PreflightStep::Failed(String::from_str("source kind changed"));
    }
    if !current_is_dir && !signature_matches {
        return PreflightStep::Failed(String::from_str("source metadata changed"));
    }
    if !current_is_dir {
        return PreflightStep::Passed;
    }
    PreflightStep::ScanSubtree
}

/// Whether stored row `item` lies in the reviewed subtree of `root`: it is
/// included and its interval lies inside the root's (a missing bound never
/// excludes it).
pub open spec fn under_reviewed_root(item: OrganizeTaskItemRecord, root: OrganizeTaskItemRecord) -> bool {
    let s: int = match item.tree_start { Some(v) => v as int, None => i64::MAX as int };
    let rs: int = match root.tree_start { Some(v) => v as int, None => i64::MIN as int };
    let e: int = match item.tree_end { Some(v) => v as int, None => i64::MIN as int };
    let re: int = match root.tree_end { Some(v) => v as int, None => i64::MAX as int };
    &&& item.membership_state@ == "included"@
    &&& s >= rs
    &&& e <= re
}

/// A row of the reviewed subtree and its key relative to the root.
#[derive(Clone, Debug)]
pub struct ReviewedRow {
    pub row: usize,
    pub relative_key: String,
}

/// The rows among the first `k` that lie in the reviewed subtree of `root`,
/// with their relative keys.
pub open spec fn reviewed_rows(items: Seq<OrganizeTaskItemRecord>, root: OrganizeTaskItemRecord, k: int) -> Seq<(int, Seq<char>)>
    decreases k,
{
    if k <= 0 {
        Seq::empty()
    } else {
        let rest = reviewed_rows(items, root, k - 1);
        if under_reviewed_root(items[k - 1], root) {
            rest.push((k - 1, relative_to_root_spec(root.relative_path_key@, items[k - 1].relative_path_key@)))
        } else {
            rest
        }
    }
}

/// The rows of the reviewed subtree of `root`, in row order.
pub fn reviewed_subtree(items: &Vec<OrganizeTaskItemRecord>, root: &OrganizeTaskItemRecord) -> (r: Vec<ReviewedRow>)
    ensures
        r@.map_values(|x: ReviewedRow| (x.row as int, x.relative_key@)) == reviewed_rows(items@, *root, items@.len() as int),
{
    proof {
        reveal_strlit("included");
    }
    let mut out: Vec<ReviewedRow> = Vec::new();
    let mut i: usize = 0;
    while i < items.len()
        invariant
            i <= items@.len(),
            out@.map_values(|x: ReviewedRow| (x.row as int, x.relative_key@)) == reviewed_rows(items@, *root, i as int),
        decreases items@.len() - i,
    {
        let item = &items[i];
        let s: i64 = match item.tree_start { Some(v) => v, None => i64::MAX };
        let rs: i64 = match root.tree_start { Some(v) => v, None => i64::MIN };
        let e: i64 = match item.tree_end { Some(v) => v, None => i64::MIN };
        let re: i64 = match root.tree_end { Some(v) => v, None => i64::MAX };
        let ghost before = out@;
        if str_eq(item.membership_state.as_str(), "included") && s >= rs && e <= re {
            let key = relative_to_root(root.relative_path_key.as_str(), item.relative_path_key.as_str());
            out.push(ReviewedRow { row: i, relative_key: key });
            assert(out@.map_values(|x: ReviewedRow| (x.row as int, x.relative_key@)) =~= before.map_values(
                |x: ReviewedRow| (x.row as int, x.relative_key@),
            ).push((i as int, relative_to_root_spec(root.relative_path_key@, items@[i as int].relative_path_key@))));
        }
        i = i + 1;
    }
    out
}

/// The value the last pair with `key` among the first `k` holds, as a map
/// built from the pairs in order keeps it.
pub open spec fn last_value(pairs: Seq<(Seq<char>, Seq<char>)>, key: Seq<char>, k: int) -> Option<Seq<char>>
    decreases k,
{
    if k <= 0 {
        None
    } else if pairs[k - 1].0 == key {
        Some(pairs[k - 1].1)
    } else {
        last_value(pairs, key, k - 1)
    }
}

/// The pairs of keys and signatures as character sequences.
pub open spec fn pair_views(pairs: Seq<(String, String)>) -> Seq<(Seq<char>, Seq<char>)> {
    pairs.map_values(|p: (String, String)| (p.0@, p.1@))
}

/// The first reviewed entry, from position `i` on, that the current subtree
/// lacks or holds with another signature, and which of the two.
pub open spec fn first_descendant_failure(
    expected: Seq<(Seq<char>, Seq<char>)>,
    actual: Seq<(Seq<char>, Seq<char>)>,
    i: int,
) -> Option<Seq<char>>
    decreases expected.len() - i,
{
    if i < 0 || i >= expected.len() {
        None
    } else {
        let key = expected[i].0;
        match last_value(actual, key, actual.len() as int) {
            None => Some("a descendant is missing"@),
            Some(got) => if last_value(expected, key, expected.len() as int) == Some(got) {
                first_descendant_failure(expected, actual, i + 1)
            } else {
                Some("a descendant changed"@)
            },
        }
    }
}

/// Some entry of the current subtree was not reviewed.
pub open spec fn has_unreviewed(expected: Seq<(Seq<char>, Seq<char>)>, actual: Seq<(Seq<char>, Seq<char>)>) -> bool {
    exists|j: int| 0 <= j < actual.len() && #[trigger] last_value(expected, actual[j].0, expected.len() as int) is None
}

/// The verdict on a scanned subtree: the first reviewed entry (in the order
/// given) that is missing or changed fails it; else unreviewed entries fail
/// it unless drift is allowed.
pub open spec fn subtree_verdict_spec(
    expected: Seq<(Seq<char>, Seq<char>)>,
    actual: Seq<(Seq<char>, Seq<char>)>,
    allow_drift: bool,
) -> Option<Seq<char>> {
    match first_descendant_failure(expected, actual, 0) {
        Some(r) => Some(r),
        None => if !allow_drift && has_unreviewed(expected, actual) {
            Some("current subtree contains unreviewed descendants"@)
        } else {
            None
        },
    }
}

/// The position of the last pair with `key`.
fn last_index(pairs: &Vec<(String, String)>, key: &str) -> (r: Option<usize>)
    ensures
        match r {
            None => last_value(pair_views(pairs@), key@, pairs@.len() as int) is None,
            Some(j) => j < pairs@.len() && last_value(pair_views(pairs@), key@, pairs@.len() as int) == Some(
                pairs@[j as int].1@,
            ),
        },
{
    let ghost v = pair_views(pairs@);
    let mut k: usize = pairs.len();
    while k > 0
        invariant
            k <= pairs@.len(),
            v == pair_views(pairs@),
            last_value(v, key@, pairs@.len() as int) == last_value(v, key@, k as int),
        decreases k,
    {
        if str_eq(pairs[k - 1].0.as_str(), key) {
            return Some(k - 1);
        }
        k = k - 1;
    }
    None
}

/// The verdict on a scanned subtree, from the reviewed entries and the
/// current ones, each a relative key and a signature.
pub fn subtree_verdict(
    expected: &Vec<(String, String)>,
    actual: &Vec<(String, String)>,
    allow_drift: bool,
) -> (r: Option<String>)
    ensures
        match r {
            None => subtree_verdict_spec(pair_views(expected@), pair_views(actual@), allow_drift) is None,
            Some(m) => subtree_verdict_spec(pair_views(expected@), pair_views(actual@), allow_drift) == Some(m@),
        },
{
    proof {
        reveal_strlit("a descendant is missing");
        reveal_strlit("a descendant changed");
        reveal_strlit("current subtree contains unreviewed descendants");
    }
    let ghost ev = pair_views(expected@);
    let ghost av = pair_views(actual@);
    let mut i: usize = 0;
    while i < expected.len()
        invariant
            i <= expected@.len(),
            ev == pair_views(expected@),
            av == pair_views(actual@),
            first_descendant_failure(ev, av, 0) == first_descendant_failure(ev, av, i as int),
        decreases expected@.len() - i,
    {
        let key = expected[i].0.as_str();
        match last_index(actual, key) {
            None => {
                return Some(String::from_str("a descendant is missing"));
            },
            Some(j) => {
                let want = last_index(expected, key);
                let same = match want {
                    Some(w) => str_eq(expected[w].1.as_str(), actual[j].1.as_str()),
                    None => false,
                };
                if !same {
                    return Some(String::from_str("a descendant changed"));
                }
            },
        }
        i = i + 1;
    }
    if allow_drift {
        return None;
    }
    let mut j: usize = 0;
    while j < actual.len()
        invariant
            j <= actual@.len(),
            ev == pair_views(expected@),
            av == pair_views(actual@),
            first_descendant_failure(ev, av, 0) is None,
            !allow_drift,
            forall|m: int| 0 <= m < j ==> !(#[trigger] last_value(ev, av[m].0, ev.len() as int) is None),
        decreases actual@.len() - j,
    {
        if last_index(expected, actual[j].0.as_str()).is_none() {
            assert(last_value(ev, av[j as int].0, ev.len() as int) is None);
            return Some(String::from_str("current subtree contains unreviewed descendants"));
        }
        j = j + 1;
    }
    assert(!has_unreviewed(ev, av));
    None
}


/// Allowing drift only forgives unreviewed descendants: with it a subtree
/// passes exactly when no reviewed entry is missing or changed, and the two
/// verdicts differ only where the one without it is that failure.
pub proof fn law_drift_only_forgives_unreviewed(
    expected: Seq<(Seq<char>, Seq<char>)>,
    actual: Seq<(Seq<char>, Seq<char>)>,
)
    ensures
        subtree_verdict_spec(expected, actual, true) is None <==> first_descendant_failure(expected, actual, 0) is None,
        subtree_verdict_spec(expected, actual, false) != subtree_verdict_spec(expected, actual, true) ==> {
            &&& subtree_verdict_spec(expected, actual, false) == Some("current subtree contains unreviewed descendants"@)
            &&& subtree_verdict_spec(expected, actual, true) is None
        },
{
}

} // verus!
