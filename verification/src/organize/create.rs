//! Creating an organize task: what a failed root check is reported as, the
//! task's default name, and which task a refused overlap names.

use vstd::prelude::*;
use crate::addressing::SdPath;
use crate::ids::{hex_digit, nibble, hyphens_before, parse_uuid, parsed_uuid, uuid_hyphenated, uuid_text};
use crate::organize::error::OrganizeError;
use crate::organize::path::{checked_paths_overlap, overlap_inputs_ok, paths_overlap_spec, WindowsPathIdentity};
use crate::rules::evaluator::{char_eq_ignore_case, chars_contain};
use crate::text::{drop_empty, split_ws, str_eq, ascii_lower, ascii_lower_seq, chars_of, contains_seq, copy_string, is_ws, is_whitespace, push_str, string_from_chars, words, words_chars};

verus! {

/// A request to create a task over a root.
#[derive(Clone, Debug)]
pub struct OrganizeCreateInput {
    pub root: SdPath,
    pub name: Option<String>,
}

/// Why a root cannot hold a task.
#[derive(Clone, Debug)]
pub enum OrganizeCreateRejection {
    UnsupportedPlatform,
    UnsupportedPathKind,
    RootMissing { path: String },
    RootNotDirectory { path: String },
    PermissionDenied { path: String },
}

/// Creating a task.
#[derive(Clone, Debug)]
pub struct OrganizeCreateAction {
    pub input: OrganizeCreateInput,
}

impl OrganizeCreateAction {
    /// The action for a request.
    pub fn new(input: OrganizeCreateInput) -> (r: Self)
        ensures
            r.input == input,
    {
        OrganizeCreateAction { input }
    }
}

/// The snapshot version a new task starts with.
pub fn initial_snapshot_version() -> (v: i32)
    ensures
        v == 1,
{
    1
}

/// The kind of rejection an error of the root check comes to.
pub enum RejectionKind {
    UnsupportedPlatform,
    UnsupportedPathKind,
    RootMissing,
    RootNotDirectory,
    PermissionDenied,
}

/// What a failed root check is reported as: a message that says the root is
/// not a directory, or that access was denied, or any other path problem as a
/// missing root.
/// `r` reports `error` for a root shown as `path`.
pub open spec fn rejection_matches(r: OrganizeCreateRejection, error: OrganizeError, path: String) -> bool {
    match rejection_kind(error) {
        RejectionKind::UnsupportedPlatform => r is UnsupportedPlatform,
        RejectionKind::UnsupportedPathKind => r is UnsupportedPathKind,
        RejectionKind::RootMissing => r == (OrganizeCreateRejection::RootMissing { path }),
        RejectionKind::RootNotDirectory => r == (OrganizeCreateRejection::RootNotDirectory { path }),
        RejectionKind::PermissionDenied => r == (OrganizeCreateRejection::PermissionDenied { path }),
    }
}

pub open spec fn rejection_kind(error: OrganizeError) -> RejectionKind {
    match error {
        OrganizeError::UnsupportedPlatform => RejectionKind::UnsupportedPlatform,
        OrganizeError::InvalidPhysicalPath(m) => if contains_seq(m@, "not a directory"@) {
            RejectionKind::RootNotDirectory
        } else if contains_seq(m@, "denied"@) || contains_seq(m@, "access"@) {
            RejectionKind::PermissionDenied
        } else {
            RejectionKind::RootMissing
        },
        _ => RejectionKind::UnsupportedPathKind,
    }
}

/// The rejection of a root whose check failed; `path` is the root as shown.
pub fn rejection(error: OrganizeError, path: String) -> (r: OrganizeCreateRejection)
    ensures
        rejection_matches(r, error, path),
{
    match error {
        OrganizeError::UnsupportedPlatform => OrganizeCreateRejection::UnsupportedPlatform,
        OrganizeError::InvalidPhysicalPath(message) => {
            let m = chars_of(message.as_str());
            let a = chars_of("not a directory");
            let b = chars_of("denied");
            let c = chars_of("access");
            proof {
                reveal_strlit("not a directory");
                reveal_strlit("denied");
                reveal_strlit("access");
            }
            if chars_contain(m.as_slice(), a.as_slice()) {
                OrganizeCreateRejection::RootNotDirectory { path }
            } else if chars_contain(m.as_slice(), b.as_slice()) || chars_contain(m.as_slice(), c.as_slice()) {
                OrganizeCreateRejection::PermissionDenied { path }
            } else {
                OrganizeCreateRejection::RootMissing { path }
            }
        },
        _ => OrganizeCreateRejection::UnsupportedPathKind,
    }
}

/// Whether a name has a character that is not white space.
pub open spec fn has_text(s: Seq<char>) -> bool {
    exists|i: int| 0 <= i < s.len() && !is_ws(#[trigger] s[i])
}

/// `path` with every trailing `\` removed.
pub open spec fn trim_backslashes(s: Seq<char>) -> Seq<char>
    decreases s.len(),
{
    if s.len() > 0 && s.last() == '\\' {
        trim_backslashes(s.drop_last())
    } else {
        s
    }
}

/// The name of a new task: the requested name when it is not blank; else, for
/// a volume root, its key and ` Organize`; else the root's last component, or
/// `Organize` when it has none.
pub open spec fn task_name_spec(name: Option<String>, leaf: Option<String>, is_volume_root: bool, path_key: Seq<char>) -> Seq<char> {
    match name {
        Some(n) if has_text(n@) => n@,
        _ => if is_volume_root {
            trim_backslashes(path_key) + " Organize"@
        } else {
            match leaf {
                Some(l) => l@,
                None => "Organize"@,
            }
        },
    }
}

/// The name of a new task; `leaf` is the root's last component when it has one.
pub fn task_name(name: Option<String>, leaf: Option<String>, is_volume_root: bool, path_key: &str) -> (r: String)
    ensures
        r@ == task_name_spec(name, leaf, is_volume_root, path_key@),
{
    match &name {
        Some(n) => {
            let c = chars_of(n.as_str());
            let mut i: usize = 0;
            let mut text = false;
            while i < c.len() && !text
                invariant
                    i <= c@.len(),
                    c@ == n@,
                    text ==> has_text(n@),
                    !text ==> forall|j: int| 0 <= j < i ==> is_ws(#[trigger] c@[j]),
                decreases c@.len() - i + (if text { 0int } else { 1int }),
            {
                if !is_whitespace(c[i]) {
                    text = true;
                } else {
                    i = i + 1;
                }
            }
            if text {
                return copy_string(n.as_str());
            }
        },
        None => {},
    }
    if is_volume_root {
        let mut k = chars_of(path_key);
        let ghost full = k@;
        while k.len() > 0 && k[k.len() - 1] == '\\'
            invariant
                trim_backslashes(k@) == trim_backslashes(full),
            decreases k@.len(),
        {
            k.pop();
        }
        push_str(&mut k, " Organize");
        return string_from_chars(k.as_slice());
    }
    match leaf {
        Some(l) => l,
        None => String::from_str("Organize"),
    }
}

/// The task a refused overlap names: the last word of the message read as an
/// id, else `fallback`.
pub open spec fn overlap_task_id_spec(message: Seq<char>, fallback: u128) -> u128 {
    let ws = words(message);
    if ws.len() == 0 {
        fallback
    } else {
        match parsed_uuid(ws.last()) {
            Some(id) => id,
            None => fallback,
        }
    }
}

/// The task a refused overlap names.
pub fn overlap_task_id(message: &str, fallback: u128) -> (r: u128)
    ensures
        r == overlap_task_id_spec(message@, fallback),
        forall|x: u128|
            words(message@).len() > 0 && words(message@).last() == #[trigger] uuid_hyphenated(x) ==> r == x,
{
    let c = chars_of(message);
    let ws = words_chars(c.as_slice());
    if ws.len() == 0 {
        return fallback;
    }
    let last = string_from_chars(ws[ws.len() - 1].as_slice());
    proof {
        let wv = ws@.map_values(|p: Vec<char>| p@);
        assert(wv.last() == ws@[ws@.len() - 1]@);
    }
    match parse_uuid(last.as_str()) {
        Some(id) => id,
        None => fallback,
    }
}


/// Whether `needle` occurs in `hay`, both taken in ASCII lowercase.
fn contains_ignore_ascii_case(hay: &[char], needle: &[char]) -> (b: bool)
    ensures
        b == contains_seq(ascii_lower_seq(hay@), ascii_lower_seq(needle@)),
{
    let ghost lh = ascii_lower_seq(hay@);
    let ghost ln = ascii_lower_seq(needle@);
    let hl = hay.len();
    if needle.len() > hl {
        return false;
    }
    let last = hl - needle.len();
    let mut i: usize = 0;
    while i <= last
        invariant
            last == hay@.len() - needle@.len(),
            needle@.len() <= hay@.len(),
            hl == hay@.len(),
            lh == ascii_lower_seq(hay@),
            ln == ascii_lower_seq(needle@),
            i <= last,
            forall|k: int| 0 <= k < i ==> #[trigger] lh.subrange(k, k + ln.len()) != ln,
        decreases last + 1 - i,
    {
        let mut j: usize = 0;
        let mut same = true;
        while j < needle.len()
            invariant
                j <= needle@.len(),
                i <= last,
                needle@.len() <= hay@.len(),
                hl == hay@.len(),
                last == hay@.len() - needle@.len(),
                lh == ascii_lower_seq(hay@),
                ln == ascii_lower_seq(needle@),
                same <==> forall|q: int| 0 <= q < j ==> lh[i + q] == ln[q],
            decreases needle@.len() - j,
        {
            let eq = char_eq_ignore_case(hay[i + j], needle[j]);
            assert(lh[i + j] == ascii_lower(hay@[i + j]));
            assert(ln[j as int] == ascii_lower(needle@[j as int]));
            if !eq {
                same = false;
            }
            j = j + 1;
        }
        if same {
            assert(lh.subrange(i as int, i + ln.len()) =~= ln);
            return true;
        }
        proof {
            let k = choose|q: int| 0 <= q < ln.len() && lh[i + q] != ln[q];
            assert(lh.subrange(i as int, i + ln.len())[k] != ln[k]);
        }
        if i == last {
            return false;
        }
        i = i + 1;
    }
    false
}

/// Whether a database error's text says the database was locked or busy,
/// read without regard to ASCII case.
pub open spec fn is_busy_message(message: Seq<char>) -> bool {
    contains_seq(ascii_lower_seq(message), "database is locked"@)
        || contains_seq(ascii_lower_seq(message), "database is busy"@)
}

/// What a failed insert of a task is reported as: a locked or busy database
/// means another task over an overlapping root is being created at the same
/// time, reported as an unsafe topology; any other failure stays a database
/// failure (`None`).
pub fn busy_overlap_error(message: &str) -> (r: Option<OrganizeError>)
    ensures
        is_busy_message(message@) ==> (r matches Some(OrganizeError::UnsafeTopology(m))
            && m@ == "another organize task is being created for an overlapping root"@),
        !is_busy_message(message@) ==> r is None,
{
    proof {
        reveal_strlit("database is locked");
        reveal_strlit("database is busy");
        reveal_strlit("another organize task is being created for an overlapping root");
        assert(ascii_lower_seq("database is locked"@) =~= "database is locked"@);
        assert(ascii_lower_seq("database is busy"@) =~= "database is busy"@);
    }
    let c = chars_of(message);
    let locked = chars_of("database is locked");
    let busy = chars_of("database is busy");
    if contains_ignore_ascii_case(c.as_slice(), locked.as_slice())
        || contains_ignore_ascii_case(c.as_slice(), busy.as_slice()) {
        Some(OrganizeError::UnsafeTopology(String::from_str("another organize task is being created for an overlapping root")))
    } else {
        None
    }
}

/// A stored task as the overlap check reads it.
#[derive(Clone, Debug)]
pub struct TaskRootRow {
    pub id: u128,
    pub status: String,
    pub root_path_key: String,
}

/// Whether a task in this stored status holds its root: it is scanning,
/// active or committing.
pub open spec fn holds_root(status: Seq<char>) -> bool {
    status == "scanning"@ || status == "active"@ || status == "committing"@
}

/// The first task from position `i` on that holds a root overlapping `key`.
pub open spec fn first_overlapping(tasks: Seq<TaskRootRow>, key: Seq<char>, i: int) -> Option<u128>
    decreases tasks.len() - i,
{
    if i < 0 || i >= tasks.len() {
        None
    } else if holds_root(tasks[i].status@) && paths_overlap_spec(tasks[i].root_path_key@, key) {
        Some(tasks[i].id)
    } else {
        first_overlapping(tasks, key, i + 1)
    }
}

/// Every root the search compares with `key` can be compared: each task
/// holding a root, reached before an overlap is found.
pub open spec fn overlap_search_ok(tasks: Seq<TaskRootRow>, key: Seq<char>) -> bool {
    forall|i: int|
        0 <= i < tasks.len() && holds_root(#[trigger] tasks[i].status@) && (forall|j: int|
            0 <= j < i && holds_root(tasks[j].status@) ==> !paths_overlap_spec(tasks[j].root_path_key@, key))
            ==> overlap_inputs_ok(tasks[i].root_path_key@, key)
}

/// The first task that holds a root overlapping `root_path_key`.
pub fn find_overlapping_active(tasks: &[TaskRootRow], root_path_key: &str) -> (r: Option<u128>)
    requires
        overlap_search_ok(tasks@, root_path_key@),
    ensures
        r == first_overlapping(tasks@, root_path_key@, 0),
{
    let mut i: usize = 0;
    while i < tasks.len()
        invariant
            i <= tasks@.len(),
            overlap_search_ok(tasks@, root_path_key@),
            first_overlapping(tasks@, root_path_key@, 0) == first_overlapping(tasks@, root_path_key@, i as int),
            forall|j: int|
                0 <= j < i && holds_root(#[trigger] tasks@[j].status@) ==> !paths_overlap_spec(
                    tasks@[j].root_path_key@,
                    root_path_key@,
                ),
        decreases tasks@.len() - i,
    {
        let t = &tasks[i];
        let st = t.status.as_str();
        let held = str_eq(st, "scanning") || str_eq(st, "active") || str_eq(st, "committing");
        if held {
            assert(holds_root(tasks@[i as int].status@));
            match checked_paths_overlap(t.root_path_key.as_str(), root_path_key) {
                Some(true) => {
                    return Some(t.id);
                },
                Some(false) => {},
                None => {
                    assert(false);
                },
            }
        }
        i = i + 1;
    }
    None
}

/// The message a refused task creation carries: the overlapping task's id
/// comes last.
pub open spec fn refusal_text(existing: u128) -> Seq<char> {
    "organize task root overlaps active task "@ + uuid_hyphenated(existing)
}

/// The error a task creation is refused with when `existing` holds an
/// overlapping root.
pub fn overlap_refusal(existing: u128) -> (e: OrganizeError)
    ensures
        e matches OrganizeError::UnsafeTopology(m) && m@ == refusal_text(existing),
{
    let mut v = chars_of("organize task root overlaps active task ");
    let id = uuid_text(existing);
    let idc = chars_of(id.as_str());
    let ghost v0 = v@;
    let mut k: usize = 0;
    while k < idc.len()
        invariant
            k <= idc@.len(),
            v@ == v0 + idc@.take(k as int),
        decreases idc@.len() - k,
    {
        v.push(idc[k]);
        k = k + 1;
        assert(v@ =~= v0 + idc@.take(k as int));
    }
    assert(idc@.take(idc@.len() as int) =~= idc@);
    OrganizeError::UnsafeTopology(string_from_chars(v.as_slice()))
}

proof fn lemma_hex_not_ws(d: nat)
    ensures
        !is_ws(hex_digit(d)),
{
}

/// No character of a hyphenated id is white space.
proof fn lemma_uuid_no_ws(id: u128)
    ensures
        forall|i: int| 0 <= i < 36 ==> !is_ws(#[trigger] uuid_hyphenated(id)[i]),
{
    assert forall|i: int| 0 <= i < 36 implies !is_ws(#[trigger] uuid_hyphenated(id)[i]) by {
        if !(i == 8 || i == 13 || i == 18 || i == 23) {
            lemma_hex_not_ws(nibble(id, (i - hyphens_before(i)) as nat));
        }
    }
}

/// Appending characters that are not white space to a text that ends in
/// white space grows a last piece of exactly those characters.
proof fn lemma_split_ws_tail(p: Seq<char>, u: Seq<char>, k: int)
    requires
        p.len() > 0,
        is_ws(p.last()),
        0 <= k <= u.len(),
        forall|i: int| 0 <= i < u.len() ==> !is_ws(#[trigger] u[i]),
    ensures
        split_ws(p + u.take(k)).len() > 0,
        split_ws(p + u.take(k)).last() == u.take(k),
    decreases k,
{
    if k == 0 {
        assert(p + u.take(0) =~= p);
        assert(p.drop_last().len() < p.len());
        let prev = split_ws(p.drop_last());
        assert(split_ws(p) == prev.push(Seq::<char>::empty()));
        assert(u.take(0) =~= Seq::<char>::empty());
    } else {
        lemma_split_ws_tail(p, u, k - 1);
        let s = p + u.take(k);
        assert(s.drop_last() =~= p + u.take(k - 1));
        assert(s.last() == u[k - 1]);
        assert(u.take(k - 1).push(u[k - 1]) =~= u.take(k));
    }
}

/// A refused creation names the overlapping task: the last word of the
/// refusal is that task's id in hyphenated form, which is what
/// `overlap_task_id` reads back.
pub proof fn law_overlap_refusal_names_task(existing: u128)
    ensures
        words(refusal_text(existing)).len() > 0,
        words(refusal_text(existing)).last() == uuid_hyphenated(existing),
{
    let p = "organize task root overlaps active task "@;
    let u = uuid_hyphenated(existing);
    reveal_strlit("organize task root overlaps active task ");
    lemma_uuid_no_ws(existing);
    assert(is_ws(p.last()));
    lemma_split_ws_tail(p, u, 36);
    assert(u.take(36) =~= u);
    let parts = split_ws(refusal_text(existing));
    assert(parts.last().len() > 0);
    assert(drop_empty(parts) == drop_empty(parts.drop_last()).push(parts.last()));
}

/// A request to resolve whether a root can hold a task.
#[derive(Clone, Debug)]
pub struct OrganizeResolveRootInput {
    pub root: SdPath,
}

/// The query that resolves a root.
#[derive(Clone, Debug)]
pub struct OrganizeResolveRootQuery {
    pub input: OrganizeResolveRootInput,
}

/// Whether a root can hold a new task.
#[derive(Clone, Debug)]
pub enum OrganizeRootAvailability {
    Creatable,
    OpenExisting { task_id: u128 },
    Unavailable { reason: OrganizeCreateRejection },
}

/// Whether a root can hold a new task, from what checking it found in turn:
/// its canonical identity or why it has none (the root shown as
/// `root_text`), then whether that path is a directory, then the active
/// task whose root overlaps its key. A later finding is read only when the
/// earlier ones let the check go on.
pub fn root_availability(
    identity: Result<WindowsPathIdentity, OrganizeError>,
    root_text: String,
    is_dir: bool,
    overlapping: Option<u128>,
) -> (r: OrganizeRootAvailability)
    ensures
        match identity {
            Err(e) => r matches OrganizeRootAvailability::Unavailable { reason } && rejection_matches(reason, e, root_text),
            Ok(id) => if !is_dir {
                r matches OrganizeRootAvailability::Unavailable { reason: OrganizeCreateRejection::RootNotDirectory { path } }
                    && path@ == id.display_path@
            } else {
                match overlapping {
                    Some(task_id) => r == (OrganizeRootAvailability::OpenExisting { task_id }),
                    None => r is Creatable,
                }
            },
        },
{
    match identity {
        Err(e) => OrganizeRootAvailability::Unavailable { reason: rejection(e, root_text) },
        Ok(id) => {
            if !is_dir {
                return OrganizeRootAvailability::Unavailable {
                    reason: OrganizeCreateRejection::RootNotDirectory { path: id.display_path },
                };
            }
            match overlapping {
                Some(task_id) => OrganizeRootAvailability::OpenExisting { task_id },
                None => OrganizeRootAvailability::Creatable,
            }
        },
    }
}


proof fn lemma_first_overlapping_from(tasks: Seq<TaskRootRow>, key: Seq<char>, k: int, i: int)
    requires
        0 <= k <= i < tasks.len(),
        holds_root(tasks[i].status@),
        paths_overlap_spec(tasks[i].root_path_key@, key),
    ensures
        first_overlapping(tasks, key, k) is Some,
    decreases i - k,
{
    if k < i {
        lemma_first_overlapping_from(tasks, key, k + 1, i);
    }
}

proof fn lemma_first_overlapping_found(tasks: Seq<TaskRootRow>, key: Seq<char>, k: int)
    requires
        0 <= k,
        first_overlapping(tasks, key, k) is Some,
    ensures
        exists|i: int|
            k <= i < tasks.len() && (#[trigger] tasks[i]).id == first_overlapping(tasks, key, k)->Some_0
                && holds_root(tasks[i].status@) && paths_overlap_spec(tasks[i].root_path_key@, key),
    decreases tasks.len() - k,
{
    if k < tasks.len() && !(holds_root(tasks[k].status@) && paths_overlap_spec(tasks[k].root_path_key@, key)) {
        lemma_first_overlapping_found(tasks, key, k + 1);
    }
}

/// A root held by another task is always found: whenever some task that is
/// scanning, active or committing has a root overlapping `key`, the search
/// names a task; and the task it names is one of those, scanning, active or
/// committing, whose root overlaps `key`.
pub proof fn law_held_overlapping_roots_are_found(tasks: Seq<TaskRootRow>, key: Seq<char>, i: int)
    ensures
        0 <= i < tasks.len() && (tasks[i].status@ == "scanning"@ || tasks[i].status@ == "active"@
            || tasks[i].status@ == "committing"@) && paths_overlap_spec(tasks[i].root_path_key@, key)
            ==> first_overlapping(tasks, key, 0) is Some,
        first_overlapping(tasks, key, 0) matches Some(id) ==> exists|j: int|
            0 <= j < tasks.len() && (#[trigger] tasks[j]).id == id && (tasks[j].status@ == "scanning"@
                || tasks[j].status@ == "active"@ || tasks[j].status@ == "committing"@) && paths_overlap_spec(
                tasks[j].root_path_key@,
                key,
            ),
{
    if 0 <= i < tasks.len() && (tasks[i].status@ == "scanning"@ || tasks[i].status@ == "active"@
        || tasks[i].status@ == "committing"@) && paths_overlap_spec(tasks[i].root_path_key@, key) {
        lemma_first_overlapping_from(tasks, key, 0, i);
    }
    if first_overlapping(tasks, key, 0) is Some {
        lemma_first_overlapping_found(tasks, key, 0);
    }
}

} // verus!
