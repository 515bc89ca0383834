//! Windows path identities: canonical keys, ancestry and move validation.
//!
//! Keys are built on characters: a key is lowercase, uses `\` as its only
//! separator, and starts either with a drive (`c:`) or with the UNC lead `\\`.

use vstd::prelude::*;
use vstd::string::StringExecFns;
use crate::organize::error::OrganizeError;
use crate::ids::{uuid_hyphenated, uuid_text};
use crate::text::push_str;
use crate::text::{
    append_chars, chars_eq, chars_of, copy_chars, drop_empty, is_ascii_char, join_chars, join_seq, lowercase,
    lowercase_chars, nonempty_pieces_chars, replace_chars, replace_seq, skip_chars, split_chars,
    split_seq, starts_with_chars, starts_with_seq, string_from_chars, take_chars, trim_end_chars,
    trim_end_seq, lemma_trim_end, all_ascii, ascii_lower_seq, lemma_split_first,
    lemma_split_seq_nonempty, lemma_drop_empty_first, ascii_lower,
};

verus! {

/// The UNC lead `\\`.
pub open spec fn unc_lead() -> Seq<char> {
    seq!['\\', '\\']
}

/// The extended-length UNC prefix `\\?\UNC\`.
pub open spec fn extended_unc_prefix() -> Seq<char> {
    seq!['\\', '\\', '?', '\\', 'U', 'N', 'C', '\\']
}

/// The extended-length prefix `\\?\`.
pub open spec fn extended_prefix() -> Seq<char> {
    seq!['\\', '\\', '?', '\\']
}

/// A path with its Windows extended-length prefix removed: `\\?\UNC\x` becomes
/// `\\x` and `\\?\x` becomes `x`.
pub open spec fn strip_extended_spec(s: Seq<char>) -> Seq<char> {
    if starts_with_seq(s, extended_unc_prefix()) {
        unc_lead() + s.skip(8)
    } else if starts_with_seq(s, extended_prefix()) {
        s.skip(4)
    } else {
        s
    }
}

pub open spec fn is_ascii_alpha(c: char) -> bool {
    ('a' <= c && c <= 'z') || ('A' <= c && c <= 'Z')
}

/// Whether a separator-normalized path is a UNC path.
pub open spec fn is_unc_seq(raw: Seq<char>) -> bool {
    starts_with_seq(raw, unc_lead())
}

/// Whether a separator-normalized path starts with a drive and its root separator.
pub open spec fn is_drive_seq(raw: Seq<char>) -> bool {
    raw.len() >= 3 && is_ascii_alpha(raw[0]) && raw[1] == ':' && raw[2] == '\\'
}

/// How many leading components make up the volume root.
pub open spec fn root_count(unc: bool) -> nat {
    if unc {
        2
    } else {
        1
    }
}

pub open spec fn dot_piece() -> Seq<char> {
    seq!['.']
}

pub open spec fn dotdot_piece() -> Seq<char> {
    seq!['.', '.']
}

/// Fold the pieces of a path into its lowercase components, left to right:
/// empty pieces and `.` are skipped, `..` removes the last component and fails
/// when that would remove part of the volume root.
pub open spec fn fold_components(pieces: Seq<Seq<char>>, root: nat) -> Option<Seq<Seq<char>>>
    decreases pieces.len(),
{
    if pieces.len() == 0 {
        Some(Seq::<Seq<char>>::empty())
    } else {
        match fold_components(pieces.drop_last(), root) {
            None => None,
            Some(comps) => {
                let p = pieces.last();
                if p.len() == 0 || p == dot_piece() {
                    Some(comps)
                } else if p == dotdot_piece() {
                    if comps.len() <= root {
                        None
                    } else {
                        Some(comps.drop_last())
                    }
                } else {
                    Some(comps.push(lowercase(p)))
                }
            }
        }
    }
}

pub proof fn lemma_fold_none_extends(pieces: Seq<Seq<char>>, i: int, root: nat)
    requires
        0 <= i <= pieces.len(),
        fold_components(pieces.take(i), root) is None,
    ensures
        fold_components(pieces, root) is None,
    decreases pieces.len() - i,
{
    if i < pieces.len() {
        assert(pieces.take(i + 1).drop_last() =~= pieces.take(i));
        lemma_fold_none_extends(pieces, i + 1, root);
    } else {
        assert(pieces.take(i) =~= pieces);
    }
}

pub open spec fn msg_not_absolute() -> Seq<char> {
    "path must be an absolute drive or UNC path"@
}

pub open spec fn msg_escapes_root() -> Seq<char> {
    "path escapes its volume root"@
}

pub open spec fn msg_incomplete_root() -> Seq<char> {
    "path does not contain a complete volume root"@
}

/// Whether a lowercase, separator-normalized key names a volume root: `x:`,
/// `x:\` (with an ASCII drive character), or a UNC `\\server\share`.
pub open spec fn volume_root_chars(k: Seq<char>) -> bool {
    ||| (k.len() == 2 && is_ascii_char(k[0]) && k[1] == ':')
    ||| (k.len() == 3 && is_ascii_char(k[0]) && k[1] == ':' && k[2] == '\\')
    ||| (starts_with_seq(k, unc_lead()) && drop_empty(split_seq(k, '\\')).len() == 2)
}

/// Whether a key names a volume root once its separators are normalized and it
/// is lowercased.
pub open spec fn is_volume_root_key_spec(key: Seq<char>) -> bool {
    volume_root_chars(lowercase(replace_seq(key, '/', '\\')))
}

/// The canonical key of a Windows path, or the message of why it has none.
pub open spec fn windows_path_key_spec(path: Seq<char>, preserve_volume_root_separator: bool) -> Result<
    Seq<char>,
    Seq<char>,
> {
    let raw = replace_seq(strip_extended_spec(path), '/', '\\');
    let unc = is_unc_seq(raw);
    if !unc && !is_drive_seq(raw) {
        Err(msg_not_absolute())
    } else {
        let root = root_count(unc);
        match fold_components(split_seq(raw, '\\'), root) {
            None => Err(msg_escapes_root()),
            Some(comps) => {
                if comps.len() < root {
                    Err(msg_incomplete_root())
                } else {
                    let root_key = if unc {
                        unc_lead() + join_seq(comps, seq!['\\'])
                    } else {
                        lowercase(raw.take(2)) + seq!['\\'] + join_seq(comps.skip(1), seq!['\\'])
                    };
                    let trimmed = trim_end_seq(root_key, '\\');
                    if is_volume_root_key_spec(root_key) && preserve_volume_root_separator {
                        Ok(trimmed.push('\\'))
                    } else {
                        Ok(trimmed)
                    }
                }
            }
        }
    }
}

/// Whether an exec result carries the key, or the invalid-path message, of a spec result.
pub open spec fn key_result_matches(
    r: Result<String, OrganizeError>,
    s: Result<Seq<char>, Seq<char>>,
) -> bool {
    match r {
        Ok(k) => s == Ok::<Seq<char>, Seq<char>>(k@),
        Err(OrganizeError::InvalidPhysicalPath(m)) => s == Err::<Seq<char>, Seq<char>>(m@),
        Err(_) => false,
    }
}

fn strip_extended_prefix(v: &[char]) -> (r: Vec<char>)
    ensures
        r@ == strip_extended_spec(v@),
{
    let unc_prefix: Vec<char> = vec!['\\', '\\', '?', '\\', 'U', 'N', 'C', '\\'];
    let prefix: Vec<char> = vec!['\\', '\\', '?', '\\'];
    assert(unc_prefix@ =~= extended_unc_prefix());
    assert(prefix@ =~= extended_prefix());
    if starts_with_chars(v, unc_prefix.as_slice()) {
        let rest = skip_chars(v, 8);
        let mut r: Vec<char> = vec!['\\', '\\'];
        let mut i: usize = 0;
        while i < rest.len()
            invariant
                i <= rest.len(),
                r@ == unc_lead() + rest@.take(i as int),
            decreases rest.len() - i,
        {
            r.push(rest[i]);
            i = i + 1;
            assert(r@ =~= unc_lead() + rest@.take(i as int));
        }
        assert(rest@.take(rest.len() as int) =~= rest@);
        r
    } else if starts_with_chars(v, prefix.as_slice()) {
        skip_chars(v, 4)
    } else {
        let mut r: Vec<char> = Vec::new();
        let mut i: usize = 0;
        while i < v.len()
            invariant
                i <= v.len(),
                r@ == v@.take(i as int),
            decreases v.len() - i,
        {
            r.push(v[i]);
            i = i + 1;
            assert(r@ =~= v@.take(i as int));
        }
        assert(v@.take(v.len() as int) =~= v@);
        r
    }
}

fn volume_root_chars_exec(k: &[char]) -> (b: bool)
    ensures
        b == volume_root_chars(k@),
{
    if k.len() == 2 && (k[0] as u32) < 128 && k[1] == ':' {
        return true;
    }
    if k.len() == 3 && (k[0] as u32) < 128 && k[1] == ':' && k[2] == '\\' {
        return true;
    }
    let lead: Vec<char> = vec!['\\', '\\'];
    assert(lead@ =~= unc_lead());
    if starts_with_chars(k, lead.as_slice()) {
        let comps = nonempty_pieces_chars(k, '\\');
        assert(comps@.len() == comps@.map_values(|p: Vec<char>| p@).len());
        comps.len() == 2
    } else {
        false
    }
}

/// Whether a key names a volume root (`c:`, `c:\` or `\\server\share`).
pub fn is_volume_root_key(key: &[char]) -> (b: bool)
    ensures
        b == is_volume_root_key_spec(key@),
{
    let replaced = replace_chars(key, '/', '\\');
    let lowered = lowercase_chars(replaced.as_slice());
    volume_root_chars_exec(lowered.as_slice())
}

/// The canonical key of a Windows drive or UNC path: the extended-length prefix
/// is removed, `/` becomes `\`, `.` and empty components are dropped, `..` is
/// resolved, components are lowercased and trailing separators are trimmed. A
/// volume root keeps its trailing `\` when `preserve_volume_root_separator` is set.
pub fn windows_path_key(path: &str, preserve_volume_root_separator: bool) -> (r: Result<
    String,
    OrganizeError,
>)
    ensures
        key_result_matches(r, windows_path_key_spec(path@, preserve_volume_root_separator)),
        !preserve_volume_root_separator && r is Ok ==> rooted(r->Ok_0@),
{
    let chars = chars_of(path);
    let stripped = strip_extended_prefix(chars.as_slice());
    let raw = replace_chars(stripped.as_slice(), '/', '\\');
    let lead: Vec<char> = vec!['\\', '\\'];
    assert(lead@ =~= unc_lead());
    let is_unc = starts_with_chars(raw.as_slice(), lead.as_slice());
    let is_drive = raw.len() >= 3 && ((raw[0] >= 'a' && raw[0] <= 'z') || (raw[0] >= 'A' && raw[0]
        <= 'Z')) && raw[1] == ':' && raw[2] == '\\';
    if !is_unc && !is_drive {
        return Err(
            OrganizeError::InvalidPhysicalPath(
                String::from_str("path must be an absolute drive or UNC path"),
            ),
        );
    }
    let root: usize = if is_unc {
        2
    } else {
        1
    };
    let pieces = split_chars(raw.as_slice(), '\\');
    let ghost pv = pieces@.map_values(|p: Vec<char>| p@);
    let mut components: Vec<Vec<char>> = Vec::new();
    let mut i: usize = 0;
    while i < pieces.len()
        invariant
            i <= pieces.len(),
            pv == pieces@.map_values(|p: Vec<char>| p@),
            pv == split_seq(raw@, '\\'),
            root == root_count(is_unc),
            raw@ == replace_seq(strip_extended_spec(path@), '/', '\\'),
            is_unc == is_unc_seq(raw@),
            is_drive == is_drive_seq(raw@),
            is_unc || is_drive,
            fold_components(pv.take(i as int), root as nat) == Some(
                components@.map_values(|p: Vec<char>| p@),
            ),
        decreases pieces.len() - i,
    {
        assert(pv.take(i + 1).drop_last() =~= pv.take(i as int));
        assert(pv.take(i + 1).last() == pv[i as int]);
        let piece = &pieces[i];
        let ghost before = components@.map_values(|p: Vec<char>| p@);
        let dot: Vec<char> = vec!['.'];
        let dotdot: Vec<char> = vec!['.', '.'];
        assert(dot@ =~= dot_piece());
        assert(dotdot@ =~= dotdot_piece());
        if piece.len() == 0 || chars_eq(piece.as_slice(), dot.as_slice()) {
        } else if chars_eq(piece.as_slice(), dotdot.as_slice()) {
            if components.len() <= root {
                proof {
                    lemma_fold_none_extends(pv, i + 1, root as nat);
                }
                return Err(
                    OrganizeError::InvalidPhysicalPath(
                        String::from_str("path escapes its volume root"),
                    ),
                );
            }
            components.pop();
            assert(components@.map_values(|p: Vec<char>| p@) =~= before.drop_last());
        } else {
            let lowered = lowercase_chars(piece.as_slice());
            components.push(lowered);
            assert(components@.map_values(|p: Vec<char>| p@) =~= before.push(lowercase(pv[i as int])));
        }
        i = i + 1;
    }
    assert(pv.take(pieces.len() as int) =~= pv);
    let ghost comps = components@.map_values(|p: Vec<char>| p@);
    if components.len() < root {
        return Err(
            OrganizeError::InvalidPhysicalPath(
                String::from_str("path does not contain a complete volume root"),
            ),
        );
    }
    let sep: Vec<char> = vec!['\\'];
    assert(sep@ =~= seq!['\\']);
    let root_key: Vec<char> = if is_unc {
        let body = join_chars(components.as_slice(), sep.as_slice());
        let mut k: Vec<char> = vec!['\\', '\\'];
        let mut j: usize = 0;
        while j < body.len()
            invariant
                j <= body.len(),
                k@ == unc_lead() + body@.take(j as int),
            decreases body.len() - j,
        {
            k.push(body[j]);
            j = j + 1;
            assert(k@ =~= unc_lead() + body@.take(j as int));
        }
        assert(body@.take(body.len() as int) =~= body@);
        assert(k@.take(2) =~= unc_lead());
        k
    } else {
        let drive = take_chars(raw.as_slice(), 2);
        let mut k = lowercase_chars(drive.as_slice());
        proof {
            assert(drive@.take(2) =~= drive@);
            assert(all_ascii(drive@.take(2)));
            assert(k@.take(2) == ascii_lower_seq(drive@));
            assert(k@[0] == k@.take(2)[0]);
            assert(k@[1] == k@.take(2)[1]);
            assert(k@[0] == ascii_lower(raw@[0]));
            lemma_ascii_lower_alpha(raw@[0]);
        }
        k.push('\\');
        let rest = skip_components(&components, 1);
        assert(rest@.map_values(|p: Vec<char>| p@) =~= comps.skip(1));
        let body = join_chars(rest.as_slice(), sep.as_slice());
        let ghost k0 = k@;
        let mut j: usize = 0;
        while j < body.len()
            invariant
                j <= body.len(),
                k@ == k0 + body@.take(j as int),
            decreases body.len() - j,
        {
            k.push(body[j]);
            j = j + 1;
            assert(k@ =~= k0 + body@.take(j as int));
        }
        assert(body@.take(body.len() as int) =~= body@);
        assert(k@[0] == k0[0] && k@[1] == k0[1]);
        k
    };
    assert(root_key@ == (if is_unc {
        unc_lead() + join_seq(comps, seq!['\\'])
    } else {
        lowercase(raw@.take(2)) + seq!['\\'] + join_seq(comps.skip(1), seq!['\\'])
    }));
    let trimmed = trim_end_chars(root_key.as_slice(), '\\');
    proof {
        assert(rooted(root_key@));
        lemma_trim_rooted(root_key@);
    }
    let is_root = is_volume_root_key(root_key.as_slice());
    if is_root && preserve_volume_root_separator {
        let mut t = trimmed;
        t.push('\\');
        Ok(string_from_chars(t.as_slice()))
    } else {
        Ok(string_from_chars(trimmed.as_slice()))
    }
}

fn skip_components(v: &Vec<Vec<char>>, from: usize) -> (r: Vec<Vec<char>>)
    requires
        from <= v.len(),
    ensures
        r@.map_values(|p: Vec<char>| p@) == v@.map_values(|p: Vec<char>| p@).skip(from as int),
{
    let mut r: Vec<Vec<char>> = Vec::new();
    let mut i: usize = from;
    while i < v.len()
        invariant
            from <= i <= v.len(),
            r@.map_values(|p: Vec<char>| p@) == v@.map_values(|p: Vec<char>| p@).subrange(
                from as int,
                i as int,
            ),
        decreases v.len() - i,
    {
        let ghost before = r@.map_values(|p: Vec<char>| p@);
        let ghost vv = v@.map_values(|p: Vec<char>| p@);
        r.push(copy_chars(v[i].as_slice()));
        assert(r@.map_values(|p: Vec<char>| p@) =~= before.push(vv[i as int]));
        assert(vv.subrange(from as int, i + 1) =~= vv.subrange(from as int, i as int).push(
            vv[i as int],
        ));
        i = i + 1;
    }
    assert(r@.map_values(|p: Vec<char>| p@) =~= v@.map_values(|p: Vec<char>| p@).skip(from as int));
    r
}

} // verus!

verus! {

/// The non-empty `\`-separated components of a key.
pub open spec fn path_components_spec(key: Seq<char>) -> Seq<Seq<char>> {
    drop_empty(split_seq(key, '\\'))
}

/// A key as it is compared: trailing `\` trimmed, `/` made `\`, lowercased.
pub open spec fn compare_form(key: Seq<char>) -> Seq<char> {
    lowercase(replace_seq(trim_end_seq(key, '\\'), '/', '\\'))
}

pub open spec fn is_two_byte_char(c: char) -> bool {
    0x80 <= (c as u32) && (c as u32) < 0x800
}

/// Whether the drive of a key can be read as the first two UTF-8 bytes of its
/// first component: a UNC key, a key without components, or a first component
/// whose first two bytes end on a character boundary.
pub open spec fn root_slice_ok(key: Seq<char>) -> bool {
    let comps = path_components_spec(key);
    ||| starts_with_seq(key, unc_lead())
    ||| comps.len() == 0
    ||| (comps[0].len() >= 2 && is_ascii_char(comps[0][0]) && is_ascii_char(comps[0][1]))
    ||| is_two_byte_char(comps[0][0])
}

/// The first two UTF-8 bytes of a component, as characters.
pub open spec fn first_two_bytes(c: Seq<char>) -> Seq<char> {
    if is_ascii_char(c[0]) {
        c.take(2)
    } else {
        c.take(1)
    }
}

/// The volume a key lives on: `\\server\share` for a UNC key, the drive otherwise.
pub open spec fn volume_root_spec(key: Seq<char>) -> Option<Seq<char>> {
    let comps = path_components_spec(key);
    if starts_with_seq(key, unc_lead()) {
        if comps.len() >= 2 {
            Some(unc_lead() + comps[0] + seq!['\\'] + comps[1])
        } else {
            None
        }
    } else if comps.len() == 0 {
        None
    } else {
        Some(first_two_bytes(comps[0]))
    }
}

/// The inputs on which ancestry can be decided without slicing inside a character.
pub open spec fn ancestor_inputs_ok(ancestor: Seq<char>, descendant: Seq<char>) -> bool {
    let a = compare_form(ancestor);
    let d = compare_form(descendant);
    a == d || (root_slice_ok(a) && root_slice_ok(d))
}

/// Whether `ancestor` names a strict ancestor directory of `descendant` on the same volume.
pub open spec fn is_path_ancestor_spec(ancestor: Seq<char>, descendant: Seq<char>) -> bool {
    let a = compare_form(ancestor);
    let d = compare_form(descendant);
    if a == d || volume_root_spec(a) != volume_root_spec(d) {
        false
    } else {
        let ac = path_components_spec(a);
        let dc = path_components_spec(d);
        ac.len() < dc.len() && dc.take(ac.len() as int) == ac
    }
}

/// The inputs on which overlap can be decided without slicing inside a character.
pub open spec fn overlap_inputs_ok(left: Seq<char>, right: Seq<char>) -> bool {
    let l = compare_form(left);
    let r = compare_form(right);
    l == r || ancestor_inputs_ok(l, r)
}

/// Whether two keys name the same path or one lies inside the other.
pub open spec fn paths_overlap_spec(left: Seq<char>, right: Seq<char>) -> bool {
    let l = compare_form(left);
    let r = compare_form(right);
    l == r || is_path_ancestor_spec(l, r) || is_path_ancestor_spec(r, l)
}

fn normalize_key_for_compare(key: &[char]) -> (r: Vec<char>)
    ensures
        r@ == compare_form(key@),
        rooted(key@) ==> rooted(r@),
{
    let trimmed = trim_end_chars(key, '\\');
    let replaced = replace_chars(trimmed.as_slice(), '/', '\\');
    let r = lowercase_chars(replaced.as_slice());
    proof {
        if rooted(key@) {
            lemma_trim_rooted(key@);
            let t = trimmed@;
            let rp = replaced@;
            if t.len() == 0 {
                assert(rp.len() == 0);
            } else {
                assert(t.len() >= 2);
                assert(rp.take(2) =~= t.take(2));
                assert(rp.take(2)[0] == t[0] && rp.take(2)[1] == t[1]);
                assert(all_ascii(rp.take(2)));
                assert(r@.take(2) == ascii_lower_seq(rp.take(2)));
                assert(r@[0] == r@.take(2)[0]);
                assert(r@[1] == r@.take(2)[1]);
                assert(r@[0] == ascii_lower(t[0]));
                assert(r@[1] == ascii_lower(t[1]));
                if is_ascii_alpha(t[0]) && t[1] == ':' {
                    lemma_ascii_lower_alpha(t[0]);
                    assert(r@.len() >= 2 && is_ascii_alpha(r@[0]) && r@[1] == ':');
                } else {
                    assert(t.take(2) == unc_lead());
                    assert(t[0] == '\\' && t[1] == '\\');
                    assert(r@.take(2) =~= unc_lead());
                }
            }
        }
    }
    r
}

fn root_slice_ok_exec(key: &[char]) -> (b: bool)
    ensures
        b == root_slice_ok(key@),
{
    let lead: Vec<char> = vec!['\\', '\\'];
    assert(lead@ =~= unc_lead());
    if starts_with_chars(key, lead.as_slice()) {
        return true;
    }
    let comps = nonempty_pieces_chars(key, '\\');
    let ghost cv = comps@.map_values(|p: Vec<char>| p@);
    if comps.len() == 0 {
        return true;
    }
    let first = &comps[0];
    assert(first@ == cv[0]);
    if first.len() >= 2 && (first[0] as u32) < 128 && (first[1] as u32) < 128 {
        return true;
    }
    (first[0] as u32) >= 0x80 && (first[0] as u32) < 0x800
}

fn volume_root_of(key: &[char]) -> (r: Option<Vec<char>>)
    requires
        root_slice_ok(key@),
    ensures
        match r {
            Some(v) => volume_root_spec(key@) == Some(v@),
            None => volume_root_spec(key@) is None,
        },
{
    let lead: Vec<char> = vec!['\\', '\\'];
    assert(lead@ =~= unc_lead());
    let comps = nonempty_pieces_chars(key, '\\');
    let ghost cv = comps@.map_values(|p: Vec<char>| p@);
    if starts_with_chars(key, lead.as_slice()) {
        if comps.len() >= 2 {
            let mut v: Vec<char> = vec!['\\', '\\'];
            append_chars(&mut v, comps[0].as_slice());
            v.push('\\');
            append_chars(&mut v, comps[1].as_slice());
            assert(v@ =~= unc_lead() + cv[0] + seq!['\\'] + cv[1]);
            Some(v)
        } else {
            None
        }
    } else if comps.len() == 0 {
        None
    } else {
        let first = &comps[0];
        assert(first@ == cv[0]);
        if (first[0] as u32) < 128 {
            Some(take_chars(first.as_slice(), 2))
        } else {
            Some(take_chars(first.as_slice(), 1))
        }
    }
}

fn components_of(key: &[char]) -> (r: Vec<Vec<char>>)
    ensures
        r@.map_values(|p: Vec<char>| p@) == path_components_spec(key@),
{
    nonempty_pieces_chars(key, '\\')
}

fn components_prefix(prefix: &Vec<Vec<char>>, whole: &Vec<Vec<char>>) -> (b: bool)
    ensures
        b == (prefix@.len() <= whole@.len() && whole@.map_values(|p: Vec<char>| p@).take(
            prefix@.len() as int,
        ) == prefix@.map_values(|p: Vec<char>| p@)),
{
    let ghost pv = prefix@.map_values(|p: Vec<char>| p@);
    let ghost wv = whole@.map_values(|p: Vec<char>| p@);
    if prefix.len() > whole.len() {
        return false;
    }
    let mut i: usize = 0;
    while i < prefix.len()
        invariant
            i <= prefix.len() <= whole.len(),
            pv == prefix@.map_values(|p: Vec<char>| p@),
            wv == whole@.map_values(|p: Vec<char>| p@),
            forall|j: int| 0 <= j < i ==> wv[j] == pv[j],
        decreases prefix.len() - i,
    {
        if !chars_eq(prefix[i].as_slice(), whole[i].as_slice()) {
            assert(wv.take(prefix.len() as int)[i as int] != pv[i as int]);
            return false;
        }
        i = i + 1;
    }
    assert(wv.take(prefix.len() as int) =~= pv);
    true
}

fn ancestor_on_keys(ancestor: &[char], descendant: &[char]) -> (b: bool)
    requires
        ancestor_inputs_ok(ancestor@, descendant@) || (rooted(ancestor@) && rooted(descendant@)),
    ensures
        b == is_path_ancestor_spec(ancestor@, descendant@),
{
    let a = normalize_key_for_compare(ancestor);
    let d = normalize_key_for_compare(descendant);
    if chars_eq(a.as_slice(), d.as_slice()) {
        return false;
    }
    proof {
        if rooted(ancestor@) && rooted(descendant@) {
            lemma_rooted_slice_ok(a@);
            lemma_rooted_slice_ok(d@);
        }
    }
    let ra = volume_root_of(a.as_slice());
    let rd = volume_root_of(d.as_slice());
    let same_root = match (&ra, &rd) {
        (Some(x), Some(y)) => chars_eq(x.as_slice(), y.as_slice()),
        (None, None) => true,
        _ => false,
    };
    if !same_root {
        return false;
    }
    let ac = components_of(a.as_slice());
    let dc = components_of(d.as_slice());
    ac.len() < dc.len() && components_prefix(&ac, &dc)
}

/// Whether `ancestor_key` names a strict ancestor directory of `descendant_key`
/// on the same volume, comparing trimmed, `\`-separated, lowercased keys.
pub fn is_path_ancestor(ancestor_key: &str, descendant_key: &str) -> (b: bool)
    requires
        ancestor_inputs_ok(ancestor_key@, descendant_key@),
    ensures
        b == is_path_ancestor_spec(ancestor_key@, descendant_key@),
{
    let a = chars_of(ancestor_key);
    let d = chars_of(descendant_key);
    ancestor_on_keys(a.as_slice(), d.as_slice())
}

/// `is_path_ancestor` on any input: `None` exactly where reading a drive
/// would cut a character in two, the answer otherwise.
pub fn checked_is_path_ancestor(ancestor_key: &str, descendant_key: &str) -> (r: Option<bool>)
    ensures
        r is None <==> !ancestor_inputs_ok(ancestor_key@, descendant_key@),
        r matches Some(b) ==> b == is_path_ancestor_spec(ancestor_key@, descendant_key@),
{
    let a = chars_of(ancestor_key);
    let d = chars_of(descendant_key);
    let an = normalize_key_for_compare(a.as_slice());
    let dn = normalize_key_for_compare(d.as_slice());
    if chars_eq(an.as_slice(), dn.as_slice()) || (root_slice_ok_exec(an.as_slice())
        && root_slice_ok_exec(dn.as_slice())) {
        Some(ancestor_on_keys(a.as_slice(), d.as_slice()))
    } else {
        None
    }
}

fn overlap_on_keys(left: &[char], right: &[char]) -> (b: bool)
    requires
        overlap_inputs_ok(left@, right@) || (rooted(left@) && rooted(right@)),
    ensures
        b == paths_overlap_spec(left@, right@),
{
    let l = normalize_key_for_compare(left);
    let r = normalize_key_for_compare(right);
    if chars_eq(l.as_slice(), r.as_slice()) {
        return true;
    }
    ancestor_on_keys(l.as_slice(), r.as_slice()) || ancestor_on_keys(r.as_slice(), l.as_slice())
}

/// Whether two keys name the same path or one lies inside the other.
pub fn paths_overlap(left_key: &str, right_key: &str) -> (b: bool)
    requires
        overlap_inputs_ok(left_key@, right_key@),
    ensures
        b == paths_overlap_spec(left_key@, right_key@),
{
    let l = chars_of(left_key);
    let r = chars_of(right_key);
    overlap_on_keys(l.as_slice(), r.as_slice())
}

/// `paths_overlap` on any input: `None` exactly where reading a drive would
/// cut a character in two, the answer otherwise.
pub fn checked_paths_overlap(left_key: &str, right_key: &str) -> (r: Option<bool>)
    ensures
        r is None <==> !overlap_inputs_ok(left_key@, right_key@),
        r matches Some(b) ==> b == paths_overlap_spec(left_key@, right_key@),
{
    let l = chars_of(left_key);
    let r = chars_of(right_key);
    let ln = normalize_key_for_compare(l.as_slice());
    let rn = normalize_key_for_compare(r.as_slice());
    if chars_eq(ln.as_slice(), rn.as_slice()) {
        return Some(true);
    }
    let lnn = normalize_key_for_compare(ln.as_slice());
    let rnn = normalize_key_for_compare(rn.as_slice());
    if chars_eq(lnn.as_slice(), rnn.as_slice()) || (root_slice_ok_exec(lnn.as_slice())
        && root_slice_ok_exec(rnn.as_slice())) {
        Some(overlap_on_keys(l.as_slice(), r.as_slice()))
    } else {
        None
    }
}

} // verus!

verus! {

/// Whether a key starts like one produced by `windows_path_key`: empty, a UNC
/// lead, or an ASCII drive letter and `:`.
pub open spec fn rooted(k: Seq<char>) -> bool {
    ||| k.len() == 0
    ||| starts_with_seq(k, unc_lead())
    ||| (k.len() >= 2 && is_ascii_alpha(k[0]) && k[1] == ':')
}

proof fn lemma_ascii_lower_alpha(c: char)
    requires
        is_ascii_alpha(c),
    ensures
        is_ascii_alpha(ascii_lower(c)),
{
    if 'A' <= c && c <= 'Z' {
        let n: u32 = ((c as u32) + 32) as u32;
        assert(97 <= n <= 122);
        assert((n as char) as u32 == n);
    }
}

proof fn lemma_trim_rooted(k: Seq<char>)
    requires
        rooted(k),
    ensures
        rooted(trim_end_seq(k, '\\')),
        trim_end_seq(k, '\\').len() >= 2 ==> trim_end_seq(k, '\\').take(2) == k.take(2),
{
    lemma_trim_end(k, '\\');
    let t = trim_end_seq(k, '\\');
    if t.len() >= 2 {
        assert(t.take(2) =~= k.take(2));
        assert(t[0] == k[0] && t[1] == k[1]);
    }
    if starts_with_seq(k, unc_lead()) && t.len() == 1 {
        assert(t[0] == k[0]);
    }
    if k.len() >= 2 && is_ascii_alpha(k[0]) && k[1] == ':' {
        assert(t.len() > 1);
    }
}

proof fn lemma_rooted_slice_ok(k: Seq<char>)
    requires
        rooted(k),
    ensures
        root_slice_ok(k),
{
    if k.len() == 0 {
        assert(split_seq(k, '\\') == seq![Seq::<char>::empty()]);
        let parts = split_seq(k, '\\');
        assert(parts.drop_last() =~= Seq::<Seq<char>>::empty());
        assert(drop_empty(parts.drop_last()) == Seq::<Seq<char>>::empty());
        assert(parts.last().len() == 0);
        assert(drop_empty(parts).len() == 0);
    } else if !starts_with_seq(k, unc_lead()) {
        lemma_split_first(k, '\\', 2);
        lemma_split_seq_nonempty(k, '\\');
        let parts = split_seq(k, '\\');
        assert(parts[0].take(2)[0] == k[0]);
        assert(parts[0].take(2)[1] == k[1]);
        lemma_drop_empty_first(parts);
    }
}

/// Why a move destination is refused.
pub enum TopologyIssue {
    /// A key could not be built; the payload is the invalid-path message.
    InvalidPath(Seq<char>),
    /// The layout is unsafe; the payload is the message.
    Unsafe(Seq<char>),
}

pub open spec fn msg_volume_root_move() -> Seq<char> {
    "a volume root cannot be moved"@
}

pub open spec fn msg_destination_equals_source() -> Seq<char> {
    "a move destination cannot equal its source"@
}

pub open spec fn msg_destination_inside_source() -> Seq<char> {
    "a move destination cannot be inside its source"@
}

pub open spec fn msg_destination_overlaps_discard() -> Seq<char> {
    "a move destination overlaps a discard root"@
}

/// The topology key of a path: its canonical key without a preserved root separator.
pub open spec fn topology_key_spec(key: Seq<char>) -> Result<Seq<char>, Seq<char>> {
    windows_path_key_spec(key, false)
}

/// The first discard root, in order, that refuses `destination`.
pub open spec fn discard_issue(destination: Seq<char>, discards: Seq<Seq<char>>) -> Option<
    TopologyIssue,
>
    decreases discards.len(),
{
    if discards.len() == 0 {
        None
    } else {
        match topology_key_spec(discards[0]) {
            Err(m) => Some(TopologyIssue::InvalidPath(m)),
            Ok(d) => {
                if is_volume_root_key_spec(d) || paths_overlap_spec(destination, d) {
                    Some(TopologyIssue::Unsafe(msg_destination_overlaps_discard()))
                } else {
                    discard_issue(destination, discards.drop_first())
                }
            },
        }
    }
}

/// Why moving `source_key` to `destination_key` is refused, if it is.
pub open spec fn destination_issue(
    source_key: Seq<char>,
    destination_key: Seq<char>,
    discards: Seq<Seq<char>>,
) -> Option<TopologyIssue> {
    match topology_key_spec(source_key) {
        Err(m) => Some(TopologyIssue::InvalidPath(m)),
        Ok(source) => match topology_key_spec(destination_key) {
            Err(m) => Some(TopologyIssue::InvalidPath(m)),
            Ok(destination) => {
                if is_volume_root_key_spec(source) {
                    Some(TopologyIssue::Unsafe(msg_volume_root_move()))
                } else if source == destination {
                    Some(TopologyIssue::Unsafe(msg_destination_equals_source()))
                } else if paths_overlap_spec(source, destination) && is_path_ancestor_spec(
                    source,
                    destination,
                ) {
                    Some(TopologyIssue::Unsafe(msg_destination_inside_source()))
                } else {
                    discard_issue(destination, discards)
                }
            },
        },
    }
}

/// Whether an exec error carries a spec issue.
pub open spec fn issue_matches(e: OrganizeError, issue: TopologyIssue) -> bool {
    match (e, issue) {
        (OrganizeError::InvalidPhysicalPath(m), TopologyIssue::InvalidPath(s)) => m@ == s,
        (OrganizeError::UnsafeTopology(m), TopologyIssue::Unsafe(s)) => m@ == s,
        _ => false,
    }
}

fn topology_key(key: &str) -> (r: Result<String, OrganizeError>)
    ensures
        key_result_matches(r, topology_key_spec(key@)),
        r matches Ok(k) ==> rooted(k@),
{
    windows_path_key(key, false)
}

/// Check that `source_key` may move to `destination_key`: the source is not a
/// volume root, the destination is neither the source nor inside it, and the
/// destination overlaps no discard root (nor is any discard root a volume root).
pub fn validate_move_destination(
    source_key: &str,
    destination_key: &str,
    discard_keys: &[String],
) -> (r: Result<(), OrganizeError>)
    ensures
        match destination_issue(source_key@, destination_key@, discard_keys@.map_values(|k: String| k@)) {
            None => r is Ok,
            Some(issue) => r matches Err(e) && issue_matches(e, issue),
        },
{
    let ghost discards = discard_keys@.map_values(|k: String| k@);
    let source = match topology_key(source_key) {
        Ok(k) => k,
        Err(e) => {
            return Err(e);
        },
    };
    let destination = match topology_key(destination_key) {
        Ok(k) => k,
        Err(e) => {
            return Err(e);
        },
    };
    let sc = chars_of(source.as_str());
    let dc = chars_of(destination.as_str());
    if is_volume_root_key(sc.as_slice()) {
        return Err(OrganizeError::UnsafeTopology(String::from_str("a volume root cannot be moved")));
    }
    if chars_eq(sc.as_slice(), dc.as_slice()) {
        return Err(
            OrganizeError::UnsafeTopology(
                String::from_str("a move destination cannot equal its source"),
            ),
        );
    }
    if overlap_on_keys(sc.as_slice(), dc.as_slice()) && ancestor_on_keys(
        sc.as_slice(),
        dc.as_slice(),
    ) {
        return Err(
            OrganizeError::UnsafeTopology(
                String::from_str("a move destination cannot be inside its source"),
            ),
        );
    }
    let mut i: usize = 0;
    assert(discards.skip(0) =~= discards);
    assert(destination_issue(source_key@, destination_key@, discards) == discard_issue(dc@, discards));
    while i < discard_keys.len()
        invariant
            i <= discard_keys.len(),
            discards == discard_keys@.map_values(|k: String| k@),
            rooted(dc@),
            destination_issue(source_key@, destination_key@, discards) == discard_issue(dc@, discards),
            discard_issue(dc@, discards) == discard_issue(dc@, discards.skip(i as int)),
        decreases discard_keys.len() - i,
    {
        assert(discards.skip(i as int).drop_first() =~= discards.skip(i + 1));
        assert(discards.skip(i as int)[0] == discards[i as int]);
        assert(discards[i as int] == discard_keys@[i as int]@);
        let discard = match topology_key(discard_keys[i].as_str()) {
            Ok(k) => k,
            Err(e) => {
                return Err(e);
            },
        };
        let kc = chars_of(discard.as_str());
        if is_volume_root_key(kc.as_slice()) || overlap_on_keys(dc.as_slice(), kc.as_slice()) {
            return Err(
                OrganizeError::UnsafeTopology(
                    String::from_str("a move destination overlaps a discard root"),
                ),
            );
        }
        i = i + 1;
    }
    assert(discards.skip(discard_keys.len() as int).len() == 0);
    Ok(())
}

} // verus!

verus! {

/// The message of a source moved twice.
pub open spec fn msg_duplicate_source(id: u128) -> Seq<char> {
    "move source is duplicated for "@ + uuid_hyphenated(id)
}

pub open spec fn msg_cycle() -> Seq<char> {
    "move destinations form a cycle"@
}

/// Why move `i` is refused, given the moves before it passed: a key that cannot
/// be built, a source already moved, or its destination issue.
pub open spec fn move_issue(moves: Seq<(u128, String, String)>, discards: Seq<Seq<char>>, i: int) -> Option<TopologyIssue> {
    match topology_key_spec(moves[i].1@) {
        Err(m) => Some(TopologyIssue::InvalidPath(m)),
        Ok(sk) => match topology_key_spec(moves[i].2@) {
            Err(m) => Some(TopologyIssue::InvalidPath(m)),
            Ok(dk) => if exists|j: int| 0 <= j < i && #[trigger] topology_key_spec(moves[j].1@) == Ok::<Seq<char>, Seq<char>>(sk) {
                Some(TopologyIssue::Unsafe(msg_duplicate_source(moves[i].0)))
            } else {
                destination_issue(sk, dk, discards)
            },
        },
    }
}

/// The issue of the first of the first `k` moves that has one.
pub open spec fn moves_issue(moves: Seq<(u128, String, String)>, discards: Seq<Seq<char>>, k: int) -> Option<TopologyIssue>
    decreases k,
{
    if k <= 0 {
        None
    } else {
        match moves_issue(moves, discards, k - 1) {
            Some(x) => Some(x),
            None => move_issue(moves, discards, k - 1),
        }
    }
}

/// The source key of move `i` (meaningful when it can be built).
pub open spec fn source_key_of(moves: Seq<(u128, String, String)>, i: int) -> Seq<char> {
    topology_key_spec(moves[i].1@)->Ok_0
}

/// The destination key of move `i` (meaningful when it can be built).
pub open spec fn destination_key_of(moves: Seq<(u128, String, String)>, i: int) -> Seq<char> {
    topology_key_spec(moves[i].2@)->Ok_0
}

/// Whether a walk from source `i` can follow `steps` destination links, each
/// landing on the source of another move.
pub open spec fn walks(moves: Seq<(u128, String, String)>, i: int, steps: nat) -> bool
    decreases steps,
{
    if steps == 0 {
        true
    } else {
        exists|j: int| 0 <= j < moves.len() && #[trigger] source_key_of(moves, j) == destination_key_of(moves, i) && walks(moves, j, (steps - 1) as nat)
    }
}

/// The move destinations form a cycle: from some source a walk can follow more
/// links than there are moves, so it must come back to a source it passed.
pub open spec fn has_move_cycle(moves: Seq<(u128, String, String)>) -> bool {
    exists|i: int| 0 <= i < moves.len() && #[trigger] walks(moves, i, (moves.len() + 1) as nat)
}

proof fn lemma_moves_issue_stays(moves: Seq<(u128, String, String)>, discards: Seq<Seq<char>>, k: int, n: int)
    requires
        0 <= k <= n,
        moves_issue(moves, discards, k) is Some,
    ensures
        moves_issue(moves, discards, n) == moves_issue(moves, discards, k),
    decreases n - k,
{
    if k < n {
        lemma_moves_issue_stays(moves, discards, k + 1, n);
    }
}

/// The index of the move whose source key is `key`, when there is exactly such a move
/// (source keys are distinct once the moves passed).
fn find_source(keys: &Vec<Vec<char>>, key: &Vec<char>) -> (r: Option<usize>)
    ensures
        match r {
            Some(j) => j < keys@.len() && keys@[j as int]@ == key@,
            None => forall|j: int| 0 <= j < keys@.len() ==> #[trigger] keys@[j]@ != key@,
        },
{
    let mut j: usize = 0;
    while j < keys.len()
        invariant
            j <= keys@.len(),
            forall|q: int| 0 <= q < j ==> #[trigger] keys@[q]@ != key@,
        decreases keys@.len() - j,
    {
        if chars_eq(keys[j].as_slice(), key.as_slice()) {
            return Some(j);
        }
        j = j + 1;
    }
    None
}

/// Check a batch of moves: every key can be built, no source moves twice, each
/// move passes `validate_move_destination` against the discard roots, and the
/// destinations do not form a cycle.
pub fn validate_move_topology(moves: &[(u128, String, String)], discard_keys: &[String]) -> (r: Result<(), OrganizeError>)
    ensures
        match moves_issue(moves@, discard_keys@.map_values(|k: String| k@), moves@.len() as int) {
            Some(issue) => r matches Err(e) && issue_matches(e, issue),
            None => if has_move_cycle(moves@) {
                r matches Err(OrganizeError::UnsafeTopology(m)) && m@ == msg_cycle()
            } else {
                r is Ok
            },
        },
{
    let ghost ms = moves@;
    let ghost discards = discard_keys@.map_values(|k: String| k@);
    let n = moves.len();
    let mut sources: Vec<Vec<char>> = Vec::new();
    let mut dests: Vec<Vec<char>> = Vec::new();
    let mut i: usize = 0;
    while i < n
        invariant
            i <= n,
            n == ms.len(),
            ms == moves@,
            discards == discard_keys@.map_values(|k: String| k@),
            moves_issue(ms, discards, i as int) is None,
            sources@.len() == i,
            dests@.len() == i,
            forall|j: int| 0 <= j < i ==> topology_key_spec(#[trigger] ms[j].1@) == Ok::<Seq<char>, Seq<char>>(sources@[j]@),
            forall|j: int| 0 <= j < i ==> topology_key_spec(#[trigger] ms[j].2@) == Ok::<Seq<char>, Seq<char>>(dests@[j]@),
            forall|a: int, b: int| 0 <= a < b < i ==> #[trigger] sources@[a]@ != #[trigger] sources@[b]@,
        decreases n - i,
    {
        let (id, s, d) = (moves[i].0, &moves[i].1, &moves[i].2);
        let sk = match topology_key(s.as_str()) {
            Ok(k) => k,
            Err(e) => {
                proof {
                    lemma_moves_issue_stays(ms, discards, i + 1, n as int);
                }
                return Err(e);
            },
        };
        let dk = match topology_key(d.as_str()) {
            Ok(k) => k,
            Err(e) => {
                proof {
                    lemma_moves_issue_stays(ms, discards, i + 1, n as int);
                }
                return Err(e);
            },
        };
        let skc = chars_of(sk.as_str());
        let dkc = chars_of(dk.as_str());
        match find_source(&sources, &skc) {
            Some(j) => {
                proof {
                    assert(topology_key_spec(ms[j as int].1@) == Ok::<Seq<char>, Seq<char>>(sk@));
                    lemma_moves_issue_stays(ms, discards, i + 1, n as int);
                }
                let mut v: Vec<char> = Vec::new();
                push_str(&mut v, "move source is duplicated for ");
                let text = uuid_text(id);
                push_str(&mut v, text.as_str());
                return Err(OrganizeError::UnsafeTopology(string_from_chars(v.as_slice())));
            },
            None => {
                proof {
                    if exists|j: int| 0 <= j < i && #[trigger] topology_key_spec(ms[j].1@) == Ok::<Seq<char>, Seq<char>>(sk@) {
                        let j = choose|j: int| 0 <= j < i && #[trigger] topology_key_spec(ms[j].1@) == Ok::<Seq<char>, Seq<char>>(sk@);
                        assert(sources@[j]@ == sk@);
                        assert(false);
                    }
                }
            },
        }
        match validate_move_destination(sk.as_str(), dk.as_str(), discard_keys) {
            Ok(()) => {},
            Err(e) => {
                proof {
                    lemma_moves_issue_stays(ms, discards, i + 1, n as int);
                }
                return Err(e);
            },
        }
        let ghost before_sources = sources@;
        sources.push(skc);
        dests.push(dkc);
        proof {
            assert forall|a: int, b: int| 0 <= a < b < i + 1 implies #[trigger] sources@[a]@ != #[trigger] sources@[b]@ by {
                if b < i {
                    assert(sources@[a] == before_sources[a] && sources@[b] == before_sources[b]);
                } else {
                    assert(sources@[a] == before_sources[a]);
                    assert(before_sources[a]@ != skc@);
                }
            }
        }
        i = i + 1;
    }
    // the link of every move: the move whose source is its destination
    let mut next: Vec<Option<usize>> = Vec::new();
    let mut k: usize = 0;
    while k < n
        invariant
            k <= n,
            n == ms.len(),
            sources@.len() == n,
            dests@.len() == n,
            next@.len() == k,
            forall|q: int| 0 <= q < k ==> match #[trigger] next@[q] {
                Some(j) => j < n && sources@[j as int]@ == dests@[q]@,
                None => forall|w: int| 0 <= w < n ==> #[trigger] sources@[w]@ != dests@[q]@,
            },
        decreases n - k,
    {
        next.push(find_source(&sources, &dests[k]));
        k = k + 1;
    }
    proof {
        assert forall|q: int, j: int| #![trigger source_key_of(ms, j), destination_key_of(ms, q)] 0 <= q < n && 0 <= j < n implies (source_key_of(ms, j) == destination_key_of(ms, q)) == (sources@[j]@ == dests@[q]@) by {
            assert(topology_key_spec(ms[j].1@) == Ok::<Seq<char>, Seq<char>>(sources@[j]@));
            assert(topology_key_spec(ms[q].2@) == Ok::<Seq<char>, Seq<char>>(dests@[q]@));
        }
    }
    proof {
        assert forall|a: int, b: int| 0 <= a < ms.len() && 0 <= b < ms.len() && a != b implies source_key_of(ms, a) != source_key_of(ms, b) by {
            assert(topology_key_spec(ms[a].1@) == Ok::<Seq<char>, Seq<char>>(sources@[a]@));
            assert(topology_key_spec(ms[b].1@) == Ok::<Seq<char>, Seq<char>>(sources@[b]@));
            if a < b {
                assert(sources@[a]@ != sources@[b]@);
            } else {
                assert(sources@[b]@ != sources@[a]@);
            }
        }
    }
    let mut start: usize = 0;
    while start < n
        invariant
            start <= n,
            discards == discard_keys@.map_values(|k: String| k@),
            ms == moves@,
            forall|a: int, b: int| 0 <= a < ms.len() && 0 <= b < ms.len() && a != b ==> source_key_of(ms, a) != source_key_of(ms, b),
            n == ms.len(),
            sources@.len() == n,
            dests@.len() == n,
            next@.len() == n,
            forall|q: int| 0 <= q < n ==> match #[trigger] next@[q] {
                Some(j) => j < n && sources@[j as int]@ == dests@[q]@,
                None => forall|w: int| 0 <= w < n ==> #[trigger] sources@[w]@ != dests@[q]@,
            },
            forall|q: int, j: int| #![trigger source_key_of(ms, j), destination_key_of(ms, q)] 0 <= q < n && 0 <= j < n ==> (source_key_of(ms, j) == destination_key_of(ms, q)) == (sources@[j]@ == dests@[q]@),
            forall|q: int| 0 <= q < start ==> !#[trigger] walks(ms, q, (n + 1) as nat),
            moves_issue(ms, discards, n as int) is None,
        decreases n - start,
    {
        let mut cur: usize = start;
        let mut steps: u128 = 0;
        let mut alive = true;
        while alive && steps <= n as u128
            invariant
                n == ms.len(),
                forall|a: int, b: int| 0 <= a < ms.len() && 0 <= b < ms.len() && a != b ==> source_key_of(ms, a) != source_key_of(ms, b),
                sources@.len() == n,
                dests@.len() == n,
                next@.len() == n,
                cur < n,
                start < n,
                steps <= n + 1,
                forall|q: int| 0 <= q < n ==> match #[trigger] next@[q] {
                    Some(j) => j < n && sources@[j as int]@ == dests@[q]@,
                    None => forall|w: int| 0 <= w < n ==> #[trigger] sources@[w]@ != dests@[q]@,
                },
                forall|q: int, j: int| #![trigger source_key_of(ms, j), destination_key_of(ms, q)] 0 <= q < n && 0 <= j < n ==> (source_key_of(ms, j) == destination_key_of(ms, q)) == (sources@[j]@ == dests@[q]@),
                alive ==> (walks(ms, start as int, (n + 1) as nat) <==> walks(ms, cur as int, (n + 1 - steps) as nat)),
                !alive ==> !walks(ms, start as int, (n + 1) as nat),
            decreases (if alive { n + 2 - steps } else { 0 }),
        {
            match next[cur] {
                Some(j) => {
                    proof {
                        lemma_walks_step(ms, cur as int, j as int, (n + 1 - steps) as nat);
                    }
                    cur = j;
                    steps = steps + 1;
                },
                None => {
                    proof {
                        lemma_walks_stuck(ms, cur as int, (n + 1 - steps) as nat);
                    }
                    alive = false;
                },
            }
        }
        if alive {
            assert(steps == n + 1);
            assert(walks(ms, cur as int, 0));
            assert(walks(ms, start as int, (n + 1) as nat));
            assert(has_move_cycle(ms));
            return Err(OrganizeError::UnsafeTopology(String::from_str("move destinations form a cycle")));
        }
        start = start + 1;
    }
    assert(!has_move_cycle(ms));
    Ok(())
}

/// Following the only link of `i` (source keys are distinct) keeps the walk.
proof fn lemma_walks_step(moves: Seq<(u128, String, String)>, i: int, j: int, steps: nat)
    requires
        steps >= 1,
        0 <= j < moves.len(),
        source_key_of(moves, j) == destination_key_of(moves, i),
        forall|a: int, b: int| 0 <= a < moves.len() && 0 <= b < moves.len() && a != b ==> source_key_of(moves, a) != source_key_of(moves, b),
    ensures
        walks(moves, i, steps) <==> walks(moves, j, (steps - 1) as nat),
{
    if walks(moves, i, steps) {
        let w = choose|w: int| 0 <= w < moves.len() && #[trigger] source_key_of(moves, w) == destination_key_of(moves, i) && walks(moves, w, (steps - 1) as nat);
        assert(w == j);
    }
}

proof fn lemma_walks_stuck(moves: Seq<(u128, String, String)>, i: int, steps: nat)
    requires
        steps >= 1,
        forall|j: int| 0 <= j < moves.len() ==> #[trigger] source_key_of(moves, j) != destination_key_of(moves, i),
    ensures
        !walks(moves, i, steps),
{
}

} // verus!

verus! {

/// Overlap of paths does not depend on their order.
pub proof fn law_paths_overlap_symmetric(left: Seq<char>, right: Seq<char>)
    ensures
        paths_overlap_spec(left, right) == paths_overlap_spec(right, left),
{
}

/// Every path overlaps itself.
pub proof fn law_paths_overlap_reflexive(path: Seq<char>)
    ensures
        paths_overlap_spec(path, path),
{
}

/// Being a strict ancestor is a strict order on paths: no path is its own
/// ancestor, no two paths are each other's ancestors, and an ancestor of an
/// ancestor is an ancestor.
pub proof fn law_path_ancestry_is_strict_order(a: Seq<char>, b: Seq<char>, c: Seq<char>)
    ensures
        !is_path_ancestor_spec(a, a),
        is_path_ancestor_spec(a, b) ==> !is_path_ancestor_spec(b, a),
        is_path_ancestor_spec(a, b) && is_path_ancestor_spec(b, c) ==> is_path_ancestor_spec(a, c),
{
    if is_path_ancestor_spec(a, b) && is_path_ancestor_spec(b, c) {
        let ac = path_components_spec(compare_form(a));
        let bc = path_components_spec(compare_form(b));
        let cc = path_components_spec(compare_form(c));
        assert(cc.take(ac.len() as int) =~= bc.take(ac.len() as int)) by {
            assert forall|i: int| 0 <= i < ac.len() implies cc[i] == bc[i] by {
                assert(cc.take(bc.len() as int)[i] == bc[i]);
            }
        }
        assert(compare_form(a) != compare_form(c)) by {
            if compare_form(a) == compare_form(c) {
                assert(ac == cc);
            }
        }
    }
}


/// A canonical task root: the path as shown, its key, the device it is on,
/// and whether it is a volume root.
#[derive(Clone, Debug)]
pub struct WindowsPathIdentity {
    pub display_path: String,
    pub path_key: String,
    pub device_slug: String,
    pub is_volume_root: bool,
}

/// The identity of a root on `device_slug` from its canonical path: shown
/// without the extended-length prefix, keyed with the separator of a volume
/// root kept.
pub fn path_identity(device_slug: &str, canonical: &str) -> (r: Result<WindowsPathIdentity, OrganizeError>)
    ensures
        match windows_path_key_spec(strip_extended_spec(canonical@), true) {
            Ok(key) => r matches Ok(id) && id.display_path@ == strip_extended_spec(canonical@) && id.path_key@ == key
                && id.device_slug@ == device_slug@ && id.is_volume_root == is_volume_root_key_spec(key),
            Err(m) => r matches Err(OrganizeError::InvalidPhysicalPath(e)) && e@ == m,
        },
{
    let chars = chars_of(canonical);
    let shown = strip_extended_prefix(chars.as_slice());
    let display = string_from_chars(shown.as_slice());
    let key = match windows_path_key(display.as_str(), true) {
        Ok(k) => k,
        Err(e) => {
            return Err(e);
        },
    };
    let key_chars = chars_of(key.as_str());
    let is_root = is_volume_root_key(key_chars.as_slice());
    Ok(WindowsPathIdentity {
        display_path: display,
        path_key: key,
        device_slug: crate::text::copy_string(device_slug),
        is_volume_root: is_root,
    })
}


proof fn lemma_discard_overlap_refused(destination: Seq<char>, discards: Seq<Seq<char>>, j: int)
    requires
        0 <= j < discards.len(),
        forall|i: int| 0 <= i <= j ==> #[trigger] topology_key_spec(discards[i]) is Ok,
        paths_overlap_spec(destination, topology_key_spec(discards[j])->Ok_0),
    ensures
        discard_issue(destination, discards) matches Some(TopologyIssue::Unsafe(_)),
    decreases j,
{
    assert(topology_key_spec(discards[0]) is Ok);
    if j > 0 {
        let rest = discards.drop_first();
        assert forall|i: int| 0 <= i <= j - 1 implies #[trigger] topology_key_spec(rest[i]) is Ok by {
            assert(rest[i] == discards[i + 1]);
            assert(topology_key_spec(discards[i + 1]) is Ok);
        }
        assert(rest[j - 1] == discards[j]);
        lemma_discard_overlap_refused(destination, rest, j - 1);
    }
}

/// A move never lands on ground about to be deleted: when the keys are
/// valid and the destination's key overlaps (equals, holds or lies inside)
/// the key of some discard root, the move is refused as an unsafe topology.
pub proof fn law_destination_overlapping_a_discard_is_refused(
    source_key: Seq<char>,
    destination_key: Seq<char>,
    discards: Seq<Seq<char>>,
    j: int,
)
    requires
        topology_key_spec(source_key) is Ok,
        topology_key_spec(destination_key) is Ok,
        0 <= j < discards.len(),
        forall|i: int| 0 <= i < discards.len() ==> #[trigger] topology_key_spec(discards[i]) is Ok,
        paths_overlap_spec(topology_key_spec(destination_key)->Ok_0, topology_key_spec(discards[j])->Ok_0),
    ensures
        destination_issue(source_key, destination_key, discards) matches Some(TopologyIssue::Unsafe(_)),
{
    let source = topology_key_spec(source_key)->Ok_0;
    let destination = topology_key_spec(destination_key)->Ok_0;
    if !(is_volume_root_key_spec(source) || source == destination || (paths_overlap_spec(source, destination)
        && is_path_ancestor_spec(source, destination))) {
        lemma_discard_overlap_refused(destination, discards, j);
    }
}


proof fn lemma_lower_trim(x: Seq<char>)
    ensures
        ascii_lower_seq(trim_end_seq(x, '\\')) == trim_end_seq(ascii_lower_seq(x), '\\'),
        trim_end_seq(x, '\\').len() <= x.len(),
        forall|i: int| 0 <= i < trim_end_seq(x, '\\').len() ==> #[trigger] trim_end_seq(x, '\\')[i] == x[i],
    decreases x.len(),
{
    let lx = ascii_lower_seq(x);
    if x.len() > 0 {
        assert(lx.last() == ascii_lower(x.last()));
        assert((lx.last() == '\\') == (x.last() == '\\'));
        assert(lx.drop_last() =~= ascii_lower_seq(x.drop_last()));
        if x.last() == '\\' {
            lemma_lower_trim(x.drop_last());
        }
    }
}

/// How a key compares depends only on its ASCII lowercase, for an ASCII key.
proof fn lemma_compare_form_ascii(x: Seq<char>)
    requires
        all_ascii(x),
    ensures
        compare_form(x) == replace_seq(trim_end_seq(ascii_lower_seq(x), '\\'), '/', '\\'),
{
    lemma_lower_trim(x);
    let t = trim_end_seq(x, '\\');
    let r = replace_seq(t, '/', '\\');
    assert(all_ascii(r)) by {
        assert forall|i: int| 0 <= i < r.len() implies is_ascii_char(#[trigger] r[i]) by {
            assert(t[i] == x[i]);
        }
    }
    assert(ascii_lower_seq(r) =~= replace_seq(ascii_lower_seq(t), '/', '\\'));
}

/// Path keys compare without regard to ASCII case: two ASCII keys that differ
/// only in case overlap and contain the same paths.
pub proof fn law_path_keys_ignore_ascii_case(a: Seq<char>, a2: Seq<char>, b: Seq<char>)
    requires
        all_ascii(a),
        all_ascii(a2),
        ascii_lower_seq(a) == ascii_lower_seq(a2),
    ensures
        compare_form(a) == compare_form(a2),
        paths_overlap_spec(a, b) == paths_overlap_spec(a2, b),
        is_path_ancestor_spec(a, b) == is_path_ancestor_spec(a2, b),
        is_path_ancestor_spec(b, a) == is_path_ancestor_spec(b, a2),
{
    lemma_compare_form_ascii(a);
    lemma_compare_form_ascii(a2);
}


proof fn lemma_moves_issue_prefix(moves: Seq<(u128, String, String)>, discards: Seq<Seq<char>>, k: int, n: int)
    requires
        0 <= k <= n,
        moves_issue(moves, discards, n) is None,
    ensures
        moves_issue(moves, discards, k) is None,
    decreases n - k,
{
    if k < n {
        lemma_moves_issue_prefix(moves, discards, k + 1, n);
    }
}

/// A batch of moves passes only when each move passes on its own: every key
/// can be built, no two moves share a source key, and each move's destination
/// is neither its source nor inside it and overlaps no discard root.
pub proof fn law_accepted_batch_moves_each_pass(moves: Seq<(u128, String, String)>, discards: Seq<Seq<char>>)
    ensures
        moves_issue(moves, discards, moves.len() as int) is None ==> forall|i: int|
            0 <= i < moves.len() ==> (#[trigger] topology_key_spec(moves[i].1@)) is Ok && topology_key_spec(moves[i].2@) is Ok
                && destination_issue(source_key_of(moves, i), destination_key_of(moves, i), discards) is None,
        moves_issue(moves, discards, moves.len() as int) is None ==> forall|i: int, j: int|
            0 <= i < j < moves.len() ==> #[trigger] source_key_of(moves, i) != #[trigger] source_key_of(moves, j),
{
    if moves_issue(moves, discards, moves.len() as int) is None {
        assert forall|i: int| 0 <= i < moves.len() implies (#[trigger] topology_key_spec(moves[i].1@)) is Ok
            && topology_key_spec(moves[i].2@) is Ok && destination_issue(source_key_of(moves, i), destination_key_of(moves, i), discards)
            is None by {
            lemma_moves_issue_prefix(moves, discards, i + 1, moves.len() as int);
        }
        assert forall|i: int, j: int| 0 <= i < j < moves.len() implies #[trigger] source_key_of(moves, i)
            != #[trigger] source_key_of(moves, j) by {
            lemma_moves_issue_prefix(moves, discards, j + 1, moves.len() as int);
            lemma_moves_issue_prefix(moves, discards, i + 1, moves.len() as int);
            assert(topology_key_spec(moves[i].1@) is Ok);
            if source_key_of(moves, i) == source_key_of(moves, j) {
                assert(topology_key_spec(moves[i].1@) == Ok::<Seq<char>, Seq<char>>(source_key_of(moves, j)));
            }
        }
    }
}


/// A path's key does not depend on which separator it is written with: a
/// path and the same path with every `/` made `\` have the same key (or the
/// same error), unless the path then reads as an extended-length path.
pub proof fn law_path_key_ignores_separator_style(path: Seq<char>, preserve: bool)
    requires
        !starts_with_seq(replace_seq(path, '/', '\\'), extended_prefix()),
    ensures
        windows_path_key_spec(path, preserve) == windows_path_key_spec(replace_seq(path, '/', '\\'), preserve),
{
    let r = replace_seq(path, '/', '\\');
    if starts_with_seq(path, extended_prefix()) {
        assert(r.take(4) =~= replace_seq(path.take(4), '/', '\\'));
        assert(replace_seq(extended_prefix(), '/', '\\') =~= extended_prefix());
    }
    if starts_with_seq(path, extended_unc_prefix()) {
        assert(path.take(4) =~= extended_prefix()) by {
            assert(path.take(4) =~= path.take(8).take(4));
        }
        assert(r.take(4) =~= replace_seq(path.take(4), '/', '\\'));
        assert(replace_seq(extended_prefix(), '/', '\\') =~= extended_prefix());
    }
    if starts_with_seq(r, extended_unc_prefix()) {
        assert(r.take(4) =~= r.take(8).take(4));
        assert(r.take(8).take(4) =~= extended_prefix());
    }
    assert(strip_extended_spec(path) == path);
    assert(strip_extended_spec(r) == r);
    assert(replace_seq(r, '/', '\\') =~= r);
}


/// Two ASCII texts that differ only in ASCII case.
pub open spec fn lower_eq(a: Seq<char>, b: Seq<char>) -> bool {
    all_ascii(a) && all_ascii(b) && ascii_lower_seq(a) == ascii_lower_seq(b)
}

proof fn lemma_lower_eq_char(c: char, d: char)
    requires
        ascii_lower(c) == ascii_lower(d),
    ensures
        (c == '\\') == (d == '\\'),
        (c == '/') == (d == '/'),
        (c == '.') == (d == '.'),
        (c == ':') == (d == ':'),
        is_ascii_alpha(c) == is_ascii_alpha(d),
{
    if 'A' <= c <= 'Z' {
        assert((((c as u32) + 32) as char) as u32 == (c as u32) + 32);
    }
    if 'A' <= d <= 'Z' {
        assert((((d as u32) + 32) as char) as u32 == (d as u32) + 32);
    }
}

proof fn lemma_lower_eq_index(a: Seq<char>, b: Seq<char>, i: int)
    requires
        lower_eq(a, b),
        0 <= i < a.len(),
    ensures
        a.len() == b.len(),
        ascii_lower(a[i]) == ascii_lower(b[i]),
{
    assert(ascii_lower_seq(a).len() == ascii_lower_seq(b).len());
    assert(ascii_lower_seq(a)[i] == ascii_lower(a[i]));
    assert(ascii_lower_seq(b)[i] == ascii_lower(b[i]));
}

proof fn lemma_lower_eq_len(a: Seq<char>, b: Seq<char>)
    requires
        lower_eq(a, b),
    ensures
        a.len() == b.len(),
{
    assert(ascii_lower_seq(a).len() == ascii_lower_seq(b).len());
}

proof fn lemma_lower_eq_from_chars(a: Seq<char>, b: Seq<char>)
    requires
        a.len() == b.len(),
        all_ascii(a),
        all_ascii(b),
        forall|i: int| 0 <= i < a.len() ==> ascii_lower(#[trigger] a[i]) == ascii_lower(b[i]),
    ensures
        lower_eq(a, b),
{
    assert(ascii_lower_seq(a) =~= ascii_lower_seq(b));
}

proof fn lemma_split_lower_eq(x: Seq<char>, y: Seq<char>)
    requires
        lower_eq(x, y),
    ensures
        split_seq(x, '\\').len() == split_seq(y, '\\').len(),
        forall|i: int| 0 <= i < split_seq(x, '\\').len() ==> lower_eq(#[trigger] split_seq(x, '\\')[i], split_seq(y, '\\')[i]),
    decreases x.len(),
{
    lemma_lower_eq_len(x, y);
    if x.len() == 0 {
        assert(lower_eq(Seq::<char>::empty(), Seq::<char>::empty())) by {
            assert(ascii_lower_seq(Seq::<char>::empty()) =~= Seq::<char>::empty());
        }
    } else {
        let xd = x.drop_last();
        let yd = y.drop_last();
        assert forall|i: int| 0 <= i < xd.len() implies ascii_lower(#[trigger] xd[i]) == ascii_lower(yd[i]) by {
            lemma_lower_eq_index(x, y, i);
        }
        lemma_lower_eq_from_chars(xd, yd);
        lemma_split_lower_eq(xd, yd);
        lemma_lower_eq_index(x, y, x.len() - 1);
        lemma_lower_eq_char(x.last(), y.last());
        let px = split_seq(xd, '\\');
        let py = split_seq(yd, '\\');
        let sx = split_seq(x, '\\');
        let sy = split_seq(y, '\\');
        if x.last() == '\\' {
            assert forall|i: int| 0 <= i < sx.len() implies lower_eq(#[trigger] sx[i], sy[i]) by {
                if i < px.len() {
                    assert(sx[i] == px[i] && sy[i] == py[i]);
                } else {
                    assert(sx[i] =~= Seq::<char>::empty() && sy[i] =~= Seq::<char>::empty());
                    assert(ascii_lower_seq(Seq::<char>::empty()) =~= Seq::<char>::empty());
                }
            }
        } else {
            lemma_split_seq_nonempty(xd, '\\');
            lemma_split_seq_nonempty(yd, '\\');
            assert forall|i: int| 0 <= i < sx.len() implies lower_eq(#[trigger] sx[i], sy[i]) by {
                if i < px.len() - 1 {
                    assert(sx[i] == px[i] && sy[i] == py[i]);
                } else {
                    let a = px.last();
                    let b = py.last();
                    assert(lower_eq(a, b));
                    lemma_lower_eq_len(a, b);
                    assert forall|q: int| 0 <= q < a.push(x.last()).len() implies ascii_lower(#[trigger] a.push(x.last())[q])
                        == ascii_lower(b.push(y.last())[q]) by {
                        if q < a.len() {
                            lemma_lower_eq_index(a, b, q);
                        }
                    }
                    assert(all_ascii(a.push(x.last()))) by {
                        assert(is_ascii_char(x[x.len() - 1]));
                        assert forall|q: int| 0 <= q < a.push(x.last()).len() implies is_ascii_char(#[trigger] a.push(x.last())[q]) by {
                            if q < a.len() {
                                assert(is_ascii_char(a[q]));
                            }
                        }
                    }
                    assert(all_ascii(b.push(y.last()))) by {
                        assert(is_ascii_char(y[y.len() - 1]));
                        assert forall|q: int| 0 <= q < b.push(y.last()).len() implies is_ascii_char(#[trigger] b.push(y.last())[q]) by {
                            if q < b.len() {
                                assert(is_ascii_char(b[q]));
                            }
                        }
                    }
                    lemma_lower_eq_from_chars(a.push(x.last()), b.push(y.last()));
                }
            }
        }
    }
}


proof fn lemma_lower_eq_piece(a: Seq<char>, b: Seq<char>, target: Seq<char>)
    requires
        lower_eq(a, b),
        a == target,
        forall|i: int| 0 <= i < target.len() ==> (#[trigger] target[i] == '.'),
    ensures
        b == target,
{
    lemma_lower_eq_len(a, b);
    assert forall|i: int| 0 <= i < b.len() implies b[i] == target[i] by {
        lemma_lower_eq_index(a, b, i);
        lemma_lower_eq_char(a[i], b[i]);
    }
    assert(b =~= target);
}

proof fn lemma_fold_lower_eq(px: Seq<Seq<char>>, py: Seq<Seq<char>>, root: nat)
    requires
        px.len() == py.len(),
        forall|i: int| 0 <= i < px.len() ==> lower_eq(#[trigger] px[i], py[i]),
    ensures
        fold_components(px, root) == fold_components(py, root),
    decreases px.len(),
{
    if px.len() > 0 {
        let xd = px.drop_last();
        let yd = py.drop_last();
        assert forall|i: int| 0 <= i < xd.len() implies lower_eq(#[trigger] xd[i], yd[i]) by {
            assert(xd[i] == px[i] && yd[i] == py[i]);
        }
        lemma_fold_lower_eq(xd, yd, root);
        let a = px.last();
        let b = py.last();
        assert(lower_eq(a, b));
        lemma_lower_eq_len(a, b);
        if a == dot_piece() {
            lemma_lower_eq_piece(a, b, dot_piece());
        }
        if b == dot_piece() {
            lemma_lower_eq_piece(b, a, dot_piece());
        }
        if a == dotdot_piece() {
            lemma_lower_eq_piece(a, b, dotdot_piece());
        }
        if b == dotdot_piece() {
            lemma_lower_eq_piece(b, a, dotdot_piece());
        }
    }
}

/// A path's key does not depend on ASCII case: two ASCII paths that differ
/// only in case have the same key (or the same error), unless one of them is
/// written as an extended-length path.
pub proof fn law_path_key_ignores_ascii_case(path: Seq<char>, other: Seq<char>, preserve: bool)
    requires
        lower_eq(path, other),
        !starts_with_seq(path, extended_prefix()),
        !starts_with_seq(other, extended_prefix()),
    ensures
        windows_path_key_spec(path, preserve) == windows_path_key_spec(other, preserve),
{
    lemma_lower_eq_len(path, other);
    if starts_with_seq(path, extended_unc_prefix()) {
        assert(path.take(4) =~= path.take(8).take(4));
        assert(extended_unc_prefix().take(4) =~= extended_prefix());
    }
    if starts_with_seq(other, extended_unc_prefix()) {
        assert(other.take(4) =~= other.take(8).take(4));
        assert(extended_unc_prefix().take(4) =~= extended_prefix());
    }
    assert(strip_extended_spec(path) == path);
    assert(strip_extended_spec(other) == other);
    let raw = replace_seq(path, '/', '\\');
    let raw2 = replace_seq(other, '/', '\\');
    assert forall|i: int| 0 <= i < raw.len() implies ascii_lower(#[trigger] raw[i]) == ascii_lower(raw2[i]) by {
        lemma_lower_eq_index(path, other, i);
        lemma_lower_eq_char(path[i], other[i]);
    }
    assert(all_ascii(raw)) by {
        assert forall|i: int| 0 <= i < raw.len() implies is_ascii_char(#[trigger] raw[i]) by {
            assert(is_ascii_char(path[i]));
        }
    }
    assert(all_ascii(raw2)) by {
        assert forall|i: int| 0 <= i < raw2.len() implies is_ascii_char(#[trigger] raw2[i]) by {
            assert(is_ascii_char(other[i]));
        }
    }
    lemma_lower_eq_from_chars(raw, raw2);
    assert forall|i: int| 0 <= i < raw.len() implies (#[trigger] raw[i] == '\\') == (raw2[i] == '\\') && (raw[i] == ':')
        == (raw2[i] == ':') && is_ascii_alpha(raw[i]) == is_ascii_alpha(raw2[i]) by {
        lemma_lower_eq_index(raw, raw2, i);
        lemma_lower_eq_char(raw[i], raw2[i]);
    }
    if raw.len() >= 2 {
        assert(raw[0] == '\\' <==> raw2[0] == '\\');
        assert(raw[1] == '\\' <==> raw2[1] == '\\');
        assert(is_unc_seq(raw) == is_unc_seq(raw2)) by {
            if is_unc_seq(raw) {
                assert(raw.take(2)[0] == '\\' && raw.take(2)[1] == '\\');
                assert(raw2.take(2) =~= unc_lead());
            }
            if is_unc_seq(raw2) {
                assert(raw2.take(2)[0] == '\\' && raw2.take(2)[1] == '\\');
                assert(raw.take(2) =~= unc_lead());
            }
        }
        let t = raw.take(2);
        let t2 = raw2.take(2);
        assert forall|i: int| 0 <= i < t.len() implies ascii_lower(#[trigger] t[i]) == ascii_lower(t2[i]) by {
            lemma_lower_eq_index(raw, raw2, i);
        }
        assert(all_ascii(t) && all_ascii(t2)) by {
            assert(is_ascii_char(raw[0]) && is_ascii_char(raw[1]));
            assert(is_ascii_char(raw2[0]) && is_ascii_char(raw2[1]));
        }
        lemma_lower_eq_from_chars(t, t2);
    }
    lemma_split_lower_eq(raw, raw2);
    lemma_fold_lower_eq(split_seq(raw, '\\'), split_seq(raw2, '\\'), root_count(is_unc_seq(raw)));
}

} // verus!
