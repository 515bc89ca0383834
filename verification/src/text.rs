//! Character-level string helpers shared by the path, encoder and rule logic.

use vstd::prelude::*;
use vstd::string::StringExecFns;

verus! {

/// `String::push` appends exactly one character to the end of the string.
pub assume_specification[ String::push ](s: &mut String, ch: char)
    ensures
        final(s)@ == old(s)@.push(ch),
;

/// The characters of a string slice, in order.
pub fn chars_of(s: &str) -> (v: Vec<char>)
    ensures
        v@ == s@,
{
    let mut v: Vec<char> = Vec::new();
    for c in it: s.chars()
        invariant
            v@ == it.seq().take(it.index() as int),
    {
        v.push(c);
    }
    v
}

/// Build a string from a sequence of characters.
pub fn string_from_chars(v: &[char]) -> (s: String)
    ensures
        s@ == v@,
{
    let mut s = String::new();
    let mut i: usize = 0;
    while i < v.len()
        invariant
            i <= v.len(),
            s@ == v@.take(i as int),
        decreases v.len() - i,
    {
        s.push(v[i]);
        i = i + 1;
        assert(s@ =~= v@.take(i as int));
    }
    assert(v@.take(v.len() as int) =~= v@);
    s
}

} // verus!

verus! {

/// Pieces of `s` between occurrences of `sep`, like `str::split` with a
/// single-character pattern: `n` separators always give `n + 1` pieces.
pub open spec fn split_seq(s: Seq<char>, sep: char) -> Seq<Seq<char>>
    decreases s.len(),
{
    if s.len() == 0 {
        seq![Seq::<char>::empty()]
    } else {
        let prev = split_seq(s.drop_last(), sep);
        if s.last() == sep {
            prev.push(Seq::<char>::empty())
        } else {
            prev.update(prev.len() - 1, prev.last().push(s.last()))
        }
    }
}

pub proof fn lemma_split_seq_nonempty(s: Seq<char>, sep: char)
    ensures
        split_seq(s, sep).len() >= 1,
    decreases s.len(),
{
    if s.len() > 0 {
        lemma_split_seq_nonempty(s.drop_last(), sep);
    }
}

/// The non-empty pieces of `s` between occurrences of `sep`.
pub open spec fn nonempty_pieces(s: Seq<char>, sep: char) -> Seq<Seq<char>> {
    split_seq(s, sep).filter(|p: Seq<char>| p.len() > 0)
}

/// `parts` joined with `sep` between consecutive parts, like `[String]::join`.
pub open spec fn join_seq(parts: Seq<Seq<char>>, sep: Seq<char>) -> Seq<char>
    decreases parts.len(),
{
    if parts.len() == 0 {
        Seq::<char>::empty()
    } else if parts.len() == 1 {
        parts[0]
    } else {
        join_seq(parts.drop_last(), sep) + sep + parts.last()
    }
}

/// `s` with every trailing `c` removed, like `str::trim_end_matches(c)`.
pub open spec fn trim_end_seq(s: Seq<char>, c: char) -> Seq<char>
    decreases s.len(),
{
    if s.len() > 0 && s.last() == c {
        trim_end_seq(s.drop_last(), c)
    } else {
        s
    }
}

/// `s` with every leading `c` removed, like `str::trim_start_matches(c)`.
pub open spec fn trim_start_seq(s: Seq<char>, c: char) -> Seq<char>
    decreases s.len(),
{
    if s.len() > 0 && s[0] == c {
        trim_start_seq(s.drop_first(), c)
    } else {
        s
    }
}

/// `s` with every occurrence of `from` replaced by `to`.
pub open spec fn replace_seq(s: Seq<char>, from: char, to: char) -> Seq<char> {
    s.map_values(|c: char| if c == from { to } else { c })
}

/// Whether `s` begins with `prefix`.
pub open spec fn starts_with_seq(s: Seq<char>, prefix: Seq<char>) -> bool {
    prefix.len() <= s.len() && s.take(prefix.len() as int) == prefix
}

/// Whether `needle` occurs somewhere in `s`, like `str::contains`.
pub open spec fn contains_seq(s: Seq<char>, needle: Seq<char>) -> bool {
    exists|i: int| 0 <= i <= s.len() - needle.len() && #[trigger] s.subrange(i, i + needle.len()) == needle
}

/// Whether a character is in the ASCII range.
pub open spec fn is_ascii_char(c: char) -> bool {
    (c as u32) < 128
}

/// ASCII lowercase of one character; other characters are unchanged.
pub open spec fn ascii_lower(c: char) -> char {
    if 'A' <= c <= 'Z' { ((c as u32) + 32) as char } else { c }
}

/// ASCII lowercase of every character of a sequence.
pub open spec fn ascii_lower_seq(s: Seq<char>) -> Seq<char> {
    s.map_values(|c: char| ascii_lower(c))
}

/// Whether every character is ASCII.
pub open spec fn all_ascii(s: Seq<char>) -> bool {
    forall|i: int| 0 <= i < s.len() ==> is_ascii_char(#[trigger] s[i])
}

/// What `str::to_lowercase` returns for a text that holds a character outside
/// ASCII (the Unicode lowercase mapping).
pub uninterp spec fn unicode_lowercase(s: Seq<char>) -> Seq<char>;

/// What `str::to_lowercase` returns: the ASCII lowercase of an all-ASCII text,
/// else the Unicode lowercase mapping.
pub open spec fn lowercase(s: Seq<char>) -> Seq<char> {
    if all_ascii(s) {
        ascii_lower_seq(s)
    } else {
        unicode_lowercase(s)
    }
}

/// Calls `str::to_lowercase`. std maps each character to its Unicode lowercase;
/// an ASCII character maps to exactly its ASCII lowercase. So the contract states
/// that an all-ASCII text lowercases to its ASCII lowercase, and that an ASCII
/// prefix of any input becomes its ASCII lowercase at the front of the output; for
/// a text with a character outside ASCII it names the result `unicode_lowercase`.
/// Nothing is claimed about how characters outside ASCII map.
#[verifier::external_body]
pub(crate) fn to_lowercase(s: &str) -> (r: String)
    ensures
        all_ascii(s@) ==> r@ == ascii_lower_seq(s@),
        !all_ascii(s@) ==> r@ == unicode_lowercase(s@),
        forall|k: int|
            0 <= k <= s@.len() && all_ascii(#[trigger] s@.take(k)) ==> r@.len() >= k && r@.take(k)
                == ascii_lower_seq(s@.take(k)),
{
    s.to_lowercase()
}

/// The characters of `v` with every `from` replaced by `to`.
pub fn replace_chars(v: &[char], from: char, to: char) -> (r: Vec<char>)
    ensures
        r@ == replace_seq(v@, from, to),
{
    let mut r: Vec<char> = Vec::new();
    let mut i: usize = 0;
    while i < v.len()
        invariant
            i <= v.len(),
            r@ == replace_seq(v@.take(i as int), from, to),
        decreases v.len() - i,
    {
        let c = v[i];
        if c == from {
            r.push(to);
        } else {
            r.push(c);
        }
        i = i + 1;
        assert(r@ =~= replace_seq(v@.take(i as int), from, to));
    }
    assert(v@.take(v.len() as int) =~= v@);
    r
}

/// Lowercase a sequence of characters with `str::to_lowercase`.
pub fn lowercase_chars(v: &[char]) -> (r: Vec<char>)
    ensures
        r@ == lowercase(v@),
        v@.len() == 0 ==> lowercase(v@).len() == 0,
        all_ascii(v@) ==> lowercase(v@) == ascii_lower_seq(v@),
        forall|k: int|
            0 <= k <= v@.len() && all_ascii(#[trigger] v@.take(k)) ==> lowercase(v@).len() >= k
                && lowercase(v@).take(k) == ascii_lower_seq(v@.take(k)),
{
    let s = string_from_chars(v);
    let l = to_lowercase(s.as_str());
    chars_of(l.as_str())
}

/// Split a character sequence at every `sep`, like `str::split`.
pub fn split_chars(v: &[char], sep: char) -> (r: Vec<Vec<char>>)
    ensures
        r@.map_values(|p: Vec<char>| p@) == split_seq(v@, sep),
{
    let mut done: Vec<Vec<char>> = Vec::new();
    let mut cur: Vec<char> = Vec::new();
    let mut i: usize = 0;
    while i < v.len()
        invariant
            i <= v.len(),
            done@.map_values(|p: Vec<char>| p@).push(cur@) == split_seq(v@.take(i as int), sep),
        decreases v.len() - i,
    {
        let c = v[i];
        let ghost before = done@.map_values(|p: Vec<char>| p@).push(cur@);
        assert(v@.take(i + 1).drop_last() =~= v@.take(i as int));
        if c == sep {
            let finished = cur;
            done.push(finished);
            cur = Vec::new();
            assert(done@.map_values(|p: Vec<char>| p@).push(cur@) =~= before.push(Seq::<char>::empty()));
        } else {
            cur.push(c);
            assert(done@.map_values(|p: Vec<char>| p@).push(cur@) =~= before.update(
                before.len() - 1,
                before.last().push(c),
            ));
        }
        i = i + 1;
    }
    assert(v@.take(v.len() as int) =~= v@);
    done.push(cur);
    assert(done@.map_values(|p: Vec<char>| p@) =~= split_seq(v@, sep));
    done
}

/// Join character sequences with a separator.
pub fn join_chars(parts: &[Vec<char>], sep: &[char]) -> (r: Vec<char>)
    ensures
        r@ == join_seq(parts@.map_values(|p: Vec<char>| p@), sep@),
{
    let mut r: Vec<char> = Vec::new();
    let mut i: usize = 0;
    while i < parts.len()
        invariant
            i <= parts.len(),
            r@ == join_seq(parts@.map_values(|p: Vec<char>| p@).take(i as int), sep@),
        decreases parts.len() - i,
    {
        let ghost pv = parts@.map_values(|p: Vec<char>| p@);
        assert(pv.take(i + 1).drop_last() =~= pv.take(i as int));
        if i > 0 {
            let mut k: usize = 0;
            let ghost r0 = r@;
            while k < sep.len()
                invariant
                    k <= sep.len(),
                    r@ == r0 + sep@.take(k as int),
                decreases sep.len() - k,
            {
                r.push(sep[k]);
                k = k + 1;
                assert(r@ =~= r0 + sep@.take(k as int));
            }
            assert(sep@.take(sep.len() as int) =~= sep@);
        }
        let part = &parts[i];
        let mut k: usize = 0;
        let ghost r1 = r@;
        while k < part.len()
            invariant
                k <= part.len(),
                r@ == r1 + part@.take(k as int),
            decreases part.len() - k,
        {
            r.push(part[k]);
            k = k + 1;
            assert(r@ =~= r1 + part@.take(k as int));
        }
        assert(part@.take(part.len() as int) =~= part@);
        i = i + 1;
        if i == 1 {
            assert(r@ =~= join_seq(pv.take(i as int), sep@));
        } else {
            assert(r@ =~= join_seq(pv.take(i as int), sep@));
        }
    }
    assert(parts@.map_values(|p: Vec<char>| p@).take(parts.len() as int) =~= parts@.map_values(
        |p: Vec<char>| p@,
    ));
    r
}

/// `v` with every trailing `c` removed.
pub fn trim_end_chars(v: &[char], c: char) -> (r: Vec<char>)
    ensures
        r@ == trim_end_seq(v@, c),
{
    let mut n: usize = v.len();
    assert(v@.take(n as int) =~= v@);
    while n > 0 && v[n - 1] == c
        invariant
            n <= v.len(),
            trim_end_seq(v@.take(n as int), c) == trim_end_seq(v@, c),
        decreases n,
    {
        assert(v@.take(n as int).drop_last() =~= v@.take(n - 1));
        n = n - 1;
    }
    let mut r: Vec<char> = Vec::new();
    let mut i: usize = 0;
    while i < n
        invariant
            i <= n <= v.len(),
            r@ == v@.take(i as int),
        decreases n - i,
    {
        r.push(v[i]);
        i = i + 1;
        assert(r@ =~= v@.take(i as int));
    }
    assert(trim_end_seq(v@.take(n as int), c) == v@.take(n as int));
    r
}

/// Whether `v` begins with `prefix`.
pub fn starts_with_chars(v: &[char], prefix: &[char]) -> (b: bool)
    ensures
        b == starts_with_seq(v@, prefix@),
{
    if prefix.len() > v.len() {
        return false;
    }
    let mut i: usize = 0;
    while i < prefix.len()
        invariant
            i <= prefix.len() <= v.len(),
            forall|j: int| 0 <= j < i ==> v@[j] == prefix@[j],
        decreases prefix.len() - i,
    {
        if v[i] != prefix[i] {
            assert(v@.take(prefix.len() as int)[i as int] != prefix@[i as int]);
            return false;
        }
        i = i + 1;
    }
    assert(v@.take(prefix.len() as int) =~= prefix@);
    true
}

/// The characters of `v` from index `from` on.
pub fn skip_chars(v: &[char], from: usize) -> (r: Vec<char>)
    requires
        from <= v.len(),
    ensures
        r@ == v@.skip(from as int),
{
    let mut r: Vec<char> = Vec::new();
    let mut i: usize = from;
    while i < v.len()
        invariant
            from <= i <= v.len(),
            r@ == v@.subrange(from as int, i as int),
        decreases v.len() - i,
    {
        r.push(v[i]);
        i = i + 1;
        assert(r@ =~= v@.subrange(from as int, i as int));
    }
    assert(r@ =~= v@.skip(from as int));
    r
}

/// The first `n` characters of `v`.
pub fn take_chars(v: &[char], n: usize) -> (r: Vec<char>)
    requires
        n <= v.len(),
    ensures
        r@ == v@.take(n as int),
{
    let mut r: Vec<char> = Vec::new();
    let mut i: usize = 0;
    while i < n
        invariant
            i <= n <= v.len(),
            r@ == v@.take(i as int),
        decreases n - i,
    {
        r.push(v[i]);
        i = i + 1;
        assert(r@ =~= v@.take(i as int));
    }
    r
}

/// Append the characters of `tail` to `v`.
pub fn append_chars(v: &mut Vec<char>, tail: &[char])
    ensures
        final(v)@ == old(v)@ + tail@,
{
    let ghost v0 = v@;
    let mut i: usize = 0;
    while i < tail.len()
        invariant
            i <= tail.len(),
            v@ == v0 + tail@.take(i as int),
        decreases tail.len() - i,
    {
        v.push(tail[i]);
        i = i + 1;
        assert(v@ =~= v0 + tail@.take(i as int));
    }
    assert(tail@.take(tail.len() as int) =~= tail@);
}

/// A copy of a character sequence.
pub fn copy_chars(v: &[char]) -> (r: Vec<char>)
    ensures
        r@ == v@,
{
    let r = take_chars(v, v.len());
    assert(v@.take(v.len() as int) =~= v@);
    r
}

/// Whether two character sequences are equal.
pub fn chars_eq(a: &[char], b: &[char]) -> (r: bool)
    ensures
        r == (a@ == b@),
{
    if a.len() != b.len() {
        return false;
    }
    let mut i: usize = 0;
    while i < a.len()
        invariant
            i <= a.len() == b.len(),
            forall|j: int| 0 <= j < i ==> a@[j] == b@[j],
        decreases a.len() - i,
    {
        if a[i] != b[i] {
            return false;
        }
        i = i + 1;
    }
    assert(a@ =~= b@);
    true
}

} // verus!

verus! {

/// The pieces of `parts` that are not empty, in order.
pub open spec fn drop_empty(parts: Seq<Seq<char>>) -> Seq<Seq<char>>
    decreases parts.len(),
{
    if parts.len() == 0 {
        Seq::<Seq<char>>::empty()
    } else {
        let prev = drop_empty(parts.drop_last());
        if parts.last().len() > 0 {
            prev.push(parts.last())
        } else {
            prev
        }
    }
}

/// The non-empty pieces of `v` between occurrences of `sep`.
pub fn nonempty_pieces_chars(v: &[char], sep: char) -> (r: Vec<Vec<char>>)
    ensures
        r@.map_values(|p: Vec<char>| p@) == drop_empty(split_seq(v@, sep)),
        forall|i: int| 0 <= i < r@.len() ==> r@[i]@.len() > 0,
{
    let pieces = split_chars(v, sep);
    let ghost pv = pieces@.map_values(|p: Vec<char>| p@);
    let mut r: Vec<Vec<char>> = Vec::new();
    let mut i: usize = 0;
    while i < pieces.len()
        invariant
            i <= pieces.len(),
            pv == pieces@.map_values(|p: Vec<char>| p@),
            r@.map_values(|p: Vec<char>| p@) == drop_empty(pv.take(i as int)),
            forall|j: int| 0 <= j < r@.len() ==> r@[j]@.len() > 0,
        decreases pieces.len() - i,
    {
        assert(pv.take(i + 1).drop_last() =~= pv.take(i as int));
        let ghost before = r@.map_values(|p: Vec<char>| p@);
        if pieces[i].len() > 0 {
            r.push(copy_chars(pieces[i].as_slice()));
            assert(r@.map_values(|p: Vec<char>| p@) =~= before.push(pv[i as int]));
        }
        i = i + 1;
    }
    assert(pv.take(pieces.len() as int) =~= pv);
    r
}

} // verus!

verus! {

pub proof fn lemma_split_no_sep(s: Seq<char>, sep: char)
    requires
        forall|j: int| 0 <= j < s.len() ==> s[j] != sep,
    ensures
        split_seq(s, sep) == seq![s],
    decreases s.len(),
{
    if s.len() > 0 {
        assert(s[s.len() - 1] != sep);
        lemma_split_no_sep(s.drop_last(), sep);
        assert(s.drop_last().push(s.last()) =~= s);
        let prev = split_seq(s.drop_last(), sep);
        assert(prev.len() == 1);
        assert(prev.last() == s.drop_last());
        assert(split_seq(s, sep) == prev.update(prev.len() - 1, prev.last().push(s.last())));
        assert(prev.update(prev.len() - 1, prev.last().push(s.last())) =~= seq![s]);
    } else {
        assert(s =~= Seq::<char>::empty());
    }
}

/// The first piece of a split begins with every character before the first separator.
pub proof fn lemma_split_first(s: Seq<char>, sep: char, m: int)
    requires
        0 <= m <= s.len(),
        forall|j: int| 0 <= j < m ==> s[j] != sep,
    ensures
        split_seq(s, sep)[0].len() >= m,
        split_seq(s, sep)[0].take(m) == s.take(m),
    decreases s.len(),
{
    if s.len() == m {
        lemma_split_no_sep(s, sep);
        assert(s.take(m) =~= s);
    } else {
        lemma_split_first(s.drop_last(), sep, m);
        lemma_split_seq_nonempty(s.drop_last(), sep);
        let prev = split_seq(s.drop_last(), sep);
        assert(s.drop_last().take(m) =~= s.take(m));
        if s.last() != sep && prev.len() == 1 {
            assert(prev.last().push(s.last()).take(m) =~= prev[0].take(m));
        }
    }
}

/// Dropping empty pieces keeps a non-empty first piece in front.
pub proof fn lemma_drop_empty_first(parts: Seq<Seq<char>>)
    requires
        parts.len() >= 1,
        parts[0].len() > 0,
    ensures
        drop_empty(parts).len() >= 1,
        drop_empty(parts)[0] == parts[0],
    decreases parts.len(),
{
    if parts.len() > 1 {
        lemma_drop_empty_first(parts.drop_last());
        assert(parts.drop_last()[0] == parts[0]);
    } else {
        assert(parts.drop_last() =~= Seq::<Seq<char>>::empty());
        assert(drop_empty(parts.drop_last()) == Seq::<Seq<char>>::empty());
        assert(drop_empty(parts) == Seq::<Seq<char>>::empty().push(parts[0]));
    }
}

/// Every piece kept by `drop_empty` is non-empty.
pub proof fn lemma_drop_empty_nonempty(parts: Seq<Seq<char>>)
    ensures
        forall|i: int| 0 <= i < drop_empty(parts).len() ==> #[trigger] drop_empty(parts)[i].len() > 0,
    decreases parts.len(),
{
    if parts.len() > 0 {
        lemma_drop_empty_nonempty(parts.drop_last());
        let prev = drop_empty(parts.drop_last());
        assert forall|i: int| 0 <= i < drop_empty(parts).len() implies #[trigger] drop_empty(
            parts,
        )[i].len() > 0 by {
            if i < prev.len() {
                assert(drop_empty(parts)[i] == prev[i]);
            }
        }
    }
}

/// `trim_end_seq` keeps a prefix, ends in something other than `c`, and keeps
/// everything up to the last character that is not `c`.
pub proof fn lemma_trim_end(s: Seq<char>, c: char)
    ensures
        trim_end_seq(s, c).len() <= s.len(),
        trim_end_seq(s, c) == s.take(trim_end_seq(s, c).len() as int),
        trim_end_seq(s, c).len() > 0 ==> trim_end_seq(s, c).last() != c,
        forall|j: int| 0 <= j < s.len() && s[j] != c ==> trim_end_seq(s, c).len() > j,
    decreases s.len(),
{
    if s.len() > 0 && s.last() == c {
        lemma_trim_end(s.drop_last(), c);
        let t = trim_end_seq(s.drop_last(), c);
        assert(s.drop_last().take(t.len() as int) =~= s.take(t.len() as int));
        assert forall|j: int| 0 <= j < s.len() && s[j] != c implies trim_end_seq(s, c).len() > j by {
            assert(s.drop_last()[j] == s[j]);
        }
    } else {
        assert(s.take(s.len() as int) =~= s);
    }
}

} // verus!

verus! {

/// The decimal digit character for `d` (`0` to `9`).
pub open spec fn digit_char(d: nat) -> char {
    if d == 0 {
        '0'
    } else if d == 1 {
        '1'
    } else if d == 2 {
        '2'
    } else if d == 3 {
        '3'
    } else if d == 4 {
        '4'
    } else if d == 5 {
        '5'
    } else if d == 6 {
        '6'
    } else if d == 7 {
        '7'
    } else if d == 8 {
        '8'
    } else {
        '9'
    }
}

/// The decimal representation of `n`, as `u32::to_string` writes it.
pub open spec fn decimal(n: nat) -> Seq<char>
    decreases n,
{
    if n < 10 {
        seq![digit_char(n)]
    } else {
        decimal(n / 10).push(digit_char(n % 10))
    }
}

/// Append the decimal digits of `n` to `v`.
pub fn push_decimal(v: &mut Vec<char>, n: u32)
    ensures
        final(v)@ == old(v)@ + decimal(n as nat),
    decreases n,
{
    if n >= 10 {
        push_decimal(v, n / 10);
    }
    let d = n % 10;
    let c = if d == 0 {
        '0'
    } else if d == 1 {
        '1'
    } else if d == 2 {
        '2'
    } else if d == 3 {
        '3'
    } else if d == 4 {
        '4'
    } else if d == 5 {
        '5'
    } else if d == 6 {
        '6'
    } else if d == 7 {
        '7'
    } else if d == 8 {
        '8'
    } else {
        '9'
    };
    let ghost before = v@;
    v.push(c);
    proof {
        if n >= 10 {
            assert(v@ =~= old(v)@ + decimal(n as nat));
        } else {
            assert(v@ =~= old(v)@ + decimal(n as nat));
        }
    }
}

/// The decimal representation of `n` as a string.
pub fn u32_to_string(n: u32) -> (s: String)
    ensures
        s@ == decimal(n as nat),
{
    let mut v: Vec<char> = Vec::new();
    push_decimal(&mut v, n);
    assert(v@ =~= decimal(n as nat));
    string_from_chars(v.as_slice())
}

/// Append the characters of `s` to `v`.
pub fn push_str(v: &mut Vec<char>, s: &str)
    ensures
        final(v)@ == old(v)@ + s@,
{
    let c = chars_of(s);
    append_chars(v, c.as_slice());
}

/// A string made of `a` followed by `b`.
pub fn concat2(a: &str, b: &str) -> (r: String)
    ensures
        r@ == a@ + b@,
{
    let mut v: Vec<char> = Vec::new();
    push_str(&mut v, a);
    push_str(&mut v, b);
    assert(v@ =~= a@ + b@);
    string_from_chars(v.as_slice())
}

/// A copy of a string.
pub fn copy_string(s: &str) -> (r: String)
    ensures
        r@ == s@,
{
    let c = chars_of(s);
    string_from_chars(c.as_slice())
}

/// Whether two strings hold the same characters.
pub fn str_eq(a: &str, b: &str) -> (r: bool)
    ensures
        r == (a@ == b@),
{
    let x = chars_of(a);
    let y = chars_of(b);
    chars_eq(x.as_slice(), y.as_slice())
}

} // verus!

verus! {

/// The character sequences of a sequence of strings.
pub open spec fn string_views(v: Seq<String>) -> Seq<Seq<char>> {
    v.map_values(|s: String| s@)
}

/// Append a copy of `s` to `args`.
pub fn push_lit(args: &mut Vec<String>, s: &str)
    ensures
        string_views(final(args)@) == string_views(old(args)@).push(s@),
{
    let ghost before = args@;
    args.push(String::from_str(s));
    assert(string_views(args@) =~= string_views(before).push(s@));
}

/// Append `s` to `args`.
pub fn push_owned(args: &mut Vec<String>, s: String)
    ensures
        string_views(final(args)@) == string_views(old(args)@).push(s@),
{
    let ghost before = args@;
    let ghost sv = s@;
    args.push(s);
    assert(string_views(args@) =~= string_views(before).push(sv));
}

/// Append copies of the strings of `tail` to `args`.
pub fn extend_strings(args: &mut Vec<String>, tail: &Vec<String>)
    ensures
        string_views(final(args)@) == string_views(old(args)@) + string_views(tail@),
{
    let ghost before = args@;
    let mut i: usize = 0;
    while i < tail.len()
        invariant
            i <= tail.len(),
            string_views(args@) == string_views(before) + string_views(tail@).take(i as int),
        decreases tail.len() - i,
    {
        let ghost prev = args@;
        args.push(tail[i].clone());
        assert(string_views(args@) =~= string_views(prev).push(tail@[i as int]@));
        assert(string_views(tail@).take(i + 1) =~= string_views(tail@).take(i as int).push(
            tail@[i as int]@,
        ));
        i = i + 1;
    }
    assert(string_views(tail@).take(tail.len() as int) =~= string_views(tail@));
}

/// `n` followed by `k`, as `format!("{n}k")` writes a bitrate.
pub open spec fn kbps_text(n: nat) -> Seq<char> {
    decimal(n).push('k')
}

/// The bitrate text of `n`.
pub fn kbps_string(n: u32) -> (s: String)
    ensures
        s@ == kbps_text(n as nat),
{
    let mut v: Vec<char> = Vec::new();
    push_decimal(&mut v, n);
    v.push('k');
    assert(v@ =~= kbps_text(n as nat));
    string_from_chars(v.as_slice())
}

} // verus!

verus! {

/// Whether `c` has the Unicode `White_Space` property, as `char::is_whitespace` tests.
pub open spec fn is_ws(c: char) -> bool {
    let u = c as u32;
    ||| (0x9 <= u && u <= 0xd)
    ||| u == 0x20
    ||| u == 0x85
    ||| u == 0xa0
    ||| u == 0x1680
    ||| (0x2000 <= u && u <= 0x200a)
    ||| u == 0x2028
    ||| u == 0x2029
    ||| u == 0x202f
    ||| u == 0x205f
    ||| u == 0x3000
}

/// Whether `c` is white space.
pub fn is_whitespace(c: char) -> (b: bool)
    ensures
        b == is_ws(c),
{
    let u = c as u32;
    (0x9 <= u && u <= 0xd) || u == 0x20 || u == 0x85 || u == 0xa0 || u == 0x1680 || (0x2000 <= u
        && u <= 0x200a) || u == 0x2028 || u == 0x2029 || u == 0x202f || u == 0x205f || u == 0x3000
}

/// Pieces of `s` between white-space characters.
pub open spec fn split_ws(s: Seq<char>) -> Seq<Seq<char>>
    decreases s.len(),
{
    if s.len() == 0 {
        seq![Seq::<char>::empty()]
    } else {
        let prev = split_ws(s.drop_last());
        if is_ws(s.last()) {
            prev.push(Seq::<char>::empty())
        } else {
            prev.update(prev.len() - 1, prev.last().push(s.last()))
        }
    }
}

/// The white-space separated words of `s`, like `str::split_whitespace`.
pub open spec fn words(s: Seq<char>) -> Seq<Seq<char>> {
    drop_empty(split_ws(s))
}

/// Split a character sequence at every white-space character.
pub fn split_ws_chars(v: &[char]) -> (r: Vec<Vec<char>>)
    ensures
        r@.map_values(|p: Vec<char>| p@) == split_ws(v@),
{
    let mut done: Vec<Vec<char>> = Vec::new();
    let mut cur: Vec<char> = Vec::new();
    let mut i: usize = 0;
    while i < v.len()
        invariant
            i <= v.len(),
            done@.map_values(|p: Vec<char>| p@).push(cur@) == split_ws(v@.take(i as int)),
        decreases v.len() - i,
    {
        let c = v[i];
        let ghost before = done@.map_values(|p: Vec<char>| p@).push(cur@);
        assert(v@.take(i + 1).drop_last() =~= v@.take(i as int));
        if is_whitespace(c) {
            let finished = cur;
            done.push(finished);
            cur = Vec::new();
            assert(done@.map_values(|p: Vec<char>| p@).push(cur@) =~= before.push(Seq::<char>::empty()));
        } else {
            cur.push(c);
            assert(done@.map_values(|p: Vec<char>| p@).push(cur@) =~= before.update(
                before.len() - 1,
                before.last().push(c),
            ));
        }
        i = i + 1;
    }
    assert(v@.take(v.len() as int) =~= v@);
    done.push(cur);
    assert(done@.map_values(|p: Vec<char>| p@) =~= split_ws(v@));
    done
}

/// The white-space separated words of `v`.
pub fn words_chars(v: &[char]) -> (r: Vec<Vec<char>>)
    ensures
        r@.map_values(|p: Vec<char>| p@) == words(v@),
{
    let pieces = split_ws_chars(v);
    let ghost pv = pieces@.map_values(|p: Vec<char>| p@);
    let mut r: Vec<Vec<char>> = Vec::new();
    let mut i: usize = 0;
    while i < pieces.len()
        invariant
            i <= pieces.len(),
            pv == pieces@.map_values(|p: Vec<char>| p@),
            r@.map_values(|p: Vec<char>| p@) == drop_empty(pv.take(i as int)),
        decreases pieces.len() - i,
    {
        assert(pv.take(i + 1).drop_last() =~= pv.take(i as int));
        let ghost before = r@.map_values(|p: Vec<char>| p@);
        if pieces[i].len() > 0 {
            r.push(copy_chars(pieces[i].as_slice()));
            assert(r@.map_values(|p: Vec<char>| p@) =~= before.push(pv[i as int]));
        }
        i = i + 1;
    }
    assert(pv.take(pieces.len() as int) =~= pv);
    r
}

} // verus!
