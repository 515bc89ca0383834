//! Opaque page cursors: the bytes of a cursor written with the URL-safe
//! base64 alphabet and no padding, and read back.

use vstd::prelude::*;
use vstd::string::StringExecFns;
use crate::organize::error::OrganizeError;
use crate::text::{chars_of, string_from_chars};

verus! {

/// The character of base64 digit `d` in the URL-safe alphabet.
pub open spec fn b64_char(d: u32) -> char {
    if d < 26 {
        (65 + d) as char
    } else if d < 52 {
        (97 + d - 26) as char
    } else if d < 62 {
        (48 + d - 52) as char
    } else if d == 62 {
        '-'
    } else {
        '_'
    }
}

/// The base64 digit character `c` stands for, if it is in the alphabet.
pub open spec fn b64_value(c: char) -> Option<u32> {
    let v = c as u32;
    if 65 <= v <= 90 {
        Some((v - 65) as u32)
    } else if 97 <= v <= 122 {
        Some((v - 97 + 26) as u32)
    } else if 48 <= v <= 57 {
        Some((v - 48 + 52) as u32)
    } else if c == '-' {
        Some(62u32)
    } else if c == '_' {
        Some(63u32)
    } else {
        None
    }
}

/// The 24 bits of a chunk of up to three bytes, missing bytes as 0.
pub open spec fn chunk_bits(b: Seq<u8>, j: int) -> u32 {
    let x0: u32 = b[3 * j] as u32;
    let x1: u32 = if 3 * j + 1 < b.len() { b[3 * j + 1] as u32 } else { 0 };
    let x2: u32 = if 3 * j + 2 < b.len() { b[3 * j + 2] as u32 } else { 0 };
    (x0 << 16u32) | (x1 << 8u32) | x2
}

/// The characters of chunk `j`: two, then one more for each byte past the
/// first.
pub open spec fn chunk_chars(b: Seq<u8>, j: int) -> Seq<char> {
    let v = chunk_bits(b, j);
    let head = seq![b64_char((v >> 18u32) & 63u32), b64_char((v >> 12u32) & 63u32)];
    let mid = if 3 * j + 1 < b.len() { seq![b64_char((v >> 6u32) & 63u32)] } else { Seq::<char>::empty() };
    let tail = if 3 * j + 2 < b.len() { seq![b64_char(v & 63u32)] } else { Seq::<char>::empty() };
    head + mid + tail
}

/// The characters of the first `k` chunks.
pub open spec fn encode_upto(b: Seq<u8>, k: int) -> Seq<char>
    decreases k,
{
    if k <= 0 {
        Seq::empty()
    } else {
        encode_upto(b, k - 1) + chunk_chars(b, k - 1)
    }
}

/// The number of chunks of three bytes, the last maybe shorter.
pub open spec fn chunk_count(n: int) -> int {
    (n + 2) / 3
}

/// The cursor text of bytes `b`.
pub open spec fn encode_spec(b: Seq<u8>) -> Seq<char> {
    encode_upto(b, chunk_count(b.len() as int))
}

/// The bytes of group `j` of four digits: three for a full group, one for
/// two digits, two for three.
pub open spec fn group_bytes(d: Seq<u32>, j: int) -> Seq<u8> {
    let a = d[4 * j];
    let b = d[4 * j + 1];
    let byte0 = ((a << 2u32) | (b >> 4u32)) as u8;
    if 4 * j + 2 >= d.len() {
        seq![byte0]
    } else {
        let c = d[4 * j + 2];
        let byte1 = (((b & 15u32) << 4u32) | (c >> 2u32)) as u8;
        if 4 * j + 3 >= d.len() {
            seq![byte0, byte1]
        } else {
            let e = d[4 * j + 3];
            seq![byte0, byte1, (((c & 3u32) << 6u32) | e) as u8]
        }
    }
}

/// The bytes of the first `k` groups.
pub open spec fn decode_upto(d: Seq<u32>, k: int) -> Seq<u8>
    decreases k,
{
    if k <= 0 {
        Seq::empty()
    } else {
        decode_upto(d, k - 1) + group_bytes(d, k - 1)
    }
}

/// Every character is a digit of the alphabet.
pub open spec fn all_digits(s: Seq<char>) -> bool {
    forall|i: int| 0 <= i < s.len() ==> #[trigger] b64_value(s[i]) is Some
}

/// The digits of a cursor text.
pub open spec fn digits_of(s: Seq<char>) -> Seq<u32> {
    s.map_values(|c: char| b64_value(c)->Some_0)
}

/// The bytes of a cursor text: none when it is empty, one digit past a
/// whole number of groups, or holds a character outside the alphabet.
pub open spec fn decode_spec(s: Seq<char>) -> Option<Seq<u8>> {
    if s.len() == 0 || s.len() % 4 == 1 || !all_digits(s) {
        None
    } else {
        Some(decode_upto(digits_of(s), (s.len() as int + 3) / 4))
    }
}

fn b64_char_exec(d: u32) -> (c: char)
    requires
        d < 64,
    ensures
        c == b64_char(d),
{
    if d < 26 {
        ((65 + d) as u8) as char
    } else if d < 52 {
        ((97 + d - 26) as u8) as char
    } else if d < 62 {
        ((48 + d - 52) as u8) as char
    } else if d == 62 {
        '-'
    } else {
        '_'
    }
}

fn b64_value_exec(c: char) -> (r: Option<u32>)
    ensures
        r == b64_value(c),
{
    let v = c as u32;
    if 65 <= v && v <= 90 {
        Some(v - 65)
    } else if 97 <= v && v <= 122 {
        Some(v - 97 + 26)
    } else if 48 <= v && v <= 57 {
        Some(v - 48 + 52)
    } else if c == '-' {
        Some(62)
    } else if c == '_' {
        Some(63)
    } else {
        None
    }
}

/// The cursor text of bytes: each chunk of three bytes as four characters
/// of the URL-safe base64 alphabet, a shorter last chunk as one character
/// more than it has bytes, no padding.
pub fn encode_opaque(bytes: &[u8]) -> (s: String)
    ensures
        s@ == encode_spec(bytes@),
{
    let n = bytes.len();
    let mut out: Vec<char> = Vec::new();
    let mut j: usize = 0;
    while j * 3 < n
        invariant
            n == bytes@.len(),
            j <= chunk_count(n as int),
            j * 3 <= n + 2,
            out@ == encode_upto(bytes@, j as int),
        decreases n + 3 - j * 3,
    {
        let x0 = bytes[j * 3] as u32;
        let x1: u32 = if j * 3 + 1 < n { bytes[j * 3 + 1] as u32 } else { 0 };
        let x2: u32 = if j * 3 + 2 < n { bytes[j * 3 + 2] as u32 } else { 0 };
        let v: u32 = (x0 << 16u32) | (x1 << 8u32) | x2;
        assert(v == chunk_bits(bytes@, j as int));
        let ghost before = out@;
        assert((v >> 18u32) & 63u32 < 64) by (bit_vector);
        assert((v >> 12u32) & 63u32 < 64) by (bit_vector);
        assert((v >> 6u32) & 63u32 < 64) by (bit_vector);
        assert(v & 63u32 < 64) by (bit_vector);
        out.push(b64_char_exec((v >> 18u32) & 63u32));
        out.push(b64_char_exec((v >> 12u32) & 63u32));
        if j * 3 + 1 < n {
            out.push(b64_char_exec((v >> 6u32) & 63u32));
        }
        if j * 3 + 2 < n {
            out.push(b64_char_exec(v & 63u32));
        }
        assert(out@ =~= before + chunk_chars(bytes@, j as int));
        j = j + 1;
    }
    string_from_chars(out.as_slice())
}

/// The bytes of a cursor text, or an error where it is not one.
pub fn decode_opaque(cursor: &str) -> (r: Result<Vec<u8>, OrganizeError>)
    ensures
        match decode_spec(cursor@) {
            None => r matches Err(OrganizeError::InvalidTree(m)) && m@ == "invalid opaque cursor"@,
            Some(b) => r matches Ok(v) && v@ == b,
        },
{
    proof {
        reveal_strlit("invalid opaque cursor");
    }
    let cs = chars_of(cursor);
    let n = cs.len();
    if n == 0 || n % 4 == 1 {
        return Err(OrganizeError::InvalidTree(String::from_str("invalid opaque cursor")));
    }
    let mut digits: Vec<u32> = Vec::new();
    let mut i: usize = 0;
    while i < n
        invariant
            n == cs@.len(),
            cs@ == cursor@,
            i <= n,
            digits@.len() == i,
            forall|k: int| 0 <= k < i ==> #[trigger] b64_value(cs@[k]) == Some(digits@[k]) && digits@[k] < 64,
        decreases n - i,
    {
        match b64_value_exec(cs[i]) {
            None => {
                assert(!all_digits(cursor@));
                return Err(OrganizeError::InvalidTree(String::from_str("invalid opaque cursor")));
            },
            Some(d) => {
                digits.push(d);
            },
        }
        i = i + 1;
    }
    assert(digits@ =~= digits_of(cursor@));
    let groups = n / 4 + if n % 4 == 0 { 0 } else { 1 };
    assert(groups == (n + 3) / 4);
    let mut out: Vec<u8> = Vec::new();
    let mut j: usize = 0;
    while j < groups
        invariant
            n == digits@.len(),
            n % 4 != 1,
            groups == (n + 3) / 4,
            j <= groups,
            forall|k: int| 0 <= k < n ==> #[trigger] digits@[k] < 64,
            out@ == decode_upto(digits@, j as int),
        decreases groups - j,
    {
        let a = digits[4 * j];
        let b = digits[4 * j + 1];
        let ghost before = out@;
        let byte0 = ((a << 2u32) | (b >> 4u32)) as u8;
        out.push(byte0);
        if 4 * j + 2 < n {
            let c = digits[4 * j + 2];
            out.push((((b & 15u32) << 4u32) | (c >> 2u32)) as u8);
            if 4 * j + 3 < n {
                let e = digits[4 * j + 3];
                out.push((((c & 3u32) << 6u32) | e) as u8);
            }
        }
        assert(out@ =~= before + group_bytes(digits@, j as int));
        j = j + 1;
    }
    Ok(out)
}


proof fn lemma_char_value(d: u32)
    requires
        d < 64,
    ensures
        b64_value(b64_char(d)) == Some(d),
{
}

proof fn lemma_group_round_trip(x0: u32, x1: u32, x2: u32)
    requires
        x0 < 256,
        x1 < 256,
        x2 < 256,
    ensures
        ({
            let v = (x0 << 16u32) | (x1 << 8u32) | x2;
            let a = (v >> 18u32) & 63u32;
            let b = (v >> 12u32) & 63u32;
            let c = (v >> 6u32) & 63u32;
            let d = v & 63u32;
            &&& a < 64 && b < 64 && c < 64 && d < 64
            &&& ((a << 2u32) | (b >> 4u32)) == x0
            &&& (((b & 15u32) << 4u32) | (c >> 2u32)) == x1
            &&& (((c & 3u32) << 6u32) | d) == x2
        }),
{
    assert({
        let v = (x0 << 16u32) | (x1 << 8u32) | x2;
        let a = (v >> 18u32) & 63u32;
        let b = (v >> 12u32) & 63u32;
        let c = (v >> 6u32) & 63u32;
        let d = v & 63u32;
        &&& a < 64 && b < 64 && c < 64 && d < 64
        &&& ((a << 2u32) | (b >> 4u32)) == x0
        &&& (((b & 15u32) << 4u32) | (c >> 2u32)) == x1
        &&& (((c & 3u32) << 6u32) | d) == x2
    }) by (bit_vector)
        requires
            x0 < 256,
            x1 < 256,
            x2 < 256,
    ;
}

proof fn lemma_prefix(b: Seq<u8>, j: int, k: int)
    requires
        0 <= j <= k,
    ensures
        encode_upto(b, j).len() <= encode_upto(b, k).len(),
        forall|i: int| 0 <= i < encode_upto(b, j).len() ==> #[trigger] encode_upto(b, k)[i] == encode_upto(b, j)[i],
    decreases k - j,
{
    if j < k {
        lemma_prefix(b, j, k - 1);
    }
}

proof fn lemma_full_len(b: Seq<u8>, k: int)
    requires
        0 <= k,
        3 * k <= b.len(),
    ensures
        encode_upto(b, k).len() == 4 * k,
    decreases k,
{
    if k > 0 {
        lemma_full_len(b, k - 1);
    }
}

proof fn lemma_encode_digits(b: Seq<u8>, k: int)
    requires
        0 <= k <= chunk_count(b.len() as int),
    ensures
        all_digits(encode_upto(b, k)),
    decreases k,
{
    if k > 0 {
        lemma_encode_digits(b, k - 1);
        let j = k - 1;
        let x0: u32 = b[3 * j] as u32;
        let x1: u32 = if 3 * j + 1 < b.len() { b[3 * j + 1] as u32 } else { 0 };
        let x2: u32 = if 3 * j + 2 < b.len() { b[3 * j + 2] as u32 } else { 0 };
        lemma_group_round_trip(x0, x1, x2);
        let v = chunk_bits(b, j);
        lemma_char_value((v >> 18u32) & 63u32);
        lemma_char_value((v >> 12u32) & 63u32);
        lemma_char_value((v >> 6u32) & 63u32);
        lemma_char_value(v & 63u32);
        let prev = encode_upto(b, j);
        let cur = encode_upto(b, k);
        assert forall|i: int| 0 <= i < cur.len() implies #[trigger] b64_value(cur[i]) is Some by {
            if i < prev.len() {
                assert(b64_value(prev[i]) is Some);
            }
        }
    }
}

/// The digits of chunk `j` of the cursor text, and the bytes they give back.
proof fn lemma_chunk_decodes(b: Seq<u8>, j: int)
    requires
        b.len() > 0,
        0 <= j < chunk_count(b.len() as int),
    ensures
        ({
            let e = encode_spec(b);
            let d = digits_of(e);
            let k = chunk_count(b.len() as int);
            &&& e.len() == 4 * (k - 1) + chunk_chars(b, k - 1).len()
            &&& 4 * j + 1 < e.len()
            &&& (4 * j + 2 < e.len() <==> 3 * j + 1 < b.len())
            &&& (4 * j + 3 < e.len() <==> 3 * j + 2 < b.len())
            &&& group_bytes(d, j) == b.subrange(3 * j, if 3 * j + 3 <= b.len() { 3 * j + 3 } else { b.len() as int })
        }),
{
    let n = b.len() as int;
    let k = chunk_count(n);
    let e = encode_spec(b);
    lemma_full_len(b, k - 1);
    lemma_full_len(b, j);
    lemma_prefix(b, j + 1, k);
    let x0: u32 = b[3 * j] as u32;
    let x1: u32 = if 3 * j + 1 < n { b[3 * j + 1] as u32 } else { 0 };
    let x2: u32 = if 3 * j + 2 < n { b[3 * j + 2] as u32 } else { 0 };
    lemma_group_round_trip(x0, x1, x2);
    let v = chunk_bits(b, j);
    lemma_char_value((v >> 18u32) & 63u32);
    lemma_char_value((v >> 12u32) & 63u32);
    lemma_char_value((v >> 6u32) & 63u32);
    lemma_char_value(v & 63u32);
    let cc = chunk_chars(b, j);
    let upto = encode_upto(b, j + 1);
    assert(upto == encode_upto(b, j) + cc);
    assert(e.len() == 4 * (k - 1) + chunk_chars(b, k - 1).len());
    if j < k - 1 {
        lemma_full_len(b, j + 1);
    }
    assert(e[4 * j] == cc[0]);
    assert(e[4 * j + 1] == cc[1]);
    let d = digits_of(e);
    assert(d[4 * j] == (v >> 18u32) & 63u32);
    assert(d[4 * j + 1] == (v >> 12u32) & 63u32);
    if 3 * j + 1 < n {
        assert(e[4 * j + 2] == cc[2]);
        assert(d[4 * j + 2] == (v >> 6u32) & 63u32);
    }
    if 3 * j + 2 < n {
        assert(e[4 * j + 3] == cc[3]);
        assert(d[4 * j + 3] == v & 63u32);
    }
    let hi = if 3 * j + 3 <= n { 3 * j + 3 } else { n };
    assert(group_bytes(d, j) =~= b.subrange(3 * j, hi));
}

proof fn lemma_decode_progress(b: Seq<u8>, k: int)
    requires
        b.len() > 0,
        0 <= k <= chunk_count(b.len() as int),
    ensures
        decode_upto(digits_of(encode_spec(b)), k) == b.take(if 3 * k <= b.len() { 3 * k } else { b.len() as int }),
    decreases k,
{
    if k > 0 {
        lemma_decode_progress(b, k - 1);
        lemma_chunk_decodes(b, k - 1);
        let hi = if 3 * k <= b.len() { 3 * k } else { b.len() as int };
        assert(b.take(hi) =~= b.take(3 * (k - 1)) + b.subrange(3 * (k - 1), hi));
    } else {
        assert(b.take(0) =~= Seq::<u8>::empty());
    }
}

/// Reading back the cursor text of any bytes gives those bytes; no bytes
/// give the empty text, which is no cursor.
pub proof fn law_cursor_round_trip(b: Seq<u8>)
    requires
        b.len() > 0,
    ensures
        decode_spec(encode_spec(b)) == Some(b),
{
    let k = chunk_count(b.len() as int);
    lemma_chunk_decodes(b, k - 1);
    lemma_encode_digits(b, k);
    lemma_decode_progress(b, k);
    let e = encode_spec(b);
    assert((e.len() as int + 3) / 4 == k);
    assert(b.take(b.len() as int) =~= b);
}


/// The cursor text of `n` bytes is written with the URL-safe alphabet alone
/// and has no padding: its length is `4n/3` rounded up.
pub proof fn law_cursor_text_shape(b: Seq<u8>)
    ensures
        all_digits(encode_spec(b)),
        encode_spec(b).len() == (4 * b.len() + 2) / 3,
{
    let n = b.len() as int;
    let k = chunk_count(n);
    lemma_encode_digits(b, k);
    if n > 0 {
        assert(3 * (k - 1) < n <= 3 * k);
        lemma_full_len(b, k - 1);
        let r = n - 3 * (k - 1);
        assert(1 <= r <= 3);
        assert(encode_upto(b, k).len() == 4 * (k - 1) + r + 1);
        assert((4 * n + 2) / 3 == 4 * (k - 1) + r + 1) by (nonlinear_arith)
            requires
                n == 3 * (k - 1) + r,
                1 <= r <= 3,
        ;
    }
}

} // verus!
