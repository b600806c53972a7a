//! Bytes-to-text conversion and whitespace trimming.

use vstd::prelude::*;
use vstd::utf8::{valid_utf8, encode_utf8, decode_utf8, encode_utf8_decode_utf8};

verus! {

/// The UTF-8 bytes of a character sequence; how `String` and `&str`
/// contents are rendered on the wire throughout this crate.
pub open spec fn str_bytes(s: Seq<char>) -> Seq<u8> {
    encode_utf8(s)
}

/// Relies on `String::from_utf8`: succeeds exactly on valid UTF-8 and
/// returns a string holding the given bytes.
#[verifier::external_body]
pub fn bytes_to_string(v: Vec<u8>) -> (r: Option<String>)
    ensures
        r is Some <==> valid_utf8(v@),
        r matches Some(s) ==> str_bytes(s@) == v@,
{
    match String::from_utf8(v) {
        Ok(s) => Some(s),
        Err(_) => None,
    }
}

/// A successful conversion returns the decoding of the input bytes.
pub proof fn lemma_bytes_to_string_view(s: Seq<char>, v: Seq<u8>)
    requires
        str_bytes(s) == v,
        valid_utf8(v),
    ensures
        s == decode_utf8(v),
{
    encode_utf8_decode_utf8(s);
}

/// A sequence of ASCII bytes is valid UTF-8.
pub proof fn lemma_ascii_bytes_valid(s: Seq<u8>)
    requires
        forall|i: int| 0 <= i < s.len() ==> s[i] < 128,
    ensures
        valid_utf8(s),
{
    assert(s.subrange(0, 0) =~= Seq::<u8>::empty());
    assert(vstd::utf8::partial_valid_utf8(s, 0));
    vstd::utf8::partial_valid_utf8_extend_ascii_block(s, 0, s.len() as int);
    assert(s.subrange(0, s.len() as int) =~= s);
}

/// UTF-8 encoding distributes over concatenation.
pub proof fn lemma_str_bytes_concat(a: Seq<char>, b: Seq<char>)
    ensures
        str_bytes(a + b) == str_bytes(a) + str_bytes(b),
    decreases a.len(),
{
    if a.len() == 0 {
        assert(a + b =~= b);
        assert(str_bytes(a) =~= Seq::<u8>::empty());
        assert(str_bytes(a) + str_bytes(b) =~= str_bytes(b));
    } else {
        lemma_str_bytes_concat(a.drop_first(), b);
        assert((a + b).drop_first() =~= a.drop_first() + b);
        assert((a + b)[0] == a[0]);
        assert(vstd::utf8::encode_scalar(a[0] as u32) + (str_bytes(a.drop_first()) + str_bytes(b))
            =~= (vstd::utf8::encode_scalar(a[0] as u32) + str_bytes(a.drop_first())) + str_bytes(
            b,
        ));
    }
}

/// Splitting valid UTF-8 just before an ASCII byte (or at the end)
/// leaves two valid UTF-8 parts.
pub proof fn lemma_split_valid(s: Seq<u8>, i: int)
    requires
        valid_utf8(s),
        0 <= i <= s.len(),
        i < s.len() ==> s[i] < 128,
    ensures
        valid_utf8(s.subrange(0, i)),
        valid_utf8(s.subrange(i, s.len() as int)),
{
    if i == s.len() {
        assert(s.subrange(0, i) =~= s);
        assert(s.subrange(i, s.len() as int) =~= Seq::<u8>::empty());
    } else {
        assert(!vstd::utf8::is_continuation_byte(s[i]));
        vstd::utf8::is_char_boundary_iff_not_is_continuation_byte(s, i);
        vstd::utf8::valid_utf8_split(s, i);
    }
}

/// The position just after an ASCII byte is a character boundary.
pub proof fn lemma_boundary_after_ascii(s: Seq<u8>, i: int)
    requires
        valid_utf8(s),
        1 <= i <= s.len(),
        s[i - 1] < 128,
    ensures
        vstd::utf8::is_char_boundary(s, i),
    decreases s.len(),
{
    let l = vstd::utf8::length_of_first_scalar(s);
    assert(vstd::utf8::valid_first_scalar(s));
    if i == 1 {
        assert(vstd::utf8::is_leading_byte_width_1(s[0]));
        assert(l == 1);
        assert(vstd::utf8::is_char_boundary(vstd::utf8::pop_first_scalar(s), 0));
    } else if i <= l {
        assert(vstd::utf8::is_continuation_byte(s[i - 1]));
        assert(false);
    } else {
        lemma_boundary_after_ascii(vstd::utf8::pop_first_scalar(s), i - l);
        assert(vstd::utf8::pop_first_scalar(s)[i - l - 1] == s[i - 1]);
    }
}

/// Splitting valid UTF-8 just after an ASCII byte (or at the start)
/// leaves two valid UTF-8 parts.
pub proof fn lemma_split_valid_after(s: Seq<u8>, i: int)
    requires
        valid_utf8(s),
        0 <= i <= s.len(),
        i > 0 ==> s[i - 1] < 128,
    ensures
        valid_utf8(s.subrange(0, i)),
        valid_utf8(s.subrange(i, s.len() as int)),
{
    if i == 0 {
        assert(s.subrange(0, 0) =~= Seq::<u8>::empty());
        assert(s.subrange(0, s.len() as int) =~= s);
    } else {
        lemma_boundary_after_ascii(s, i);
        vstd::utf8::valid_utf8_split(s, i);
    }
}

/// Two character sequences with the same UTF-8 bytes are equal.
pub proof fn lemma_str_bytes_eq(a: Seq<char>, b: Seq<char>)
    ensures
        (str_bytes(a) == str_bytes(b)) == (a == b),
{
    if str_bytes(a) == str_bytes(b) {
        encode_utf8_decode_utf8(a);
        encode_utf8_decode_utf8(b);
        assert(a == b);
    }
}

/// ASCII whitespace, as trimmed from header values and token text.
pub open spec fn is_ws(b: u8) -> bool {
    b == 32 || b == 9 || b == 10 || b == 13 || b == 11 || b == 12
}

/// `s` without its leading whitespace.
pub open spec fn trim_front(s: Seq<u8>) -> Seq<u8>
    decreases s.len(),
{
    if s.len() > 0 && is_ws(s[0]) {
        trim_front(s.drop_first())
    } else {
        s
    }
}

/// `s` without its trailing whitespace.
pub open spec fn trim_back(s: Seq<u8>) -> Seq<u8>
    decreases s.len(),
{
    if s.len() > 0 && is_ws(s.last()) {
        trim_back(s.drop_last())
    } else {
        s
    }
}

/// `s` without leading and trailing whitespace.
pub open spec fn trim_seq(s: Seq<u8>) -> Seq<u8> {
    trim_back(trim_front(s))
}

proof fn lemma_trim_front_subrange(s: Seq<u8>, i: int)
    requires
        0 <= i <= s.len(),
        forall|j: int| 0 <= j < i ==> is_ws(s[j]),
        i < s.len() ==> !is_ws(s[i]),
    ensures
        trim_front(s) == s.subrange(i, s.len() as int),
    decreases i,
{
    if i == 0 {
        assert(s.subrange(0, s.len() as int) =~= s);
    } else {
        assert(is_ws(s[0]));
        lemma_trim_front_subrange(s.drop_first(), i - 1);
        assert(s.drop_first().subrange(i - 1, s.drop_first().len() as int) =~= s.subrange(
            i,
            s.len() as int,
        ));
    }
}

proof fn lemma_trim_back_subrange(s: Seq<u8>, i: int)
    requires
        0 <= i <= s.len(),
        forall|j: int| i <= j < s.len() ==> is_ws(s[j]),
        i > 0 ==> !is_ws(s[i - 1]),
    ensures
        trim_back(s) == s.subrange(0, i),
    decreases s.len() - i,
{
    if i == s.len() {
        assert(s.subrange(0, i) =~= s);
    } else {
        assert(is_ws(s.last()));
        lemma_trim_back_subrange(s.drop_last(), i);
        assert(s.drop_last().subrange(0, i) =~= s.subrange(0, i));
    }
}

/// Strips ASCII whitespace from both ends of a byte slice.
pub fn trim_bytes(s: &[u8]) -> (r: Vec<u8>)
    ensures
        r@ == trim_seq(s@),
{
    let mut lo: usize = 0;
    while lo < s.len() && is_ws_byte(s[lo])
        invariant
            0 <= lo <= s@.len(),
            forall|j: int| 0 <= j < lo ==> is_ws(s@[j]),
        decreases s@.len() - lo,
    {
        lo += 1;
    }
    proof {
        lemma_trim_front_subrange(s@, lo as int);
    }
    let mut hi: usize = s.len();
    while hi > lo && is_ws_byte(s[hi - 1])
        invariant
            lo <= hi <= s@.len(),
            forall|j: int| hi <= j < s@.len() ==> is_ws(s@[j]),
        decreases hi,
    {
        hi -= 1;
    }
    proof {
        let tf = trim_front(s@);
        assert(tf == s@.subrange(lo as int, s@.len() as int));
        lemma_trim_back_subrange(tf, hi - lo);
        assert(tf.subrange(0, hi - lo) =~= s@.subrange(lo as int, hi as int));
    }
    let part = vstd::slice::slice_subrange(s, lo, hi);
    vstd::slice::slice_to_vec(part)
}

/// Whitespace test on a single byte.
pub fn is_ws_byte(b: u8) -> (r: bool)
    ensures
        r == is_ws(b),
{
    b == 32 || b == 9 || b == 10 || b == 13 || b == 11 || b == 12
}

/// `s` without its leading slashes.
pub open spec fn trim_front_slashes(s: Seq<u8>) -> Seq<u8>
    decreases s.len(),
{
    if s.len() > 0 && s[0] == 47 {
        trim_front_slashes(s.drop_first())
    } else {
        s
    }
}

/// Where the leading slashes end.
pub proof fn lemma_trim_front_slashes(s: Seq<u8>, i: int)
    requires
        0 <= i <= s.len(),
        forall|j: int| 0 <= j < i ==> s[j] == 47,
        i < s.len() ==> s[i] != 47,
    ensures
        trim_front_slashes(s) == s.subrange(i, s.len() as int),
    decreases i,
{
    if i == 0 {
        assert(s.subrange(0, s.len() as int) =~= s);
    } else {
        lemma_trim_front_slashes(s.drop_first(), i - 1);
        assert(s.drop_first().subrange(i - 1, s.drop_first().len() as int) =~= s.subrange(
            i,
            s.len() as int,
        ));
    }
}

/// The longest whitespace-free prefix of `s`.
pub open spec fn take_token(s: Seq<u8>) -> Seq<u8>
    decreases s.len(),
{
    if s.len() > 0 && !is_ws(s[0]) {
        seq![s[0]] + take_token(s.drop_first())
    } else {
        Seq::empty()
    }
}

/// `s` without its longest whitespace-free prefix.
pub open spec fn after_token(s: Seq<u8>) -> Seq<u8>
    decreases s.len(),
{
    if s.len() > 0 && !is_ws(s[0]) {
        after_token(s.drop_first())
    } else {
        s
    }
}

proof fn lemma_token_subrange(s: Seq<u8>, k: int)
    requires
        0 <= k <= s.len(),
        forall|j: int| 0 <= j < k ==> !is_ws(s[j]),
        k < s.len() ==> is_ws(s[k]),
    ensures
        take_token(s) == s.subrange(0, k),
        after_token(s) == s.subrange(k, s.len() as int),
    decreases k,
{
    if k == 0 {
        assert(s.subrange(0, 0) =~= Seq::<u8>::empty());
        assert(s.subrange(0, s.len() as int) =~= s);
    } else {
        lemma_token_subrange(s.drop_first(), k - 1);
        assert(seq![s[0]] + s.drop_first().subrange(0, k - 1) =~= s.subrange(0, k));
        assert(s.drop_first().subrange(k - 1, s.drop_first().len() as int) =~= s.subrange(
            k,
            s.len() as int,
        ));
    }
}

/// The first whitespace-separated token of `s`, and where the rest
/// starts: `s.skip(r.1)` is `s` with leading whitespace and that token
/// removed.
pub fn first_token(s: &[u8]) -> (r: (Vec<u8>, usize))
    ensures
        r.0@ == take_token(trim_front(s@)),
        0 <= r.1 <= s@.len(),
        s@.skip(r.1 as int) == after_token(trim_front(s@)),
{
    let mut lo: usize = 0;
    while lo < s.len() && is_ws_byte(s[lo])
        invariant
            0 <= lo <= s@.len(),
            forall|j: int| 0 <= j < lo ==> is_ws(s@[j]),
        decreases s@.len() - lo,
    {
        lo += 1;
    }
    proof {
        lemma_trim_front_subrange(s@, lo as int);
    }
    let mut hi: usize = lo;
    while hi < s.len() && !is_ws_byte(s[hi])
        invariant
            lo <= hi <= s@.len(),
            forall|j: int| lo <= j < hi ==> !is_ws(s@[j]),
        decreases s@.len() - hi,
    {
        hi += 1;
    }
    proof {
        let t = trim_front(s@);
        assert(t == s@.subrange(lo as int, s@.len() as int));
        lemma_token_subrange(t, hi - lo);
        assert(t.subrange(0, hi - lo) =~= s@.subrange(lo as int, hi as int));
        assert(t.subrange(hi - lo, t.len() as int) =~= s@.subrange(hi as int, s@.len() as int));
        assert(s@.skip(hi as int) =~= s@.subrange(hi as int, s@.len() as int));
    }
    let tok = vstd::slice::slice_to_vec(vstd::slice::slice_subrange(s, lo, hi));
    (tok, hi)
}

/// ASCII lowercase folding of one byte.
pub open spec fn lower_byte(b: u8) -> u8 {
    if 65 <= b <= 90 {
        (b + 32) as u8
    } else {
        b
    }
}

/// ASCII lowercase folding of a byte sequence.
pub open spec fn lower_bytes(s: Seq<u8>) -> Seq<u8> {
    s.map_values(|b: u8| lower_byte(b))
}

/// Byte equality up to ASCII case.
pub fn bytes_eq_nocase(a: &[u8], b: &[u8]) -> (r: bool)
    ensures
        r == (lower_bytes(a@) == lower_bytes(b@)),
{
    if a.len() != b.len() {
        assert(lower_bytes(a@).len() != lower_bytes(b@).len());
        return false;
    }
    let mut i: usize = 0;
    while i < a.len()
        invariant
            0 <= i <= a@.len(),
            a@.len() == b@.len(),
            forall|j: int| 0 <= j < i ==> lower_byte(a@[j]) == lower_byte(b@[j]),
        decreases a@.len() - i,
    {
        let x = a[i];
        let y = b[i];
        let xl: u8 = if 65 <= x && x <= 90 {
            x + 32
        } else {
            x
        };
        let yl: u8 = if 65 <= y && y <= 90 {
            y + 32
        } else {
            y
        };
        if xl != yl {
            assert(lower_bytes(a@)[i as int] != lower_bytes(b@)[i as int]);
            return false;
        }
        i += 1;
    }
    assert(lower_bytes(a@) =~= lower_bytes(b@));
    true
}

} // verus!
