//! Byte- and character-level helpers for the padded text columns.
//!
//! Columns are stored as a fixed number of bytes: the text's UTF-8 bytes,
//! truncated to the greatest character boundary at or below the cap and
//! right-padded with spaces.  Decoding trims the trailing spaces back off.

use vstd::prelude::*;
use vstd::string::*;
use vstd::utf8::*;

verus! {

/// `n` space bytes.
pub open spec fn space_bytes(n: int) -> Seq<u8> {
    Seq::new(n as nat, |i: int| 32u8)
}

/// `n` space characters.
pub open spec fn space_chars(n: int) -> Seq<char> {
    Seq::new(n as nat, |i: int| ' ')
}

/// The greatest character boundary of `b` at or below `n`.
pub open spec fn spec_trunc_point(b: Seq<u8>, n: int) -> int
    recommends
        valid_utf8(b),
    decreases n,
{
    if n <= 0 {
        0
    } else if is_char_boundary(b, n) {
        n
    } else {
        spec_trunc_point(b, n - 1)
    }
}

/// How many leading bytes of `b` survive canonicalization to width `n`:
/// all of them when they fit, otherwise the greatest character boundary
/// at or below `n`.
pub open spec fn spec_trunc_len(b: Seq<u8>, n: int) -> int
    recommends
        valid_utf8(b),
{
    if b.len() <= n {
        b.len() as int
    } else {
        spec_trunc_point(b, n)
    }
}

/// The canonical stored form of a column: the text's bytes truncated at a
/// character boundary to at most `n` bytes, then right-padded with spaces
/// to exactly `n` bytes.
pub open spec fn spec_pad_bytes(b: Seq<u8>, n: int) -> Seq<u8>
    recommends
        valid_utf8(b),
{
    b.take(spec_trunc_len(b, n)) + space_bytes(n - spec_trunc_len(b, n))
}

/// `s` with its trailing spaces removed.
pub open spec fn trim_spaces(s: Seq<char>) -> Seq<char>
    decreases s.len(),
{
    if s.len() == 0 {
        s
    } else if s.last() == ' ' {
        trim_spaces(s.drop_last())
    } else {
        s
    }
}

/// Concatenating UTF-8 encodings encodes the concatenation.
pub proof fn lemma_encode_utf8_concat(a: Seq<char>, b: Seq<char>)
    ensures
        encode_utf8(a + b) == encode_utf8(a) + encode_utf8(b),
    decreases a.len(),
{
    if a.len() == 0 {
        assert(a + b =~= b);
        assert(encode_utf8(a) + encode_utf8(b) =~= encode_utf8(b));
    } else {
        assert((a + b)[0] == a[0]);
        assert((a + b).drop_first() =~= a.drop_first() + b);
        lemma_encode_utf8_concat(a.drop_first(), b);
        assert(encode_utf8(a + b) =~= encode_utf8(a) + encode_utf8(b));
    }
}

/// A run of spaces is valid UTF-8, and it is exactly what a run of space
/// characters encodes to.
pub proof fn lemma_spaces(n: int)
    requires
        0 <= n,
    ensures
        valid_utf8(space_bytes(n)),
        encode_utf8(space_chars(n)) == space_bytes(n),
        decode_utf8(space_bytes(n)) == space_chars(n),
    decreases n,
{
    assert(' ' as u32 == 32);
    assert(32u32 & 0x7f == 32) by (bit_vector);
    if n == 0 {
        assert(space_bytes(0) =~= Seq::<u8>::empty());
        assert(space_chars(0) =~= Seq::<char>::empty());
    } else {
        lemma_spaces(n - 1);
        let bs = space_bytes(n);
        let cs = space_chars(n);
        assert(bs[0] == 32u8);
        assert(is_leading_byte_width_1(bs[0]));
        assert(length_of_first_scalar(bs) == 1);
        assert(pop_first_scalar(bs) =~= space_bytes(n - 1));
        assert(valid_first_scalar(bs));
        assert(valid_utf8(bs));
        assert(cs[0] == ' ');
        assert(has_width_1_encoding(32));
        assert(encode_scalar(32) =~= seq![32u8]);
        assert(cs.drop_first() =~= space_chars(n - 1));
        assert(encode_utf8(cs) =~= bs);
        encode_utf8_decode_utf8(cs);
    }
}

/// Trimming ignores any amount of appended space padding.
pub proof fn lemma_trim_spaces_pad(s: Seq<char>, n: int)
    requires
        0 <= n,
    ensures
        trim_spaces(s + space_chars(n)) == trim_spaces(s),
    decreases n,
{
    if n == 0 {
        assert(s + space_chars(0) =~= s);
    } else {
        let t = s + space_chars(n);
        assert(t.last() == ' ');
        assert(t.drop_last() =~= s + space_chars(n - 1));
        lemma_trim_spaces_pad(s, n - 1);
    }
}

/// The truncation point is a character boundary between 0 and `n`, and is
/// `n` itself whenever `n` is a boundary.
pub proof fn lemma_trunc_point(b: Seq<u8>, n: int)
    requires
        valid_utf8(b),
        0 <= n,
    ensures
        0 <= spec_trunc_point(b, n) <= n,
        is_char_boundary(b, spec_trunc_point(b, n)),
        is_char_boundary(b, n) ==> spec_trunc_point(b, n) == n,
    decreases n,
{
    if n == 0 || is_char_boundary(b, n) {
    } else {
        lemma_trunc_point(b, n - 1);
    }
}

/// The canonical stored column is exactly `n` bytes of valid UTF-8, and it
/// decodes to the truncated text followed by space characters.
pub proof fn lemma_pad_bytes(b: Seq<u8>, n: int)
    requires
        valid_utf8(b),
        0 <= n,
    ensures
        spec_pad_bytes(b, n).len() == n,
        valid_utf8(spec_pad_bytes(b, n)),
        decode_utf8(spec_pad_bytes(b, n)) == decode_utf8(b.take(spec_trunc_len(b, n)))
            + space_chars(n - spec_trunc_len(b, n)),
        valid_utf8(b.take(spec_trunc_len(b, n))),
{
    let k = spec_trunc_len(b, n);
    if b.len() <= n {
        is_char_boundary_start_end_of_seq(b);
    } else {
        lemma_trunc_point(b, n);
    }
    assert(is_char_boundary(b, k));
    valid_utf8_split(b, k);
    assert(b.subrange(0, k) =~= b.take(k));
    let head = b.take(k);
    let pad = space_bytes(n - k);
    lemma_spaces(n - k);
    valid_utf8_concat(head, pad);
    let whole = spec_pad_bytes(b, n);
    assert(whole =~= head + pad);
    if n - k > 0 {
        assert(whole[k] == 32u8);
        is_char_boundary_iff_not_is_continuation_byte(whole, k);
    } else {
        is_char_boundary_start_end_of_seq(whole);
        assert(k == whole.len());
    }
    assert(is_char_boundary(whole, k));
    decode_utf8_split(whole, k);
    assert(whole.subrange(0, k) =~= head);
    assert(whole.subrange(k, whole.len() as int) =~= pad);
}

/// Relies on `String::from_utf8`: it succeeds exactly on valid UTF-8 input
/// and returns the string those bytes encode.
#[verifier::external_body]
pub(crate) fn bytes_to_string(v: Vec<u8>) -> (r: Option<String>)
    ensures
        r is Some <==> valid_utf8(v@),
        r matches Some(s) ==> s@ == decode_utf8(v@),
{
    String::from_utf8(v).ok()
}

/// Copies `s` with its trailing space characters removed.
pub fn trim_end_spaces(s: &str) -> (r: String)
    ensures
        r@ == trim_spaces(s@),
{
    let n = s.unicode_len();
    proof {
        assert(s@.take(n as int) =~= s@);
    }
    let mut k = n;
    while k > 0 && s.get_char(k - 1) == ' '
        invariant
            k <= n,
            n == s@.len(),
            trim_spaces(s@) == trim_spaces(s@.take(k as int)),
        decreases k,
    {
        proof {
            let t = s@.take(k as int);
            assert(t.last() == ' ');
            assert(t.drop_last() =~= s@.take(k - 1));
        }
        k = k - 1;
    }
    proof {
        let t = s@.take(k as int);
        if k > 0 {
            assert(t.last() == s@[k - 1]);
        }
        assert(trim_spaces(t) == t);
        assert(s@.take(n as int) =~= s@);
    }
    let sub = s.substring_char(0, k);
    let r = String::from_str(sub);
    proof {
        assert(sub@ =~= s@.take(k as int));
    }
    r
}

} // verus!
