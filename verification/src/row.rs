//! The stored record: an id plus two space-padded text columns.

use vstd::prelude::*;
use vstd::string::*;
use vstd::utf8::*;

use crate::text::{
    lemma_encode_utf8_concat, lemma_spaces, lemma_trunc_point, space_bytes, space_chars,
    spec_pad_bytes, spec_trunc_len, spec_trunc_point,
};
use crate::{COLUMN_EMAIL_SIZE, COLUMN_USERNAME_SIZE};

verus! {

/// One logical row.  `username` and `email` as built by [`Row::new`] carry
/// their canonical padded form; rows decoded from storage carry the trimmed
/// form instead.
#[derive(Debug, PartialEq)]
pub struct Row {
    pub id: u32,
    pub username: String,
    pub email: String,
}

impl Row {
    /// Builds a row with both text columns canonicalized: truncated at a
    /// character boundary to the column's byte cap and right-padded with
    /// spaces to exactly that many bytes.
    pub fn new(id: u32, username: &str, email: &str) -> (r: Row)
        ensures
            r.id == id,
            encode_utf8(r.username@) == spec_pad_bytes(
                encode_utf8(username@),
                COLUMN_USERNAME_SIZE as int,
            ),
            encode_utf8(r.email@) == spec_pad_bytes(encode_utf8(email@), COLUMN_EMAIL_SIZE as int),
            encode_utf8(username@).len() <= COLUMN_USERNAME_SIZE ==> r.username@ == username@
                + space_chars(COLUMN_USERNAME_SIZE - encode_utf8(username@).len()),
            encode_utf8(email@).len() <= COLUMN_EMAIL_SIZE ==> r.email@ == email@ + space_chars(
                COLUMN_EMAIL_SIZE - encode_utf8(email@).len(),
            ),
    {
        Row {
            id,
            username: pad_string(username, COLUMN_USERNAME_SIZE),
            email: pad_string(email, COLUMN_EMAIL_SIZE),
        }
    }
}

/// Appends spaces to `s` until its UTF-8 byte length reaches `size`.
fn append_spaces(s: String, size: usize) -> (r: String)
    requires
        encode_utf8(s@).len() <= size,
    ensures
        r@ == s@ + space_chars(size - encode_utf8(s@).len()),
        encode_utf8(r@) == encode_utf8(s@) + space_bytes(size - encode_utf8(s@).len()),
{
    let ghost orig = s@;
    let ghost blen = encode_utf8(s@).len() as int;
    let mut r = s;
    proof {
        assert(r@ =~= orig + space_chars(0));
        assert(encode_utf8(r@) =~= encode_utf8(orig) + space_bytes(0));
    }
    let ghost mut j: int = 0;
    while r.as_str().len() < size
        invariant
            0 <= j,
            blen + j <= size,
            blen == encode_utf8(orig).len(),
            r@ == orig + space_chars(j),
            encode_utf8(r@) == encode_utf8(orig) + space_bytes(j),
            encode_utf8(r@).len() == blen + j,
        decreases size - j,
    {
        r.append(" ");
        proof {
            reveal_strlit(" ");
            assert(" "@ =~= space_chars(1));
            lemma_spaces(1);
            assert(r@ =~= orig + space_chars(j + 1));
            lemma_encode_utf8_concat(orig + space_chars(j), " "@);
            assert(encode_utf8(r@) =~= encode_utf8(orig) + space_bytes(j + 1));
            j = j + 1;
        }
    }
    proof {
        assert(blen + j == size);
    }
    r
}

/// Canonicalizes `input` to exactly `size` bytes: truncated at the greatest
/// character boundary at or below `size`, then right-padded with spaces.
pub fn pad_string(input: &str, size: usize) -> (r: String)
    ensures
        encode_utf8(r@) == spec_pad_bytes(encode_utf8(input@), size as int),
        encode_utf8(input@).len() <= size ==> r@ == input@ + space_chars(
            size - encode_utf8(input@).len(),
        ),
{
    proof {
        encode_utf8_valid_utf8(input@);
    }
    let ghost bs = encode_utf8(input@);
    let blen = input.as_bytes().len();
    if blen <= size {
        let r = append_spaces(String::from_str(input), size);
        proof {
            assert(spec_trunc_len(bs, size as int) == bs.len());
            assert(bs.take(bs.len() as int) =~= bs);
            assert(spec_pad_bytes(bs, size as int) =~= bs + space_bytes(size - bs.len()));
        }
        r
    } else {
        let mut k = size;
        while !input.is_char_boundary(k)
            invariant
                k <= size,
                size < bs.len(),
                bs == input.spec_bytes(),
                valid_utf8(bs),
                spec_trunc_point(bs, size as int) == spec_trunc_point(bs, k as int),
            decreases k,
        {
            proof {
                assert(k > 0) by {
                    if k == 0 {
                        assert(is_char_boundary(bs, 0));
                    }
                }
            }
            k = k - 1;
        }
        proof {
            assert(spec_trunc_point(bs, k as int) == k);
            assert(spec_trunc_len(bs, size as int) == k);
        }
        let (head, _tail) = input.split_at(k);
        let r = append_spaces(String::from_str(head), size);
        proof {
            assert(head.spec_bytes() =~= bs.take(k as int));
            assert(encode_utf8(head@).len() == k);
            assert(spec_pad_bytes(bs, size as int) =~= bs.take(k as int) + space_bytes(
                size - k,
            ));
        }
        r
    }
}

} // verus!
