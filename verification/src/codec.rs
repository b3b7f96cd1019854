//! The record codec: a [`Row`] to and from its fixed-length byte block.
//!
//! The stored form is 4 bytes of little-endian id, then each text column as
//! an 8-byte little-endian length prefix followed by exactly that many
//! payload bytes (32 for the username, 255 for the email), the text
//! truncated and space-padded to fill the payload.  Every encoded record is
//! therefore exactly [`ROW_SIZE`] bytes long.

use vstd::bytes::*;
use vstd::prelude::*;
use vstd::string::*;
use vstd::utf8::*;

use crate::row::{pad_string, Row};
use crate::text::{
    lemma_pad_bytes, lemma_trim_spaces_pad, space_bytes, space_chars, spec_pad_bytes,
    spec_trunc_len, trim_spaces, bytes_to_string, trim_end_spaces,
};
use crate::{COLUMN_EMAIL_SIZE, COLUMN_USERNAME_SIZE, ROW_SIZE};

verus! {

/// The message every failed decode reports.
pub open spec fn decode_err_msg() -> Seq<char> {
    "failed to deserialize row"@
}

/// The canonical encoded form of a row.
pub open spec fn spec_row_bytes(r: Row) -> Seq<u8> {
    spec_u32_to_le_bytes(r.id) + spec_u64_to_le_bytes(COLUMN_USERNAME_SIZE as u64)
        + spec_pad_bytes(encode_utf8(r.username@), COLUMN_USERNAME_SIZE as int)
        + spec_u64_to_le_bytes(COLUMN_EMAIL_SIZE as u64) + spec_pad_bytes(
        encode_utf8(r.email@),
        COLUMN_EMAIL_SIZE as int,
    )
}

/// The length prefix of the username column inside an encoded block.
pub open spec fn spec_len1(b: Seq<u8>) -> int {
    spec_u64_from_le_bytes(b.subrange(4, 12)) as int
}

/// The length prefix of the email column inside an encoded block.
pub open spec fn spec_len2(b: Seq<u8>) -> int {
    spec_u64_from_le_bytes(b.subrange(12 + spec_len1(b), 20 + spec_len1(b))) as int
}

/// True when `b` decodes to a row: it is exactly one record long, both
/// length-prefixed payloads lie inside it, and both payloads are valid
/// UTF-8.
pub open spec fn spec_decode_ok(b: Seq<u8>) -> bool {
    &&& b.len() == ROW_SIZE
    &&& 20 + spec_len1(b) <= ROW_SIZE
    &&& valid_utf8(b.subrange(12, 12 + spec_len1(b)))
    &&& 20 + spec_len1(b) + spec_len2(b) <= ROW_SIZE
    &&& valid_utf8(b.subrange(20 + spec_len1(b), 20 + spec_len1(b) + spec_len2(b)))
}

/// The id a decode of `b` yields.
pub open spec fn spec_decoded_id(b: Seq<u8>) -> u32 {
    spec_u32_from_le_bytes(b.subrange(0, 4))
}

/// The username a decode of `b` yields: the payload's text with its
/// trailing space padding removed.
pub open spec fn spec_decoded_username(b: Seq<u8>) -> Seq<char> {
    trim_spaces(decode_utf8(b.subrange(12, 12 + spec_len1(b))))
}

/// The email a decode of `b` yields, trimmed like the username.
pub open spec fn spec_decoded_email(b: Seq<u8>) -> Seq<char> {
    trim_spaces(decode_utf8(b.subrange(20 + spec_len1(b), 20 + spec_len1(b) + spec_len2(b))))
}

/// Encodes `r` into its canonical fixed-length block.  Canonicalization
/// happens here as well, so the block is well formed whatever `r` holds.
pub fn encode_row(r: &Row) -> (out: Vec<u8>)
    ensures
        out@ == spec_row_bytes(*r),
        out@.len() == ROW_SIZE,
{
    let mut out = u32_to_le_bytes(r.id);
    let mut pre1 = u64_to_le_bytes(COLUMN_USERNAME_SIZE as u64);
    out.append(&mut pre1);
    let uname = pad_string(r.username.as_str(), COLUMN_USERNAME_SIZE);
    let mut ub = uname.as_str().as_bytes_vec();
    out.append(&mut ub);
    let mut pre2 = u64_to_le_bytes(COLUMN_EMAIL_SIZE as u64);
    out.append(&mut pre2);
    let email = pad_string(r.email.as_str(), COLUMN_EMAIL_SIZE);
    let mut eb = email.as_str().as_bytes_vec();
    out.append(&mut eb);
    proof {
        lemma_row_bytes_len(*r);
        assert(out@ =~= spec_row_bytes(*r));
    }
    out
}

/// Decodes one fixed-length block back into a row, trimming the space
/// padding off both text columns.  Succeeds exactly on the blocks
/// [`spec_decode_ok`] describes and never on any other input.
pub fn decode_row(bytes: &[u8]) -> (r: Result<Row, &'static str>)
    ensures
        r is Ok <==> spec_decode_ok(bytes@),
        r matches Ok(row) ==> {
            &&& row.id == spec_decoded_id(bytes@)
            &&& row.username@ == spec_decoded_username(bytes@)
            &&& row.email@ == spec_decoded_email(bytes@)
        },
        r matches Err(m) ==> m@ == decode_err_msg(),
{
    if bytes.len() != ROW_SIZE {
        return Err("failed to deserialize row");
    }
    let id = u32_from_le_bytes(vstd::slice::slice_subrange(bytes, 0, 4));
    let n1u = u64_from_le_bytes(vstd::slice::slice_subrange(bytes, 4, 12));
    if n1u > ROW_SIZE as u64 - 20 {
        return Err("failed to deserialize row");
    }
    let n1 = n1u as usize;
    let ub = vstd::slice::slice_to_vec(vstd::slice::slice_subrange(bytes, 12, 12 + n1));
    let uname = match bytes_to_string(ub) {
        Some(s) => s,
        None => {
            return Err("failed to deserialize row");
        },
    };
    let n2u = u64_from_le_bytes(vstd::slice::slice_subrange(bytes, 12 + n1, 20 + n1));
    if n2u > ROW_SIZE as u64 - 20 - n1 as u64 {
        return Err("failed to deserialize row");
    }
    let n2 = n2u as usize;
    let eb = vstd::slice::slice_to_vec(
        vstd::slice::slice_subrange(bytes, 20 + n1, 20 + n1 + n2),
    );
    let email = match bytes_to_string(eb) {
        Some(s) => s,
        None => {
            return Err("failed to deserialize row");
        },
    };
    Ok(
        Row {
            id,
            username: trim_end_spaces(uname.as_str()),
            email: trim_end_spaces(email.as_str()),
        },
    )
}

/// Every encoded record has the same length, [`ROW_SIZE`]; this is what
/// makes the page arithmetic sound.
pub proof fn lemma_row_bytes_len(r: Row)
    ensures
        spec_row_bytes(r).len() == ROW_SIZE,
{
    broadcast use encode_utf8_valid_utf8;

    lemma_auto_spec_u32_to_from_le_bytes();
    lemma_auto_spec_u64_to_from_le_bytes();
    lemma_pad_bytes(encode_utf8(r.username@), COLUMN_USERNAME_SIZE as int);
    lemma_pad_bytes(encode_utf8(r.email@), COLUMN_EMAIL_SIZE as int);
}

/// Any two rows encode to blocks of equal length.
pub proof fn lemma_constant_record_length(r1: Row, r2: Row)
    ensures
        spec_row_bytes(r1).len() == spec_row_bytes(r2).len(),
{
    lemma_row_bytes_len(r1);
    lemma_row_bytes_len(r2);
}

/// The layout of an encoded block: where each of the five parts lies.
pub proof fn lemma_encoded_layout(r: Row)
    ensures
        spec_row_bytes(r).len() == ROW_SIZE,
        spec_row_bytes(r).subrange(0, 4) == spec_u32_to_le_bytes(r.id),
        spec_row_bytes(r).subrange(4, 12) == spec_u64_to_le_bytes(COLUMN_USERNAME_SIZE as u64),
        spec_row_bytes(r).subrange(12, 44) == spec_pad_bytes(
            encode_utf8(r.username@),
            COLUMN_USERNAME_SIZE as int,
        ),
        spec_row_bytes(r).subrange(44, 52) == spec_u64_to_le_bytes(COLUMN_EMAIL_SIZE as u64),
        spec_row_bytes(r).subrange(52, ROW_SIZE as int) == spec_pad_bytes(
            encode_utf8(r.email@),
            COLUMN_EMAIL_SIZE as int,
        ),
{
    broadcast use encode_utf8_valid_utf8;

    lemma_auto_spec_u32_to_from_le_bytes();
    lemma_auto_spec_u64_to_from_le_bytes();
    lemma_pad_bytes(encode_utf8(r.username@), COLUMN_USERNAME_SIZE as int);
    lemma_pad_bytes(encode_utf8(r.email@), COLUMN_EMAIL_SIZE as int);
    let b = spec_row_bytes(r);
    assert(b.subrange(0, 4) =~= spec_u32_to_le_bytes(r.id));
    assert(b.subrange(4, 12) =~= spec_u64_to_le_bytes(COLUMN_USERNAME_SIZE as u64));
    assert(b.subrange(12, 44) =~= spec_pad_bytes(
        encode_utf8(r.username@),
        COLUMN_USERNAME_SIZE as int,
    ));
    assert(b.subrange(44, 52) =~= spec_u64_to_le_bytes(COLUMN_EMAIL_SIZE as u64));
    assert(b.subrange(52, ROW_SIZE as int) =~= spec_pad_bytes(
        encode_utf8(r.email@),
        COLUMN_EMAIL_SIZE as int,
    ));
}

/// Every encoded block decodes: the id comes back unchanged and each text
/// column comes back as its padded payload with the padding trimmed off.
pub proof fn lemma_encode_decodable(r: Row)
    ensures
        spec_decode_ok(spec_row_bytes(r)),
        spec_decoded_id(spec_row_bytes(r)) == r.id,
        spec_decoded_username(spec_row_bytes(r)) == trim_spaces(
            decode_utf8(spec_pad_bytes(encode_utf8(r.username@), COLUMN_USERNAME_SIZE as int)),
        ),
        spec_decoded_email(spec_row_bytes(r)) == trim_spaces(
            decode_utf8(spec_pad_bytes(encode_utf8(r.email@), COLUMN_EMAIL_SIZE as int)),
        ),
{
    broadcast use encode_utf8_valid_utf8;

    lemma_auto_spec_u32_to_from_le_bytes();
    lemma_auto_spec_u64_to_from_le_bytes();
    lemma_pad_bytes(encode_utf8(r.username@), COLUMN_USERNAME_SIZE as int);
    lemma_pad_bytes(encode_utf8(r.email@), COLUMN_EMAIL_SIZE as int);
    lemma_encoded_layout(r);
    let b = spec_row_bytes(r);
    assert(spec_len1(b) == COLUMN_USERNAME_SIZE);
    assert(b.subrange(12, 12 + spec_len1(b)) == b.subrange(12, 44));
    assert(b.subrange(12 + spec_len1(b), 20 + spec_len1(b)) == b.subrange(44, 52));
    assert(spec_len2(b) == COLUMN_EMAIL_SIZE);
    assert(b.subrange(20 + spec_len1(b), 20 + spec_len1(b) + spec_len2(b)) == b.subrange(
        52,
        ROW_SIZE as int,
    ));
}

/// Round trip: a row whose text columns fit their byte caps and carry no
/// trailing space decodes from its own encoding unchanged.
pub proof fn lemma_round_trip(r: Row)
    requires
        encode_utf8(r.username@).len() <= COLUMN_USERNAME_SIZE,
        r.username@.len() == 0 || r.username@.last() != ' ',
        encode_utf8(r.email@).len() <= COLUMN_EMAIL_SIZE,
        r.email@.len() == 0 || r.email@.last() != ' ',
    ensures
        spec_decode_ok(spec_row_bytes(r)),
        spec_decoded_id(spec_row_bytes(r)) == r.id,
        spec_decoded_username(spec_row_bytes(r)) == r.username@,
        spec_decoded_email(spec_row_bytes(r)) == r.email@,
{
    lemma_encode_decodable(r);
    lemma_column_round_trip(r.username@, COLUMN_USERNAME_SIZE as int);
    lemma_column_round_trip(r.email@, COLUMN_EMAIL_SIZE as int);
}

/// One column's round trip: text within the cap and without trailing
/// spaces survives padding, decoding and trimming unchanged.
pub proof fn lemma_column_round_trip(u: Seq<char>, n: int)
    requires
        encode_utf8(u).len() <= n,
        u.len() == 0 || u.last() != ' ',
    ensures
        trim_spaces(decode_utf8(spec_pad_bytes(encode_utf8(u), n))) == u,
{
    broadcast use encode_utf8_valid_utf8;

    let b = encode_utf8(u);
    lemma_pad_bytes(b, n);
    assert(spec_trunc_len(b, n) == b.len());
    assert(b.take(b.len() as int) =~= b);
    encode_utf8_decode_utf8(u);
    assert(decode_utf8(spec_pad_bytes(b, n)) == u + space_chars(n - b.len()));
    lemma_trim_spaces_pad(u, n - b.len());
    assert(trim_spaces(u) == u);
}

/// Truncation and padding of one text column: text longer than the cap is
/// stored cut to the cap (when the cap falls on a character boundary,
/// exactly the first `n` bytes), shorter text is stored followed by spaces
/// to exactly the cap; decoding trims back to the truncated text.
pub proof fn lemma_truncation_padding(u: Seq<char>, n: int)
    requires
        0 <= n,
    ensures
        spec_pad_bytes(encode_utf8(u), n).len() == n,
        encode_utf8(u).len() >= n && is_char_boundary(encode_utf8(u), n) ==> spec_pad_bytes(
            encode_utf8(u),
            n,
        ) == encode_utf8(u).take(n),
        encode_utf8(u).len() < n ==> spec_pad_bytes(encode_utf8(u), n) == encode_utf8(u)
            + space_bytes(n - encode_utf8(u).len()),
        trim_spaces(decode_utf8(spec_pad_bytes(encode_utf8(u), n))) == trim_spaces(
            decode_utf8(encode_utf8(u).take(spec_trunc_len(encode_utf8(u), n))),
        ),
{
    broadcast use encode_utf8_valid_utf8;

    let b = encode_utf8(u);
    lemma_pad_bytes(b, n);
    if b.len() >= n && is_char_boundary(b, n) {
        crate::text::lemma_trunc_point(b, n);
        assert(spec_trunc_len(b, n) == n);
        assert(spec_pad_bytes(b, n) =~= b.take(n));
    }
    if b.len() < n {
        assert(b.take(b.len() as int) =~= b);
    }
    if b.len() > n {
        crate::text::lemma_trunc_point(b, n);
    }
    lemma_trim_spaces_pad(decode_utf8(b.take(spec_trunc_len(b, n))), n - spec_trunc_len(b, n));
}

} // verus!
