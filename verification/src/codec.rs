//! Canonical binary encoding primitives.
//!
//! Every record the stores hold is laid out from these pieces: fixed-width
//! big-endian integers and length-prefixed UTF-8 strings.  Field order and
//! widths are fixed so that the encoding is stable.  Each decoder is proved
//! to be the encoder's inverse.

use vstd::prelude::*;
use vstd::arithmetic::power::pow;
use vstd::slice::{slice_subrange, slice_to_vec};
use vstd::utf8::{valid_utf8, decode_utf8, encode_utf8};
use crate::bytes::{
    spec_be_bytes,
    spec_be_val,
    lemma_be_bytes_len,
    lemma_be_val_bound,
    lemma_be_round_trip,
    lemma_pow256_16,
    u64_to_be,
    u128_to_be,
    read_be,
};

verus! {

/// Relies on `String::from_utf8`: succeeds exactly on valid UTF-8 and
/// preserves the bytes.
#[verifier::external_body]
pub(crate) fn string_from_utf8(v: Vec<u8>) -> (r: Option<String>)
    ensures
        match r {
            Some(s) => valid_utf8(v@) && encode_utf8(s@) == v@,
            None => !valid_utf8(v@),
        },
{
    String::from_utf8(v).ok()
}

pub open spec fn spec_enc_u64(x: u64) -> Seq<u8> {
    spec_be_bytes(x as nat, 8)
}

pub open spec fn spec_enc_u128(x: u128) -> Seq<u8> {
    spec_be_bytes(x as nat, 16)
}

/// The `n`-byte big-endian unsigned value at `pos`, and the position after
/// it; `None` when the buffer is too short.
pub open spec fn spec_dec_uint(b: Seq<u8>, pos: int, n: int) -> Option<(nat, int)> {
    if 0 <= pos && 0 <= n && pos + n <= b.len() {
        Some((spec_be_val(b.subrange(pos, pos + n)), pos + n))
    } else {
        None
    }
}

pub fn append_u64(out: &mut Vec<u8>, x: u64)
    ensures
        final(out)@ == old(out)@ + spec_enc_u64(x),
{
    let mut b = u64_to_be(x);
    out.append(&mut b);
}

pub fn append_u128(out: &mut Vec<u8>, x: u128)
    ensures
        final(out)@ == old(out)@ + spec_enc_u128(x),
{
    let mut b = u128_to_be(x);
    out.append(&mut b);
}

pub fn dec_u64(b: &Vec<u8>, pos: usize) -> (r: Option<(u64, usize)>)
    ensures
        match r {
            Some((x, next)) => spec_dec_uint(b@, pos as int, 8) == Some((x as nat, next as int))
                && next == pos + 8,
            None => spec_dec_uint(b@, pos as int, 8) is None,
        },
{
    let blen = b.len();
    if pos > blen || blen - pos < 8 {
        None
    } else {
        let v = read_be(b, pos, 8);
        proof {
            lemma_be_val_bound(b@.subrange(pos as int, pos + 8));
            lemma_pow256_16();
        }
        Some((v as u64, pos + 8))
    }
}

pub fn dec_u128(b: &Vec<u8>, pos: usize) -> (r: Option<(u128, usize)>)
    ensures
        match r {
            Some((x, next)) => spec_dec_uint(b@, pos as int, 16) == Some((x as nat, next as int))
                && next == pos + 16,
            None => spec_dec_uint(b@, pos as int, 16) is None,
        },
{
    let blen = b.len();
    if pos > blen || blen - pos < 16 {
        None
    } else {
        let v = read_be(b, pos, 16);
        proof {
            lemma_be_val_bound(b@.subrange(pos as int, pos + 16));
            lemma_pow256_16();
        }
        Some((v, pos + 16))
    }
}

/// A subrange of a subrange, rebased to the outer buffer.
pub proof fn lemma_subrange_of_subrange(b: Seq<u8>, pos: int, len: int, i: int, j: int)
    requires
        0 <= pos,
        pos + len <= b.len(),
        0 <= i <= j <= len,
    ensures
        b.subrange(pos + i, pos + j) == b.subrange(pos, pos + len).subrange(i, j),
{
    assert(b.subrange(pos + i, pos + j) =~= b.subrange(pos, pos + len).subrange(i, j));
}

/// Decoding an integer at the position where one was encoded yields it back.
pub proof fn lemma_dec_uint_of_enc(b: Seq<u8>, pos: int, x: nat, n: nat)
    requires
        0 <= pos,
        pos + n <= b.len(),
        x < pow(256, n),
        b.subrange(pos, pos + n) == spec_be_bytes(x, n),
    ensures
        spec_dec_uint(b, pos, n as int) == Some((x, pos + n)),
{
    lemma_be_round_trip(x, n);
}

/// A length-prefixed UTF-8 string: eight length bytes, then the bytes.
pub open spec fn spec_enc_str(s: Seq<char>) -> Seq<u8> {
    spec_be_bytes(encode_utf8(s).len(), 8) + encode_utf8(s)
}

/// Whether a string's UTF-8 form fits the eight-byte length prefix.
pub open spec fn str_fits(s: Seq<char>) -> bool {
    encode_utf8(s).len() < pow(256, 8)
}

pub open spec fn spec_dec_str(b: Seq<u8>, pos: int) -> Option<(Seq<char>, int)> {
    match spec_dec_uint(b, pos, 8) {
        None => None,
        Some((len, p1)) => if p1 + len <= b.len() {
            let bytes = b.subrange(p1, p1 + len);
            if valid_utf8(bytes) {
                Some((decode_utf8(bytes), p1 + len))
            } else {
                None
            }
        } else {
            None
        },
    }
}

pub fn append_str(out: &mut Vec<u8>, s: &String)
    ensures
        final(out)@ == old(out)@ + spec_enc_str(s@),
        str_fits(s@),
{
    let bs = s.as_str().as_bytes();
    let len64: u64 = bs.len() as u64;
    proof {
        lemma_pow256_16();
    }
    append_u64(out, len64);
    let mut v = slice_to_vec(bs);
    out.append(&mut v);
    proof {
        assert(final(out)@ =~= old(out)@ + spec_enc_str(s@));
    }
}

pub fn dec_str(b: &Vec<u8>, pos: usize) -> (r: Option<(String, usize)>)
    ensures
        match r {
            Some((s, next)) => spec_dec_str(b@, pos as int) == Some((s@, next as int)),
            None => spec_dec_str(b@, pos as int) is None,
        },
{
    let blen = b.len();
    match dec_u64(b, pos) {
        None => None,
        Some((len, p1)) => {
            if len > (blen - p1) as u64 {
                None
            } else {
                let end: usize = p1 + (len as usize);
                let bytes = slice_to_vec(slice_subrange(b.as_slice(), p1, end));
                match string_from_utf8(bytes) {
                    Some(s) => {
                        proof {
                            vstd::utf8::encode_utf8_decode_utf8(s@);
                        }
                        Some((s, end))
                    },
                    None => None,
                }
            }
        },
    }
}

/// Decoding a string at the position where one was encoded yields it back.
pub proof fn lemma_dec_str_of_enc(b: Seq<u8>, pos: int, s: Seq<char>)
    requires
        0 <= pos,
        pos + spec_enc_str(s).len() <= b.len(),
        str_fits(s),
        b.subrange(pos, pos + spec_enc_str(s).len() as int) == spec_enc_str(s),
    ensures
        spec_dec_str(b, pos) == Some((s, pos + spec_enc_str(s).len())),
{
    let eb = encode_utf8(s);
    let n = eb.len();
    let e = spec_enc_str(s);
    lemma_be_bytes_len(n, 8);
    assert(e.len() == 8 + n);
    lemma_subrange_of_subrange(b, pos, e.len() as int, 0, 8);
    assert(e.subrange(0, 8) =~= spec_be_bytes(n, 8));
    lemma_dec_uint_of_enc(b, pos, n, 8);
    lemma_subrange_of_subrange(b, pos, e.len() as int, 8, e.len() as int);
    assert(e.subrange(8, e.len() as int) =~= eb);
    assert(b.subrange(pos + 8, pos + 8 + n) == eb);
    vstd::utf8::encode_utf8_valid_utf8(s);
    vstd::utf8::encode_utf8_decode_utf8(s);
}

} // verus!
