//! The digest service: 128-bit content hashes, their hex form, and the
//! 64-bit name hash used for branch identifiers.

use vstd::prelude::*;
use crate::bytes::{spec_be_bytes, u128_to_be};

verus! {

/// A 128-bit content digest.
pub type Digest = u128;

/// The reserved "absent / uncomputed" digest.
pub const DIGEST_NONE: u128 = 0;

/// What `xxhash_rust::xxh3::xxh3_128` returns for a byte string.
pub uninterp spec fn xxh3_128_of(bytes: Seq<u8>) -> u128;

/// What `xxhash_rust::xxh3::xxh3_64` returns for a byte string.
pub uninterp spec fn xxh3_64_of(bytes: Seq<u8>) -> u64;

/// Relies on `xxhash_rust::xxh3::xxh3_128`: the digest is a function of the
/// input bytes alone.
#[verifier::external_body]
pub fn compute_bytes(bytes: &[u8]) -> (r: u128)
    ensures
        r == xxh3_128_of(bytes@),
{
    xxhash_rust::xxh3::xxh3_128(bytes)
}

/// Relies on `xxhash_rust::xxh3::xxh3_64`: the hash is a function of the
/// input bytes alone.
#[verifier::external_body]
pub(crate) fn hash64(bytes: &[u8]) -> (r: u64)
    ensures
        r == xxh3_64_of(bytes@),
{
    xxhash_rust::xxh3::xxh3_64(bytes)
}

/// Relies on `String::push` appending exactly one character.
#[verifier::external_body]
pub(crate) fn push_char(s: &mut String, c: char)
    ensures
        final(s)@ == old(s)@.push(c),
{
    s.push(c);
}

/// The lower-case hex character for a value below 16.
pub open spec fn hex_digit(n: nat) -> char {
    if n == 0 {
        '0'
    } else if n == 1 {
        '1'
    } else if n == 2 {
        '2'
    } else if n == 3 {
        '3'
    } else if n == 4 {
        '4'
    } else if n == 5 {
        '5'
    } else if n == 6 {
        '6'
    } else if n == 7 {
        '7'
    } else if n == 8 {
        '8'
    } else if n == 9 {
        '9'
    } else if n == 10 {
        'a'
    } else if n == 11 {
        'b'
    } else if n == 12 {
        'c'
    } else if n == 13 {
        'd'
    } else if n == 14 {
        'e'
    } else {
        'f'
    }
}

/// Two lower-case hex characters for each byte, in order.
pub open spec fn spec_hex_of(bytes: Seq<u8>) -> Seq<char>
    decreases bytes.len(),
{
    if bytes.len() == 0 {
        Seq::empty()
    } else {
        seq![hex_digit((bytes[0] / 16) as nat), hex_digit((bytes[0] % 16) as nat)]
            + spec_hex_of(bytes.drop_first())
    }
}

/// The 32-character lower-case big-endian hex form of a digest.
pub open spec fn spec_digest_hex(d: u128) -> Seq<char> {
    spec_hex_of(spec_be_bytes(d as nat, 16))
}

pub proof fn lemma_hex_of_len(bytes: Seq<u8>)
    ensures
        spec_hex_of(bytes).len() == 2 * bytes.len(),
    decreases bytes.len(),
{
    if bytes.len() > 0 {
        lemma_hex_of_len(bytes.drop_first());
    }
}

fn hex_digit_char(n: u8) -> (c: char)
    requires
        n < 16,
    ensures
        c == hex_digit(n as nat),
{
    match n {
        0 => '0',
        1 => '1',
        2 => '2',
        3 => '3',
        4 => '4',
        5 => '5',
        6 => '6',
        7 => '7',
        8 => '8',
        9 => '9',
        10 => 'a',
        11 => 'b',
        12 => 'c',
        13 => 'd',
        14 => 'e',
        _ => 'f',
    }
}

/// Appends the hex form of each byte of `bytes` to `out`.
pub(crate) fn hex_append(out: &mut String, bytes: &Vec<u8>)
    ensures
        final(out)@ == old(out)@ + spec_hex_of(bytes@),
{
    let len = bytes.len();
    let mut i: usize = 0;
    proof {
        assert(bytes@.skip(0) =~= bytes@);
        assert(out@ + spec_hex_of(bytes@.skip(0)) == out@ + spec_hex_of(bytes@));
    }
    while i < len
        invariant
            i <= len,
            len == bytes@.len(),
            old(out)@ + spec_hex_of(bytes@) == out@ + spec_hex_of(bytes@.skip(i as int)),
        decreases len - i,
    {
        let b = bytes[i];
        let hi = hex_digit_char(b / 16);
        let lo = hex_digit_char(b % 16);
        push_char(out, hi);
        push_char(out, lo);
        proof {
            let rest = bytes@.skip(i as int);
            assert(rest[0] == bytes@[i as int]);
            assert(rest.drop_first() =~= bytes@.skip(i + 1));
            assert(spec_hex_of(rest) == seq![
                hex_digit((b / 16) as nat),
                hex_digit((b % 16) as nat),
            ] + spec_hex_of(bytes@.skip(i + 1)));
            assert(old(out)@ + spec_hex_of(bytes@) =~= out@ + spec_hex_of(bytes@.skip(i + 1)));
        }
        i = i + 1;
    }
    proof {
        assert(bytes@.skip(len as int) =~= Seq::<u8>::empty());
        assert(old(out)@ + spec_hex_of(bytes@) =~= out@);
    }
}

/// Conversions a digest supports beyond plain integer arithmetic.
pub trait DigestExt {
    /// The character sequence `to_hex_string` must return.
    spec fn spec_hex_chars(&self) -> Seq<char>;

    /// Renders the digest for on-disk naming.
    fn to_hex_string(&self) -> (r: String)
        ensures
            r@ == self.spec_hex_chars(),
    ;
}

impl DigestExt for u128 {
    open spec fn spec_hex_chars(&self) -> Seq<char> {
        spec_digest_hex(*self)
    }

    fn to_hex_string(&self) -> (r: String)
        ensures
            r@ == self.spec_hex_chars(),
    {
        let bytes = u128_to_be(*self);
        let mut r = String::new();
        hex_append(&mut r, &bytes);
        proof {
            assert(Seq::<char>::empty() + spec_hex_of(bytes@) =~= spec_hex_of(bytes@));
        }
        r
    }
}

/// A digest's hex form always has 32 characters.
pub proof fn lemma_digest_hex_len(d: u128)
    ensures
        spec_digest_hex(d).len() == 32,
{
    crate::bytes::lemma_be_bytes_len(d as nat, 16);
    lemma_hex_of_len(spec_be_bytes(d as nat, 16));
}

} // verus!
