//! Big-endian integer encoding and byte-wise lexicographic ordering.
//!
//! Every record and key the stores hold is built from these primitives:
//! fixed-width big-endian integers, and names compared byte by byte.

use vstd::prelude::*;
use vstd::arithmetic::power::pow;

verus! {

/// The `n` big-endian bytes of `x` (the value of `x` modulo `256^n`).
pub open spec fn spec_be_bytes(x: nat, n: nat) -> Seq<u8>
    decreases n,
{
    if n == 0 {
        Seq::empty()
    } else {
        spec_be_bytes(x / 256, (n - 1) as nat).push((x % 256) as u8)
    }
}

/// The value a big-endian byte string denotes.
pub open spec fn spec_be_val(s: Seq<u8>) -> nat
    decreases s.len(),
{
    if s.len() == 0 {
        0
    } else {
        spec_be_val(s.drop_last()) * 256 + (s.last() as nat)
    }
}

pub proof fn lemma_be_bytes_len(x: nat, n: nat)
    ensures
        spec_be_bytes(x, n).len() == n,
    decreases n,
{
    if n > 0 {
        lemma_be_bytes_len(x / 256, (n - 1) as nat);
    }
}

pub proof fn lemma_be_val_bound(s: Seq<u8>)
    ensures
        spec_be_val(s) < pow(256, s.len()),
    decreases s.len(),
{
    if s.len() == 0 {
        vstd::arithmetic::power::lemma_pow0(256);
    } else {
        lemma_be_val_bound(s.drop_last());
        let p = pow(256, (s.len() - 1) as nat);
        assert(pow(256, s.len()) == 256 * p) by {
            vstd::arithmetic::power::lemma_pow1(256);
            vstd::arithmetic::power::lemma_pow_adds(256, 1, (s.len() - 1) as nat);
        }
        assert(spec_be_val(s.drop_last()) * 256 + s.last() < 256 * p) by (nonlinear_arith)
            requires
                spec_be_val(s.drop_last()) < p,
                s.last() < 256;
    }
}

/// Round trip: decoding the big-endian bytes of `x` gives `x` back.
pub proof fn lemma_be_round_trip(x: nat, n: nat)
    requires
        x < pow(256, n),
    ensures
        spec_be_val(spec_be_bytes(x, n)) == x,
    decreases n,
{
    if n == 0 {
        vstd::arithmetic::power::lemma_pow0(256);
    } else {
        let p = pow(256, (n - 1) as nat);
        assert(pow(256, n) == 256 * p) by {
            vstd::arithmetic::power::lemma_pow1(256);
            vstd::arithmetic::power::lemma_pow_adds(256, 1, (n - 1) as nat);
        }
        assert(x / 256 < p) by (nonlinear_arith)
            requires
                x < 256 * p;
        lemma_be_round_trip(x / 256, (n - 1) as nat);
        lemma_be_bytes_len(x / 256, (n - 1) as nat);
        let s = spec_be_bytes(x, n);
        assert(s.drop_last() =~= spec_be_bytes(x / 256, (n - 1) as nat));
        assert((x / 256) * 256 + x % 256 == x) by (nonlinear_arith);
    }
}

/// Big-endian bytes are injective on values below `256^n`.
pub proof fn lemma_be_bytes_injective(x: nat, y: nat, n: nat)
    requires
        x < pow(256, n),
        y < pow(256, n),
        spec_be_bytes(x, n) == spec_be_bytes(y, n),
    ensures
        x == y,
{
    lemma_be_round_trip(x, n);
    lemma_be_round_trip(y, n);
}

pub proof fn lemma_pow256_16()
    ensures
        pow(256, 4) == 0x1_0000_0000,
        pow(256, 8) == 0x1_0000_0000_0000_0000,
        pow(256, 16) == 0x1_0000_0000_0000_0000_0000_0000_0000_0000,
{
    assert(pow(256, 4) == 0x1_0000_0000) by {
        vstd::arithmetic::power::lemma_pow0(256);
        reveal_with_fuel(vstd::arithmetic::power::pow, 5);
    }
    vstd::arithmetic::power::lemma_pow_adds(256, 4, 4);
    assert(pow(256, 8) == 0x1_0000_0000 * 0x1_0000_0000);
    vstd::arithmetic::power::lemma_pow_adds(256, 8, 8);
    assert(pow(256, 16) == 0x1_0000_0000_0000_0000 * 0x1_0000_0000_0000_0000);
}

fn be_bytes_rec(x: u128, n: usize) -> (r: Vec<u8>)
    ensures
        r@ == spec_be_bytes(x as nat, n as nat),
    decreases n,
{
    if n == 0 {
        let r: Vec<u8> = Vec::new();
        assert(r@ =~= spec_be_bytes(x as nat, 0));
        r
    } else {
        let mut r = be_bytes_rec(x / 256, n - 1);
        r.push((x % 256) as u8);
        r
    }
}

pub fn u32_to_be(x: u32) -> (r: Vec<u8>)
    ensures
        r@ == spec_be_bytes(x as nat, 4),
{
    be_bytes_rec(x as u128, 4)
}

pub fn u64_to_be(x: u64) -> (r: Vec<u8>)
    ensures
        r@ == spec_be_bytes(x as nat, 8),
{
    be_bytes_rec(x as u128, 8)
}

pub fn u128_to_be(x: u128) -> (r: Vec<u8>)
    ensures
        r@ == spec_be_bytes(x as nat, 16),
{
    be_bytes_rec(x, 16)
}

/// Reads the `n`-byte big-endian value stored at `b[start .. start + n]`.
pub fn read_be(b: &Vec<u8>, start: usize, n: usize) -> (r: u128)
    requires
        start + n <= b@.len(),
        n <= 16,
    ensures
        r as nat == spec_be_val(b@.subrange(start as int, start + n)),
{
    let blen = b.len();
    let mut acc: u128 = 0;
    let mut i: usize = 0;
    proof {
        assert(b@.subrange(start as int, start as int) =~= Seq::<u8>::empty());
        vstd::arithmetic::power::lemma_pow0(256);
    }
    while i < n
        invariant
            i <= n,
            n <= 16,
            start + n <= blen,
            blen == b@.len(),
            acc as nat == spec_be_val(b@.subrange(start as int, start + i)),
            acc < pow(256, i as nat),
        decreases n - i,
    {
        proof {
            let pi = pow(256, i as nat);
            assert(pow(256, (i + 1) as nat) == 256 * pi) by {
                vstd::arithmetic::power::lemma_pow1(256);
                vstd::arithmetic::power::lemma_pow_adds(256, 1, i as nat);
            }
            assert(256 * pi <= pow(256, 16)) by {
                vstd::arithmetic::power::lemma_pow_increases(256, (i + 1) as nat, 16);
            }
            lemma_pow256_16();
            assert((acc as nat) * 256 + 255 < 256 * pi) by (nonlinear_arith)
                requires
                    (acc as nat) < pi;
        }
        acc = acc * 256 + (b[start + i] as u128);
        proof {
            let s1 = b@.subrange(start as int, start + i + 1);
            assert(s1.drop_last() =~= b@.subrange(start as int, start + i));
            assert(s1.last() == b@[start + i]);
        }
        i = i + 1;
    }
    assert(b@.subrange(start as int, start + n) == b@.subrange(start as int, start + i));
    acc
}

/// Strict byte-wise (shortlex-free, true lexicographic) order on byte strings.
pub open spec fn lex_lt(a: Seq<u8>, b: Seq<u8>) -> bool
    decreases a.len(),
{
    if b.len() == 0 {
        false
    } else if a.len() == 0 {
        true
    } else if a[0] < b[0] {
        true
    } else if a[0] > b[0] {
        false
    } else {
        lex_lt(a.drop_first(), b.drop_first())
    }
}

pub proof fn lemma_lex_irreflexive(a: Seq<u8>)
    ensures
        !lex_lt(a, a),
    decreases a.len(),
{
    if a.len() > 0 {
        lemma_lex_irreflexive(a.drop_first());
    }
}

pub proof fn lemma_lex_connected(a: Seq<u8>, b: Seq<u8>)
    requires
        !lex_lt(a, b),
        !lex_lt(b, a),
    ensures
        a == b,
    decreases a.len(),
{
    if a.len() == 0 || b.len() == 0 {
        assert(a =~= b);
    } else {
        lemma_lex_connected(a.drop_first(), b.drop_first());
        assert(a =~= seq![a[0]] + a.drop_first());
        assert(b =~= seq![b[0]] + b.drop_first());
    }
}

pub proof fn lemma_lex_asymmetric(a: Seq<u8>, b: Seq<u8>)
    requires
        lex_lt(a, b),
    ensures
        !lex_lt(b, a),
        a != b,
    decreases a.len(),
{
    lemma_lex_irreflexive(a);
    if a.len() > 0 && b.len() > 0 && a[0] == b[0] {
        lemma_lex_asymmetric(a.drop_first(), b.drop_first());
    }
}

pub proof fn lemma_lex_transitive(a: Seq<u8>, b: Seq<u8>, c: Seq<u8>)
    requires
        lex_lt(a, b),
        lex_lt(b, c),
    ensures
        lex_lt(a, c),
    decreases a.len(),
{
    if b.len() == 0 || c.len() == 0 || a.len() == 0 {
    } else {
        if a[0] == b[0] && b[0] == c[0] {
            lemma_lex_transitive(a.drop_first(), b.drop_first(), c.drop_first());
        }
    }
}

/// Three-way comparison result for byte strings.
#[derive(PartialEq, Eq, Structural, Clone, Copy, Debug)]
pub enum Cmp {
    Lt,
    Eq,
    Gt,
}

pub open spec fn spec_cmp(a: Seq<u8>, b: Seq<u8>) -> Cmp {
    if lex_lt(a, b) {
        Cmp::Lt
    } else if lex_lt(b, a) {
        Cmp::Gt
    } else {
        Cmp::Eq
    }
}

proof fn lemma_lex_skip(a: Seq<u8>, b: Seq<u8>, i: int)
    requires
        0 <= i <= a.len(),
        i <= b.len(),
        a.subrange(0, i) == b.subrange(0, i),
    ensures
        lex_lt(a, b) == lex_lt(a.skip(i), b.skip(i)),
    decreases i,
{
    if i > 0 {
        assert(a.len() > 0 && b.len() > 0);
        assert(a.subrange(0, i)[0] == a[0]);
        assert(b.subrange(0, i)[0] == b[0]);
        let a1 = a.drop_first();
        let b1 = b.drop_first();
        assert(a1.subrange(0, i - 1) =~= b1.subrange(0, i - 1)) by {
            assert forall|j: int| 0 <= j < i - 1 implies #[trigger] a1.subrange(0, i - 1)[j]
                == b1.subrange(0, i - 1)[j] by {
                assert(a1.subrange(0, i - 1)[j] == a[j + 1]);
                assert(b1.subrange(0, i - 1)[j] == b[j + 1]);
                assert(a.subrange(0, i)[j + 1] == a[j + 1]);
                assert(b.subrange(0, i)[j + 1] == b[j + 1]);
                assert(a.subrange(0, i)[j + 1] == b.subrange(0, i)[j + 1]);
            }
        }
        lemma_lex_skip(a.drop_first(), b.drop_first(), i - 1);
        assert(a.drop_first().skip(i - 1) =~= a.skip(i));
        assert(b.drop_first().skip(i - 1) =~= b.skip(i));
    } else {
        assert(a.skip(0) =~= a);
        assert(b.skip(0) =~= b);
    }
}

/// Byte-wise three-way comparison of two byte strings.
pub fn bytes_cmp(a: &[u8], b: &[u8]) -> (r: Cmp)
    ensures
        r == spec_cmp(a@, b@),
{
    let alen = a.len();
    let blen = b.len();
    let mut i: usize = 0;
    loop
        invariant
            i <= alen,
            i <= blen,
            alen == a@.len(),
            blen == b@.len(),
            a@.subrange(0, i as int) == b@.subrange(0, i as int),
        decreases alen - i,
    {
        proof {
            lemma_lex_skip(a@, b@, i as int);
            lemma_lex_skip(b@, a@, i as int);
        }
        if i >= alen || i >= blen {
            proof {
                if alen == blen {
                    assert(a@.subrange(0, i as int) =~= a@);
                    assert(b@.subrange(0, i as int) =~= b@);
                    assert(a@ =~= b@);
                    lemma_lex_irreflexive(a@);
                }
            }
            if alen < blen {
                return Cmp::Lt;
            } else if alen > blen {
                return Cmp::Gt;
            } else {
                return Cmp::Eq;
            }
        }
        let x = a[i];
        let y = b[i];
        if x < y {
            proof {
                lemma_lex_asymmetric(a@.skip(i as int), b@.skip(i as int));
            }
            return Cmp::Lt;
        } else if x > y {
            proof {
                lemma_lex_asymmetric(b@.skip(i as int), a@.skip(i as int));
            }
            return Cmp::Gt;
        }
        proof {
            assert(a@.subrange(0, i + 1) =~= b@.subrange(0, i + 1)) by {
                assert forall|j: int| 0 <= j < i + 1 implies #[trigger] a@.subrange(0, i + 1)[j]
                    == b@.subrange(0, i + 1)[j] by {
                    if j < i {
                        assert(a@.subrange(0, i as int)[j] == b@.subrange(0, i as int)[j]);
                    }
                }
            }
        }
        i = i + 1;
    }
}

} // verus!
