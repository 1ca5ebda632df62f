//! The mathematical model: what unsigned integer a big-endian byte sequence
//! denotes, and the unique `len`-byte encoding of an integer below
//! `pow256(len)`. Every contract of the crate is stated over these functions.

use vstd::prelude::*;
use vstd::arithmetic::div_mod::{
    lemma_fundamental_div_mod, lemma_fundamental_div_mod_converse, lemma_multiply_divide_lt,
    lemma_small_mod,
};

verus! {

/// 256 raised to `n`: the number of distinct values a buffer of `n` bytes can hold.
pub open spec fn pow256(n: nat) -> nat
    decreases n,
{
    if n == 0 {
        1
    } else {
        pow256((n - 1) as nat) * 256
    }
}

/// The unsigned integer a byte sequence denotes when read big-endian:
/// index 0 is the most significant byte, the last index the least significant.
pub open spec fn be_val(s: Seq<u8>) -> nat
    decreases s.len(),
{
    if s.len() == 0 {
        0
    } else {
        be_val(s.drop_last()) * 256 + s.last() as nat
    }
}

/// The big-endian encoding of `v` in exactly `len` bytes; digits of `v`
/// above the most significant byte are dropped.
pub open spec fn be_digits(v: nat, len: nat) -> Seq<u8>
    decreases len,
{
    if len == 0 {
        Seq::empty()
    } else {
        be_digits(v / 256, (len - 1) as nat).push((v % 256) as u8)
    }
}

pub proof fn lemma_pow256_pos(n: nat)
    ensures
        pow256(n) >= 1,
    decreases n,
{
    if n > 0 {
        lemma_pow256_pos((n - 1) as nat);
    }
}

pub proof fn lemma_pow256_increases(a: nat, b: nat)
    requires
        a <= b,
    ensures
        pow256(a) <= pow256(b),
    decreases b,
{
    if a < b {
        lemma_pow256_increases(a, (b - 1) as nat);
    }
}

/// The concrete powers the fixed-width codecs need.
pub proof fn lemma_pow256_values()
    ensures
        pow256(4) == 0x1_0000_0000,
        pow256(8) == 0x1_0000_0000_0000_0000,
{
    reveal_with_fuel(pow256, 9);
}

/// A buffer of `n` bytes denotes a value below `pow256(n)`.
pub proof fn lemma_be_val_bound(s: Seq<u8>)
    ensures
        be_val(s) < pow256(s.len()),
    decreases s.len(),
{
    if s.len() > 0 {
        lemma_be_val_bound(s.drop_last());
        let p: nat = pow256((s.len() - 1) as nat);
        assert(be_val(s.drop_last()) * 256 + s.last() < p * 256) by (nonlinear_arith)
            requires
                be_val(s.drop_last()) < p,
                s.last() < 256,
        ;
    }
}

/// Peeling the most significant byte: a non-empty buffer denotes its first
/// byte scaled by `pow256(len - 1)` plus the value of the rest.
pub proof fn lemma_be_val_first(s: Seq<u8>)
    requires
        s.len() >= 1,
    ensures
        be_val(s) == s[0] * pow256((s.len() - 1) as nat) + be_val(s.subrange(1, s.len() as int)),
    decreases s.len(),
{
    let n: int = s.len() as int;
    if n == 1 {
        assert(s.subrange(1, 1).len() == 0);
        assert(be_val(s.subrange(1, 1)) == 0);
        assert(s.drop_last().len() == 0);
        assert(be_val(s.drop_last()) == 0);
        assert(s.last() == s[0]);
        assert(be_val(s) == s[0] * 1 + 0);
    } else {
        let dl = s.drop_last();
        lemma_be_val_first(dl);
        let t = s.subrange(1, n);
        assert(t.drop_last() =~= dl.subrange(1, n - 1));
        assert(t.last() == s.last());
        let r: nat = be_val(dl.subrange(1, n - 1));
        assert(be_val(t) == r * 256 + s.last());
        let p: nat = pow256((n - 2) as nat);
        assert(be_val(dl) == s[0] * p + r);
        assert(be_val(s) == be_val(dl) * 256 + s.last());
        assert((s[0] * p + r) * 256 == s[0] * (p * 256) + r * 256) by (nonlinear_arith);
        assert(pow256((n - 1) as nat) == p * 256);
        assert(be_val(s) == s[0] * (p * 256) + (r * 256 + s.last()));
    }
}

/// Decoding inverts encoding: the value of the `len`-byte encoding of any
/// `v < pow256(len)` is `v` itself.
pub proof fn lemma_be_val_of_be_digits(v: nat, len: nat)
    requires
        v < pow256(len),
    ensures
        be_val(be_digits(v, len)) == v,
    decreases len,
{
    if len > 0 {
        let q: nat = v / 256;
        let p: nat = pow256((len - 1) as nat);
        lemma_pow256_pos((len - 1) as nat);
        lemma_multiply_divide_lt(v as int, p as int, 256);
        lemma_be_val_of_be_digits(q, (len - 1) as nat);
        let d = be_digits(v, len);
        assert(d.drop_last() =~= be_digits(q, (len - 1) as nat));
        assert(d.last() == (v % 256) as u8);
        lemma_fundamental_div_mod(v as int, 256);
    }
}

/// Encoding inverts decoding: every buffer is the encoding of its own value
/// at its own length.
pub proof fn lemma_be_digits_of_be_val(s: Seq<u8>)
    ensures
        be_digits(be_val(s), s.len()) == s,
    decreases s.len(),
{
    if s.len() > 0 {
        let dl = s.drop_last();
        let v: nat = be_val(s);
        lemma_be_digits_of_be_val(dl);
        lemma_fundamental_div_mod_converse(
            v as int,
            256,
            be_val(dl) as int,
            s.last() as int,
        );
        assert(v / 256 == be_val(dl));
        assert(v % 256 == s.last());
        assert(be_digits(v, s.len()) =~= s);
    }
}

/// Two buffers of the same length with the same value are the same buffer.
pub proof fn lemma_be_val_injective(s1: Seq<u8>, s2: Seq<u8>)
    requires
        s1.len() == s2.len(),
        be_val(s1) == be_val(s2),
    ensures
        s1 == s2,
{
    lemma_be_digits_of_be_val(s1);
    lemma_be_digits_of_be_val(s2);
}

/// The all-zero buffer denotes zero.
pub proof fn lemma_be_val_all_zero(s: Seq<u8>)
    requires
        forall|i: int| 0 <= i < s.len() ==> s[i] == 0,
    ensures
        be_val(s) == 0,
    decreases s.len(),
{
    if s.len() > 0 {
        lemma_be_val_all_zero(s.drop_last());
    }
}

/// The encoding of zero is the all-zero buffer.
pub proof fn lemma_be_digits_zero(len: nat)
    ensures
        be_digits(0, len).len() == len,
        forall|i: int| 0 <= i < len ==> be_digits(0, len)[i] == 0,
    decreases len,
{
    if len > 0 {
        lemma_be_digits_zero((len - 1) as nat);
        lemma_small_mod(0, 256);
        assert(0nat / 256 == 0) by (nonlinear_arith);
    }
}

/// An encoding always has the requested length.
pub proof fn lemma_be_digits_len(v: nat, len: nat)
    ensures
        be_digits(v, len).len() == len,
    decreases len,
{
    if len > 0 {
        lemma_be_digits_len(v / 256, (len - 1) as nat);
    }
}

} // verus!
