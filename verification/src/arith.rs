//! Two's-complement arithmetic on byte buffers, in place: bitwise
//! complement, negation, and addition with carry propagated from the
//! least significant byte toward the most significant one. A carry past
//! the first byte is discarded, so every result is exact modulo
//! `pow256(len)`.

use vstd::prelude::*;
use vstd::arithmetic::div_mod::{
    lemma_fundamental_div_mod, lemma_mod_self_0, lemma_small_mod,
};
use crate::value::{
    be_digits, be_val, lemma_be_digits_of_be_val, lemma_be_digits_zero, lemma_be_val_all_zero,
    lemma_be_val_bound, lemma_be_val_first, lemma_be_val_of_be_digits, lemma_pow256_pos,
    pow256,
};

verus! {

/// The bytes a buffer holds after two's-complement negation: the encoding
/// of the additive inverse of its value, modulo `pow256(len)`.
pub open spec fn negated(s: Seq<u8>) -> Seq<u8> {
    be_digits(
        ((pow256(s.len()) - be_val(s)) % (pow256(s.len()) as int)) as nat,
        s.len(),
    )
}

/// The bytes the left buffer holds after in-place addition: the encoding
/// of the sum of both values, modulo `pow256(len)`.
pub open spec fn summed(a: Seq<u8>, b: Seq<u8>) -> Seq<u8> {
    be_digits((be_val(a) + be_val(b)) % pow256(a.len()), a.len())
}

/// Flips every bit of every byte in the slice in place.
pub fn invert_bytes(bytes: &mut [u8])
    ensures
        final(bytes)@.len() == old(bytes)@.len(),
        forall|i: int|
            0 <= i < old(bytes)@.len() ==> final(bytes)@[i] == 255 - old(bytes)@[i],
{
    let n: usize = bytes.len();
    let mut i: usize = 0;
    while i < n
        invariant
            i <= n,
            bytes@.len() == n,
            old(bytes)@.len() == n,
            forall|j: int| 0 <= j < i ==> bytes@[j] == 255 - old(bytes)@[j],
            forall|j: int| i <= j < n ==> bytes@[j] == old(bytes)@[j],
        decreases n - i,
    {
        let b: u8 = bytes[i];
        proof {
            assert(!b == 255 - b) by (bit_vector);
        }
        bytes[i] = !b;
        i += 1;
    }
}

/// One carry step, shared by byte and buffer addition: writing
/// `(pre[p] + w + cin) % 256` at position `p` and carrying
/// `(pre[p] + w + cin) / 256` accounts exactly for absorbing `w` and the
/// incoming carry into the suffix that starts at `p`.
proof fn lemma_carry_step(pre: Seq<u8>, post: Seq<u8>, p: int, n: int, w: nat, cin: nat)
    requires
        0 <= p < n,
        pre.len() == n,
        post == pre.update(p, (((pre[p] + w + cin) % 256) as u8)),
    ensures
        be_val(post.subrange(p, n)) + ((pre[p] + w + cin) / 256) * pow256((n - p) as nat)
            == pre[p] * pow256((n - p - 1) as nat) + w * pow256((n - p - 1) as nat) + cin
            * pow256((n - p - 1) as nat) + be_val(pre.subrange(p + 1, n)),
{
    let s: nat = pre[p] as nat + w + cin;
    let newbyte: nat = s % 256;
    let cout: nat = s / 256;
    let p1: nat = pow256((n - p - 1) as nat);
    assert(post.subrange(p + 1, n) =~= pre.subrange(p + 1, n));
    let t = post.subrange(p, n);
    lemma_be_val_first(t);
    assert(t.subrange(1, t.len() as int) =~= post.subrange(p + 1, n));
    assert(t[0] == newbyte as u8);
    assert(t[0] as nat == newbyte);
    lemma_fundamental_div_mod(s as int, 256);
    assert(s == 256 * cout + newbyte);
    assert(pow256((n - p) as nat) == pow256((n - p - 1) as nat) * 256);
    assert(newbyte * p1 + cout * (p1 * 256) == pre[p] * p1 + w * p1 + cin * p1)
        by (nonlinear_arith)
        requires
            pre[p] + w + cin == 256 * cout + newbyte,
    ;
}

/// Adds a single byte at the least-significant end of the buffer,
/// propagating the carry toward the most significant byte.
///
/// Returns `true` iff a carry overflowed past the most significant byte;
/// either way the buffer ends up holding `old value + rhs` modulo
/// `pow256(len)`.
pub fn bytes_add_byte(lhs: &mut [u8], rhs: u8) -> (overflow: bool)
    requires
        old(lhs)@.len() >= 1,
    ensures
        final(lhs)@.len() == old(lhs)@.len(),
        be_val(final(lhs)@) + (if overflow {
            pow256(old(lhs)@.len())
        } else {
            0nat
        }) == be_val(old(lhs)@) + rhs,
{
    let n: usize = lhs.len();
    let mut carry: u16 = rhs as u16;
    let mut i: usize = n;
    proof {
        assert(lhs@.subrange(n as int, n as int).len() == 0);
        assert(be_val(lhs@.subrange(n as int, n as int)) == 0);
        assert(old(lhs)@.subrange(n as int, n as int) =~= lhs@.subrange(n as int, n as int));
        assert(pow256(0) == 1);
        assert((n - i) as nat == 0);
        assert(carry * pow256((n - i) as nat) == rhs);
    }
    while i > 0
        invariant
            i <= n,
            lhs@.len() == n,
            old(lhs)@.len() == n,
            carry <= 255,
            i < n ==> carry <= 1,
            lhs@.subrange(0, i as int) == old(lhs)@.subrange(0, i as int),
            be_val(lhs@.subrange(i as int, n as int)) + carry * pow256((n - i) as nat)
                == be_val(old(lhs)@.subrange(i as int, n as int)) + rhs,
        decreases i,
    {
        let ghost pre = lhs@;
        let ghost cin: nat = carry as nat;
        let p: usize = i - 1;
        let b: u8 = lhs[p];
        let sum: u16 = b as u16 + carry;
        lhs[p] = (sum % 256) as u8;
        carry = sum / 256;
        proof {
            lemma_carry_step(pre, lhs@, p as int, n as int, 0, cin);
            let t = old(lhs)@.subrange(p as int, n as int);
            lemma_be_val_first(t);
            assert(t.subrange(1, t.len() as int) =~= old(lhs)@.subrange(i as int, n as int));
            assert(pre.subrange(0, i as int)[p as int] == pre[p as int]);
            assert(old(lhs)@.subrange(0, i as int)[p as int] == old(lhs)@[p as int]);
            assert(pre[p as int] == old(lhs)@[p as int]);
            assert(pre.subrange(i as int, n as int) == lhs@.subrange(i as int, n as int));
            assert(lhs@.subrange(0, p as int) =~= old(lhs)@.subrange(0, p as int));
        }
        i = p;
    }
    proof {
        assert(lhs@.subrange(0, n as int) =~= lhs@);
        assert(old(lhs)@.subrange(0, n as int) =~= old(lhs)@);
    }
    carry != 0
}

/// Adds `rhs` into `lhs` in place, both read as big-endian unsigned
/// integers of identical length; a carry past the most significant byte
/// is discarded, so the result is exact modulo `pow256(len)`.
pub fn bytes_add_bytes(lhs: &mut [u8], rhs: &[u8])
    requires
        old(lhs)@.len() == rhs@.len(),
    ensures
        final(lhs)@.len() == old(lhs)@.len(),
        final(lhs)@ == summed(old(lhs)@, rhs@),
        be_val(final(lhs)@) == (be_val(old(lhs)@) + be_val(rhs@)) % pow256(old(lhs)@.len()),
{
    let n: usize = lhs.len();
    let mut carry: u16 = 0;
    let mut i: usize = n;
    while i > 0
        invariant
            i <= n,
            lhs@.len() == n,
            old(lhs)@.len() == n,
            rhs@.len() == n,
            carry <= 1,
            lhs@.subrange(0, i as int) == old(lhs)@.subrange(0, i as int),
            be_val(lhs@.subrange(i as int, n as int)) + carry * pow256((n - i) as nat)
                == be_val(old(lhs)@.subrange(i as int, n as int)) + be_val(
                rhs@.subrange(i as int, n as int),
            ),
        decreases i,
    {
        let ghost pre = lhs@;
        let ghost cin: nat = carry as nat;
        let p: usize = i - 1;
        let b: u8 = lhs[p];
        let rb: u8 = rhs[p];
        let sum: u16 = b as u16 + rb as u16 + carry;
        lhs[p] = (sum % 256) as u8;
        carry = sum / 256;
        proof {
            lemma_carry_step(pre, lhs@, p as int, n as int, rb as nat, cin);
            let t = old(lhs)@.subrange(p as int, n as int);
            lemma_be_val_first(t);
            assert(t.subrange(1, t.len() as int) =~= old(lhs)@.subrange(i as int, n as int));
            let u = rhs@.subrange(p as int, n as int);
            lemma_be_val_first(u);
            assert(u.subrange(1, u.len() as int) =~= rhs@.subrange(i as int, n as int));
            assert(pre.subrange(0, i as int)[p as int] == pre[p as int]);
            assert(old(lhs)@.subrange(0, i as int)[p as int] == old(lhs)@[p as int]);
            assert(pre[p as int] == old(lhs)@[p as int]);
            assert(pre.subrange(i as int, n as int) == lhs@.subrange(i as int, n as int));
            assert(lhs@.subrange(0, p as int) =~= old(lhs)@.subrange(0, p as int));
        }
        i = p;
    }
    proof {
        assert(lhs@.subrange(0, n as int) =~= lhs@);
        assert(old(lhs)@.subrange(0, n as int) =~= old(lhs)@);
        assert(rhs@.subrange(0, n as int) =~= rhs@);
        lemma_final_value_is_mod(lhs@, old(lhs)@, rhs@, carry as nat);
    }
}

/// After the last carry step of an addition, the buffer's value is the
/// operands' sum reduced modulo `pow256(len)`, and the buffer is that
/// sum's encoding.
proof fn lemma_final_value_is_mod(cur: Seq<u8>, orig: Seq<u8>, rhs: Seq<u8>, carry: nat)
    requires
        cur.len() == orig.len(),
        rhs.len() == orig.len(),
        carry <= 1,
        be_val(cur) + carry * pow256(orig.len()) == be_val(orig) + be_val(rhs),
    ensures
        be_val(cur) == (be_val(orig) + be_val(rhs)) % pow256(orig.len()),
        cur == summed(orig, rhs),
{
    let pw: nat = pow256(orig.len());
    let total: nat = be_val(orig) + be_val(rhs);
    lemma_pow256_pos(orig.len());
    lemma_be_val_bound(cur);
    if carry == 0 {
        lemma_small_mod(total, pw);
    } else {
        assert(be_val(cur) == total - pw);
        assert((pw + be_val(cur)) as int % pw as int == be_val(cur) as int % pw as int) by {
            vstd::arithmetic::div_mod::lemma_mod_add_multiples_vanish(
                be_val(cur) as int,
                pw as int,
            );
        }
        lemma_small_mod(be_val(cur), pw);
    }
    lemma_be_digits_of_be_val(cur);
}

/// Negates the buffer in place, interpreting it as a two's-complement
/// number: every bit is flipped and one is added, with any carry past the
/// most significant byte discarded, so negating a zero buffer yields zero.
pub fn negate_bytes(bytes: &mut [u8])
    requires
        old(bytes)@.len() >= 1,
    ensures
        final(bytes)@.len() == old(bytes)@.len(),
        final(bytes)@ == negated(old(bytes)@),
        be_val(final(bytes)@) == (pow256(old(bytes)@.len()) - be_val(old(bytes)@)) % (
        pow256(old(bytes)@.len()) as int),
{
    let ghost n: nat = old(bytes)@.len();
    invert_bytes(bytes);
    let ghost mid = bytes@;
    proof {
        lemma_complement_value(old(bytes)@, mid);
    }
    bytes_add_byte(bytes, 0x01);
    proof {
        let pw: nat = pow256(n);
        let v: nat = be_val(old(bytes)@);
        lemma_pow256_pos(n);
        lemma_be_val_bound(bytes@);
        lemma_be_val_bound(old(bytes)@);
        assert(be_val(mid) + 1 == pw - v);
        if v == 0 {
            lemma_mod_self_0(pw as int);
            assert(be_val(bytes@) == 0);
        } else {
            lemma_small_mod((pw - v) as nat, pw);
            assert(be_val(bytes@) == pw - v);
        }
        lemma_be_digits_of_be_val(bytes@);
    }
}

/// A buffer with every bit flipped denotes the complement of the original
/// value: the two add up to `pow256(len) - 1`.
proof fn lemma_complement_value(s: Seq<u8>, t: Seq<u8>)
    requires
        t.len() == s.len(),
        forall|i: int| 0 <= i < s.len() ==> t[i] == 255 - s[i],
    ensures
        be_val(t) + be_val(s) == pow256(s.len()) - 1,
    decreases s.len(),
{
    if s.len() > 0 {
        assert(t.drop_last() =~= t.subrange(0, s.len() - 1));
        lemma_complement_value(s.drop_last(), t.drop_last());
        assert(t.last() == 255 - s.last());
    }
}

/// Negation is an involution: negating a non-empty buffer twice restores
/// the buffer it started from.
pub proof fn lemma_negate_involutive(b: Seq<u8>)
    requires
        b.len() >= 1,
    ensures
        negated(negated(b)) == b,
{
    let n: nat = b.len();
    let pw: nat = pow256(n);
    let v: nat = be_val(b);
    lemma_pow256_pos(n);
    lemma_be_val_bound(b);
    let w: nat = (((pw - v) as int) % (pw as int)) as nat;
    if v == 0 {
        lemma_mod_self_0(pw as int);
        assert(w == 0);
        lemma_small_mod(0, pw);
    } else {
        lemma_small_mod((pw - v) as nat, pw);
        assert(w == pw - v);
        lemma_small_mod(v, pw);
    }
    let nb = negated(b);
    lemma_be_val_of_be_digits(w, n);
    crate::value::lemma_be_digits_len(w, n);
    assert(be_val(nb) == w);
    assert(nb.len() == n);
    assert((((pw - w) as int) % (pw as int)) as nat == v);
    lemma_be_digits_of_be_val(b);
}

/// Negating the all-zero buffer leaves it all zero: the carry out of the
/// final increment is discarded, matching `-0 == 0`.
pub proof fn lemma_negate_zero(b: Seq<u8>)
    requires
        forall|i: int| 0 <= i < b.len() ==> b[i] == 0,
    ensures
        negated(b) == b,
{
    let n: nat = b.len();
    let pw: nat = pow256(n);
    lemma_pow256_pos(n);
    lemma_be_val_all_zero(b);
    lemma_mod_self_0(pw as int);
    assert(negated(b) == be_digits(0, n));
    lemma_be_digits_of_be_val(b);
}

/// Addition is commutative: adding `b` into a copy of `a` leaves the same
/// bytes as adding `a` into a copy of `b`.
pub proof fn lemma_add_commutes(a: Seq<u8>, b: Seq<u8>)
    requires
        a.len() == b.len(),
    ensures
        summed(a, b) == summed(b, a),
{
}

/// Adding a buffer's negation to it yields the all-zero buffer of the
/// same length.
pub proof fn lemma_add_negated_is_zero(a: Seq<u8>)
    requires
        a.len() >= 1,
    ensures
        summed(a, negated(a)).len() == a.len(),
        forall|i: int| 0 <= i < a.len() ==> summed(a, negated(a))[i] == 0,
{
    let n: nat = a.len();
    let pw: nat = pow256(n);
    let v: nat = be_val(a);
    lemma_pow256_pos(n);
    lemma_be_val_bound(a);
    let w: nat = (((pw - v) as int) % (pw as int)) as nat;
    let na = negated(a);
    crate::value::lemma_be_digits_len(w, n);
    lemma_be_val_of_be_digits(w, n);
    lemma_mod_self_0(pw as int);
    if v == 0 {
        assert(w == 0);
        lemma_small_mod(0, pw);
        assert((v + w) % pw == 0);
    } else {
        lemma_small_mod((pw - v) as nat, pw);
        assert(v + w == pw);
        assert((v + w) % pw == 0);
    }
    assert(summed(a, na) == be_digits(0, n));
    lemma_be_digits_zero(n);
}

} // verus!
