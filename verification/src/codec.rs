//! Lossless conversion between fixed-width unsigned integers and their
//! big-endian byte arrays. One generic routine per direction carries the
//! proof; the public per-width functions fix the array length that the
//! integer's width dictates.

use vstd::prelude::*;
use vstd::array::array_fill_for_copy_types;
use crate::value::{
    be_digits, be_val, lemma_be_val_bound, lemma_be_val_of_be_digits, lemma_pow256_increases,
    lemma_pow256_values, pow256,
};

verus! {

/// Encodes the low `N` bytes of `val` big-endian: output index 0 is the
/// most significant byte.
fn be_encode<const N: usize>(val: u64) -> (r: [u8; N])
    ensures
        r@ == be_digits(val as nat, N as nat),
{
    let mut buf: [u8; N] = array_fill_for_copy_types(0u8);
    let mut v: u64 = val;
    let mut i: usize = 0;
    proof {
        assert(buf@.subrange(N as int, N as int).len() == 0);
        assert(be_digits(val as nat, N as nat) =~= be_digits(val as nat, N as nat)
            + buf@.subrange(N as int, N as int));
    }
    while i < N
        invariant
            i <= N,
            buf@.len() == N,
            be_digits(val as nat, N as nat) == be_digits(v as nat, (N - i) as nat)
                + buf@.subrange((N - i) as int, N as int),
        decreases N - i,
    {
        let ghost pre = buf@;
        let p: usize = N - 1 - i;
        buf[p] = (v % 256) as u8;
        proof {
            let rem: nat = (N - i) as nat;
            assert(be_digits(v as nat, rem) == be_digits(v as nat / 256, (rem - 1) as nat)
                .push((v as nat % 256) as u8));
            assert(buf@.subrange(p as int, N as int) =~= seq![(v % 256) as u8]
                + pre.subrange((N - i) as int, N as int));
            assert(be_digits(v as nat / 256, (rem - 1) as nat).push((v as nat % 256) as u8)
                + pre.subrange((N - i) as int, N as int) =~= be_digits(
                v as nat / 256,
                (rem - 1) as nat,
            ) + buf@.subrange(p as int, N as int));
        }
        v = v / 256;
        i += 1;
    }
    proof {
        assert(be_digits(v as nat, 0).len() == 0);
        assert(be_digits(v as nat, 0) + buf@.subrange(0, N as int) =~= buf@.subrange(
            0,
            N as int,
        ));
        assert(buf@.subrange(0, N as int) =~= buf@);
    }
    buf
}

/// Decodes a big-endian byte array of at most eight bytes into the
/// unsigned integer it denotes.
fn be_decode<const N: usize>(bytes: &[u8; N]) -> (r: u64)
    requires
        N <= 8,
    ensures
        r as nat == be_val(bytes@),
{
    let mut res: u64 = 0;
    let mut i: usize = 0;
    proof {
        assert(be_val(bytes@.subrange(0, 0)) == 0);
        assert(pow256(0) == 1);
    }
    while i < N
        invariant
            i <= N,
            N <= 8,
            bytes@.len() == N,
            res as nat == be_val(bytes@.subrange(0, i as int)),
            res < pow256(i as nat),
        decreases N - i,
    {
        proof {
            lemma_pow256_increases((i + 1) as nat, 8);
            lemma_pow256_values();
            let t = bytes@.subrange(0, i + 1);
            assert(t.drop_last() =~= bytes@.subrange(0, i as int));
            assert(t.last() == bytes@[i as int]);
            assert(be_val(t) == be_val(bytes@.subrange(0, i as int)) * 256 + t.last() as nat);
            assert(pow256((i + 1) as nat) == pow256(i as nat) * 256);
        }
        res = res * 256 + (bytes[i] as u64);
        i += 1;
    }
    proof {
        assert(bytes@.subrange(0, N as int) =~= bytes@);
    }
    res
}

/// Converts the 32-bit unsigned integer to its four-byte big-endian
/// encoding.
pub fn u32_to_bytes4(val: u32) -> (r: [u8; 4])
    ensures
        r@ == be_digits(val as nat, 4),
        be_val(r@) == val as nat,
{
    proof {
        lemma_pow256_values();
        lemma_be_val_of_be_digits(val as nat, 4);
    }
    be_encode::<4>(val as u64)
}

/// Converts the four-byte big-endian array to the 32-bit unsigned
/// integer it denotes.
pub fn bytes4_to_u32(bytes: &[u8; 4]) -> (r: u32)
    ensures
        r as nat == be_val(bytes@),
{
    let wide: u64 = be_decode::<4>(bytes);
    proof {
        lemma_be_val_bound(bytes@);
        lemma_pow256_values();
        assert(wide < 0x1_0000_0000);
    }
    wide as u32
}

/// Converts the 64-bit unsigned integer to its eight-byte big-endian
/// encoding.
pub fn u64_to_bytes8(val: u64) -> (r: [u8; 8])
    ensures
        r@ == be_digits(val as nat, 8),
        be_val(r@) == val as nat,
{
    proof {
        lemma_pow256_values();
        lemma_be_val_of_be_digits(val as nat, 8);
    }
    be_encode::<8>(val)
}

/// Converts the eight-byte big-endian array to the 64-bit unsigned
/// integer it denotes.
pub fn bytes8_to_u64(bytes: &[u8; 8]) -> (r: u64)
    ensures
        r as nat == be_val(bytes@),
{
    be_decode::<8>(bytes)
}

} // verus!
