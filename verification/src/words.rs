//! 64-bit words as little-endian byte tuples of field elements.
//!
//! The arithmetic gadget chipsets interpret a run of 8 field elements, each a
//! byte, as one unsigned 64-bit word. This module fixes that encoding and the
//! wrapping arithmetic the gadgets compute, with exact modular contracts.
use vstd::prelude::*;
use vstd::arithmetic::div_mod::{
    lemma_small_mod, lemma_fundamental_div_mod, lemma_fundamental_div_mod_converse_mod,
    lemma_mod_division_less_than_divisor, lemma_div_denominator,
};
use crate::field::{Fp, fp};

verus! {

/// The weight of byte `k` in a little-endian 8-byte word.
pub open spec fn byte_coeff(k: int) -> int {
    if k <= 0 {
        1
    } else if k == 1 {
        0x100
    } else if k == 2 {
        0x1_0000
    } else if k == 3 {
        0x100_0000
    } else if k == 4 {
        0x1_0000_0000
    } else if k == 5 {
        0x100_0000_0000
    } else if k == 6 {
        0x1_0000_0000_0000
    } else {
        0x100_0000_0000_0000
    }
}

/// Byte `k` of the little-endian encoding of `x`.
pub open spec fn byte_at(x: int, k: int) -> int {
    (x / byte_coeff(k)) % 256
}

/// The word encoded by 8 field elements, least significant byte first.
pub open spec fn word_of(s: Seq<Fp>) -> int {
    s[0].val() + 0x100 * s[1].val() + 0x1_0000 * s[2].val() + 0x100_0000 * s[3].val()
        + 0x1_0000_0000 * s[4].val() + 0x100_0000_0000 * s[5].val()
        + 0x1_0000_0000_0000 * s[6].val() + 0x100_0000_0000_0000 * s[7].val()
}

/// The 8 field elements encoding `x`, least significant byte first.
pub open spec fn le_fp_seq(x: u64) -> Seq<Fp> {
    Seq::new(8, |k: int| fp(byte_at(x as int, k)))
}

/// A sequence of 8 field elements whose values are all bytes.
pub open spec fn all_bytes(s: Seq<Fp>) -> bool {
    forall|k: int| 0 <= k < s.len() ==> 0 <= (#[trigger] s[k]).val() < 256
}

/// Addition wrapping modulo 2^64.
pub open spec fn w_add(a: u64, b: u64) -> u64 {
    ((a + b) % 0x1_0000_0000_0000_0000) as u64
}

/// Subtraction wrapping modulo 2^64.
pub open spec fn w_sub(a: u64, b: u64) -> u64 {
    ((a - b) % 0x1_0000_0000_0000_0000) as u64
}

/// The low 64 bits of the full product.
pub open spec fn w_mul(a: u64, b: u64) -> u64 {
    ((a * b) % 0x1_0000_0000_0000_0000) as u64
}

/// The quotient convention: truncating division, all-ones when dividing by zero.
pub open spec fn div64(a: u64, b: u64) -> u64 {
    if b == 0 {
        u64::MAX
    } else {
        (a as int / b as int) as u64
    }
}

/// The remainder convention: truncating remainder, the dividend when dividing by zero.
pub open spec fn rem64(a: u64, b: u64) -> u64 {
    if b == 0 {
        a
    } else {
        (a as int % b as int) as u64
    }
}

/// Wrapping 64-bit addition.
pub fn wrap_add(a: u64, b: u64) -> (r: u64)
    ensures
        r == w_add(a, b),
        r as int == (a + b) % 0x1_0000_0000_0000_0000,
{
    if b <= u64::MAX - a {
        proof {
            lemma_small_mod((a + b) as nat, 0x1_0000_0000_0000_0000);
        }
        a + b
    } else {
        let r: u64 = a - (u64::MAX - b) - 1;
        proof {
            lemma_fundamental_div_mod_converse_mod(
                a as int + b as int,
                0x1_0000_0000_0000_0000,
                1,
                r as int,
            );
        }
        r
    }
}

/// Wrapping 64-bit subtraction.
pub fn wrap_sub(a: u64, b: u64) -> (r: u64)
    ensures
        r == w_sub(a, b),
        r as int == (a - b) % 0x1_0000_0000_0000_0000,
{
    if a >= b {
        proof {
            lemma_small_mod((a - b) as nat, 0x1_0000_0000_0000_0000);
        }
        a - b
    } else {
        let r: u64 = u64::MAX - b + a + 1;
        proof {
            lemma_fundamental_div_mod_converse_mod(
                a as int - b as int,
                0x1_0000_0000_0000_0000,
                -1,
                r as int,
            );
        }
        r
    }
}

/// Wrapping 64-bit multiplication: the low 64 bits of the product.
pub fn wrap_mul(a: u64, b: u64) -> (r: u64)
    ensures
        r == w_mul(a, b),
        r as int == (a * b) % 0x1_0000_0000_0000_0000,
{
    proof {
        assert(a as int * b as int <= (u64::MAX as int) * (u64::MAX as int)) by (nonlinear_arith)
            requires
                a <= u64::MAX,
                b <= u64::MAX,
        ;
    }
    let p: u128 = (a as u128) * (b as u128);
    let m: u128 = p % 0x1_0000_0000_0000_0000u128;
    proof {
        lemma_mod_division_less_than_divisor(p as int, 0x1_0000_0000_0000_0000);
    }
    m as u64
}

/// Truncating division and remainder, with the explicit divide-by-zero
/// convention: quotient all-ones, remainder equal to the dividend.
pub fn divrem(a: u64, b: u64) -> (r: (u64, u64))
    ensures
        r.0 == div64(a, b),
        r.1 == rem64(a, b),
{
    if b == 0 {
        (u64::MAX, a)
    } else {
        (a / b, a % b)
    }
}

/// Decodes 8 byte-valued field elements into the word they encode.
pub fn into_u64(xs: &Vec<Fp>) -> (r: u64)
    requires
        xs.len() == 8,
        all_bytes(xs@),
    ensures
        r as int == word_of(xs@),
{
    let b0: u64 = xs[0].as_u32() as u64;
    let b1: u64 = xs[1].as_u32() as u64;
    let b2: u64 = xs[2].as_u32() as u64;
    let b3: u64 = xs[3].as_u32() as u64;
    let b4: u64 = xs[4].as_u32() as u64;
    let b5: u64 = xs[5].as_u32() as u64;
    let b6: u64 = xs[6].as_u32() as u64;
    let b7: u64 = xs[7].as_u32() as u64;
    b0 + b1 * 0x100 + b2 * 0x1_0000 + b3 * 0x100_0000 + b4 * 0x1_0000_0000
        + b5 * 0x100_0000_0000 + b6 * 0x1_0000_0000_0000 + b7 * 0x100_0000_0000_0000
}

/// Encodes a word as 8 byte-valued field elements, least significant first.
pub fn word_to_fields(x: u64) -> (r: Vec<Fp>)
    ensures
        r@ =~= le_fp_seq(x),
        r.len() == 8,
        all_bytes(r@),
        forall|k: int| 0 <= k < 8 ==> (#[trigger] r@[k]).val() == byte_at(x as int, k),
{
    let b0: u32 = (x % 256) as u32;
    let x1: u64 = x / 256;
    let b1: u32 = (x1 % 256) as u32;
    let x2: u64 = x1 / 256;
    let b2: u32 = (x2 % 256) as u32;
    let x3: u64 = x2 / 256;
    let b3: u32 = (x3 % 256) as u32;
    let x4: u64 = x3 / 256;
    let b4: u32 = (x4 % 256) as u32;
    let x5: u64 = x4 / 256;
    let b5: u32 = (x5 % 256) as u32;
    let x6: u64 = x5 / 256;
    let b6: u32 = (x6 % 256) as u32;
    let x7: u64 = x6 / 256;
    let b7: u32 = (x7 % 256) as u32;
    proof {
        lemma_div_chain(x as int);
        broadcast use crate::field::lemma_fp_val;

    }
    let mut r: Vec<Fp> = Vec::new();
    r.push(Fp::from_u32(b0));
    r.push(Fp::from_u32(b1));
    r.push(Fp::from_u32(b2));
    r.push(Fp::from_u32(b3));
    r.push(Fp::from_u32(b4));
    r.push(Fp::from_u32(b5));
    r.push(Fp::from_u32(b6));
    r.push(Fp::from_u32(b7));
    r
}

/// Copies `n` elements starting at `off`.
pub fn sub_vec(xs: &Vec<Fp>, off: usize, n: usize) -> (r: Vec<Fp>)
    requires
        off + n <= xs.len(),
    ensures
        r@ == xs@.subrange(off as int, off as int + n as int),
{
    let mut r: Vec<Fp> = Vec::new();
    let mut i: usize = 0;
    while i < n
        invariant
            i <= n,
            off + n <= xs.len(),
            r@ =~= xs@.subrange(off as int, off as int + i as int),
        decreases n - i,
    {
        r.push(xs[off + i]);
        proof {
            assert(r@ =~= xs@.subrange(off as int, off as int + i as int + 1));
        }
        i += 1;
    }
    proof {
        assert(r@ =~= xs@.subrange(off as int, off as int + n as int));
    }
    r
}

/// A tuple of 8 bytes encodes a word below 2^64.
pub proof fn lemma_word_of_bound(s: Seq<Fp>)
    requires
        s.len() == 8,
        all_bytes(s),
    ensures
        0 <= word_of(s) < 0x1_0000_0000_0000_0000,
{
    assert(0 <= s[0].val() < 256);
    assert(0 <= s[1].val() < 256);
    assert(0 <= s[2].val() < 256);
    assert(0 <= s[3].val() < 256);
    assert(0 <= s[4].val() < 256);
    assert(0 <= s[5].val() < 256);
    assert(0 <= s[6].val() < 256);
    assert(0 <= s[7].val() < 256);
}

/// Successive divisions by 256 read off the little-endian bytes.
proof fn lemma_div_chain(x: int)
    requires
        x >= 0,
    ensures
        forall|k: int| 1 <= k < 8 ==> #[trigger] (x / byte_coeff(k)) == (x / byte_coeff(k - 1)) / 256,
{
    assert forall|k: int| 1 <= k < 8 implies #[trigger] (x / byte_coeff(k)) == (x / byte_coeff(
        k - 1,
    )) / 256 by {
        lemma_div_denominator(x, byte_coeff(k - 1), 256);
    }
}

/// Recomposing the little-endian bytes of a word gives the word back.
#[verifier::rlimit(60)]
pub proof fn lemma_word_roundtrip(x: u64)
    ensures
        word_of(le_fp_seq(x)) == x as int,
{
    let n = x as int;
    lemma_div_chain(n);
    assert forall|k: int| 0 <= k < 8 implies (#[trigger] le_fp_seq(x)[k]).val() == byte_at(n, k) by {
        crate::field::lemma_fp_val(byte_at(n, k));
        lemma_mod_division_less_than_divisor(n / byte_coeff(k), 256);
        lemma_small_mod((byte_at(n, k)) as nat, crate::field::P as nat);
    }
    lemma_fundamental_div_mod(n, 256);
    lemma_fundamental_div_mod(n / 256, 256);
    lemma_fundamental_div_mod(n / 0x1_0000, 256);
    lemma_fundamental_div_mod(n / 0x100_0000, 256);
    lemma_fundamental_div_mod(n / 0x1_0000_0000, 256);
    lemma_fundamental_div_mod(n / 0x100_0000_0000, 256);
    lemma_fundamental_div_mod(n / 0x1_0000_0000_0000, 256);
    lemma_fundamental_div_mod(n / 0x100_0000_0000_0000, 256);
    assert(n / 0x100_0000_0000_0000 / 256 == 0) by {
        lemma_div_denominator(n, 0x100_0000_0000_0000, 256);
    }
}

} // verus!
