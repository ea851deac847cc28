//! The 64-bit arithmetic gadget chipsets.
//!
//! One enum variant per externally callable operation. Each variant decodes
//! its 16 byte-valued input field elements as two little-endian 64-bit words,
//! computes the operation with an explicit wrapping convention, emits one
//! byte-range-check require per auxiliary byte, and can re-derive the same
//! auxiliary witness and re-check the algebraic constraints row by row.
use vstd::prelude::*;
use vstd::arithmetic::div_mod::{
    lemma_fundamental_div_mod, lemma_fundamental_div_mod_converse, lemma_div_pos_is_pos,
    lemma_div_nonincreasing, lemma_mod_division_less_than_divisor, lemma_mod_bound,
    lemma_breakdown, lemma_mod_mod, lemma_mod_multiples_vanish, lemma_add_mod_noop,
    lemma_sub_mod_noop, lemma_small_mod,
};
use crate::field::{Fp, fp, fp_add, fp_mul};
use crate::words::{
    byte_at, byte_coeff, word_of, le_fp_seq, all_bytes, w_add, w_sub, w_mul, div64, rem64, wrap_add, wrap_sub,
    wrap_mul, divrem, into_u64, word_to_fields, sub_vec, lemma_word_of_bound,
};
use crate::record::{
    QueryRecord, Record, RequireRecord, bump_bytes, records_for, lemma_bump_snoc,
    lemma_records_snoc, lemma_bump_bounds,
};

verus! {

/// The closed set of 64-bit arithmetic operations this chipset offers.
#[derive(Clone, Copy, PartialEq, Eq, Structural, Debug)]
pub enum U64 {
    Add,
    Sub,
    Mul,
    DivRem,
    LessThan,
}

impl U64 {
    /// Every variant consumes two 8-byte little-endian words.
    pub fn input_size(&self) -> (r: usize)
        ensures
            r == 16,
    {
        16
    }

    /// Output width in field elements: a word for Add/Sub/Mul, quotient then
    /// remainder for DivRem, one boolean for LessThan.
    pub fn output_size(&self) -> (r: usize)
        ensures
            r == self.spec_output_size(),
    {
        match self {
            U64::DivRem => 16,
            U64::LessThan => 1,
            _ => 8,
        }
    }

    /// Output width at the spec level.
    pub open spec fn spec_output_size(self) -> int {
        match self {
            U64::DivRem => 16,
            U64::LessThan => 1,
            _ => 8,
        }
    }

    /// Auxiliary witness width in field elements.
    pub fn witness_size(&self) -> (r: usize)
        ensures
            r == self.spec_witness_size(),
    {
        match self {
            U64::Add => 16,
            U64::Sub => 16,
            U64::Mul => 24,
            U64::DivRem => 64,
            U64::LessThan => 16,
        }
    }

    /// Witness width at the spec level: result bytes plus carry or borrow
    /// columns, and for DivRem the nested product, sum and comparison
    /// witnesses.
    pub open spec fn spec_witness_size(self) -> int {
        match self {
            U64::Add => 16,
            U64::Sub => 16,
            U64::Mul => 24,
            U64::DivRem => 64,
            U64::LessThan => 16,
        }
    }

    /// How many byte-range-check requires one invocation emits.
    pub fn require_size(&self) -> (r: usize)
        ensures
            r == self.spec_require_size(),
    {
        match self {
            U64::Add => 8,
            U64::Sub => 8,
            U64::Mul => 24,
            U64::DivRem => 48,
            U64::LessThan => 8,
        }
    }

    /// Require count at the spec level: one per range-checked byte column.
    pub open spec fn spec_require_size(self) -> int {
        match self {
            U64::Add => 8,
            U64::Sub => 8,
            U64::Mul => 24,
            U64::DivRem => 48,
            U64::LessThan => 8,
        }
    }
}

/// The first operand: the word encoded by input elements 0 to 7.
pub open spec fn in1(s: Seq<Fp>) -> u64 {
    word_of(s.subrange(0, 8)) as u64
}

/// The second operand: the word encoded by input elements 8 to 15.
pub open spec fn in2(s: Seq<Fp>) -> u64 {
    word_of(s.subrange(8, 16)) as u64
}

/// The little-endian bytes of a word.
pub open spec fn bytes_seq(x: u64) -> Seq<u8> {
    Seq::new(8, |k: int| byte_at(x as int, k) as u8)
}

/// The carry out of byte column `k` in the byte-wise addition of `a` and `b`.
pub open spec fn add_carry(a: u64, b: u64, k: int) -> int
    decreases (if k < 0 { 0int } else { k + 1 }),
{
    if k < 0 {
        0
    } else if byte_at(a as int, k) + byte_at(b as int, k) + add_carry(a, b, k - 1) >= 256 {
        1
    } else {
        0
    }
}

/// The borrow out of byte column `k` in the byte-wise subtraction `a - b`.
pub open spec fn sub_borrow(a: u64, b: u64, k: int) -> int
    decreases (if k < 0 { 0int } else { k + 1 }),
{
    if k < 0 {
        0
    } else if byte_at(a as int, k) - byte_at(b as int, k) - sub_borrow(a, b, k - 1) < 0 {
        1
    } else {
        0
    }
}

/// The partial column sum of byte products `a_i * b_{k-i}` for `i` up to `up`.
pub open spec fn mul_col_partial(a: u64, b: u64, k: int, up: int) -> int
    decreases (if up < 0 { 0int } else { up + 1 }),
{
    if up < 0 {
        0
    } else {
        mul_col_partial(a, b, k, up - 1) + if 0 <= k - up < 8 {
            byte_at(a as int, up) * byte_at(b as int, k - up)
        } else {
            0
        }
    }
}

/// Column `k` of the schoolbook byte product.
pub open spec fn mul_col(a: u64, b: u64, k: int) -> int {
    mul_col_partial(a, b, k, 7)
}

/// The carry out of product column `k`.
pub open spec fn mul_carry(a: u64, b: u64, k: int) -> int
    decreases (if k < 0 { 0int } else { k + 1 }),
{
    if k < 0 {
        0
    } else {
        (mul_col(a, b, k) + mul_carry(a, b, k - 1)) / 256
    }
}

/// The product byte left in column `k`.
pub open spec fn mul_p(a: u64, b: u64, k: int) -> int {
    (mul_col(a, b, k) + mul_carry(a, b, k - 1)) % 256
}

/// The low byte of the carry out of product column `k`.
pub open spec fn mul_clo(a: u64, b: u64, k: int) -> int {
    mul_carry(a, b, k) % 256
}

/// The high byte of the carry out of product column `k`.
pub open spec fn mul_chi(a: u64, b: u64, k: int) -> int {
    (mul_carry(a, b, k) / 256) % 256
}

/// A column sum of byte products stays below `(up + 1) * 255^2`.
pub proof fn lemma_mul_col_bound(a: u64, b: u64, k: int, up: int)
    ensures
        0 <= mul_col_partial(a, b, k, up) <= (if up < 0 { 0int } else { (up + 1) * 65025 }),
    decreases (if up < 0 { 0int } else { up + 1 }),
{
    if up >= 0 {
        lemma_mul_col_bound(a, b, k, up - 1);
        if 0 <= k - up < 8 {
            let x = byte_at(a as int, up);
            let y = byte_at(b as int, k - up);
            assert(0 <= x < 256 && 0 <= y < 256);
            assert(0 <= x * y <= 65025) by (nonlinear_arith)
                requires
                    0 <= x < 256,
                    0 <= y < 256,
            ;
        }
    }
}

/// Product-column carries never exceed 2100.
pub proof fn lemma_mul_carry_bound(a: u64, b: u64, k: int)
    ensures
        0 <= mul_carry(a, b, k) <= 2100,
    decreases (if k < 0 { 0int } else { k + 1 }),
{
    if k >= 0 {
        lemma_mul_carry_bound(a, b, k - 1);
        lemma_mul_col_bound(a, b, k, 7);
    }
}

/// The outputs of one gadget invocation on operands `a` and `b`.
pub open spec fn out_spec(op: U64, a: u64, b: u64) -> Seq<Fp> {
    match op {
        U64::Add => le_fp_seq(w_add(a, b)),
        U64::Sub => le_fp_seq(w_sub(a, b)),
        U64::Mul => le_fp_seq(w_mul(a, b)),
        U64::DivRem => le_fp_seq(div64(a, b)) + le_fp_seq(rem64(a, b)),
        U64::LessThan => seq![fp(if a < b { 1int } else { 0int })],
    }
}

/// The auxiliary witness of one gadget invocation: result bytes and carry or
/// borrow columns, and for DivRem the nested product, sum and comparison
/// witnesses.
pub open spec fn wit_spec(op: U64, a: u64, b: u64) -> Seq<Fp> {
    match op {
        U64::Add => le_fp_seq(w_add(a, b)) + Seq::new(8, |k: int| fp(add_carry(a, b, k))),
        U64::Sub => le_fp_seq(w_sub(a, b)) + Seq::new(8, |k: int| fp(sub_borrow(a, b, k))),
        U64::Mul => Seq::new(8, |k: int| fp(mul_p(a, b, k))) + Seq::new(
            8,
            |k: int| fp(mul_clo(a, b, k)),
        ) + Seq::new(8, |k: int| fp(mul_chi(a, b, k))),
        U64::LessThan => le_fp_seq(w_sub(a, b)) + Seq::new(8, |k: int| fp(sub_borrow(a, b, k))),
        U64::DivRem => le_fp_seq(div64(a, b)) + le_fp_seq(rem64(a, b)) + Seq::new(
            8,
            |k: int| fp(mul_p(div64(a, b), b, k)),
        ) + Seq::new(8, |k: int| fp(mul_clo(div64(a, b), b, k))) + Seq::new(
            8,
            |k: int| fp(mul_chi(div64(a, b), b, k)),
        ) + Seq::new(8, |k: int| fp(add_carry(w_mul(div64(a, b), b), rem64(a, b), k)))
            + le_fp_seq(w_sub(rem64(a, b), b)) + Seq::new(
            8,
            |k: int| fp(sub_borrow(rem64(a, b), b, k)),
        ),
    }
}

/// The bytes one invocation sends to the byte-range-check table, in emission
/// order.
pub open spec fn checked_bytes(op: U64, a: u64, b: u64) -> Seq<u8> {
    match op {
        U64::Add => bytes_seq(w_add(a, b)),
        U64::Sub => bytes_seq(w_sub(a, b)),
        U64::Mul => Seq::new(8, |k: int| mul_p(a, b, k) as u8) + Seq::new(
            8,
            |k: int| mul_clo(a, b, k) as u8,
        ) + Seq::new(8, |k: int| mul_chi(a, b, k) as u8),
        U64::LessThan => bytes_seq(w_sub(a, b)),
        U64::DivRem => bytes_seq(div64(a, b)) + bytes_seq(rem64(a, b)) + Seq::new(
            8,
            |k: int| mul_p(div64(a, b), b, k) as u8,
        ) + Seq::new(8, |k: int| mul_clo(div64(a, b), b, k) as u8) + Seq::new(
            8,
            |k: int| mul_chi(div64(a, b), b, k) as u8,
        ) + bytes_seq(w_sub(rem64(a, b), b)),
    }
}

/// Builds the carry column of the byte-wise addition of `a` and `b`.
fn carries_of_add(a: u64, b: u64) -> (c: Vec<Fp>)
    ensures
        c.len() == 8,
        forall|k: int| 0 <= k < 8 ==> #[trigger] c@[k] == fp(add_carry(a, b, k)),
{
    let ab = word_to_fields(a);
    let bb = word_to_fields(b);
    let mut c: Vec<Fp> = Vec::new();
    let mut cur: u32 = 0;
    let mut k: usize = 0;
    while k < 8
        invariant
            k <= 8,
            c.len() == k,
            ab.len() == 8,
            bb.len() == 8,
            forall|j: int| 0 <= j < 8 ==> (#[trigger] ab@[j]).val() == byte_at(a as int, j),
            forall|j: int| 0 <= j < 8 ==> (#[trigger] bb@[j]).val() == byte_at(b as int, j),
            forall|j: int| 0 <= j < 8 ==> 0 <= (#[trigger] ab@[j]).val() < 256,
            forall|j: int| 0 <= j < 8 ==> 0 <= (#[trigger] bb@[j]).val() < 256,
            cur as int == add_carry(a, b, k as int - 1),
            forall|j: int| 0 <= j < k ==> #[trigger] c@[j] == fp(add_carry(a, b, j)),
        decreases 8 - k,
    {
        let t: u32 = ab[k].as_u32() + bb[k].as_u32() + cur;
        let nc: u32 = if t >= 256 {
            1
        } else {
            0
        };
        c.push(Fp::from_u32(nc));
        cur = nc;
        k += 1;
    }
    c
}

/// Builds the borrow column of the byte-wise subtraction `a - b`.
fn borrows_of_sub(a: u64, b: u64) -> (c: Vec<Fp>)
    ensures
        c.len() == 8,
        forall|k: int| 0 <= k < 8 ==> #[trigger] c@[k] == fp(sub_borrow(a, b, k)),
{
    let ab = word_to_fields(a);
    let bb = word_to_fields(b);
    let mut c: Vec<Fp> = Vec::new();
    let mut cur: u32 = 0;
    let mut k: usize = 0;
    while k < 8
        invariant
            k <= 8,
            c.len() == k,
            ab.len() == 8,
            bb.len() == 8,
            forall|j: int| 0 <= j < 8 ==> (#[trigger] ab@[j]).val() == byte_at(a as int, j),
            forall|j: int| 0 <= j < 8 ==> (#[trigger] bb@[j]).val() == byte_at(b as int, j),
            forall|j: int| 0 <= j < 8 ==> 0 <= (#[trigger] ab@[j]).val() < 256,
            forall|j: int| 0 <= j < 8 ==> 0 <= (#[trigger] bb@[j]).val() < 256,
            cur as int == sub_borrow(a, b, k as int - 1),
            forall|j: int| 0 <= j < k ==> #[trigger] c@[j] == fp(sub_borrow(a, b, j)),
        decreases 8 - k,
    {
        let nc: u32 = if ab[k].as_u32() < bb[k].as_u32() + cur {
            1
        } else {
            0
        };
        c.push(Fp::from_u32(nc));
        cur = nc;
        k += 1;
    }
    c
}

/// Builds the product bytes and the two carry-byte columns of the schoolbook
/// byte product of `a` and `b`, plus the same 24 values as range-check bytes.
fn mul_parts(a: u64, b: u64) -> (w: (Vec<Fp>, Vec<u8>))
    ensures
        w.0.len() == 24,
        w.1.len() == 24,
        w.0@ == wit_spec(U64::Mul, a, b),
        w.1@ == checked_bytes(U64::Mul, a, b),
{
    let ab = word_to_fields(a);
    let bb = word_to_fields(b);
    let mut ps: Vec<Fp> = Vec::new();
    let mut clos: Vec<Fp> = Vec::new();
    let mut chis: Vec<Fp> = Vec::new();
    let mut pb: Vec<u8> = Vec::new();
    let mut clob: Vec<u8> = Vec::new();
    let mut chib: Vec<u8> = Vec::new();
    let mut cur: u64 = 0;
    let mut k: usize = 0;
    while k < 8
        invariant
            k <= 8,
            ps.len() == k,
            clos.len() == k,
            chis.len() == k,
            pb.len() == k,
            clob.len() == k,
            chib.len() == k,
            ab.len() == 8,
            bb.len() == 8,
            forall|j: int| 0 <= j < 8 ==> (#[trigger] ab@[j]).val() == byte_at(a as int, j),
            forall|j: int| 0 <= j < 8 ==> (#[trigger] bb@[j]).val() == byte_at(b as int, j),
            forall|j: int| 0 <= j < 8 ==> 0 <= (#[trigger] ab@[j]).val() < 256,
            forall|j: int| 0 <= j < 8 ==> 0 <= (#[trigger] bb@[j]).val() < 256,
            cur as int == mul_carry(a, b, k as int - 1),
            0 <= cur <= 2100,
            forall|j: int| 0 <= j < k ==> #[trigger] ps@[j] == fp(mul_p(a, b, j)),
            forall|j: int| 0 <= j < k ==> #[trigger] clos@[j] == fp(mul_clo(a, b, j)),
            forall|j: int| 0 <= j < k ==> #[trigger] chis@[j] == fp(mul_chi(a, b, j)),
            forall|j: int| 0 <= j < k ==> #[trigger] pb@[j] as int == mul_p(a, b, j),
            forall|j: int| 0 <= j < k ==> #[trigger] clob@[j] as int == mul_clo(a, b, j),
            forall|j: int| 0 <= j < k ==> #[trigger] chib@[j] as int == mul_chi(a, b, j),
        decreases 8 - k,
    {
        let mut col: u64 = 0;
        let mut i: usize = 0;
        while i < 8
            invariant
                i <= 8,
                k < 8,
                ab.len() == 8,
                bb.len() == 8,
                forall|j: int| 0 <= j < 8 ==> (#[trigger] ab@[j]).val() == byte_at(a as int, j),
                forall|j: int| 0 <= j < 8 ==> (#[trigger] bb@[j]).val() == byte_at(b as int, j),
                forall|j: int| 0 <= j < 8 ==> 0 <= (#[trigger] ab@[j]).val() < 256,
                forall|j: int| 0 <= j < 8 ==> 0 <= (#[trigger] bb@[j]).val() < 256,
                col as int == mul_col_partial(a, b, k as int, i as int - 1),
                0 <= col <= 520200,
            decreases 8 - i,
        {
            proof {
                lemma_mul_col_bound(a, b, k as int, i as int);
                lemma_mul_col_bound(a, b, k as int, i as int - 1);
            }
            if i <= k && k - i < 8 {
                let x: u64 = ab[i].as_u32() as u64;
                let y: u64 = bb[k - i].as_u32() as u64;
                proof {
                    assert(0 <= x as int * y as int <= 65025) by (nonlinear_arith)
                        requires
                            0 <= x < 256,
                            0 <= y < 256,
                    ;
                }
                col = col + x * y;
            }
            i += 1;
        }
        let t: u64 = col + cur;
        let p: u64 = t % 256;
        let c: u64 = t / 256;
        let clo: u64 = c % 256;
        let chi: u64 = (c / 256) % 256;
        proof {
            lemma_mul_carry_bound(a, b, k as int);
            lemma_mul_carry_bound(a, b, k as int - 1);
            lemma_mul_col_bound(a, b, k as int, 7);
        }
        ps.push(Fp::from_u32(p as u32));
        clos.push(Fp::from_u32(clo as u32));
        chis.push(Fp::from_u32(chi as u32));
        pb.push(p as u8);
        clob.push(clo as u8);
        chib.push(chi as u8);
        cur = c;
        k += 1;
    }
    let ghost psv = ps@;
    let ghost closv = clos@;
    let ghost chisv = chis@;
    let ghost pbv = pb@;
    let ghost clobv = clob@;
    let ghost chibv = chib@;
    let mut wit = ps;
    let mut clos = clos;
    let mut chis = chis;
    wit.append(&mut clos);
    wit.append(&mut chis);
    let mut checked = pb;
    let mut clob = clob;
    let mut chib = chib;
    checked.append(&mut clob);
    checked.append(&mut chib);
    proof {
        assert(wit@ == psv + closv + chisv);
        assert(checked@ == pbv + clobv + chibv);
        assert forall|i: int| 0 <= i < 24 implies wit@[i] == wit_spec(U64::Mul, a, b)[i] by {
            if i < 8 {
                assert(wit@[i] == psv[i]);
            } else if i < 16 {
                assert(wit@[i] == closv[i - 8]);
            } else {
                assert(wit@[i] == chisv[i - 16]);
            }
        }
        assert(wit@ =~= wit_spec(U64::Mul, a, b));
        assert forall|i: int| 0 <= i < 24 implies checked@[i] == checked_bytes(U64::Mul, a, b)[i]
            by {
            if i < 8 {
                assert(checked@[i] == pbv[i]);
                assert(0 <= mul_p(a, b, i) < 256);
            } else if i < 16 {
                assert(checked@[i] == clobv[i - 8]);
                assert(0 <= mul_clo(a, b, i - 8) < 256);
            } else {
                assert(checked@[i] == chibv[i - 16]);
                assert(0 <= mul_chi(a, b, i - 16) < 256);
            }
        }
        assert(checked@ =~= checked_bytes(U64::Mul, a, b));
    }
    (wit, checked)
}

/// A committed column value that must be a bit.
pub open spec fn is_bit(x: Fp) -> bool {
    x == fp(0) || x == fp(1)
}

/// The carry or borrow flowing into byte column `k`.
pub open spec fn carry_prev(c: Seq<Fp>, k: int) -> Fp {
    if k == 0 {
        fp(0)
    } else {
        c[k - 1]
    }
}

/// Byte-wise addition constraints over committed columns: in every column,
/// `a + b + carry-in == s + 256 * carry-out`, with binary carries.
pub open spec fn add_rel(a: Seq<Fp>, b: Seq<Fp>, s: Seq<Fp>, c: Seq<Fp>) -> bool {
    forall|k: int|
        0 <= k < 8 ==> {
            &&& #[trigger] fp_add(fp_add(a[k], b[k]), carry_prev(c, k)) == fp_add(
                s[k],
                fp_mul(fp(256), c[k]),
            )
            &&& is_bit(c[k])
        }
}

/// Byte-wise subtraction constraints: in every column,
/// `a + 256 * borrow-out == d + b + borrow-in`, with binary borrows.
pub open spec fn sub_rel(a: Seq<Fp>, b: Seq<Fp>, d: Seq<Fp>, r: Seq<Fp>) -> bool {
    forall|k: int|
        0 <= k < 8 ==> {
            &&& #[trigger] fp_add(a[k], fp_mul(fp(256), r[k])) == fp_add(
                fp_add(d[k], b[k]),
                carry_prev(r, k),
            )
            &&& is_bit(r[k])
        }
}

/// The partial column sum of committed byte products.
pub open spec fn col_fp_partial(a: Seq<Fp>, b: Seq<Fp>, k: int, up: int) -> Fp
    decreases (if up < 0 { 0int } else { up + 1 }),
{
    if up < 0 {
        fp(0)
    } else {
        fp_add(
            col_fp_partial(a, b, k, up - 1),
            if 0 <= k - up < 8 {
                fp_mul(a[up], b[k - up])
            } else {
                fp(0)
            },
        )
    }
}

/// Column `k` of the committed schoolbook product.
pub open spec fn col_fp(a: Seq<Fp>, b: Seq<Fp>, k: int) -> Fp {
    col_fp_partial(a, b, k, 7)
}

/// The two-byte carry committed for product column `k`.
pub open spec fn mcarry(cl: Seq<Fp>, ch: Seq<Fp>, k: int) -> Fp {
    fp_add(cl[k], fp_mul(fp(256), ch[k]))
}

/// The carry flowing into product column `k`.
pub open spec fn mcarry_prev(cl: Seq<Fp>, ch: Seq<Fp>, k: int) -> Fp {
    if k == 0 {
        fp(0)
    } else {
        mcarry(cl, ch, k - 1)
    }
}

/// Byte-wise multiplication constraints: in every column, the sum of byte
/// products plus the carry in equals the product byte plus 256 times the
/// two-byte carry out.
pub open spec fn mul_rel(a: Seq<Fp>, b: Seq<Fp>, p: Seq<Fp>, cl: Seq<Fp>, ch: Seq<Fp>) -> bool {
    forall|k: int|
        0 <= k < 8 ==> #[trigger] fp_add(col_fp(a, b, k), mcarry_prev(cl, ch, k)) == fp_add(
            p[k],
            fp_mul(fp(256), mcarry(cl, ch, k)),
        )
}

/// Every supplied require must cite exactly the byte column the witness
/// implies, under the row's nonce.
pub open spec fn req_match(reqs: Seq<RequireRecord>, checked: Seq<Fp>, nonce: Fp) -> bool {
    &&& reqs.len() == checked.len()
    &&& forall|i: int|
        0 <= i < reqs.len() ==> (#[trigger] reqs[i]).index == checked[i] && reqs[i].nonce == nonce
}

/// All 8 committed bytes of a word are zero.
pub open spec fn all_zero(b: Seq<Fp>) -> bool {
    forall|k: int| 0 <= k < 8 ==> #[trigger] b[k] == fp(0)
}

/// The constraints one real row must satisfy, per variant, over the
/// committed input, witness, nonce and require columns.
pub open spec fn eval_cons(
    op: U64,
    ins: Seq<Fp>,
    w: Seq<Fp>,
    nonce: Fp,
    reqs: Seq<RequireRecord>,
) -> bool {
    let a = ins.subrange(0, 8);
    let b = ins.subrange(8, 16);
    match op {
        U64::Add => add_rel(a, b, w.subrange(0, 8), w.subrange(8, 16)) && req_match(
            reqs,
            w.subrange(0, 8),
            nonce,
        ),
        U64::Sub => sub_rel(a, b, w.subrange(0, 8), w.subrange(8, 16)) && req_match(
            reqs,
            w.subrange(0, 8),
            nonce,
        ),
        U64::Mul => mul_rel(a, b, w.subrange(0, 8), w.subrange(8, 16), w.subrange(16, 24))
            && req_match(reqs, w.subrange(0, 24), nonce),
        U64::LessThan => sub_rel(a, b, w.subrange(0, 8), w.subrange(8, 16)) && req_match(
            reqs,
            w.subrange(0, 8),
            nonce,
        ),
        U64::DivRem => {
            let q = w.subrange(0, 8);
            let r = w.subrange(8, 16);
            let m = w.subrange(16, 24);
            let cl = w.subrange(24, 32);
            let ch = w.subrange(32, 40);
            let sc = w.subrange(40, 48);
            let d = w.subrange(48, 56);
            let lb = w.subrange(56, 64);
            &&& mul_rel(q, b, m, cl, ch)
            &&& add_rel(m, r, a, sc)
            &&& if all_zero(b) {
                (forall|k: int| 0 <= k < 8 ==> #[trigger] q[k] == fp(255)) && (forall|k: int|
                    0 <= k < 8 ==> #[trigger] r[k] == a[k])
            } else {
                sub_rel(r, b, d, lb) && lb[7] == fp(1)
            }
            &&& req_match(reqs, w.subrange(0, 40) + w.subrange(48, 56), nonce)
        },
    }
}

/// The output columns one row exposes, per variant, read off the witness.
pub open spec fn eval_outs(op: U64, w: Seq<Fp>) -> Seq<Fp> {
    match op {
        U64::Add => w.subrange(0, 8),
        U64::Sub => w.subrange(0, 8),
        U64::Mul => w.subrange(0, 8),
        U64::DivRem => w.subrange(0, 16),
        U64::LessThan => seq![w[15]],
    }
}

/// Checks the byte-wise addition constraints on committed columns.
fn check_add_rel(a: &Vec<Fp>, b: &Vec<Fp>, s: &Vec<Fp>, c: &Vec<Fp>) -> (ok: bool)
    requires
        a.len() == 8,
        b.len() == 8,
        s.len() == 8,
        c.len() == 8,
    ensures
        ok == add_rel(a@, b@, s@, c@),
{
    let mut k: usize = 0;
    while k < 8
        invariant
            k <= 8,
            a.len() == 8,
            b.len() == 8,
            s.len() == 8,
            c.len() == 8,
            forall|j: int|
                0 <= j < k ==> {
                    &&& #[trigger] fp_add(fp_add(a@[j], b@[j]), carry_prev(c@, j)) == fp_add(
                        s@[j],
                        fp_mul(fp(256), c@[j]),
                    )
                    &&& is_bit(c@[j])
                },
        decreases 8 - k,
    {
        let cp = if k == 0 {
            Fp::zero()
        } else {
            c[k - 1]
        };
        proof {
            assert(cp == carry_prev(c@, k as int));
        }
        let lhs = a[k].add(b[k]).add(cp);
        let rhs = s[k].add(Fp::from_u32(256).mul(c[k]));
        let bit = c[k] == Fp::zero() || c[k] == Fp::from_u32(1);
        proof {
            assert(lhs == fp_add(fp_add(a@[k as int], b@[k as int]), carry_prev(c@, k as int)));
            assert(rhs == fp_add(s@[k as int], fp_mul(fp(256), c@[k as int])));
            assert(bit == is_bit(c@[k as int]));
        }
        if !(lhs == rhs && bit) {
            return false;
        }
        k += 1;
    }
    true
}

/// Checks the byte-wise subtraction constraints on committed columns.
fn check_sub_rel(a: &Vec<Fp>, b: &Vec<Fp>, d: &Vec<Fp>, r: &Vec<Fp>) -> (ok: bool)
    requires
        a.len() == 8,
        b.len() == 8,
        d.len() == 8,
        r.len() == 8,
    ensures
        ok == sub_rel(a@, b@, d@, r@),
{
    let mut k: usize = 0;
    while k < 8
        invariant
            k <= 8,
            a.len() == 8,
            b.len() == 8,
            d.len() == 8,
            r.len() == 8,
            forall|j: int|
                0 <= j < k ==> {
                    &&& #[trigger] fp_add(a@[j], fp_mul(fp(256), r@[j])) == fp_add(
                        fp_add(d@[j], b@[j]),
                        carry_prev(r@, j),
                    )
                    &&& is_bit(r@[j])
                },
        decreases 8 - k,
    {
        let rp = if k == 0 {
            Fp::zero()
        } else {
            r[k - 1]
        };
        proof {
            assert(rp == carry_prev(r@, k as int));
        }
        let lhs = a[k].add(Fp::from_u32(256).mul(r[k]));
        let rhs = d[k].add(b[k]).add(rp);
        let bit = r[k] == Fp::zero() || r[k] == Fp::from_u32(1);
        proof {
            assert(lhs == fp_add(a@[k as int], fp_mul(fp(256), r@[k as int])));
            assert(rhs == fp_add(fp_add(d@[k as int], b@[k as int]), carry_prev(r@, k as int)));
            assert(bit == is_bit(r@[k as int]));
        }
        if !(lhs == rhs && bit) {
            return false;
        }
        k += 1;
    }
    true
}

/// Checks the byte-wise multiplication constraints on committed columns.
fn check_mul_rel(a: &Vec<Fp>, b: &Vec<Fp>, p: &Vec<Fp>, cl: &Vec<Fp>, ch: &Vec<Fp>) -> (ok: bool)
    requires
        a.len() == 8,
        b.len() == 8,
        p.len() == 8,
        cl.len() == 8,
        ch.len() == 8,
    ensures
        ok == mul_rel(a@, b@, p@, cl@, ch@),
{
    let mut k: usize = 0;
    while k < 8
        invariant
            k <= 8,
            a.len() == 8,
            b.len() == 8,
            p.len() == 8,
            cl.len() == 8,
            ch.len() == 8,
            forall|j: int|
                0 <= j < k ==> #[trigger] fp_add(col_fp(a@, b@, j), mcarry_prev(cl@, ch@, j))
                    == fp_add(p@[j], fp_mul(fp(256), mcarry(cl@, ch@, j))),
        decreases 8 - k,
    {
        let mut col = Fp::zero();
        let mut i: usize = 0;
        while i < 8
            invariant
                i <= 8,
                k < 8,
                a.len() == 8,
                b.len() == 8,
                col == col_fp_partial(a@, b@, k as int, i as int - 1),
            decreases 8 - i,
        {
            if i <= k && k - i < 8 {
                col = col.add(a[i].mul(b[k - i]));
            } else {
                proof {
                    use_type_invariant(col);
                    crate::field::lemma_fp_val(0);
                    crate::field::lemma_fp_of_val(col);
                    assert(fp_add(col, fp(0)) == col);
                }
            }
            i += 1;
        }
        let cp = if k == 0 {
            Fp::zero()
        } else {
            cl[k - 1].add(Fp::from_u32(256).mul(ch[k - 1]))
        };
        proof {
            assert(col == col_fp(a@, b@, k as int));
            assert(cp == mcarry_prev(cl@, ch@, k as int));
        }
        let lhs = col.add(cp);
        let rhs = p[k].add(Fp::from_u32(256).mul(cl[k].add(Fp::from_u32(256).mul(ch[k]))));
        proof {
            assert(lhs == fp_add(col_fp(a@, b@, k as int), mcarry_prev(cl@, ch@, k as int)));
            assert(rhs == fp_add(p@[k as int], fp_mul(fp(256), mcarry(cl@, ch@, k as int))));
        }
        if !(lhs == rhs) {
            return false;
        }
        k += 1;
    }
    true
}

/// Checks that the supplied requires cite the implied bytes and nonce.
fn check_req_match(reqs: &Vec<RequireRecord>, checked: &Vec<Fp>, nonce: Fp) -> (ok: bool)
    ensures
        ok == req_match(reqs@, checked@, nonce),
{
    if reqs.len() != checked.len() {
        return false;
    }
    let n = reqs.len();
    let mut i: usize = 0;
    while i < n
        invariant
            i <= n,
            n == reqs.len() == checked.len(),
            forall|j: int|
                0 <= j < i ==> (#[trigger] reqs@[j]).index == checked@[j] && reqs@[j].nonce
                    == nonce,
        decreases n - i,
    {
        if !(reqs[i].index == checked[i] && reqs[i].nonce == nonce) {
            return false;
        }
        i += 1;
    }
    true
}

/// Checks that all 8 committed bytes of a word are zero.
fn check_all_zero(b: &Vec<Fp>) -> (ok: bool)
    requires
        b.len() == 8,
    ensures
        ok == all_zero(b@),
{
    let mut k: usize = 0;
    while k < 8
        invariant
            k <= 8,
            b.len() == 8,
            forall|j: int| 0 <= j < k ==> #[trigger] b@[j] == fp(0),
        decreases 8 - k,
    {
        if !(b[k] == Fp::zero()) {
            return false;
        }
        k += 1;
    }
    true
}

/// Checks that all 8 committed bytes equal 255.
fn check_all_255(b: &Vec<Fp>) -> (ok: bool)
    requires
        b.len() == 8,
    ensures
        ok == forall|k: int| 0 <= k < 8 ==> #[trigger] b@[k] == fp(255),
{
    let mut k: usize = 0;
    while k < 8
        invariant
            k <= 8,
            b.len() == 8,
            forall|j: int| 0 <= j < k ==> #[trigger] b@[j] == fp(255),
        decreases 8 - k,
    {
        if !(b[k] == Fp::from_u32(255)) {
            return false;
        }
        k += 1;
    }
    true
}

/// Checks that two committed byte columns agree.
fn check_same(x: &Vec<Fp>, y: &Vec<Fp>) -> (ok: bool)
    requires
        x.len() == 8,
        y.len() == 8,
    ensures
        ok == forall|k: int| 0 <= k < 8 ==> #[trigger] x@[k] == y@[k],
{
    let mut k: usize = 0;
    while k < 8
        invariant
            k <= 8,
            x.len() == 8,
            y.len() == 8,
            forall|j: int| 0 <= j < k ==> #[trigger] x@[j] == y@[j],
        decreases 8 - k,
    {
        if !(x[k] == y[k]) {
            return false;
        }
        k += 1;
    }
    true
}

/// Decodes the 16 input elements as the two little-endian operand words.
fn decode_ops(input: &Vec<Fp>) -> (r: (u64, u64))
    requires
        input.len() == 16,
        all_bytes(input@),
    ensures
        r.0 == in1(input@),
        r.1 == in2(input@),
{
    let lo = sub_vec(input, 0, 8);
    let hi = sub_vec(input, 8, 8);
    proof {
        assert(all_bytes(lo@));
        assert(all_bytes(hi@));
        lemma_word_of_bound(lo@);
        lemma_word_of_bound(hi@);
    }
    let a = into_u64(&lo);
    let b = into_u64(&hi);
    (a, b)
}

/// Reads a word's little-endian bytes back as plain bytes.
fn bytes_of_word(x: u64) -> (r: Vec<u8>)
    ensures
        r@ =~= bytes_seq(x),
        r.len() == 8,
{
    let fs = word_to_fields(x);
    let mut r: Vec<u8> = Vec::new();
    let mut k: usize = 0;
    while k < 8
        invariant
            k <= 8,
            r.len() == k,
            fs.len() == 8,
            forall|j: int| 0 <= j < 8 ==> (#[trigger] fs@[j]).val() == byte_at(x as int, j),
            forall|j: int| 0 <= j < 8 ==> 0 <= (#[trigger] fs@[j]).val() < 256,
            forall|j: int| 0 <= j < k ==> #[trigger] r@[j] as int == byte_at(x as int, j),
        decreases 8 - k,
    {
        r.push(fs[k].as_u32() as u8);
        k += 1;
    }
    r
}

/// Sends every byte of `checked`, in order, to the byte-range-check table.
fn emit_requires(queries: &mut QueryRecord, nonce: u32, reqs: &mut Vec<Record>, checked: &Vec<u8>)
    requires
        old(queries).wf(),
        checked.len() <= 64,
        forall|p: int| 0 <= p < 256 ==> #[trigger] old(queries).bytes@[p] + 64 <= u32::MAX,
    ensures
        final(queries).wf(),
        final(queries).mem == old(queries).mem,
        final(queries).calls == old(queries).calls,
        final(queries).bytes@ == bump_bytes(old(queries).bytes@, checked@),
        final(reqs)@ == old(reqs)@ + records_for(old(queries).bytes@, checked@, nonce),
{
    let ghost m0 = old(queries).bytes@;
    let ghost r0 = old(reqs)@;
    let n = checked.len();
    let mut i: usize = 0;
    while i < n
        invariant
            i <= n,
            n == checked.len(),
            n <= 64,
            m0.len() == 256,
            forall|p: int| 0 <= p < 256 ==> #[trigger] m0[p] + 64 <= u32::MAX,
            queries.wf(),
            queries.mem == old(queries).mem,
            queries.calls == old(queries).calls,
            queries.bytes@ == bump_bytes(m0, checked@.take(i as int)),
            reqs@ == r0 + records_for(m0, checked@.take(i as int), nonce),
        decreases n - i,
    {
        let b = checked[i];
        proof {
            lemma_bump_bounds(m0, checked@.take(i as int));
            assert(queries.bytes@[b as int] <= m0[b as int] + i);
            lemma_bump_snoc(m0, checked@.take(i as int), b);
            lemma_records_snoc(m0, checked@.take(i as int), b, nonce);
            assert(checked@.take(i as int).push(b) =~= checked@.take(i as int + 1));
        }
        queries.require_byte(b, nonce, reqs);
        i += 1;
    }
    proof {
        assert(checked@.take(n as int) =~= checked@);
    }
}

impl U64 {
    /// Performs the real computation against the live query record: decodes
    /// the two operands, computes the variant's result with its explicit
    /// wrapping and divide-by-zero conventions, and consults the shared
    /// byte-range table once per auxiliary byte, emitting one `Record` per
    /// consultation under the given nonce. Its only side effects are those
    /// consultations: byte-range multiplicities and the requires vector;
    /// memory tables and the invocation log (which the dispatcher writes,
    /// through `QueryRecord::record_call`) are untouched.
    #[verifier::rlimit(100)]
    pub fn execute(
        &self,
        input: &Vec<Fp>,
        nonce: u32,
        queries: &mut QueryRecord,
        reqs: &mut Vec<Record>,
    ) -> (out: Vec<Fp>)
        requires
            input.len() == 16,
            all_bytes(input@),
            old(queries).wf(),
            forall|p: int| 0 <= p < 256 ==> #[trigger] old(queries).bytes@[p] + 64 <= u32::MAX,
        ensures
            final(queries).wf(),
            final(queries).mem == old(queries).mem,
            out@ == out_spec(*self, in1(input@), in2(input@)),
            final(queries).bytes@ == bump_bytes(
                old(queries).bytes@,
                checked_bytes(*self, in1(input@), in2(input@)),
            ),
            final(reqs)@ == old(reqs)@ + records_for(
                old(queries).bytes@,
                checked_bytes(*self, in1(input@), in2(input@)),
                nonce,
            ),
            final(queries).calls == old(queries).calls,
    {
        let (a, b) = decode_ops(input);
        let (out, checked): (Vec<Fp>, Vec<u8>) = match self {
            U64::Add => {
                let s = wrap_add(a, b);
                let out = word_to_fields(s);
                let checked = bytes_of_word(s);
                (out, checked)
            },
            U64::Sub => {
                let d = wrap_sub(a, b);
                let out = word_to_fields(d);
                let checked = bytes_of_word(d);
                (out, checked)
            },
            U64::Mul => {
                let p = wrap_mul(a, b);
                let out = word_to_fields(p);
                let parts = mul_parts(a, b);
                proof {
                    assert(parts.1@ =~= checked_bytes(U64::Mul, a, b));
                }
                (out, parts.1)
            },
            U64::DivRem => {
                let (q, r) = divrem(a, b);
                let mut out = word_to_fields(q);
                let mut rb = word_to_fields(r);
                out.append(&mut rb);
                let mut checked = bytes_of_word(q);
                let mut rbytes = bytes_of_word(r);
                checked.append(&mut rbytes);
                let parts = mul_parts(q, b);
                let mut mc = parts.1;
                checked.append(&mut mc);
                let mut dbytes = bytes_of_word(wrap_sub(r, b));
                checked.append(&mut dbytes);
                proof {
                    assert(out@ =~= out_spec(U64::DivRem, a, b));
                    assert(checked@ =~= checked_bytes(U64::DivRem, a, b));
                }
                (out, checked)
            },
            U64::LessThan => {
                let mut out: Vec<Fp> = Vec::new();
                if a < b {
                    out.push(Fp::from_u32(1));
                } else {
                    out.push(Fp::from_u32(0));
                }
                let checked = bytes_of_word(wrap_sub(a, b));
                proof {
                    assert(out@ =~= out_spec(U64::LessThan, a, b));
                }
                (out, checked)
            },
        };
        emit_requires(queries, nonce, reqs, &checked);
        proof {
            assert(out@ =~= out_spec(*self, a, b));
            assert(checked@ =~= checked_bytes(*self, a, b));
        }
        out
    }

    /// Recomputes the same outputs and materializes the full auxiliary
    /// witness with the identical algorithm, against no shared accounting:
    /// no multiplicity moves and no require is emitted.
    #[verifier::rlimit(100)]
    pub fn populate_witness(&self, input: &Vec<Fp>, witness: &mut Vec<Fp>) -> (out: Vec<Fp>)
        requires
            input.len() == 16,
            all_bytes(input@),
            old(witness).len() == self.spec_witness_size(),
        ensures
            final(witness)@ == wit_spec(*self, in1(input@), in2(input@)),
            out@ == out_spec(*self, in1(input@), in2(input@)),
    {
        let (a, b) = decode_ops(input);
        match self {
            U64::Add => {
                let s = wrap_add(a, b);
                let out = word_to_fields(s);
                let mut w = word_to_fields(s);
                let mut c = carries_of_add(a, b);
                w.append(&mut c);
                proof {
                    assert(w@ =~= wit_spec(U64::Add, a, b));
                }
                *witness = w;
                out
            },
            U64::Sub => {
                let d = wrap_sub(a, b);
                let out = word_to_fields(d);
                let mut w = word_to_fields(d);
                let mut c = borrows_of_sub(a, b);
                w.append(&mut c);
                proof {
                    assert(w@ =~= wit_spec(U64::Sub, a, b));
                }
                *witness = w;
                out
            },
            U64::Mul => {
                let p = wrap_mul(a, b);
                let out = word_to_fields(p);
                let parts = mul_parts(a, b);
                proof {
                    assert(parts.0@ =~= wit_spec(U64::Mul, a, b));
                }
                *witness = parts.0;
                out
            },
            U64::DivRem => {
                let (q, r) = divrem(a, b);
                let m = wrap_mul(q, b);
                let mut out = word_to_fields(q);
                let mut rb = word_to_fields(r);
                out.append(&mut rb);
                let mut w = word_to_fields(q);
                let mut w_r = word_to_fields(r);
                w.append(&mut w_r);
                let parts = mul_parts(q, b);
                let mut mw = parts.0;
                w.append(&mut mw);
                let mut sc = carries_of_add(m, r);
                w.append(&mut sc);
                let mut db = word_to_fields(wrap_sub(r, b));
                w.append(&mut db);
                let mut lb = borrows_of_sub(r, b);
                w.append(&mut lb);
                proof {
                    assert(out@ =~= out_spec(U64::DivRem, a, b));
                    assert(w@ =~= wit_spec(U64::DivRem, a, b));
                }
                *witness = w;
                out
            },
            U64::LessThan => {
                let mut out: Vec<Fp> = Vec::new();
                if a < b {
                    out.push(Fp::from_u32(1));
                } else {
                    out.push(Fp::from_u32(0));
                }
                let mut w = word_to_fields(wrap_sub(a, b));
                let mut c = borrows_of_sub(a, b);
                w.append(&mut c);
                proof {
                    assert(out@ =~= out_spec(U64::LessThan, a, b));
                    assert(w@ =~= wit_spec(U64::LessThan, a, b));
                }
                *witness = w;
                out
            },
        }
    }

    /// Re-checks, on one committed row, the algebraic relations the witness
    /// must satisfy, and that each byte lookup the witness implies matches
    /// its supplied require under the row's nonce. A padding row (`is_real`
    /// false) imposes no constraint. The output columns are returned so a
    /// caller chip can chain this chipset's result into further constraints.
    #[verifier::rlimit(100)]
    pub fn eval(
        &self,
        is_real: bool,
        ins: &Vec<Fp>,
        witness: &Vec<Fp>,
        nonce: Fp,
        reqs: &Vec<RequireRecord>,
    ) -> (out: (Vec<Fp>, bool))
        requires
            ins.len() == 16,
            witness@.len() == self.spec_witness_size(),
        ensures
            out.0@ == eval_outs(*self, witness@),
            out.1 == (is_real ==> eval_cons(*self, ins@, witness@, nonce, reqs@)),
    {
        let a = sub_vec(ins, 0, 8);
        let b = sub_vec(ins, 8, 8);
        match self {
            U64::Add => {
                let s = sub_vec(witness, 0, 8);
                let c = sub_vec(witness, 8, 8);
                let ok = !is_real || (check_add_rel(&a, &b, &s, &c) && check_req_match(
                    reqs,
                    &s,
                    nonce,
                ));
                (s, ok)
            },
            U64::Sub => {
                let d = sub_vec(witness, 0, 8);
                let r = sub_vec(witness, 8, 8);
                let ok = !is_real || (check_sub_rel(&a, &b, &d, &r) && check_req_match(
                    reqs,
                    &d,
                    nonce,
                ));
                (d, ok)
            },
            U64::Mul => {
                let p = sub_vec(witness, 0, 8);
                let cl = sub_vec(witness, 8, 8);
                let ch = sub_vec(witness, 16, 8);
                let ckd = sub_vec(witness, 0, 24);
                let ok = !is_real || (check_mul_rel(&a, &b, &p, &cl, &ch) && check_req_match(
                    reqs,
                    &ckd,
                    nonce,
                ));
                (p, ok)
            },
            U64::LessThan => {
                let d = sub_vec(witness, 0, 8);
                let r = sub_vec(witness, 8, 8);
                let ok = !is_real || (check_sub_rel(&a, &b, &d, &r) && check_req_match(
                    reqs,
                    &d,
                    nonce,
                ));
                let mut o: Vec<Fp> = Vec::new();
                o.push(witness[15]);
                proof {
                    assert(o@ =~= eval_outs(U64::LessThan, witness@));
                }
                (o, ok)
            },
            U64::DivRem => {
                let q = sub_vec(witness, 0, 8);
                let r = sub_vec(witness, 8, 8);
                let m = sub_vec(witness, 16, 8);
                let cl = sub_vec(witness, 24, 8);
                let ch = sub_vec(witness, 32, 8);
                let sc = sub_vec(witness, 40, 8);
                let d = sub_vec(witness, 48, 8);
                let lb = sub_vec(witness, 56, 8);
                let conv = if check_all_zero(&b) {
                    check_all_255(&q) && check_same(&r, &a)
                } else {
                    check_sub_rel(&r, &b, &d, &lb) && lb[7] == Fp::from_u32(1)
                };
                let mut ckd = sub_vec(witness, 0, 40);
                let mut dd = sub_vec(witness, 48, 8);
                ckd.append(&mut dd);
                let ok = !is_real || (check_mul_rel(&q, &b, &m, &cl, &ch) && check_add_rel(
                    &m,
                    &r,
                    &a,
                    &sc,
                ) && conv && check_req_match(reqs, &ckd, nonce));
                (sub_vec(witness, 0, 16), ok)
            },
        }
    }
}

/// One column of the carry completeness argument: if the low `k` bytes of
/// the operands and of the wrapping sum balance with carry `carry_in`, then
/// column `k` balances too, producing the next carry.
#[verifier::rlimit(100)]
proof fn lemma_add_claim(a: u64, b: u64, k: int, c1: int, c2: int, m: int)
    requires
        0 <= k < 8,
        c1 == byte_coeff(k),
        c2 == 256 * c1,
        c2 * m == 0x1_0000_0000_0000_0000,
        m >= 1,
        (a as int) % c1 + (b as int) % c1 == (w_add(a, b) as int) % c1 + c1 * add_carry(
            a,
            b,
            k - 1,
        ),
    ensures
        (a as int) % c2 + (b as int) % c2 == (w_add(a, b) as int) % c2 + c2 * add_carry(a, b, k),
        byte_at(a as int, k) + byte_at(b as int, k) + add_carry(a, b, k - 1) == byte_at(
            w_add(a, b) as int,
            k,
        ) + 256 * add_carry(a, b, k),
{
    let ai = a as int;
    let bi = b as int;
    let si = w_add(a, b) as int;
    let ba = byte_at(ai, k);
    let bb = byte_at(bi, k);
    let bs = byte_at(si, k);
    let cprev = add_carry(a, b, k - 1);
    let cnext = add_carry(a, b, k);
    lemma_div_pos_is_pos(ai, c1);
    lemma_div_pos_is_pos(bi, c1);
    lemma_div_pos_is_pos(si, c1);
    lemma_mod_bound(ai / c1, 256);
    lemma_mod_bound(bi / c1, 256);
    lemma_mod_bound(si / c1, 256);
    lemma_mod_bound(ai, c1);
    lemma_mod_bound(bi, c1);
    lemma_mod_bound(si, c1);
    assert(cprev == 0 || cprev == 1);
    assert(cnext == 0 || cnext == 1);
    let t = ba + bb + cprev;
    let r = t - 256 * cnext;
    assert(0 <= r < 256);
    lemma_breakdown(ai, c1, 256);
    lemma_breakdown(bi, c1, 256);
    lemma_breakdown(si, c1, 256);
    assert(c1 * 256 == c2);
    assert(ai % c2 == c1 * ba + ai % c1);
    assert(bi % c2 == c1 * bb + bi % c1);
    assert(si % c2 == c1 * bs + si % c1);
    // the wrapping sum agrees with the true sum modulo c2
    assert(si == (ai + bi) % (c2 * m));
    lemma_mod_mod(ai + bi, c2, m);
    lemma_mod_bound(ai + bi, c2 * m);
    lemma_small_mod(si as nat, (c2 * m) as nat);
    assert(si % c2 == (ai + bi) % c2) by {
        assert((si % (c2 * m)) % c2 == si % c2);
    }
    // balance the low c2 part
    assert(c1 * ba + c1 * bb + c1 * cprev == c1 * t && c1 * t == c1 * r + c1 * (256 * cnext)
        && c1 * (256 * cnext) == c2 * cnext) by (nonlinear_arith)
        requires
            t == ba + bb + cprev,
            r == t - 256 * cnext,
            c2 == 256 * c1,
    ;
    assert(ai % c2 + bi % c2 == (si % c1 + c1 * r) + c2 * cnext);
    assert(0 <= c1 * r && c1 * r <= c1 * 255) by (nonlinear_arith)
        requires
            0 <= r < 256,
            c1 >= 1,
    ;
    assert(si % c1 + c1 * r < c2);
    lemma_add_mod_noop(ai, bi, c2);
    lemma_mod_multiples_vanish(cnext, si % c1 + c1 * r, c2);
    lemma_small_mod((si % c1 + c1 * r) as nat, c2 as nat);
    assert((ai % c2 + bi % c2) % c2 == (ai + bi) % c2);
    assert((ai % c2 + bi % c2) % c2 == ((si % c1 + c1 * r) + c2 * cnext) % c2);
    assert(si % c2 == si % c1 + c1 * r);
    assert(c1 * bs == c1 * r);
    assert(bs == r) by (nonlinear_arith)
        requires
            c1 >= 1,
            c1 * bs == c1 * r,
    ;
}

/// Completeness of the byte-wise carry recurrence: in every column, the
/// operands' bytes, the wrapping sum's bytes and the recurrence's carries
/// balance as `a_k + b_k + carry_in == s_k + 256 * carry_out`.
pub proof fn lemma_add_carry_complete(a: u64, b: u64, k: int)
    requires
        0 <= k < 8,
    ensures
        byte_at(a as int, k) + byte_at(b as int, k) + add_carry(a, b, k - 1) == byte_at(
            w_add(a, b) as int,
            k,
        ) + 256 * add_carry(a, b, k),
{
    lemma_fundamental_div_mod_converse(a as int, 1, a as int, 0);
    lemma_fundamental_div_mod_converse(b as int, 1, b as int, 0);
    lemma_fundamental_div_mod_converse(w_add(a, b) as int, 1, w_add(a, b) as int, 0);
    lemma_add_claim(a, b, 0, 1, 0x100, 0x100_0000_0000_0000);
    if k >= 1 {
        lemma_add_claim(a, b, 1, 0x100, 0x1_0000, 0x1_0000_0000_0000);
    }
    if k >= 2 {
        lemma_add_claim(a, b, 2, 0x1_0000, 0x100_0000, 0x100_0000_0000);
    }
    if k >= 3 {
        lemma_add_claim(a, b, 3, 0x100_0000, 0x1_0000_0000, 0x1_0000_0000);
    }
    if k >= 4 {
        lemma_add_claim(a, b, 4, 0x1_0000_0000, 0x100_0000_0000, 0x100_0000);
    }
    if k >= 5 {
        lemma_add_claim(a, b, 5, 0x100_0000_0000, 0x1_0000_0000_0000, 0x1_0000);
    }
    if k >= 6 {
        lemma_add_claim(a, b, 6, 0x1_0000_0000_0000, 0x100_0000_0000_0000, 0x100);
    }
    if k >= 7 {
        lemma_add_claim(a, b, 7, 0x100_0000_0000_0000, 0x1_0000_0000_0000_0000, 1);
    }
}

/// Completeness of the addition constraints: the witness `populate_witness`
/// materializes for Add — the wrapping sum's bytes with the recurrence's
/// carries — satisfies the byte-wise addition relation `eval` checks, for
/// every pair of operands.
pub proof fn lemma_add_witness_complete(a: u64, b: u64)
    ensures
        add_rel(
            le_fp_seq(a),
            le_fp_seq(b),
            wit_spec(U64::Add, a, b).subrange(0, 8),
            wit_spec(U64::Add, a, b).subrange(8, 16),
        ),
{
    let s = wit_spec(U64::Add, a, b).subrange(0, 8);
    let c = wit_spec(U64::Add, a, b).subrange(8, 16);
    assert forall|k: int| 0 <= k < 8 implies {
        &&& #[trigger] fp_add(fp_add(le_fp_seq(a)[k], le_fp_seq(b)[k]), carry_prev(c, k)) == fp_add(
            s[k],
            fp_mul(fp(256), c[k]),
        )
        &&& is_bit(c[k])
    } by {
        lemma_add_carry_complete(a, b, k);
        let ba = byte_at(a as int, k);
        let bb = byte_at(b as int, k);
        let bs = byte_at(w_add(a, b) as int, k);
        let cprev = add_carry(a, b, k - 1);
        let cnext = add_carry(a, b, k);
        assert(cprev == 0 || cprev == 1);
        assert(cnext == 0 || cnext == 1);
        assert(le_fp_seq(a)[k] == fp(ba));
        assert(le_fp_seq(b)[k] == fp(bb));
        assert(s[k] == fp(bs));
        assert(c[k] == fp(cnext));
        assert(carry_prev(c, k) == fp(cprev));
        crate::field::lemma_fp_hom(ba, bb);
        crate::field::lemma_fp_hom(ba + bb, cprev);
        crate::field::lemma_fp_hom(256, cnext);
        crate::field::lemma_fp_hom(bs, 256 * cnext);
        assert(fp_add(fp_add(fp(ba), fp(bb)), fp(cprev)) == fp(ba + bb + cprev));
        assert(fp_add(fp(bs), fp_mul(fp(256), fp(cnext))) == fp(bs + 256 * cnext));
    }
}

/// One column of the borrow completeness argument, the subtraction
/// counterpart of `lemma_add_claim`.
#[verifier::rlimit(100)]
proof fn lemma_sub_claim(a: u64, b: u64, k: int, c1: int, c2: int, m: int)
    requires
        0 <= k < 8,
        c1 == byte_coeff(k),
        c2 == 256 * c1,
        c2 * m == 0x1_0000_0000_0000_0000,
        m >= 1,
        (a as int) % c1 + c1 * sub_borrow(a, b, k - 1) == (w_sub(a, b) as int) % c1 + (
        b as int) % c1,
    ensures
        (a as int) % c2 + c2 * sub_borrow(a, b, k) == (w_sub(a, b) as int) % c2 + (b as int) % c2,
        byte_at(a as int, k) + 256 * sub_borrow(a, b, k) == byte_at(w_sub(a, b) as int, k)
            + byte_at(b as int, k) + sub_borrow(a, b, k - 1),
{
    let ai = a as int;
    let bi = b as int;
    let si = w_sub(a, b) as int;
    let ba = byte_at(ai, k);
    let bb = byte_at(bi, k);
    let bs = byte_at(si, k);
    let borp = sub_borrow(a, b, k - 1);
    let born = sub_borrow(a, b, k);
    lemma_div_pos_is_pos(ai, c1);
    lemma_div_pos_is_pos(bi, c1);
    lemma_div_pos_is_pos(si, c1);
    lemma_mod_bound(ai / c1, 256);
    lemma_mod_bound(bi / c1, 256);
    lemma_mod_bound(si / c1, 256);
    lemma_mod_bound(ai, c1);
    lemma_mod_bound(bi, c1);
    lemma_mod_bound(si, c1);
    assert(borp == 0 || borp == 1);
    assert(born == 0 || born == 1);
    let d = ba - bb - borp + 256 * born;
    assert(0 <= d < 256);
    lemma_breakdown(ai, c1, 256);
    lemma_breakdown(bi, c1, 256);
    lemma_breakdown(si, c1, 256);
    assert(c1 * 256 == c2);
    assert(ai % c2 == c1 * ba + ai % c1);
    assert(bi % c2 == c1 * bb + bi % c1);
    assert(si % c2 == c1 * bs + si % c1);
    // the wrapping difference agrees with the true difference modulo c2
    lemma_mod_mod(ai - bi, c2, m);
    lemma_mod_bound(ai - bi, c2 * m);
    lemma_small_mod(si as nat, (c2 * m) as nat);
    assert(si % c2 == (ai - bi) % c2) by {
        assert(si == (ai - bi) % (c2 * m));
        assert((si % (c2 * m)) % c2 == si % c2);
    }
    // balance the low c2 part
    assert(c1 * ba - c1 * bb - c1 * borp + c1 * (256 * born) == c1 * d && c1 * (256 * born) == c2
        * born) by (nonlinear_arith)
        requires
            d == ba - bb - borp + 256 * born,
            c2 == 256 * c1,
    ;
    assert(ai % c2 - bi % c2 == (si % c1 + c1 * d) - c2 * born);
    assert(0 <= c1 * d && c1 * d <= c1 * 255) by (nonlinear_arith)
        requires
            0 <= d < 256,
            c1 >= 1,
    ;
    assert(si % c1 + c1 * d < c2);
    lemma_sub_mod_noop(ai, bi, c2);
    lemma_mod_multiples_vanish(-born, si % c1 + c1 * d, c2);
    lemma_small_mod((si % c1 + c1 * d) as nat, c2 as nat);
    assert((ai % c2 - bi % c2) % c2 == (ai - bi) % c2);
    assert((ai % c2 - bi % c2) % c2 == ((si % c1 + c1 * d) + c2 * (-born)) % c2);
    assert(si % c2 == si % c1 + c1 * d);
    assert(c1 * bs == c1 * d);
    assert(bs == d) by (nonlinear_arith)
        requires
            c1 >= 1,
            c1 * bs == c1 * d,
    ;
}

/// Completeness of the byte-wise borrow recurrence: in every column, the
/// operands' bytes, the wrapping difference's bytes and the recurrence's
/// borrows balance as `a_k + 256 * borrow_out == d_k + b_k + borrow_in`.
pub proof fn lemma_sub_borrow_complete(a: u64, b: u64, k: int)
    requires
        0 <= k < 8,
    ensures
        byte_at(a as int, k) + 256 * sub_borrow(a, b, k) == byte_at(w_sub(a, b) as int, k)
            + byte_at(b as int, k) + sub_borrow(a, b, k - 1),
{
    lemma_fundamental_div_mod_converse(a as int, 1, a as int, 0);
    lemma_fundamental_div_mod_converse(b as int, 1, b as int, 0);
    lemma_fundamental_div_mod_converse(w_sub(a, b) as int, 1, w_sub(a, b) as int, 0);
    lemma_sub_claim(a, b, 0, 1, 0x100, 0x100_0000_0000_0000);
    if k >= 1 {
        lemma_sub_claim(a, b, 1, 0x100, 0x1_0000, 0x1_0000_0000_0000);
    }
    if k >= 2 {
        lemma_sub_claim(a, b, 2, 0x1_0000, 0x100_0000, 0x100_0000_0000);
    }
    if k >= 3 {
        lemma_sub_claim(a, b, 3, 0x100_0000, 0x1_0000_0000, 0x1_0000_0000);
    }
    if k >= 4 {
        lemma_sub_claim(a, b, 4, 0x1_0000_0000, 0x100_0000_0000, 0x100_0000);
    }
    if k >= 5 {
        lemma_sub_claim(a, b, 5, 0x100_0000_0000, 0x1_0000_0000_0000, 0x1_0000);
    }
    if k >= 6 {
        lemma_sub_claim(a, b, 6, 0x1_0000_0000_0000, 0x100_0000_0000_0000, 0x100);
    }
    if k >= 7 {
        lemma_sub_claim(a, b, 7, 0x100_0000_0000_0000, 0x1_0000_0000_0000_0000, 1);
    }
}

/// Completeness of the subtraction constraints: the witness
/// `populate_witness` materializes for Sub (and for LessThan, which shares
/// it) — the wrapping difference's bytes with the recurrence's borrows —
/// satisfies the byte-wise subtraction relation `eval` checks, for every
/// pair of operands.
pub proof fn lemma_sub_witness_complete(a: u64, b: u64)
    ensures
        sub_rel(
            le_fp_seq(a),
            le_fp_seq(b),
            wit_spec(U64::Sub, a, b).subrange(0, 8),
            wit_spec(U64::Sub, a, b).subrange(8, 16),
        ),
{
    let s = wit_spec(U64::Sub, a, b).subrange(0, 8);
    let c = wit_spec(U64::Sub, a, b).subrange(8, 16);
    assert forall|k: int| 0 <= k < 8 implies {
        &&& #[trigger] fp_add(le_fp_seq(a)[k], fp_mul(fp(256), c[k])) == fp_add(
            fp_add(s[k], le_fp_seq(b)[k]),
            carry_prev(c, k),
        )
        &&& is_bit(c[k])
    } by {
        lemma_sub_borrow_complete(a, b, k);
        let ba = byte_at(a as int, k);
        let bb = byte_at(b as int, k);
        let bs = byte_at(w_sub(a, b) as int, k);
        let borp = sub_borrow(a, b, k - 1);
        let born = sub_borrow(a, b, k);
        assert(borp == 0 || borp == 1);
        assert(born == 0 || born == 1);
        assert(le_fp_seq(a)[k] == fp(ba));
        assert(le_fp_seq(b)[k] == fp(bb));
        assert(s[k] == fp(bs));
        assert(c[k] == fp(born));
        assert(carry_prev(c, k) == fp(borp));
        crate::field::lemma_fp_hom(256, born);
        crate::field::lemma_fp_hom(ba, 256 * born);
        crate::field::lemma_fp_hom(bs, bb);
        crate::field::lemma_fp_hom(bs + bb, borp);
        assert(fp_add(fp(ba), fp_mul(fp(256), fp(born))) == fp(ba + 256 * born));
        assert(fp_add(fp_add(fp(bs), fp(bb)), fp(borp)) == fp(bs + bb + borp));
    }
}

/// Arithmetic correctness of division: whenever the divisor is nonzero, the
/// returned quotient and remainder satisfy `q * b + r == a` exactly (so also
/// as wrapping 64-bit arithmetic) with `r < b`.
pub proof fn lemma_divrem_identity(a: u64, b: u64)
    requires
        b != 0,
    ensures
        div64(a, b) as int * (b as int) + rem64(a, b) as int == a as int,
        rem64(a, b) < b,
{
    lemma_fundamental_div_mod(a as int, b as int);
    lemma_div_pos_is_pos(a as int, b as int);
    lemma_div_nonincreasing(a as int, b as int);
    lemma_mod_division_less_than_divisor(a as int, b as int);
    lemma_mod_bound(a as int, b as int);
    let q = (a as int) / (b as int);
    let r = (a as int) % (b as int);
    assert(0 <= q && q <= a as int);
    assert(0 <= r && r < b as int);
    assert(a as int == (b as int) * q + r);
    assert(div64(a, b) as int == q);
    assert(rem64(a, b) as int == r);
    assert(q * (b as int) == (b as int) * q) by (nonlinear_arith);
}

} // verus!
