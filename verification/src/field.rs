//! A prime-field element with exact modular arithmetic.
//!
//! Every trace cell in this crate is an `Fp`: a canonical representative in
//! `[0, P)` of a residue modulo the prime `P = 2^31 - 2^27 + 1`. The spec-level
//! constructor `fp` reduces an arbitrary integer, so contracts can state field
//! equations directly over mathematical integers.
use vstd::prelude::*;
use vstd::arithmetic::div_mod::{
    lemma_small_mod, lemma_fundamental_div_mod_converse_mod, lemma_mod_division_less_than_divisor,
    lemma_add_mod_noop, lemma_mul_mod_noop,
};

verus! {

/// The field modulus, a 31-bit prime.
pub const P: u32 = 2013265921;

/// A field element, kept canonical: the representative is always below `P`.
#[derive(Clone, Copy, PartialEq, Eq, Structural, Debug, Hash)]
pub struct Fp {
    v: u32,
}

/// The field element whose canonical representative is `n mod P`.
pub closed spec fn fp(n: int) -> Fp {
    Fp { v: (n % (P as int)) as u32 }
}

/// Field addition at the spec level.
pub open spec fn fp_add(a: Fp, b: Fp) -> Fp {
    fp(a.val() + b.val())
}

/// Field subtraction at the spec level.
pub open spec fn fp_sub(a: Fp, b: Fp) -> Fp {
    fp(a.val() - b.val())
}

/// Field multiplication at the spec level.
pub open spec fn fp_mul(a: Fp, b: Fp) -> Fp {
    fp(a.val() * b.val())
}

pub broadcast proof fn lemma_fp_val(n: int)
    ensures
        (#[trigger] fp(n)).val() == n % (P as int),
        0 <= fp(n).val() < P,
{
    lemma_mod_division_less_than_divisor(n, P as int);
}

/// Reducing before or after an addition or a multiplication gives the same
/// field element.
pub proof fn lemma_fp_hom(x: int, y: int)
    ensures
        fp_add(fp(x), fp(y)) == fp(x + y),
        fp_mul(fp(x), fp(y)) == fp(x * y),
{
    lemma_fp_val(x);
    lemma_fp_val(y);
    lemma_add_mod_noop(x, y, P as int);
    lemma_mul_mod_noop(x, y, P as int);
}

pub broadcast proof fn lemma_fp_of_val(x: Fp)
    requires
        x.inv(),
    ensures
        #[trigger] fp(x.val()) == x,
{
    lemma_small_mod(x.v as nat, P as nat);
}

impl Fp {
    /// The canonical representative, as a mathematical integer.
    pub closed spec fn val(self) -> int {
        self.v as int
    }

    #[verifier::type_invariant]
    pub closed spec fn inv(self) -> bool {
        self.v < P
    }

    /// The additive identity.
    pub fn zero() -> (r: Fp)
        ensures
            r == fp(0),
            r.val() == 0,
    {
        proof {
            lemma_small_mod(0, P as nat);
        }
        Fp { v: 0 }
    }

    /// Embeds a canonical small integer into the field.
    pub fn from_u32(x: u32) -> (r: Fp)
        requires
            x < P,
        ensures
            r == fp(x as int),
            r.val() == x,
    {
        proof {
            lemma_small_mod(x as nat, P as nat);
        }
        Fp { v: x }
    }

    /// Reads back the canonical representative.
    pub fn as_u32(&self) -> (r: u32)
        ensures
            r == self.val(),
            r < P,
    {
        proof {
            use_type_invariant(*self);
        }
        self.v
    }

    /// Field addition.
    pub fn add(self, other: Fp) -> (r: Fp)
        ensures
            r == fp_add(self, other),
            r.val() == (self.val() + other.val()) % (P as int),
    {
        proof {
            use_type_invariant(self);
            use_type_invariant(other);
        }
        let s: u32 = self.v + other.v;
        if s >= P {
            proof {
                lemma_fundamental_div_mod_converse_mod(
                    self.v as int + other.v as int,
                    P as int,
                    1,
                    s as int - P as int,
                );
            }
            Fp { v: s - P }
        } else {
            proof {
                lemma_small_mod(s as nat, P as nat);
            }
            Fp { v: s }
        }
    }

    /// Field subtraction.
    pub fn sub(self, other: Fp) -> (r: Fp)
        ensures
            r == fp_sub(self, other),
            r.val() == (self.val() - other.val()) % (P as int),
    {
        proof {
            use_type_invariant(self);
            use_type_invariant(other);
        }
        if self.v >= other.v {
            proof {
                lemma_small_mod((self.v - other.v) as nat, P as nat);
            }
            Fp { v: self.v - other.v }
        } else {
            let r: u32 = self.v + P - other.v;
            proof {
                lemma_fundamental_div_mod_converse_mod(
                    self.v as int - other.v as int,
                    P as int,
                    -1,
                    r as int,
                );
            }
            Fp { v: r }
        }
    }

    /// Field multiplication.
    pub fn mul(self, other: Fp) -> (r: Fp)
        ensures
            r == fp_mul(self, other),
            r.val() == (self.val() * other.val()) % (P as int),
    {
        proof {
            use_type_invariant(self);
            use_type_invariant(other);
        }
        proof {
            assert(self.v as int * other.v as int <= (P - 1) as int * (P - 1) as int)
                by (nonlinear_arith)
                requires
                    self.v < P,
                    other.v < P,
            ;
        }
        let prod: u64 = (self.v as u64) * (other.v as u64);
        let m: u64 = prod % (P as u64);
        proof {
            lemma_mod_division_less_than_divisor(prod as int, P as int);
        }
        Fp { v: m as u32 }
    }
}

} // verus!
