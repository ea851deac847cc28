//! Row-major trace matrices.
//!
//! A chip's trace is a flat sequence of field elements of length
//! `width * height`, where the height is padded to a power of two so the
//! proving backend can commit to it.
use vstd::prelude::*;
use vstd::arithmetic::div_mod::lemma_fundamental_div_mod;
use crate::field::Fp;

verus! {

/// The smallest power of two that is at least `n`, with a floor of 1.
pub open spec fn npow2(n: nat) -> nat
    decreases n,
{
    if n <= 1 {
        1
    } else {
        2 * npow2(((n + 1) / 2) as nat)
    }
}

/// Bounds on `npow2`: it dominates its argument and never doubles past it.
pub proof fn lemma_npow2_bounds(n: nat)
    ensures
        npow2(n) >= 1,
        npow2(n) >= n,
        n >= 2 ==> npow2(n) <= 2 * (n - 1),
    decreases n,
{
    if n <= 1 {
    } else {
        let m = ((n + 1) / 2) as nat;
        lemma_fundamental_div_mod(n as int + 1, 2);
        lemma_npow2_bounds(m);
    }
}

/// Computes `npow2` of its argument.
pub fn next_pow2(n: usize) -> (r: usize)
    requires
        n <= 0x4000_0000,
    ensures
        r == npow2(n as nat),
    decreases n,
{
    if n <= 1 {
        1
    } else {
        let m: usize = (n + 1) / 2;
        proof {
            lemma_fundamental_div_mod(n as int + 1, 2);
            lemma_npow2_bounds(m as nat);
        }
        let h: usize = next_pow2(m);
        2 * h
    }
}

/// A row-major matrix of field elements with a fixed column width.
#[derive(Clone, PartialEq, Eq, Debug)]
pub struct Trace {
    pub values: Vec<Fp>,
    pub width: usize,
}

impl Trace {
    /// The number of rows.
    pub open spec fn spec_height(self) -> int {
        self.values.len() as int / self.width as int
    }

    /// The cell in row `r`, column `c`.
    pub open spec fn cell(self, r: int, c: int) -> Fp {
        self.values[r * self.width + c]
    }

    /// The number of rows.
    pub fn height(&self) -> (r: usize)
        requires
            self.width >= 1,
        ensures
            r == self.spec_height(),
    {
        self.values.len() / self.width
    }

    /// Reads the cell in row `r`, column `c`.
    pub fn get(&self, r: usize, c: usize) -> (out: Fp)
        requires
            self.width >= 1,
            c < self.width,
            r < self.spec_height(),
        ensures
            out == self.cell(r as int, c as int),
    {
        proof {
            let w = self.width as int;
            let n = self.values.len() as int;
            let h = n / w;
            let m = n % w;
            lemma_fundamental_div_mod(n, w);
            assert(r as int * w + c < n) by (nonlinear_arith)
                requires
                    0 <= r as int,
                    0 <= c < w,
                    1 <= w,
                    (r as int) < h,
                    n == w * h + m,
                    m >= 0,
            ;
        }
        self.values[r * self.width + c]
    }
}

} // verus!
