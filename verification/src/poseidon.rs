//! The fixed-permutation chip.
//!
//! A self-contained chip: no requires are emitted. For each input block it
//! lays out one initial row plus one row per round, each row the state after
//! deterministically applying that round's constant addition, nonlinear
//! layer and linear mixing to the previous row's state. The first
//! `full_rounds` rounds apply the x^7 box to every lane, the remaining
//! `partial_rounds` rounds to lane 0 only; the linear layer adds the state's
//! lane sum to every lane.
use vstd::prelude::*;
use vstd::arithmetic::div_mod::lemma_fundamental_div_mod_converse;
use crate::field::{Fp, fp, fp_add, fp_mul};
use crate::trace::{Trace, npow2, next_pow2, lemma_npow2_bounds};

verus! {

/// The permutation chip: state width, round counts, and the round-constant
/// schedule, one constant per lane per round.
pub struct Poseidon2Chip {
    pub width: usize,
    pub full_rounds: usize,
    pub partial_rounds: usize,
    pub constants: Vec<Vec<Fp>>,
}

/// The views of a vector of input blocks.
pub open spec fn block_views(v: Seq<Vec<Fp>>) -> Seq<Seq<Fp>> {
    Seq::new(v.len() as nat, |i: int| v[i]@)
}

/// The nonlinear box applied to one lane: x^7.
pub open spec fn sbox(x: Fp) -> Fp {
    fp_mul(fp_mul(fp_mul(fp_mul(x, x), fp_mul(x, x)), fp_mul(x, x)), x)
}

/// The sum of the first `n` lanes of a state.
pub open spec fn state_sum(s: Seq<Fp>, n: int) -> Fp
    decreases (if n <= 0 { 0int } else { n }),
{
    if n <= 0 {
        fp(0)
    } else {
        fp_add(state_sum(s, n - 1), s[n - 1])
    }
}

/// The linear mixing layer: every lane gains the state's lane sum.
pub open spec fn mix(s: Seq<Fp>) -> Seq<Fp> {
    Seq::new(s.len() as nat, |i: int| fp_add(s[i], state_sum(s, s.len() as int)))
}

impl Poseidon2Chip {
    /// The schedule covers every round, one constant per lane.
    pub open spec fn wf(self) -> bool {
        &&& self.width >= 1
        &&& self.constants.len() == self.full_rounds + self.partial_rounds
        &&& forall|r: int|
            0 <= r < self.constants.len() ==> (#[trigger] self.constants[r]).len() == self.width
    }

    /// The total number of rounds.
    pub open spec fn spec_rounds(self) -> int {
        self.full_rounds + self.partial_rounds
    }

    /// The state after applying round `r` to state `s`: add the round's
    /// constants, apply the nonlinear layer (every lane in a full round,
    /// lane 0 only in a partial round), then mix.
    pub open spec fn round_spec(self, s: Seq<Fp>, r: int) -> Seq<Fp> {
        let added = Seq::new(self.width as nat, |i: int| fp_add(s[i], self.constants[r]@[i]));
        let nl = Seq::new(
            self.width as nat,
            |i: int|
                if r < self.full_rounds || i == 0 {
                    sbox(added[i])
                } else {
                    added[i]
                },
        );
        mix(nl)
    }

    /// The state after the first `j` rounds on one input block.
    pub open spec fn state_at(self, input: Seq<Fp>, j: int) -> Seq<Fp>
        decreases (if j <= 0 { 0int } else { j }),
    {
        if j <= 0 {
            input
        } else {
            self.round_spec(self.state_at(input, j - 1), j - 1)
        }
    }

    /// Cell `(i, j)` of the permutation trace: within the rows of a block,
    /// the state after `i mod (rounds + 1)` rounds; past all blocks, zero.
    pub open spec fn pos_cell(self, inputs: Seq<Seq<Fp>>, i: int, j: int) -> Fp {
        let rpb = self.spec_rounds() + 1;
        if i < inputs.len() * rpb {
            self.state_at(inputs[i / rpb], i % rpb)[j]
        } else {
            fp(0)
        }
    }

    /// The full row-major permutation trace of the given height.
    pub open spec fn pos_trace_values(self, inputs: Seq<Seq<Fp>>, height: int) -> Seq<Fp> {
        Seq::new(
            (height * self.width) as nat,
            |k: int| self.pos_cell(inputs, k / self.width as int, k % self.width as int),
        )
    }

    /// One row per block and round plus the initial rows, padded to a power
    /// of two.
    pub open spec fn spec_height(self, blocks: int) -> int {
        npow2((blocks * (self.spec_rounds() + 1)) as nat) as int
    }

    /// The trace's column count: one column per state lane.
    pub fn width(&self) -> (r: usize)
        ensures
            r == self.width,
    {
        self.width
    }

    /// Applies round `r` to a concrete state.
    fn round_exec(&self, s: &Vec<Fp>, r: usize) -> (out: Vec<Fp>)
        requires
            self.wf(),
            s.len() == self.width,
            r < self.spec_rounds(),
        ensures
            out@ == self.round_spec(s@, r as int),
            out.len() == self.width,
    {
        let width = self.width;
        let mut nl: Vec<Fp> = Vec::new();
        let mut i: usize = 0;
        while i < width
            invariant
                i <= width,
                self.wf(),
                width == self.width,
                s.len() == width,
                r < self.spec_rounds(),
                nl.len() == i,
                forall|j: int|
                    0 <= j < i ==> #[trigger] nl@[j] == (if r < self.full_rounds || j == 0 {
                        sbox(fp_add(s@[j], self.constants[r as int]@[j]))
                    } else {
                        fp_add(s@[j], self.constants[r as int]@[j])
                    }),
            decreases width - i,
        {
            let added = s[i].add(self.constants[r][i]);
            if r < self.full_rounds || i == 0 {
                let x2 = added.mul(added);
                let x4 = x2.mul(x2);
                let x7 = x4.mul(x2).mul(added);
                proof {
                    assert(x7 == sbox(fp_add(s@[i as int], self.constants[r as int]@[i as int])));
                }
                nl.push(x7);
            } else {
                nl.push(added);
            }
            i += 1;
        }
        let mut sum = Fp::zero();
        let mut i: usize = 0;
        while i < width
            invariant
                i <= width,
                nl.len() == width,
                sum == state_sum(nl@, i as int),
            decreases width - i,
        {
            sum = sum.add(nl[i]);
            i += 1;
        }
        let mut out: Vec<Fp> = Vec::new();
        let mut i: usize = 0;
        while i < width
            invariant
                i <= width,
                nl.len() == width,
                sum == state_sum(nl@, width as int),
                out.len() == i,
                forall|j: int| 0 <= j < i ==> #[trigger] out@[j] == fp_add(nl@[j], sum),
            decreases width - i,
        {
            out.push(nl[i].add(sum));
            i += 1;
        }
        proof {
            let ghost added = Seq::new(
                self.width as nat,
                |j: int| fp_add(s@[j], self.constants[r as int]@[j]),
            );
            let ghost nls = Seq::new(
                self.width as nat,
                |j: int|
                    if (r as int) < self.full_rounds || j == 0 {
                        sbox(added[j])
                    } else {
                        added[j]
                    },
            );
            assert(nl@ =~= nls);
            assert(out@ =~= mix(nls));
        }
        out
    }

    /// Lays out one initial row plus one row per round for each input block,
    /// packed into a matrix whose height is the next power of two, padded
    /// with zero rows.
    pub fn generate_trace(&self, inputs: &Vec<Vec<Fp>>) -> (t: Trace)
        requires
            self.wf(),
            forall|i: int| 0 <= i < inputs.len() ==> (#[trigger] inputs[i]).len() == self.width,
            self.spec_rounds() < 0x4000_0000,
            inputs.len() * (self.spec_rounds() + 1) <= 0x4000_0000,
            self.spec_height(inputs.len() as int) * self.width <= usize::MAX,
        ensures
            t.width == self.width,
            t.values.len() == self.spec_height(inputs.len() as int) * self.width,
            t.values@ == self.pos_trace_values(
                block_views(inputs@),
                self.spec_height(inputs.len() as int),
            ),
    {
        let width = self.width;
        let rpb = self.full_rounds + self.partial_rounds + 1;
        let total = inputs.len() * rpb;
        proof {
            lemma_npow2_bounds(total as nat);
        }
        let height = next_pow2(total);
        let ghost ivs = block_views(inputs@);
        let ghost hh = self.spec_height(inputs.len() as int);
        let mut values: Vec<Fp> = Vec::new();
        let mut t_idx: usize = 0;
        let mut i: usize = 0;
        let mut state: Vec<Fp> = Vec::new();
        let mut j: usize = 0;
        while t_idx < inputs.len()
            invariant
                self.wf(),
                width == self.width,
                rpb == self.spec_rounds() + 1,
                total == inputs.len() * rpb,
                total <= 0x4000_0000,
                hh == self.spec_height(inputs.len() as int),
                total <= hh,
                hh * width <= usize::MAX,
                ivs == block_views(inputs@),
                forall|x: int| 0 <= x < inputs.len() ==> (#[trigger] inputs[x]).len() == self.width,
                t_idx <= inputs.len(),
                i == t_idx * rpb,
                values.len() == i * width,
                forall|k: int|
                    0 <= k < i * width ==> #[trigger] values@[k] == self.pos_cell(
                        ivs,
                        k / width as int,
                        k % width as int,
                    ),
            decreases inputs.len() - t_idx,
        {
            state = crate::words::sub_vec(&inputs[t_idx], 0, inputs[t_idx].len());
            j = 0;
            while j < rpb
                invariant
                    self.wf(),
                    width == self.width,
                    rpb == self.spec_rounds() + 1,
                    total == inputs.len() * rpb,
                    total <= 0x4000_0000,
                    hh == self.spec_height(inputs.len() as int),
                    total <= hh,
                    hh * width <= usize::MAX,
                    ivs == block_views(inputs@),
                    forall|x: int|
                        0 <= x < inputs.len() ==> (#[trigger] inputs[x]).len() == self.width,
                    t_idx < inputs.len(),
                    j <= rpb,
                    i == t_idx * rpb + j,
                    j < rpb ==> state.len() == width && state@ == self.state_at(
                        ivs[t_idx as int],
                        j as int,
                    ),
                    values.len() == i * width,
                    forall|k: int|
                        0 <= k < i * width ==> #[trigger] values@[k] == self.pos_cell(
                            ivs,
                            k / width as int,
                            k % width as int,
                        ),
                decreases rpb - j,
            {
                proof {
                    assert(i < total) by (nonlinear_arith)
                        requires
                            i == t_idx * rpb + j,
                            j < rpb,
                            t_idx < inputs.len() as int,
                            total == inputs.len() as int * rpb,
                            rpb >= 1,
                    ;
                    assert((i + 1) * width == i * width + width) by (nonlinear_arith);
                    assert(i as int * width <= hh * width && (i + 1) * width <= hh * width)
                        by (nonlinear_arith)
                        requires
                            (i as int) < hh,
                            width >= 1,
                    ;
                }
                let mut row = crate::words::sub_vec(&state, 0, state.len());
                values.append(&mut row);
                proof {
                    assert forall|k: int| i as int * width <= k < (i + 1) * width implies
                        #[trigger] values@[k] == self.pos_cell(
                        ivs,
                        k / width as int,
                        k % width as int,
                    ) by {
                        let c = k - i as int * width;
                        lemma_fundamental_div_mod_converse(k, width as int, i as int, c);
                        lemma_fundamental_div_mod_converse(
                            i as int,
                            rpb as int,
                            t_idx as int,
                            j as int,
                        );
                        assert(i < inputs.len() * rpb as int) by (nonlinear_arith)
                            requires
                                i == t_idx as int * rpb + j,
                                (j as int) < rpb,
                                (t_idx as int) < inputs.len() as int,
                                rpb >= 1,
                        ;
                        assert(values@[k] == state@[c]);
                    }
                }
                if j + 1 < rpb {
                    state = self.round_exec(&state, j);
                } else {
                    state = Vec::new();
                }
                proof {
                    if j + 1 < rpb {
                        assert(state@ == self.state_at(ivs[t_idx as int], j as int + 1));
                    }
                }
                j += 1;
                i += 1;
            }
            proof {
                assert(i == (t_idx + 1) * rpb) by (nonlinear_arith)
                    requires
                        i == t_idx as int * rpb + rpb,
                ;
            }
            t_idx += 1;
        }
        while i < height
            invariant
                self.wf(),
                width == self.width,
                rpb == self.spec_rounds() + 1,
                total == inputs.len() * rpb,
                hh == self.spec_height(inputs.len() as int),
                height as int == hh,
                total <= hh,
                hh * width <= usize::MAX,
                ivs == block_views(inputs@),
                i >= total,
                i <= height,
                values.len() == i * width,
                forall|k: int|
                    0 <= k < i * width ==> #[trigger] values@[k] == self.pos_cell(
                        ivs,
                        k / width as int,
                        k % width as int,
                    ),
            decreases height - i,
        {
            proof {
                assert((i + 1) * width == i * width + width) by (nonlinear_arith);
                assert(i as int * width <= hh * width && (i + 1) * width <= hh * width)
                    by (nonlinear_arith)
                    requires
                        (i as int) < hh,
                        width >= 1,
                ;
            }
            let mut row: Vec<Fp> = Vec::new();
            let mut c: usize = 0;
            while c < width
                invariant
                    c <= width,
                    row.len() == c,
                    forall|x: int| 0 <= x < c ==> #[trigger] row@[x] == fp(0),
                decreases width - c,
            {
                row.push(Fp::zero());
                c += 1;
            }
            values.append(&mut row);
            proof {
                assert forall|k: int| i as int * width <= k < (i + 1) * width implies
                    #[trigger] values@[k] == self.pos_cell(
                    ivs,
                    k / width as int,
                    k % width as int,
                ) by {
                    let c = k - i as int * width;
                    lemma_fundamental_div_mod_converse(k, width as int, i as int, c);
                    assert(i as int >= ivs.len() * rpb as int) by (nonlinear_arith)
                        requires
                            i as int >= total,
                            total == ivs.len() * rpb as int,
                    ;
                }
            }
            i += 1;
        }
        proof {
            assert(values@ =~= self.pos_trace_values(ivs, hh));
        }
        Trace { values, width }
    }
}

} // verus!
