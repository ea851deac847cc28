//! The content-addressed memory argument.
//!
//! A memory table deduplicates stored tuples: the k-th distinct tuple ever
//! stored gets address `k` (1-based; address 0 is reserved as a null-pointer
//! sentinel), and every store or load of a tuple increments its multiplicity.
//! The memory chip lays the frozen table out as a trace whose address column
//! is the dense sequence `1, 2, ...`, and whose air constraints pin exactly
//! that column down; the lookup argument ties multiplicities and values to
//! the chips that issued the accesses.
use vstd::prelude::*;
use vstd::arithmetic::div_mod::lemma_fundamental_div_mod_converse;
use rayon::iter::{IndexedParallelIterator, ParallelIterator};
use rayon::slice::ParallelSliceMut;
use crate::field::{Fp, fp, fp_add, P};
use crate::record::QueryRecord;
use crate::trace::{Trace, npow2, next_pow2, lemma_npow2_bounds};

verus! {

/// The largest number of distinct tuples one table may hold; keeps every
/// address a canonical field element and every height within `next_pow2`'s
/// domain.
pub const MEM_CAP: usize = 0x2000_0000;

/// A fatal caller-contract violation raised by the memory argument.
#[derive(Clone, Copy, PartialEq, Eq, Structural, Debug)]
pub enum MemError {
    /// A load referenced an address that no store ever assigned.
    UnknownAddress,
}

/// One stored tuple with its access count.
pub struct MemEntry {
    pub args: Vec<Fp>,
    pub mult: u32,
}

/// An insertion-ordered, deduplicating table of tuples of one arity.
pub struct MemTable {
    /// The arity: every stored tuple has exactly this many field elements.
    pub len: usize,
    /// The distinct tuples in first-store order; entry `i` owns address `i + 1`.
    pub entries: Vec<MemEntry>,
}

impl MemTable {
    /// Every entry has this table's arity, no tuple repeats, and the table
    /// is small enough that all addresses stay canonical field elements.
    pub open spec fn wf(self) -> bool {
        &&& self.entries.len() <= MEM_CAP
        &&& forall|i: int|
            0 <= i < self.entries.len() ==> (#[trigger] self.entries[i]).args.len() == self.len
        &&& forall|i: int, j: int|
            0 <= i < j < self.entries.len() ==> (#[trigger] self.entries[i]).args@ != (
            #[trigger] self.entries[j]).args@
    }

    /// Some entry holds exactly this tuple.
    pub open spec fn has(self, args: Seq<Fp>) -> bool {
        exists|i: int| 0 <= i < self.entries.len() && (#[trigger] self.entries[i]).args@ == args
    }

    /// What a load of `addr` would return: the tuple stored there, if any.
    pub open spec fn load_result(self, addr: int) -> Option<Seq<Fp>> {
        if 1 <= addr <= self.entries.len() {
            Some(self.entries[addr - 1].args@)
        } else {
            None
        }
    }

    /// How one `store` call relates the table before (`pre`) and after
    /// (`post`): a known tuple keeps its address and gains one multiplicity,
    /// a new tuple is appended with multiplicity 1 and the next dense address.
    pub open spec fn store_rel(pre: MemTable, post: MemTable, args: Seq<Fp>, addr: int) -> bool {
        &&& post.len == pre.len
        &&& if pre.has(args) {
            &&& 1 <= addr <= pre.entries.len()
            &&& pre.entries[addr - 1].args@ == args
            &&& post.entries.len() == pre.entries.len()
            &&& forall|j: int|
                0 <= j < pre.entries.len() && j != addr - 1 ==> #[trigger] post.entries[j]
                    == pre.entries[j]
            &&& post.entries[addr - 1].args@ == args
            &&& post.entries[addr - 1].mult == pre.entries[addr - 1].mult + 1
        } else {
            &&& addr == pre.entries.len() + 1
            &&& post.entries.len() == pre.entries.len() + 1
            &&& forall|j: int|
                0 <= j < pre.entries.len() ==> #[trigger] post.entries[j] == pre.entries[j]
            &&& post.entries[addr - 1].args@ == args
            &&& post.entries[addr - 1].mult == 1
        }
    }

    /// How one `load` call relates the table before and after: a valid address
    /// gains one multiplicity and nothing else moves; an unknown address
    /// leaves the table untouched.
    pub open spec fn load_rel(pre: MemTable, post: MemTable, addr: int, ok: bool) -> bool {
        &&& post.len == pre.len
        &&& if 1 <= addr <= pre.entries.len() {
            &&& ok
            &&& post.entries.len() == pre.entries.len()
            &&& forall|j: int|
                0 <= j < pre.entries.len() && j != addr - 1 ==> #[trigger] post.entries[j]
                    == pre.entries[j]
            &&& post.entries[addr - 1].args == pre.entries[addr - 1].args
            &&& post.entries[addr - 1].mult == pre.entries[addr - 1].mult + 1
        } else {
            &&& !ok
            &&& post == pre
        }
    }

    /// An empty table of the given arity.
    pub fn new(len: usize) -> (r: MemTable)
        ensures
            r.wf(),
            r.len == len,
            r.entries.len() == 0,
    {
        MemTable { len, entries: Vec::new() }
    }

    /// Finds the entry holding exactly this tuple, if any; with `wf`, that
    /// entry is unique.
    fn find(&self, args: &Vec<Fp>) -> (r: Option<usize>)
        ensures
            match r {
                Some(i) => i < self.entries.len() && self.entries[i as int].args@ == args@,
                None => !self.has(args@),
            },
    {
        let n = self.entries.len();
        let mut i: usize = 0;
        while i < n
            invariant
                i <= n,
                n == self.entries.len(),
                forall|j: int| 0 <= j < i ==> (#[trigger] self.entries[j]).args@ != args@,
            decreases n - i,
        {
            if args_eq(&self.entries[i].args, args) {
                return Some(i);
            }
            i += 1;
        }
        None
    }

    /// Stores a tuple: inserts-or-finds it, increments its multiplicity, and
    /// returns its (possibly pre-existing) 1-based address. Never fails for a
    /// tuple of the table's arity.
    pub fn store(&mut self, args: Vec<Fp>) -> (addr: usize)
        requires
            old(self).wf(),
            args.len() == old(self).len,
            old(self).entries.len() < MEM_CAP,
            forall|i: int|
                0 <= i < old(self).entries.len() ==> (#[trigger] old(self).entries[i]).mult
                    < u32::MAX,
        ensures
            final(self).wf(),
            MemTable::store_rel(*old(self), *final(self), args@, addr as int),
    {
        match self.find(&args) {
            Some(i) => {
                proof {
                    assert(old(self).entries[i as int].args@ == args@);
                    assert(old(self).has(args@));
                }
                let m = self.entries[i].mult;
                self.entries[i].mult = m + 1;
                i + 1
            },
            None => {
                self.entries.push(MemEntry { args, mult: 1 });
                self.entries.len()
            },
        }
    }

    /// Loads the tuple at a 1-based address, incrementing its multiplicity.
    /// An address never assigned by a store is a fatal caller bug, reported
    /// as `UnknownAddress`.
    pub fn load(&mut self, addr: usize) -> (out: Result<Vec<Fp>, MemError>)
        requires
            old(self).wf(),
            forall|i: int|
                0 <= i < old(self).entries.len() ==> (#[trigger] old(self).entries[i]).mult
                    < u32::MAX,
        ensures
            final(self).wf(),
            MemTable::load_rel(*old(self), *final(self), addr as int, out is Ok),
            match out {
                Ok(v) => Some(v@) == old(self).load_result(addr as int),
                Err(e) => e == MemError::UnknownAddress && old(self).load_result(
                    addr as int,
                ) is None,
            },
    {
        if 1 <= addr && addr <= self.entries.len() {
            let m = self.entries[addr - 1].mult;
            self.entries[addr - 1].mult = m + 1;
            let v = copy_args(&self.entries[addr - 1].args);
            Ok(v)
        } else {
            Err(MemError::UnknownAddress)
        }
    }
}

/// Compares two tuples of field elements by value.
fn args_eq(a: &Vec<Fp>, b: &Vec<Fp>) -> (r: bool)
    ensures
        r <==> a@ == b@,
{
    if a.len() != b.len() {
        proof {
            assert(a@.len() != b@.len());
        }
        return false;
    }
    let n = a.len();
    let mut i: usize = 0;
    while i < n
        invariant
            i <= n,
            n == a.len() == b.len(),
            forall|j: int| 0 <= j < i ==> a@[j] == b@[j],
        decreases n - i,
    {
        if !(a[i] == b[i]) {
            return false;
        }
        i += 1;
    }
    proof {
        assert(a@ =~= b@);
    }
    true
}

/// Copies a tuple of field elements.
fn copy_args(a: &Vec<Fp>) -> (r: Vec<Fp>)
    ensures
        r@ == a@,
{
    let mut r: Vec<Fp> = Vec::new();
    let n = a.len();
    let mut i: usize = 0;
    while i < n
        invariant
            i <= n,
            n == a.len(),
            r@ =~= a@.subrange(0, i as int),
        decreases n - i,
    {
        r.push(a[i]);
        i += 1;
    }
    proof {
        assert(r@ =~= a@);
    }
    r
}

/// The padded height of a memory trace holding `n` real entries: the next
/// power of two, with a floor of 4 so even a trivial execution leaves room
/// for the proof system's boundary constraints.
pub open spec fn mem_height(n: nat) -> nat {
    if npow2(n) < 4 {
        4
    } else {
        npow2(n)
    }
}

/// The entries of the record's table of arity `len`, empty if none appeared.
pub open spec fn entries_of(q: QueryRecord, len: int) -> Seq<MemEntry> {
    if q.has_table(len) {
        q.mem[q.table_idx(len)].entries@
    } else {
        Seq::empty()
    }
}

/// Every multiplicity in the table of arity `len` is a canonical field value.
pub open spec fn mem_mults_canonical(q: QueryRecord, len: int) -> bool {
    forall|e: int|
        0 <= e < entries_of(q, len).len() ==> (#[trigger] entries_of(q, len)[e]).mult < P
}

/// Cell `(i, j)` of the memory trace: the dense 1-based address, then the
/// multiplicity, then the stored tuple; padding rows keep the address running
/// and zero everything else.
pub open spec fn mem_cell(len: int, entries: Seq<MemEntry>, i: int, j: int) -> Fp {
    if j == 0 {
        fp(i + 1)
    } else if i < entries.len() {
        if j == 1 {
            fp(entries[i].mult as int)
        } else {
            entries[i].args@[j - 2]
        }
    } else {
        fp(0)
    }
}

/// The full row-major memory trace of the given height.
pub open spec fn mem_trace_values(len: int, entries: Seq<MemEntry>, height: int) -> Seq<Fp> {
    Seq::new(
        (height * (len + 2)) as nat,
        |k: int| mem_cell(len, entries, k / (len + 2), k % (len + 2)),
    )
}

/// Builds row `i` of the memory trace; a pure function of the row index and
/// the frozen table snapshot, so rows can be produced in any order.
pub(crate) fn mem_trace_row(len: usize, entries: &Vec<MemEntry>, i: usize) -> (r: Vec<Fp>)
    requires
        i < 0x4000_0000,
        len + 2 <= usize::MAX,
        forall|e: int| 0 <= e < entries.len() ==> (#[trigger] entries[e]).args.len() == len,
        forall|e: int| 0 <= e < entries.len() ==> (#[trigger] entries[e]).mult < P,
    ensures
        r.len() == len + 2,
        forall|j: int|
            0 <= j < len + 2 ==> #[trigger] r@[j] == mem_cell(len as int, entries@, i as int, j),
{
    let mut r: Vec<Fp> = Vec::new();
    r.push(Fp::from_u32((i as u32) + 1));
    if i < entries.len() {
        r.push(Fp::from_u32(entries[i].mult));
        let mut j: usize = 0;
        while j < len
            invariant
                j <= len,
                i < entries.len(),
                len + 2 <= usize::MAX,
                r.len() == 2 + j,
                forall|e: int| 0 <= e < entries.len() ==> (#[trigger] entries[e]).args.len() == len,
                r@[0] == fp(i as int + 1),
                r@[1] == fp(entries[i as int].mult as int),
                forall|c: int| 0 <= c < j ==> #[trigger] r@[c + 2] == entries[i as int].args@[c],
            decreases len - j,
        {
            r.push(entries[i].args[j]);
            j += 1;
        }
    } else {
        let mut j: usize = 0;
        while j < len + 1
            invariant
                j <= len + 1,
                len + 2 <= usize::MAX,
                r.len() == 1 + j,
                r@[0] == fp(i as int + 1),
                forall|c: int| 1 <= c < 1 + j ==> #[trigger] r@[c] == fp(0),
            decreases len + 1 - j,
        {
            r.push(Fp::zero());
            j += 1;
        }
    }
    proof {
        if i < entries.len() {
            assert forall|j: int| 0 <= j < len + 2 implies #[trigger] r@[j] == mem_cell(
                len as int,
                entries@,
                i as int,
                j,
            ) by {
                if j >= 2 {
                    assert(r@[(j - 2) + 2] == entries@[i as int].args@[j - 2]);
                }
            }
        }
    }
    r
}

/// Fills all rows of the memory trace in parallel, one chunk per row.
///
/// Relies on rayon's `par_chunks_mut` and `for_each`: the closure runs
/// exactly once on each `width`-sized chunk, with the chunk index, and each
/// chunk is written in place with the verified row builder's output.
#[verifier::external_body]
fn fill_rows_parallel(len: usize, entries: &Vec<MemEntry>, height: usize) -> (r: Vec<Fp>)
    requires
        height <= 0x4000_0000,
        len + 2 <= usize::MAX,
        (height * (len + 2)) <= usize::MAX,
        forall|e: int| 0 <= e < entries.len() ==> (#[trigger] entries[e]).args.len() == len,
        forall|e: int| 0 <= e < entries.len() ==> (#[trigger] entries[e]).mult < P,
    ensures
        r@ == mem_trace_values(len as int, entries@, height as int),
{
    let width = len + 2;
    let mut rows: Vec<Fp> = vec![Fp::zero(); height * width];
    rows.par_chunks_mut(width).enumerate().for_each(|(i, chunk)| {
        let row = mem_trace_row(len, entries, i);
        chunk.copy_from_slice(&row);
    });
    rows
}

/// The memory chip: lays the table of one arity out as a trace and states
/// the AIR constraints that pin its address column down.
pub struct MemChip {
    pub len: usize,
}

/// The memory chip's AIR: the address column starts at 1 and increases by
/// exactly 1 on every adjacent row pair. No other column is constrained by
/// this chip alone; multiplicities and values are checked by the global
/// lookup argument.
pub open spec fn mem_air_ok(t: Trace) -> bool {
    &&& t.spec_height() >= 1 ==> t.cell(0, 0) == fp(1)
    &&& forall|i: int|
        0 <= i < t.spec_height() - 1 ==> #[trigger] t.cell(i + 1, 0) == fp_add(t.cell(i, 0), fp(1))
}

impl MemChip {
    /// Pointer, multiplicity and arguments.
    pub fn width(&self) -> (r: usize)
        requires
            self.len <= usize::MAX - 2,
        ensures
            r == self.len + 2,
    {
        2 + self.len
    }

    /// Lays out the frozen table of arity `self.len` row by row: row `i` has
    /// address `i + 1`; real rows carry their entry's multiplicity and tuple,
    /// padding rows keep the address running and zero the rest.
    pub fn generate_trace(&self, queries: &QueryRecord) -> (t: Trace)
        requires
            queries.wf(),
            mem_mults_canonical(*queries, self.len as int),
            self.len + 2 <= usize::MAX,
            mem_height(entries_of(*queries, self.len as int).len()) * (self.len + 2) <= usize::MAX,
        ensures
            t.width == self.len + 2,
            t.values.len() == mem_height(entries_of(*queries, self.len as int).len()) * (self.len
                + 2),
            t.values@ == mem_trace_values(
                self.len as int,
                entries_of(*queries, self.len as int),
                mem_height(entries_of(*queries, self.len as int).len()) as int,
            ),
            forall|i: int|
                0 <= i < mem_height(entries_of(*queries, self.len as int).len()) ==> #[trigger] t.cell(
                    i,
                    0,
                ) == fp(i + 1),
    {
        let width = 2 + self.len;
        let empty: Vec<MemEntry> = Vec::new();
        let entries: &Vec<MemEntry> = match queries.table_pos(self.len) {
            Some(i) => &queries.mem[i].entries,
            None => &empty,
        };
        proof {
            assert(entries@ == entries_of(*queries, self.len as int));
        }
        let n = entries.len();
        proof {
            lemma_npow2_bounds(n as nat);
        }
        let p2 = next_pow2(n);
        let height: usize = if p2 < 4 {
            4
        } else {
            p2
        };
        let ghost hh = mem_height(entries_of(*queries, self.len as int).len()) as int;
        let mut values: Vec<Fp> = Vec::new();
        let mut i: usize = 0;
        while i < height
            invariant
                i <= height,
                width == self.len + 2,
                height as int == hh,
                hh == mem_height(entries@.len()) as int,
                hh <= 0x4000_0000,
                hh * width <= usize::MAX,
                n == entries.len(),
                n <= 0x2000_0000,
                forall|e: int| 0 <= e < entries.len() ==> (#[trigger] entries[e]).args.len()
                    == self.len,
                forall|e: int| 0 <= e < entries.len() ==> (#[trigger] entries[e]).mult < P,
                values.len() == i * width,
                forall|k: int|
                    0 <= k < i * width ==> #[trigger] values@[k] == mem_cell(
                        self.len as int,
                        entries@,
                        k / width as int,
                        k % width as int,
                    ),
            decreases height - i,
        {
            proof {
                assert((i + 1) * width == i * width + width) by (nonlinear_arith);
                assert(i as int * width <= hh * width && (i + 1) * width <= hh * width)
                    by (nonlinear_arith)
                    requires
                        (i as int) < hh,
                        width >= 1,
                ;
            }
            let mut row = mem_trace_row(self.len, entries, i);
            values.append(&mut row);
            proof {
                assert forall|k: int| i as int * width <= k < (i + 1) * width implies
                    #[trigger] values@[k] == mem_cell(
                    self.len as int,
                    entries@,
                    k / width as int,
                    k % width as int,
                ) by {
                    let j = k - i as int * width;
                    lemma_fundamental_div_mod_converse(k, width as int, i as int, j);
                }
            }
            i += 1;
        }
        proof {
            assert(values@ =~= mem_trace_values(self.len as int, entries@, hh));
        }
        let t = Trace { values, width };
        proof {
            assert forall|i: int| 0 <= i < hh implies #[trigger] t.cell(i, 0) == fp(i + 1) by {
                assert(i * width as int + 0 < hh * width as int && 0 <= i * width)
                    by (nonlinear_arith)
                    requires
                        0 <= i < hh,
                        width >= 2,
                ;
                lemma_fundamental_div_mod_converse(i * width as int, width as int, i, 0);
                assert(t.cell(i, 0) == t.values@[i * width as int]);
            }
        }
        t
    }

    /// The parallel trace generator: partitions rows into independent chunks
    /// over the same frozen snapshot and produces the identical matrix.
    pub fn generate_trace_parallel(&self, queries: &QueryRecord) -> (t: Trace)
        requires
            queries.wf(),
            mem_mults_canonical(*queries, self.len as int),
            self.len + 2 <= usize::MAX,
            mem_height(entries_of(*queries, self.len as int).len()) * (self.len + 2) <= usize::MAX,
        ensures
            t.width == self.len + 2,
            t.values@ == mem_trace_values(
                self.len as int,
                entries_of(*queries, self.len as int),
                mem_height(entries_of(*queries, self.len as int).len()) as int,
            ),
    {
        let width = 2 + self.len;
        let empty: Vec<MemEntry> = Vec::new();
        let entries: &Vec<MemEntry> = match queries.table_pos(self.len) {
            Some(i) => &queries.mem[i].entries,
            None => &empty,
        };
        proof {
            assert(entries@ == entries_of(*queries, self.len as int));
        }
        let n = entries.len();
        proof {
            lemma_npow2_bounds(n as nat);
        }
        let p2 = next_pow2(n);
        let height: usize = if p2 < 4 {
            4
        } else {
            p2
        };
        let values = fill_rows_parallel(self.len, entries, height);
        Trace { values, width }
    }

    /// Evaluates the memory chip's AIR on a concrete committed trace.
    pub fn eval(&self, t: &Trace) -> (ok: bool)
        requires
            t.width == self.len + 2,
        ensures
            ok == mem_air_ok(*t),
    {
        let h = t.height();
        if h == 0 {
            return true;
        }
        if !(t.get(0, 0) == Fp::from_u32(1)) {
            return false;
        }
        let mut i: usize = 0;
        while i < h - 1
            invariant
                t.width == self.len + 2,
                h == t.spec_height(),
                h >= 1,
                t.cell(0, 0) == fp(1),
                i <= h - 1,
                forall|j: int|
                    0 <= j < i ==> #[trigger] t.cell(j + 1, 0) == fp_add(t.cell(j, 0), fp(1)),
            decreases h - i,
        {
            if !(t.get(i + 1, 0) == t.get(i, 0).add(Fp::from_u32(1))) {
                return false;
            }
            i += 1;
        }
        true
    }
}

/// Sequential/parallel equivalence: the two trace generators are specified
/// by one and the same row-major value sequence, so for one frozen record
/// they produce identical matrices.
pub proof fn lemma_trace_generators_agree(
    len: int,
    entries: Seq<MemEntry>,
    height: int,
    s: Seq<Fp>,
    p: Seq<Fp>,
)
    requires
        s == mem_trace_values(len, entries, height),
        p == mem_trace_values(len, entries, height),
    ensures
        s == p,
{
}

/// Padding rows are unconstrained by design: the memory AIR reads only the
/// address column, so changing multiplicity or value cells (in particular on
/// a padding row) cannot make it reject. Such a mutation is caught only by
/// the global lookup argument, when the mutated row fails to match any
/// emitted require.
pub proof fn lemma_air_ignores_payload(t1: Trace, t2: Trace)
    requires
        t1.width == t2.width,
        t1.spec_height() == t2.spec_height(),
        forall|i: int| 0 <= i < t1.spec_height() ==> #[trigger] t1.cell(i, 0) == t2.cell(i, 0),
    ensures
        mem_air_ok(t1) == mem_air_ok(t2),
{
    if t1.spec_height() >= 1 {
        assert(t1.cell(0, 0) == t2.cell(0, 0));
    }
    if mem_air_ok(t1) {
        assert forall|i: int| 0 <= i < t2.spec_height() - 1 implies #[trigger] t2.cell(i + 1, 0)
            == fp_add(t2.cell(i, 0), fp(1)) by {
            assert(t1.cell(i + 1, 0) == fp_add(t1.cell(i, 0), fp(1)));
            assert(t1.cell(i, 0) == t2.cell(i, 0));
            assert(t1.cell(i + 1, 0) == t2.cell(i + 1, 0));
        }
        assert(mem_air_ok(t2));
    }
    if mem_air_ok(t2) {
        assert forall|i: int| 0 <= i < t1.spec_height() - 1 implies #[trigger] t1.cell(i + 1, 0)
            == fp_add(t1.cell(i, 0), fp(1)) by {
            assert(t2.cell(i + 1, 0) == fp_add(t2.cell(i, 0), fp(1)));
            assert(t1.cell(i, 0) == t2.cell(i, 0));
            assert(t1.cell(i + 1, 0) == t2.cell(i + 1, 0));
        }
        assert(mem_air_ok(t1));
    }
}

/// Memory round-trip: loading the address a store returned yields exactly the
/// stored tuple.
pub proof fn lemma_store_then_load(pre: MemTable, post: MemTable, args: Seq<Fp>, addr: int)
    requires
        pre.wf(),
        MemTable::store_rel(pre, post, args, addr),
    ensures
        post.load_result(addr) == Some(args),
{
}

/// Deduplication: storing the same tuple twice returns the same address both
/// times, creates no second entry, and raises that one entry's multiplicity
/// by exactly two.
pub proof fn lemma_store_dedup(
    t0: MemTable,
    t1: MemTable,
    t2: MemTable,
    args: Seq<Fp>,
    a1: int,
    a2: int,
)
    requires
        t0.wf(),
        t1.wf(),
        MemTable::store_rel(t0, t1, args, a1),
        MemTable::store_rel(t1, t2, args, a2),
    ensures
        a1 == a2,
        t2.entries.len() == t1.entries.len(),
        t2.entries[a1 - 1].mult == if t0.has(args) {
            t0.entries[a1 - 1].mult + 2
        } else {
            2
        },
{
    assert(t1.entries[a1 - 1].args@ == args);
    assert(t1.has(args));
    assert(t1.entries[a2 - 1].args@ == args);
    if a1 != a2 {
        let (i, j) = if a1 < a2 {
            (a1 - 1, a2 - 1)
        } else {
            (a2 - 1, a1 - 1)
        };
        assert(t1.entries[i].args@ != t1.entries[j].args@);
    }
}

/// One access to the tuple `args`: a store of it, or a load of an address
/// that holds it.
pub open spec fn access_step(pre: MemTable, post: MemTable, args: Seq<Fp>) -> bool {
    ||| exists|a: int| MemTable::store_rel(pre, post, args, a)
    ||| exists|a: int|
        pre.load_result(a) == Some(args) && MemTable::load_rel(pre, post, a, true)
}

/// A table stays well-formed when one entry's multiplicity moves and its
/// tuple and all other entries stay put.
proof fn lemma_wf_after_touch(pre: MemTable, post: MemTable, k: int)
    requires
        pre.wf(),
        1 <= k <= pre.entries.len(),
        post.len == pre.len,
        post.entries.len() == pre.entries.len(),
        forall|j: int|
            0 <= j < pre.entries.len() && j != k - 1 ==> #[trigger] post.entries[j]
                == pre.entries[j],
        post.entries[k - 1].args@ == pre.entries[k - 1].args@,
    ensures
        post.wf(),
{
    assert forall|i: int| 0 <= i < post.entries.len() implies (#[trigger] post.entries[i]).args.len()
        == post.len by {
        assert(post.entries[i].args@ == pre.entries[i].args@);
    }
    assert forall|i: int, j: int| 0 <= i < j < post.entries.len() implies (
    #[trigger] post.entries[i]).args@ != (#[trigger] post.entries[j]).args@ by {
        assert(post.entries[i].args@ == pre.entries[i].args@);
        assert(post.entries[j].args@ == pre.entries[j].args@);
    }
}

/// Along any run of accesses to one tuple already in the table, that tuple's
/// entry keeps its address and its value, gains exactly one multiplicity per
/// access, and every other entry is untouched.
proof fn lemma_access_chain(states: Seq<MemTable>, args: Seq<Fp>, k: int)
    requires
        states.len() >= 1,
        states[0].wf(),
        1 <= k <= states[0].entries.len(),
        states[0].entries[k - 1].args@ == args,
        forall|i: int|
            0 <= i < states.len() - 1 ==> #[trigger] access_step(states[i], states[i + 1], args),
    ensures
        states.last().wf(),
        states.last().entries.len() == states[0].entries.len(),
        states.last().entries[k - 1].args@ == args,
        states.last().entries[k - 1].mult == states[0].entries[k - 1].mult + states.len() - 1,
        forall|j: int|
            0 <= j < states[0].entries.len() && j != k - 1 ==> #[trigger] states.last().entries[j]
                == states[0].entries[j],
    decreases states.len(),
{
    if states.len() > 1 {
        let pre = states[0];
        let post = states[1];
        let i0: int = 0;
        assert(access_step(states[i0], states[i0 + 1], args));
        assert(access_step(pre, post, args));
        if exists|a: int| MemTable::store_rel(pre, post, args, a) {
            let a = choose|a: int| MemTable::store_rel(pre, post, args, a);
            assert(pre.has(args)) by {
                assert(pre.entries[k - 1].args@ == args);
            }
            assert(pre.entries[a - 1].args@ == args);
            if a != k {
                let (i, j) = if a < k {
                    (a - 1, k - 1)
                } else {
                    (k - 1, a - 1)
                };
                assert(pre.entries[i].args@ != pre.entries[j].args@);
            }
            lemma_wf_after_touch(pre, post, k);
        } else {
            let a = choose|a: int|
                pre.load_result(a) == Some(args) && MemTable::load_rel(pre, post, a, true);
            assert(pre.entries[a - 1].args@ == args);
            if a != k {
                let (i, j) = if a < k {
                    (a - 1, k - 1)
                } else {
                    (k - 1, a - 1)
                };
                assert(pre.entries[i].args@ != pre.entries[j].args@);
            }
            assert(post.entries[k - 1].args@ == pre.entries[k - 1].args@);
            lemma_wf_after_touch(pre, post, k);
        }
        let rest = states.drop_first();
        assert(rest[0] == post);
        assert forall|i: int| 0 <= i < rest.len() - 1 implies #[trigger] access_step(
            rest[i],
            rest[i + 1],
            args,
        ) by {
            assert(rest[i] == states[i + 1]);
            assert(rest[i + 1] == states[i + 2]);
            assert(access_step(states[i + 1], states[i + 2], args));
        }
        lemma_access_chain(rest, args, k);
        assert(rest.last() == states.last());
    }
}

/// Deduplication and multiplicity accounting, generalized: store a fresh
/// tuple once, then perform any further run of stores of the same tuple and
/// loads of its address — `s` stores and `l` loads in all. The table then
/// holds exactly one entry for the tuple, still at the address the first
/// store assigned (so a load of that address yields the tuple back), no
/// second address was ever created, and the entry's multiplicity is exactly
/// `s + l`: one per access.
pub proof fn lemma_store_load_accounting(states: Seq<MemTable>, args: Seq<Fp>)
    requires
        states.len() >= 2,
        states[0].wf(),
        args.len() == states[0].len,
        !states[0].has(args),
        states[0].entries.len() < MEM_CAP,
        MemTable::store_rel(states[0], states[1], args, states[0].entries.len() + 1),
        forall|i: int|
            1 <= i < states.len() - 1 ==> #[trigger] access_step(states[i], states[i + 1], args),
    ensures
        states.last().wf(),
        states.last().entries.len() == states[0].entries.len() + 1,
        states.last().load_result(states[0].entries.len() + 1) == Some(args),
        forall|j: int|
            0 <= j < states.last().entries.len() && j != states[0].entries.len() ==> (
            #[trigger] states.last().entries[j]).args@ != args,
        states.last().entries[states[0].entries.len() as int].mult == states.len() - 1,
{
    let pre = states[0];
    let s1 = states[1];
    let k = pre.entries.len() + 1;
    assert(s1.entries[k - 1].args@ == args && s1.entries[k - 1].mult == 1);
    assert(s1.wf()) by {
        assert forall|i: int| 0 <= i < s1.entries.len() implies (#[trigger] s1.entries[i]).args.len()
            == s1.len by {
            if i < k - 1 {
                assert(s1.entries[i] == pre.entries[i]);
            }
        }
        assert forall|i: int, j: int| 0 <= i < j < s1.entries.len() implies (
        #[trigger] s1.entries[i]).args@ != (#[trigger] s1.entries[j]).args@ by {
            if j < k - 1 {
                assert(s1.entries[i] == pre.entries[i]);
                assert(s1.entries[j] == pre.entries[j]);
            } else {
                assert(s1.entries[i] == pre.entries[i]);
                assert(pre.entries[i].args@ != args) by {
                    if pre.entries[i].args@ == args {
                        assert(pre.has(args));
                    }
                }
            }
        }
    }
    let rest = states.drop_first();
    assert(rest[0] == s1);
    assert forall|i: int| 0 <= i < rest.len() - 1 implies #[trigger] access_step(
        rest[i],
        rest[i + 1],
        args,
    ) by {
        assert(rest[i] == states[i + 1]);
        assert(rest[i + 1] == states[i + 2]);
        assert(access_step(states[i + 1], states[i + 2], args));
    }
    lemma_access_chain(rest, args, k);
    assert(rest.last() == states.last());
    assert forall|j: int|
        0 <= j < states.last().entries.len() && j != k - 1 implies (
    #[trigger] states.last().entries[j]).args@ != args by {
        let (lo, hi) = if j < k - 1 {
            (j, k - 1)
        } else {
            (k - 1, j)
        };
        assert(states.last().entries[lo].args@ != states.last().entries[hi].args@);
    }
}

/// The trace row of a stored tuple's address carries exactly that tuple:
/// its address column is the address itself and its value columns are the
/// tuple's elements, so reading the trace at a store's address replays the
/// round trip `load(store(t)) == t`.
pub proof fn lemma_trace_row_holds_tuple(len: int, entries: Seq<MemEntry>, k: int, args: Seq<Fp>)
    requires
        1 <= k <= entries.len(),
        entries[k - 1].args@ == args,
        args.len() == len,
    ensures
        mem_cell(len, entries, k - 1, 0) == fp(k),
        forall|j: int| 2 <= j < len + 2 ==> #[trigger] mem_cell(len, entries, k - 1, j) == args[j
            - 2],
{
}

} // verus!
