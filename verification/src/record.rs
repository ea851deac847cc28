//! The query record and the require/record halves of the lookup argument.
//!
//! A `QueryRecord` is the write-once ledger of one execution: one memory
//! table per arity that appeared, the multiplicity column of the shared
//! byte-range-check table, and the ordered log of chipset invocations. During
//! execution a chip that consults a shared table emits a `Record`; at
//! constraint time the same assertion reappears as a `RequireRecord` built
//! from committed columns. The two are linked by a caller-assigned nonce that
//! must never be reused within one proving unit.
use vstd::prelude::*;
use crate::field::Fp;
use crate::memory::{MemTable, MemError, MEM_CAP};
use crate::u64_chip::U64;

verus! {

/// An execution-time lookup assertion: row `index` of the target table was
/// consulted, under the given nonce, raising that row's multiplicity to
/// `count`.
#[derive(Clone, Copy, PartialEq, Eq, Structural, Debug)]
pub struct Record {
    pub index: u32,
    pub nonce: u32,
    pub count: u32,
}

/// The constraint-time counterpart of a `Record`, carried as committed
/// field-element columns.
#[derive(Clone, Copy, PartialEq, Eq, Structural, Debug)]
pub struct RequireRecord {
    pub index: Fp,
    pub nonce: Fp,
    pub count: Fp,
}

/// One logged chipset invocation: which operation ran, on which inputs, with
/// which outputs. Replayed by gadget trace generators after execution.
pub struct ChipCall {
    pub op: U64,
    pub input: Vec<Fp>,
    pub output: Vec<Fp>,
}

/// Byte-table multiplicities after consulting each byte of `bs` in order.
pub open spec fn bump_bytes(m: Seq<u32>, bs: Seq<u8>) -> Seq<u32>
    decreases bs.len(),
{
    if bs.len() == 0 {
        m
    } else {
        bump_bytes(m.update(bs[0] as int, (m[bs[0] as int] + 1) as u32), bs.drop_first())
    }
}

/// The records emitted by consulting each byte of `bs` in order, starting
/// from byte-table multiplicities `m`, all tagged with one nonce.
pub open spec fn records_for(m: Seq<u32>, bs: Seq<u8>, nonce: u32) -> Seq<Record>
    decreases bs.len(),
{
    if bs.len() == 0 {
        Seq::empty()
    } else {
        seq![
            Record { index: bs[0] as u32, nonce, count: (m[bs[0] as int] + 1) as u32 },
        ] + records_for(m.update(bs[0] as int, (m[bs[0] as int] + 1) as u32), bs.drop_first(), nonce)
    }
}

/// Consulting one more byte extends the multiset update on the right.
pub proof fn lemma_bump_snoc(m: Seq<u32>, bs: Seq<u8>, b: u8)
    requires
        m.len() == 256,
    ensures
        bump_bytes(m, bs.push(b)) == bump_bytes(m, bs).update(
            b as int,
            (bump_bytes(m, bs)[b as int] + 1) as u32,
        ),
    decreases bs.len(),
{
    if bs.len() == 0 {
        let s1 = bs.push(b);
        assert(s1[0] == b);
        assert(s1.drop_first() =~= Seq::<u8>::empty());
        let mu = m.update(b as int, (m[b as int] + 1) as u32);
        assert(bump_bytes(mu, s1.drop_first()) == mu);
        assert(bump_bytes(m, s1) == mu);
        assert(bump_bytes(m, bs) == m);
    } else {
        let m2 = m.update(bs[0] as int, (m[bs[0] as int] + 1) as u32);
        assert(bs.push(b).drop_first() =~= bs.drop_first().push(b));
        assert(bs.push(b)[0] == bs[0]);
        lemma_bump_snoc(m2, bs.drop_first(), b);
        assert(bump_bytes(m, bs.push(b)) == bump_bytes(m2, bs.drop_first().push(b)));
        assert(bump_bytes(m, bs) == bump_bytes(m2, bs.drop_first()));
    }
}

/// Consulting one more byte appends one record on the right.
pub proof fn lemma_records_snoc(m: Seq<u32>, bs: Seq<u8>, b: u8, nonce: u32)
    requires
        m.len() == 256,
    ensures
        records_for(m, bs.push(b), nonce) == records_for(m, bs, nonce).push(
            Record { index: b as u32, nonce, count: (bump_bytes(m, bs)[b as int] + 1) as u32 },
        ),
    decreases bs.len(),
{
    if bs.len() == 0 {
        let s1 = bs.push(b);
        assert(s1[0] == b);
        assert(s1.drop_first() =~= Seq::<u8>::empty());
        let mu = m.update(b as int, (m[b as int] + 1) as u32);
        let r0 = Record { index: b as u32, nonce, count: (m[b as int] + 1) as u32 };
        assert(records_for(mu, s1.drop_first(), nonce) == Seq::<Record>::empty());
        assert(records_for(m, s1, nonce) == seq![r0] + Seq::<Record>::empty());
        assert(records_for(m, bs, nonce) == Seq::<Record>::empty());
        assert(bump_bytes(m, bs) == m);
        assert(records_for(m, s1, nonce) =~= records_for(m, bs, nonce).push(r0));
    } else {
        let m2 = m.update(bs[0] as int, (m[bs[0] as int] + 1) as u32);
        let r0 = Record { index: bs[0] as u32, nonce, count: (m[bs[0] as int] + 1) as u32 };
        assert(bs.push(b).drop_first() =~= bs.drop_first().push(b));
        assert(bs.push(b)[0] == bs[0]);
        lemma_records_snoc(m2, bs.drop_first(), b, nonce);
        assert(bump_bytes(m, bs) == bump_bytes(m2, bs.drop_first()));
        assert(records_for(m, bs.push(b), nonce) == seq![r0] + records_for(
            m2,
            bs.drop_first().push(b),
            nonce,
        ));
        assert(records_for(m, bs, nonce) == seq![r0] + records_for(m2, bs.drop_first(), nonce));
        assert(records_for(m, bs.push(b), nonce) =~= records_for(m, bs, nonce).push(
            Record { index: b as u32, nonce, count: (bump_bytes(m, bs)[b as int] + 1) as u32 },
        ));
    }
}

/// Consulting a run of bytes keeps the table's width and raises each
/// multiplicity by at most the run's length.
pub proof fn lemma_bump_bounds(m: Seq<u32>, bs: Seq<u8>)
    requires
        m.len() == 256,
        forall|p: int| 0 <= p < 256 ==> #[trigger] m[p] + bs.len() <= u32::MAX,
    ensures
        bump_bytes(m, bs).len() == 256,
        forall|p: int|
            0 <= p < 256 ==> m[p] <= #[trigger] bump_bytes(m, bs)[p] <= m[p] + bs.len(),
    decreases bs.len(),
{
    if bs.len() > 0 {
        let m2 = m.update(bs[0] as int, (m[bs[0] as int] + 1) as u32);
        lemma_bump_bounds(m2, bs.drop_first());
    }
}

/// The ledger of one execution: per-arity memory tables, the byte-range
/// table's multiplicities, and the chipset invocation log.
pub struct QueryRecord {
    pub mem: Vec<MemTable>,
    pub bytes: Vec<u32>,
    pub calls: Vec<ChipCall>,
}

impl QueryRecord {
    /// Tables are well-formed with pairwise distinct arities, and the byte
    /// table has one multiplicity per byte value.
    pub open spec fn wf(self) -> bool {
        &&& self.bytes.len() == 256
        &&& forall|i: int| 0 <= i < self.mem.len() ==> (#[trigger] self.mem[i]).wf()
        &&& forall|i: int, j: int|
            0 <= i < j < self.mem.len() ==> (#[trigger] self.mem[i]).len != (
            #[trigger] self.mem[j]).len
    }

    /// A table of this arity exists.
    pub open spec fn has_table(self, len: int) -> bool {
        exists|i: int| 0 <= i < self.mem.len() && (#[trigger] self.mem[i]).len == len
    }

    /// The index of the table of this arity (unique under `wf`).
    pub open spec fn table_idx(self, len: int) -> int {
        choose|i: int| 0 <= i < self.mem.len() && (#[trigger] self.mem[i]).len == len
    }

    /// Headroom for one more operation: no multiplicity and no table is at
    /// its machine limit.
    pub open spec fn headroom(self) -> bool {
        &&& forall|i: int| 0 <= i < self.mem.len() ==> (#[trigger] self.mem[i]).entries.len() < MEM_CAP
        &&& forall|i: int, j: int|
            0 <= i < self.mem.len() && 0 <= j < self.mem[i].entries.len() ==> (
            #[trigger] self.mem[i].entries[j]).mult < u32::MAX
    }

    /// An empty record: no tables, no invocations, an untouched byte table.
    pub fn new() -> (r: QueryRecord)
        ensures
            r.wf(),
            r.mem.len() == 0,
            r.calls.len() == 0,
            r.bytes@ =~= Seq::new(256, |i: int| 0u32),
    {
        let mut bytes: Vec<u32> = Vec::new();
        let mut i: usize = 0;
        while i < 256
            invariant
                i <= 256,
                bytes@ =~= Seq::new(i as nat, |j: int| 0u32),
            decreases 256 - i,
        {
            bytes.push(0);
            i += 1;
        }
        QueryRecord { mem: Vec::new(), bytes, calls: Vec::new() }
    }

    /// Finds the position of the table of the given arity, if one exists.
    pub(crate) fn table_pos(&self, len: usize) -> (r: Option<usize>)
        requires
            self.wf(),
        ensures
            match r {
                Some(i) => i < self.mem.len() && self.mem[i as int].len == len && i as int
                    == self.table_idx(len as int),
                None => !self.has_table(len as int),
            },
    {
        let n = self.mem.len();
        let mut i: usize = 0;
        while i < n
            invariant
                i <= n,
                n == self.mem.len(),
                self.wf(),
                forall|j: int| 0 <= j < i ==> (#[trigger] self.mem[j]).len != len,
            decreases n - i,
        {
            if self.mem[i].len == len {
                proof {
                    let w = self.table_idx(len as int);
                    assert(self.has_table(len as int));
                    if w != i as int {
                        assert(self.mem[w].len == self.mem[i as int].len);
                    }
                }
                return Some(i);
            }
            i += 1;
        }
        None
    }

    /// Stores a tuple in the table of its arity, creating that table on first
    /// use; returns the tuple's 1-based address within that table.
    pub fn store(&mut self, args: Vec<Fp>) -> (addr: usize)
        requires
            old(self).wf(),
            old(self).headroom(),
            old(self).mem.len() < usize::MAX,
        ensures
            final(self).wf(),
            final(self).bytes == old(self).bytes,
            final(self).calls == old(self).calls,
            old(self).has_table(args@.len() as int) ==> {
                let t = old(self).table_idx(args@.len() as int);
                &&& final(self).mem.len() == old(self).mem.len()
                &&& forall|j: int|
                    0 <= j < old(self).mem.len() && j != t ==> #[trigger] final(self).mem[j]
                        == old(self).mem[j]
                &&& MemTable::store_rel(old(self).mem[t], final(self).mem[t], args@, addr as int)
            },
            !old(self).has_table(args@.len() as int) ==> {
                &&& final(self).mem.len() == old(self).mem.len() + 1
                &&& forall|j: int|
                    0 <= j < old(self).mem.len() ==> #[trigger] final(self).mem[j] == old(
                        self,
                    ).mem[j]
                &&& final(self).mem[old(self).mem.len() as int].len == args@.len()
                &&& final(self).mem[old(self).mem.len() as int].entries.len() == 1
                &&& final(self).mem[old(self).mem.len() as int].entries[0].args@ == args@
                &&& final(self).mem[old(self).mem.len() as int].entries[0].mult == 1
                &&& addr == 1
            },
    {
        let len = args.len();
        match self.table_pos(len) {
            Some(i) => {
                let addr = self.mem[i].store(args);
                addr
            },
            None => {
                let mut t = MemTable::new(len);
                let ghost empty = t;
                let addr = t.store(args);
                self.mem.push(t);
                proof {
                    assert(final(self).mem[old(self).mem.len() as int] == t);
                }
                addr
            },
        }
    }

    /// Loads the tuple at a 1-based address in the table of the given arity.
    /// An arity that never appeared, like an address never assigned, is a
    /// fatal caller bug reported as `UnknownAddress`.
    pub fn load(&mut self, len: usize, addr: usize) -> (out: Result<Vec<Fp>, MemError>)
        requires
            old(self).wf(),
            old(self).headroom(),
        ensures
            final(self).wf(),
            final(self).bytes == old(self).bytes,
            final(self).calls == old(self).calls,
            old(self).has_table(len as int) ==> {
                let t = old(self).table_idx(len as int);
                &&& final(self).mem.len() == old(self).mem.len()
                &&& forall|j: int|
                    0 <= j < old(self).mem.len() && j != t ==> #[trigger] final(self).mem[j]
                        == old(self).mem[j]
                &&& MemTable::load_rel(old(self).mem[t], final(self).mem[t], addr as int, out is Ok)
                &&& match out {
                    Ok(v) => Some(v@) == old(self).mem[t].load_result(addr as int),
                    Err(e) => e == MemError::UnknownAddress && old(self).mem[t].load_result(
                        addr as int,
                    ) is None,
                }
            },
            !old(self).has_table(len as int) ==> *final(self) == *old(self) && out == Err::<
                Vec<Fp>,
                MemError,
            >(MemError::UnknownAddress),
    {
        match self.table_pos(len) {
            Some(i) => self.mem[i].load(addr),
            None => Err(MemError::UnknownAddress),
        }
    }

    /// Appends one invocation to the chipset log. The log is written by the
    /// dispatcher that drives execution, never by a chipset's own `execute`:
    /// a chipset call mutates nothing but byte-range multiplicities and the
    /// requires vector.
    pub fn record_call(&mut self, op: U64, input: Vec<Fp>, output: Vec<Fp>)
        requires
            old(self).wf(),
        ensures
            final(self).wf(),
            final(self).mem == old(self).mem,
            final(self).bytes == old(self).bytes,
            final(self).calls.len() == old(self).calls.len() + 1,
            forall|j: int|
                0 <= j < old(self).calls.len() ==> #[trigger] final(self).calls[j] == old(
                    self,
                ).calls[j],
            final(self).calls[old(self).calls.len() as int].op == op,
            final(self).calls[old(self).calls.len() as int].input == input,
            final(self).calls[old(self).calls.len() as int].output == output,
    {
        self.calls.push(ChipCall { op, input, output });
    }

    /// Consults the byte-range-check table for one byte: raises that byte's
    /// multiplicity and emits the matching `Record` under the given nonce.
    pub fn require_byte(&mut self, b: u8, nonce: u32, reqs: &mut Vec<Record>) -> (count: u32)
        requires
            old(self).wf(),
            old(self).bytes[b as int] < u32::MAX,
        ensures
            final(self).wf(),
            final(self).mem == old(self).mem,
            final(self).calls == old(self).calls,
            final(self).bytes@ == old(self).bytes@.update(
                b as int,
                (old(self).bytes[b as int] + 1) as u32,
            ),
            final(reqs)@ == old(reqs)@.push(
                Record { index: b as u32, nonce, count: (old(self).bytes[b as int] + 1) as u32 },
            ),
            count == old(self).bytes[b as int] + 1,
    {
        let m = self.bytes[b as usize];
        self.bytes[b as usize] = m + 1;
        reqs.push(Record { index: b as u32, nonce, count: m + 1 });
        m + 1
    }
}

} // verus!
