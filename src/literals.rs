//! Allocation of negative identifiers to literal occurrences.
use vstd::prelude::*;
use vstd::utf8::encode_utf8;
use crate::pgcode::{pg_encode, signed_decimal, write_decimal, write_pgencoded};

verus! {

/// The line `{id}\t{encoded text}\n` of the literals stream.
pub open spec fn literal_line(id: int, text: Seq<u8>) -> Seq<u8> {
    signed_decimal(id) + seq![9u8] + pg_encode(text) + seq![10u8]
}

/// The identifier of the `j`-th allocation (from `0`) after counter `last`,
/// whatever text each occurrence holds.
pub open spec fn lit_id_at(last: int, j: nat) -> int {
    -(last + j + 1)
}

/// Why a persisted minimum literal identifier cannot seed an allocator.
#[derive(Debug, Clone, Copy, PartialEq, Eq)]
pub enum LitSeedError {
    /// The minimum is positive, or its magnitude does not fit in an `i64`.
    OutOfRange,
}

/// Allocates a fresh negative identifier to each literal occurrence and
/// buffers the literals stream.
pub struct LitWriter {
    out: Vec<u8>,
    last: i64,
}

impl LitWriter {
    /// The magnitude of the last identifier allocated or seeded.
    pub closed spec fn counter(&self) -> int {
        self.last as int
    }

    /// The literals-stream bytes not yet taken.
    pub closed spec fn output(&self) -> Seq<u8> {
        self.out@
    }

    /// The counter never goes below zero.
    pub closed spec fn wf(&self) -> bool {
        self.last >= 0
    }

    /// An allocator whose first identifier is `-1`.
    pub fn create() -> (r: LitWriter)
        ensures
            r.wf(),
            r.counter() == 0,
            r.output() == Seq::<u8>::empty(),
    {
        LitWriter { out: Vec::new(), last: 0 }
    }

    /// Seeds the counter from the persisted minimum literal identifier
    /// (`0` for an empty store).
    pub fn load(&mut self, min: i64) -> (r: Result<(), LitSeedError>)
        requires
            old(self).wf(),
        ensures
            r is Ok <==> (min <= 0 && min != i64::MIN),
            r is Ok ==> final(self).counter() == -min,
            r is Err ==> final(self).counter() == old(self).counter(),
            final(self).wf(),
            final(self).output() == old(self).output(),
    {
        if min > 0 || min == i64::MIN {
            return Err(LitSeedError::OutOfRange);
        }
        self.last = -min;
        Ok(())
    }

    /// A fresh identifier for one occurrence of `lit`, written with its text
    /// to the literals stream. Equal texts get distinct identifiers.
    pub fn lit_id(&mut self, lit: &str) -> (r: i64)
        requires
            old(self).wf(),
            old(self).counter() < i64::MAX,
        ensures
            final(self).wf(),
            final(self).counter() == old(self).counter() + 1,
            r == -(old(self).counter() + 1),
            r < 0,
            final(self).output() == old(self).output() + literal_line(r as int, encode_utf8(lit@)),
    {
        let id = self.last + 1;
        self.last = id;
        let ghost pre = self.out@;
        write_decimal(&mut self.out, -id);
        self.out.push(9);
        write_pgencoded(&mut self.out, lit.as_bytes());
        self.out.push(10);
        assert(self.out@ =~= pre + literal_line(-id as int, encode_utf8(lit@)));
        -id
    }

    /// The magnitude of the last identifier allocated or seeded.
    pub fn counter_value(&self) -> (r: i64)
        ensures
            r as int == self.counter(),
    {
        self.last
    }

    /// Hands out the buffered literals-stream bytes, leaving the buffer empty.
    pub fn take_output(&mut self) -> (r: Vec<u8>)
        ensures
            r@ == old(self).output(),
            final(self).output() == Seq::<u8>::empty(),
            final(self).counter() == old(self).counter(),
            final(self).wf() == old(self).wf(),
    {
        let mut r: Vec<u8> = Vec::new();
        std::mem::swap(&mut r, &mut self.out);
        r
    }
}

/// After `j` allocations from counter `last` the counter is `last + j`, so the
/// next allocation returns `lit_id_at(last, j)`. Literal identifiers are
/// negative and strictly decreasing from `-(last + 1)`, so two occurrences
/// never share one, even of equal text.
pub proof fn lemma_literal_ids(last: int, j: nat, k: nat)
    requires
        0 <= last,
        j < k,
    ensures
        lit_id_at(last, 0) == -(last + 1),
        lit_id_at(last, k) < lit_id_at(last, j) < 0,
        lit_id_at(last, k) == lit_id_at(last, j) - (k - j),
        lit_id_at(last, j + 1) == -((last + j + 1) + 1),
{
}

impl LitWriter {
    /// A well-formed allocator's counter is never negative, so every
    /// identifier it hands out is negative.
    pub proof fn lemma_counter_nonneg(&self)
        requires
            self.wf(),
        ensures
            self.counter() >= 0,
    {
    }
}

} // verus!
