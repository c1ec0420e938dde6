//! The transposition table: results of earlier searches, found by position hash.

use vstd::prelude::*;

use crate::types::Move;

verus! {

/// How a stored score relates to the true score.
#[derive(Clone, Copy, PartialEq, Eq, Structural, Debug)]
pub enum Bound {
    /// The score is exact.
    Exact,
    /// The true score is at least the stored one.
    Lower,
    /// The true score is at most the stored one.
    Upper,
}

/// One stored result.
#[derive(Clone, Copy, PartialEq, Eq, Structural, Debug)]
pub struct TtEntry {
    pub key: u64,
    pub best_move: Move,
    pub score: i32,
    pub depth: i16,
    pub bound: Bound,
}

/// A table of stored results.  The hash of a position decides its slot, and a new
/// result replaces what its slot held.
pub struct TranspositionTable {
    pub slots: Vec<Option<TtEntry>>,
}

/// Slots for each megabyte.
pub const SLOTS_PER_MB: usize = 32768;

/// The slot of a hash in a table of `n` slots.
pub open spec fn slot_of(key: u64, n: int) -> int {
    key as int % n
}

/// What a table holds for a hash.
pub open spec fn found(slots: Seq<Option<TtEntry>>, key: u64) -> Option<TtEntry> {
    let e = slots[slot_of(key, slots.len() as int)];
    if e is Some && e->0.key == key {
        e
    } else {
        None
    }
}

/// The table after storing a result.
pub open spec fn stored(slots: Seq<Option<TtEntry>>, e: TtEntry) -> Seq<Option<TtEntry>> {
    slots.update(slot_of(e.key, slots.len() as int), Some(e))
}

/// A table of `n` empty slots.
pub open spec fn cleared(n: nat) -> Seq<Option<TtEntry>> {
    Seq::new(n, |i: int| None)
}

impl View for TranspositionTable {
    type V = Seq<Option<TtEntry>>;

    open spec fn view(&self) -> Seq<Option<TtEntry>> {
        self.slots@
    }
}

impl TranspositionTable {
    pub open spec fn wf(&self) -> bool {
        0 < self@.len()
    }

    /// An empty table of about `mb` megabytes, with one slot at least.
    pub fn new(mb: usize) -> (r: TranspositionTable)
        requires
            mb * SLOTS_PER_MB <= usize::MAX,
        ensures
            r.wf(),
            r@ == cleared(if mb == 0 {
                1
            } else {
                (mb * SLOTS_PER_MB) as nat
            }),
    {
        let n: usize = if mb == 0 {
            1
        } else {
            mb * SLOTS_PER_MB
        };
        let slots: Vec<Option<TtEntry>> = vec![None; n];
        let r = TranspositionTable { slots };
        assert(r@ =~= cleared(n as nat));
        r
    }

    /// Forget all results.
    pub fn clear(&mut self)
        requires
            old(self).wf(),
        ensures
            final(self).wf(),
            final(self)@ == cleared(old(self)@.len()),
    {
        let n: usize = self.slots.len();
        let mut i: usize = 0;
        while i < n
            invariant
                n == self.slots@.len(),
                n == old(self)@.len(),
                i <= n,
                forall|j: int| 0 <= j < i ==> self.slots@[j] is None,
            decreases n - i,
        {
            self.slots[i] = None;
            i = i + 1;
        }
        assert(self@ =~= cleared(n as nat));
    }

    /// The slot of a hash.
    fn slot(&self, key: u64) -> (r: usize)
        requires
            self.wf(),
        ensures
            r == slot_of(key, self@.len() as int),
            r < self@.len(),
    {
        (key % (self.slots.len() as u64)) as usize
    }

    /// The result stored for a hash, if there is one.
    pub fn probe(&self, key: u64) -> (r: Option<TtEntry>)
        requires
            self.wf(),
        ensures
            r == found(self@, key),
    {
        let i: usize = self.slot(key);
        match self.slots[i] {
            Some(e) => if e.key == key {
                Some(e)
            } else {
                None
            },
            None => None,
        }
    }

    /// Store a result.
    pub fn store(&mut self, key: u64, best_move: Move, score: i32, depth: i16, bound: Bound)
        requires
            old(self).wf(),
        ensures
            final(self).wf(),
            final(self)@ == stored(
                old(self)@,
                (TtEntry { key, best_move, score, depth, bound }),
            ),
    {
        let i: usize = self.slot(key);
        self.slots[i] = Some(TtEntry { key, best_move, score, depth, bound });
    }
}

/// What was stored last is found again.
pub proof fn law_stored_is_found(slots: Seq<Option<TtEntry>>, e: TtEntry)
    requires
        slots.len() > 0,
    ensures
        found(stored(slots, e), e.key) == Some(e),
{
    assert(0 <= slot_of(e.key, slots.len() as int) < slots.len());
}

/// Storing one result disturbs no result in another slot.
pub proof fn law_store_elsewhere(slots: Seq<Option<TtEntry>>, e: TtEntry, key: u64)
    requires
        slots.len() > 0,
        slot_of(e.key, slots.len() as int) != slot_of(key, slots.len() as int),
    ensures
        found(stored(slots, e), key) == found(slots, key),
{
}

/// A cleared table finds nothing.
pub proof fn law_cleared_finds_nothing(n: nat, key: u64)
    requires
        n > 0,
    ensures
        found(cleared(n), key) is None,
{
    assert(0 <= slot_of(key, n as int) < n);
}

} // verus!
