//! Borrow facts: loan kinds, structural holder paths, per-point may-borrow
//! state and per-block summaries, and the path algebra that moves holder
//! paths through aggregates, places and borrow contracts.

use vstd::prelude::*;
use crate::amir::{AmirPlace, AmirProjection, BlockId, BorrowPath, BorrowPathSegment, LocalId};
use crate::id_set::IdSet;

verus! {

#[derive(Clone, Copy, Debug, PartialEq, Eq, Structural, Hash)]
pub enum LoanKind {
    Shared,
    Exclusive,
}

/// One step of a structural path inside a carrier value.
#[derive(Clone, Copy, Debug, PartialEq, Eq, Structural, PartialOrd, Ord, Hash)]
pub enum HolderProjection {
    Slot(u32),
    NamedField { file_id: u32, local_id: u32 },
    Element,
    Deref,
    Variant(u32),
    Payload(u32),
    OptionSome,
    ResultOk,
    ResultErr,
    NullableValue,
    CoroutinePayload,
    PollReady,
    RangeElement,
}

/// Stable structural location of a borrow inside a carrier value,
/// independent of source types.  The empty path denotes the complete value.
#[derive(Clone, Debug, PartialEq, Eq, PartialOrd, Ord, Hash, Default)]
pub struct HolderPath(pub Vec<HolderProjection>);

/// One loan opened by a borrow, with the temps and locals that hold the
/// reference and the structural paths at which each holds it (an empty list
/// means "not a holder").
pub struct Loan {
    pub kind: LoanKind,
    /// Root local of the borrowed place.
    pub place_local: LocalId,
    /// Projections of the borrowed place.
    pub place_projections: Vec<AmirProjection>,
    pub holder_temps: IdSet,
    pub holder_locals: IdSet,
    pub holder_temp_paths: Vec<Vec<HolderPath>>,
    pub holder_local_paths: Vec<Vec<HolderPath>>,
    /// Relative coroutine borrows survive state relocation; absolute ones
    /// do not.
    pub relative: bool,
    pub origin_block: BlockId,
}

/// Program point inside a function: block and statement index.  Index 0 is
/// the block entry; the statement count is just before the terminator.
#[derive(Clone, Copy, Debug, PartialEq, Eq, Structural, Hash)]
pub struct ProgramPoint {
    pub block: BlockId,
    pub stmt_index: usize,
}

/// May-borrowed state of all locals at one program point.
#[derive(Clone, Debug)]
pub struct BorrowState {
    pub shared: IdSet,
    pub exclusive: IdSet,
}

impl BorrowState {
    /// No local borrowed, with room for `num_locals` locals.
    pub fn new(num_locals: usize) -> (s: BorrowState)
        ensures
            s.shared@ == Set::<LocalId>::empty(),
            s.exclusive@ == Set::<LocalId>::empty(),
    {
        BorrowState { shared: IdSet::with_capacity(num_locals), exclusive: IdSet::with_capacity(num_locals) }
    }

    /// `local` may be under a shared loan.
    pub fn maybe_shared(&self, local: LocalId) -> (b: bool)
        ensures
            b == self.shared@.contains(local),
    {
        self.shared.contains(local)
    }

    /// `local` may be under an exclusive loan.
    pub fn maybe_exclusive(&self, local: LocalId) -> (b: bool)
        ensures
            b == self.exclusive@.contains(local),
    {
        self.exclusive.contains(local)
    }

    /// `local` may be under any loan.
    pub fn maybe_borrowed(&self, local: LocalId) -> (b: bool)
        ensures
            b == (self.shared@.contains(local) || self.exclusive@.contains(local)),
    {
        self.maybe_shared(local) || self.maybe_exclusive(local)
    }

    /// Opens a loan of `kind` on `place_local`.
    pub fn activate(&mut self, kind: LoanKind, place_local: LocalId)
        requires
            place_local < usize::MAX,
        ensures
            kind == LoanKind::Shared ==> final(self).shared@ == old(self).shared@.insert(place_local)
                && final(self).exclusive@ == old(self).exclusive@,
            kind == LoanKind::Exclusive ==> final(self).exclusive@ == old(self).exclusive@.insert(place_local)
                && final(self).shared@ == old(self).shared@,
    {
        match kind {
            LoanKind::Shared => self.shared.insert(place_local),
            LoanKind::Exclusive => self.exclusive.insert(place_local),
        }
    }
}

impl Default for BorrowState {
    fn default() -> (s: BorrowState)
        ensures
            s.shared@ == Set::<LocalId>::empty(),
            s.exclusive@ == Set::<LocalId>::empty(),
    {
        BorrowState::new(0)
    }
}

/// Compact per-block borrow summary for memoization.
#[derive(Clone, Copy, Debug, PartialEq, Eq, Structural)]
pub struct BlockBorrowSummary {
    pub shared_in: u32,
    pub exclusive_in: u32,
    pub borrow_sites: u32,
    /// Locals still may-borrowed at block exit.
    pub shared_out: u32,
    pub exclusive_out: u32,
}

/// The summary of one block from its entry and exit states and its number
/// of borrow sites (set sizes truncated to `u32`).
pub open spec fn summary_of(inn: BorrowState, out: BorrowState, sites: u32) -> BlockBorrowSummary {
    BlockBorrowSummary {
        shared_in: inn.shared@.len() as u32,
        exclusive_in: inn.exclusive@.len() as u32,
        borrow_sites: sites,
        shared_out: out.shared@.len() as u32,
        exclusive_out: out.exclusive@.len() as u32,
    }
}

/// Summaries for all blocks from the per-block entry states, exit states and
/// borrow-site counts of the borrow-fact analysis, one per block present in
/// all three.
pub fn block_borrow_summaries(
    block_in: &Vec<BorrowState>,
    block_out: &Vec<BorrowState>,
    borrow_site_counts: &Vec<u32>,
) -> (r: Vec<BlockBorrowSummary>)
    ensures
        r@.len() == vstd::math::min(
            vstd::math::min(block_in@.len() as int, block_out@.len() as int),
            borrow_site_counts@.len() as int,
        ),
        forall|i: int|
            0 <= i < r@.len() ==> #[trigger] r@[i] == summary_of(block_in@[i], block_out@[i], borrow_site_counts@[i]),
{
    let mut n = block_in.len();
    if block_out.len() < n {
        n = block_out.len();
    }
    if borrow_site_counts.len() < n {
        n = borrow_site_counts.len();
    }
    let mut r: Vec<BlockBorrowSummary> = Vec::new();
    let mut i: usize = 0;
    while i < n
        invariant
            n <= block_in@.len(),
            n <= block_out@.len(),
            n <= borrow_site_counts@.len(),
            i <= n,
            r@.len() == i,
            forall|k: int|
                0 <= k < i ==> #[trigger] r@[k] == summary_of(block_in@[k], block_out@[k], borrow_site_counts@[k]),
        decreases n - i,
    {
        let inn = &block_in[i];
        let out = &block_out[i];
        r.push(
            BlockBorrowSummary {
                shared_in: inn.shared.len() as u32,
                exclusive_in: inn.exclusive.len() as u32,
                borrow_sites: borrow_site_counts[i],
                shared_out: out.shared.len() as u32,
                exclusive_out: out.exclusive.len() as u32,
            },
        );
        i = i + 1;
    }
    r
}

} // verus!
