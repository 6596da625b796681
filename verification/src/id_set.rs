//! Dense sets of small ids (locals, temps), one flag per id.

use vstd::prelude::*;

verus! {

/// The ids below `k` whose flag is set.
pub open spec fn flagged(bits: Seq<bool>, k: int) -> Set<usize>
    decreases k,
{
    if k <= 0 {
        Set::empty()
    } else if bits[k - 1] {
        flagged(bits, k - 1).insert((k - 1) as usize)
    } else {
        flagged(bits, k - 1)
    }
}

/// Number of set flags below `k`.
pub open spec fn flag_count(bits: Seq<bool>, k: int) -> nat
    decreases k,
{
    if k <= 0 {
        0
    } else {
        flag_count(bits, k - 1) + if bits[k - 1] {
            1nat
        } else {
            0nat
        }
    }
}

pub proof fn lemma_flagged(bits: Seq<bool>, k: int)
    requires
        0 <= k <= bits.len(),
        bits.len() <= usize::MAX,
    ensures
        flagged(bits, k).finite(),
        flagged(bits, k).len() == flag_count(bits, k),
        forall|i: usize| #[trigger] flagged(bits, k).contains(i) <==> (i < k && bits[i as int]),
    decreases k,
{
    if k > 0 {
        lemma_flagged(bits, k - 1);
        assert(!flagged(bits, k - 1).contains((k - 1) as usize));
    }
}

/// A set of ids stored as one flag per id; ids beyond the flags are absent.
#[derive(Clone, Debug)]
pub struct IdSet {
    bits: Vec<bool>,
}

impl View for IdSet {
    type V = Set<usize>;

    closed spec fn view(&self) -> Set<usize> {
        flagged(self.bits@, self.bits@.len() as int)
    }
}

impl IdSet {
    /// An empty set with room for ids below `n`.
    pub fn with_capacity(n: usize) -> (s: IdSet)
        ensures
            s@ == Set::<usize>::empty(),
    {
        let mut bits: Vec<bool> = Vec::new();
        let mut i: usize = 0;
        while i < n
            invariant
                i <= n,
                bits@.len() == i,
                forall|k: int| 0 <= k < i ==> !#[trigger] bits@[k],
            decreases n - i,
        {
            bits.push(false);
            i = i + 1;
        }
        proof {
            lemma_flagged(bits@, bits@.len() as int);
            assert(flagged(bits@, bits@.len() as int) =~= Set::<usize>::empty());
        }
        IdSet { bits }
    }

    /// Whether `id` is in the set.
    pub fn contains(&self, id: usize) -> (b: bool)
        ensures
            b == self@.contains(id),
    {
        proof {
            assert(self.bits@.len() == self.bits.len());
            lemma_flagged(self.bits@, self.bits@.len() as int);
        }
        id < self.bits.len() && self.bits[id]
    }

    /// Adds `id` to the set.
    pub fn insert(&mut self, id: usize)
        requires
            id < usize::MAX,
        ensures
            final(self)@ == old(self)@.insert(id),
    {
        let ghost before = self.bits@;
        proof {
            assert(self.bits@.len() == self.bits.len());
        }
        while self.bits.len() <= id
            invariant
                self.bits@.len() >= before.len(),
                forall|k: int| 0 <= k < before.len() ==> #[trigger] self.bits@[k] == before[k],
                forall|k: int| before.len() <= k < self.bits@.len() ==> !#[trigger] self.bits@[k],
                id < usize::MAX,
            decreases id + 1 - self.bits@.len(),
        {
            self.bits.push(false);
        }
        self.bits.set(id, true);
        proof {
            assert(self.bits@.len() == self.bits.len());
            lemma_flagged(before, before.len() as int);
            lemma_flagged(self.bits@, self.bits@.len() as int);
            assert(self@ =~= flagged(before, before.len() as int).insert(id));
        }
    }

    /// Number of ids in the set.
    pub fn len(&self) -> (n: usize)
        ensures
            n == self@.len(),
    {
        let m = self.bits.len();
        let mut count: usize = 0;
        let mut i: usize = 0;
        while i < m
            invariant
                m == self.bits@.len(),
                i <= m,
                count == flag_count(self.bits@, i as int),
                count <= i,
            decreases m - i,
        {
            if self.bits[i] {
                count = count + 1;
            }
            i = i + 1;
        }
        proof {
            lemma_flagged(self.bits@, m as int);
        }
        count
    }
}

} // verus!
