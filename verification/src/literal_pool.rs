//! The literal pool shared by the functions of a program: integer, float,
//! string and character literals referenced by `AmirConstant::Pool`.

use vstd::prelude::*;
use crate::amir::AmirConstant;

verus! {

#[derive(Clone, Debug, PartialEq)]
pub enum AmirLiteralEntry {
    Int(i128),
    Float(Vec<u8>),
    Str(Vec<u8>),
    Char(char),
}

#[derive(Clone, Debug)]
pub struct AmirLiteralPool {
    pub entries: Vec<AmirLiteralEntry>,
}

/// The value an entry holds when it is an integer literal.
pub open spec fn entry_int(e: AmirLiteralEntry) -> Option<i128> {
    match e {
        AmirLiteralEntry::Int(v) => Some(v),
        _ => None,
    }
}

/// The integer a constant stands for in `pool`, if it is an integer literal.
pub open spec fn const_int(c: AmirConstant, pool: Seq<AmirLiteralEntry>) -> Option<i128> {
    match c {
        AmirConstant::Pool(id) => if id < pool.len() {
            entry_int(pool[id as int])
        } else {
            None
        },
        _ => None,
    }
}

/// `new` keeps every entry of `old` at its index.
pub open spec fn pool_extends(old: Seq<AmirLiteralEntry>, new: Seq<AmirLiteralEntry>) -> bool {
    &&& old.len() <= new.len()
    &&& forall|i: int| 0 <= i < old.len() ==> #[trigger] new[i] == old[i]
}

/// `id` is the first entry of `pool` holding the integer `x`.
pub open spec fn is_first_int(pool: Seq<AmirLiteralEntry>, id: int, x: i128) -> bool {
    &&& 0 <= id < pool.len()
    &&& pool[id] == AmirLiteralEntry::Int(x)
    &&& forall|j: int| 0 <= j < id ==> pool[j] != AmirLiteralEntry::Int(x)
}

impl AmirLiteralPool {
    pub fn new() -> (p: AmirLiteralPool)
        ensures
            p.entries@.len() == 0,
    {
        AmirLiteralPool { entries: Vec::new() }
    }

    /// Returns the id of the first integer entry equal to `value`, adding
    /// one at the end when the pool has none.
    pub fn intern_int(&mut self, value: i128) -> (id: usize)
        ensures
            pool_extends(old(self).entries@, final(self).entries@),
            final(self).entries@.len() <= old(self).entries@.len() + 1,
            id < final(self).entries@.len(),
            final(self).entries@[id as int] == AmirLiteralEntry::Int(value),
            is_first_int(final(self).entries@, id as int, value),
            old(self).entries@.contains(AmirLiteralEntry::Int(value)) ==> final(self).entries@ == old(
                self,
            ).entries@,
            !old(self).entries@.contains(AmirLiteralEntry::Int(value)) ==> final(self).entries@ == old(
                self,
            ).entries@.push(AmirLiteralEntry::Int(value)),
    {
        let n = self.entries.len();
        let mut i: usize = 0;
        while i < n
            invariant
                n == self.entries@.len(),
                self.entries@ == old(self).entries@,
                i <= n,
                forall|j: int| 0 <= j < i ==> self.entries@[j] != AmirLiteralEntry::Int(value),
            decreases n - i,
        {
            match &self.entries[i] {
                AmirLiteralEntry::Int(v) => {
                    if *v == value {
                        proof {
                            assert(self.entries@[i as int] == AmirLiteralEntry::Int(value));
                            assert(self.entries@.contains(AmirLiteralEntry::Int(value)));
                        }
                        return i;
                    }
                },
                _ => {},
            }
            i = i + 1;
        }
        proof {
            if old(self).entries@.contains(AmirLiteralEntry::Int(value)) {
                let j = choose|j: int| 0 <= j < n && old(self).entries@[j] == AmirLiteralEntry::Int(value);
                assert(self.entries@[j] == AmirLiteralEntry::Int(value));
            }
        }
        self.entries.push(AmirLiteralEntry::Int(value));
        n
    }

    /// The entry with id `id`.
    pub fn get(&self, id: usize) -> (e: &AmirLiteralEntry)
        requires
            id < self.entries@.len(),
        ensures
            *e == self.entries@[id as int],
    {
        &self.entries[id]
    }

    /// The integer value of a pool constant, `None` for every other constant.
    pub fn const_as_i128(&self, c: &AmirConstant) -> (r: Option<i128>)
        ensures
            r == const_int(*c, self.entries@),
    {
        match c {
            AmirConstant::Pool(id) => {
                if *id < self.entries.len() {
                    match &self.entries[*id] {
                        AmirLiteralEntry::Int(v) => Some(*v),
                        _ => None,
                    }
                } else {
                    None
                }
            },
            _ => None,
        }
    }
}

impl Default for AmirLiteralPool {
    fn default() -> (p: AmirLiteralPool)
        ensures
            p.entries@.len() == 0,
    {
        AmirLiteralPool::new()
    }
}

/// Interning never changes the integer value of a constant that was already
/// in the pool.
pub proof fn lemma_const_int_stable(
    c: AmirConstant,
    old: Seq<AmirLiteralEntry>,
    new: Seq<AmirLiteralEntry>,
)
    requires
        pool_extends(old, new),
        const_int(c, old) is Some,
    ensures
        const_int(c, new) == const_int(c, old),
{
}

} // verus!
