//! Short lists of statement ids held inline in a `smallvec::SmallVec`.

use vstd::prelude::*;
use smallvec::SmallVec;

verus! {

/// A list of statement ids stored inline up to two entries, behind a
/// private field; its contents are read through `instr_list_items`.
#[verifier::external_body]
pub struct InstrList {
    items: SmallVec<[usize; 2]>,
}

/// The statement ids a list holds, in order.
pub uninterp spec fn instr_list_items(v: InstrList) -> Seq<usize>;

/// An empty list (`SmallVec::new`).
#[verifier::external_body]
pub(crate) fn instr_list_new() -> (v: InstrList)
    ensures
        instr_list_items(v) == Seq::<usize>::empty(),
{
    InstrList { items: SmallVec::new() }
}

/// Appends `x` (`SmallVec::push`).  Growing the heap buffer panics with
/// "capacity overflow" only for lists far longer than the bound required
/// here.
#[verifier::external_body]
pub(crate) fn instr_list_push(v: &mut InstrList, x: usize)
    requires
        instr_list_items(*old(v)).len() <= usize::MAX / 32,
    ensures
        instr_list_items(*final(v)) == instr_list_items(*old(v)).push(x),
{
    v.items.push(x)
}

/// The number of ids (`SmallVec::len`).
#[verifier::external_body]
pub(crate) fn instr_list_len(v: &InstrList) -> (n: usize)
    ensures
        n == instr_list_items(*v).len(),
{
    v.items.len()
}

/// The id at position `i` (indexing through `SmallVec`'s slice view).
#[verifier::external_body]
pub(crate) fn instr_list_get(v: &InstrList, i: usize) -> (x: usize)
    requires
        i < instr_list_items(*v).len(),
    ensures
        x == instr_list_items(*v)[i as int],
{
    v.items[i]
}

} // verus!
