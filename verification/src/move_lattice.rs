//! The ownership lattice of the move checker: the state of one local or
//! field path, the join at control-flow merges, and the place-prefix order
//! that relates a moved field to the places it overlaps.

use vstd::prelude::*;
use crate::amir::{AmirPlace, AmirProjection};

verus! {

/// Whether a value is still owned on every path, moved on every path, or
/// moved on some paths only.
#[derive(Clone, Copy, Debug, PartialEq, Eq, Structural)]
pub enum LocalMoveState {
    Available,
    Moved,
    MaybeMoved,
}

pub open spec fn spec_join_move_state(left: LocalMoveState, right: LocalMoveState) -> LocalMoveState {
    if left == right {
        left
    } else {
        LocalMoveState::MaybeMoved
    }
}

/// The state after a merge of two paths: agreement is kept, disagreement
/// becomes `MaybeMoved`.
pub fn join_move_state(left: LocalMoveState, right: LocalMoveState) -> (r: LocalMoveState)
    ensures
        r == spec_join_move_state(left, right),
{
    if left == right {
        left
    } else {
        LocalMoveState::MaybeMoved
    }
}

/// The join of move states is commutative, idempotent and associative, so
/// the state at a merge does not depend on the order of its predecessors.
pub proof fn lemma_join_semilattice(a: LocalMoveState, b: LocalMoveState, c: LocalMoveState)
    ensures
        spec_join_move_state(a, b) == spec_join_move_state(b, a),
        spec_join_move_state(a, a) == a,
        spec_join_move_state(spec_join_move_state(a, b), c) == spec_join_move_state(a, spec_join_move_state(b, c)),
{
}

/// `MaybeMoved` absorbs every state.
pub proof fn lemma_join_maybe_moved_absorbs(a: LocalMoveState)
    ensures
        spec_join_move_state(a, LocalMoveState::MaybeMoved) == LocalMoveState::MaybeMoved,
{
}

/// `prefix` names `place` or a place that contains it.
pub open spec fn spec_place_is_prefix(prefix: AmirPlace, place: AmirPlace) -> bool {
    &&& prefix.local == place.local
    &&& prefix.projections@.len() <= place.projections@.len()
    &&& place.projections@.take(prefix.projections@.len() as int) == prefix.projections@
}

pub fn place_is_prefix(prefix: &AmirPlace, place: &AmirPlace) -> (b: bool)
    ensures
        b == spec_place_is_prefix(*prefix, *place),
{
    if prefix.local != place.local {
        return false;
    }
    let n = prefix.projections.len();
    if n > place.projections.len() {
        return false;
    }
    let mut i: usize = 0;
    while i < n
        invariant
            n == prefix.projections@.len(),
            n <= place.projections@.len(),
            i <= n,
            forall|k: int| 0 <= k < i ==> prefix.projections@[k] == place.projections@[k],
        decreases n - i,
    {
        if prefix.projections[i] != place.projections[i] {
            proof {
                assert(place.projections@.take(n as int)[i as int] != prefix.projections@[i as int]);
            }
            return false;
        }
        i = i + 1;
    }
    proof {
        assert(place.projections@.take(n as int) =~= prefix.projections@);
    }
    true
}

/// Two places overlap when one contains the other.
pub open spec fn spec_places_overlap(left: AmirPlace, right: AmirPlace) -> bool {
    spec_place_is_prefix(left, right) || spec_place_is_prefix(right, left)
}

pub fn places_overlap(left: &AmirPlace, right: &AmirPlace) -> (b: bool)
    ensures
        b == spec_places_overlap(*left, *right),
{
    place_is_prefix(left, right) || place_is_prefix(right, left)
}

/// The prefix relation on places is a partial order on their paths.
pub proof fn lemma_prefix_order(a: AmirPlace, b: AmirPlace, c: AmirPlace)
    ensures
        spec_place_is_prefix(a, a),
        spec_place_is_prefix(a, b) && spec_place_is_prefix(b, c) ==> spec_place_is_prefix(a, c),
        spec_place_is_prefix(a, b) && spec_place_is_prefix(b, a) ==> a.local == b.local && a.projections@
            == b.projections@,
{
    assert(a.projections@.take(a.projections@.len() as int) =~= a.projections@);
    if spec_place_is_prefix(a, b) && spec_place_is_prefix(b, c) {
        let na = a.projections@.len() as int;
        let nb = b.projections@.len() as int;
        assert(c.projections@.take(na) =~= c.projections@.take(nb).take(na));
        assert(b.projections@.take(na) == a.projections@);
    }
    if spec_place_is_prefix(a, b) && spec_place_is_prefix(b, a) {
        assert(b.projections@.take(b.projections@.len() as int) =~= b.projections@);
    }
}

/// Overlap is symmetric.
pub proof fn lemma_overlap_symmetric(a: AmirPlace, b: AmirPlace)
    ensures
        spec_places_overlap(a, b) == spec_places_overlap(b, a),
{
}

/// Every projection of the list is a named field.
pub open spec fn all_fields(projs: Seq<AmirProjection>) -> bool {
    forall|k: int| 0 <= k < projs.len() ==> (#[trigger] projs[k]) is Field
}

/// The place a move is recorded at: a non-empty path of named fields is
/// recorded as is; any other place (dynamic index, dereference) collapses to
/// its root local.
pub open spec fn tracked_projections(place: AmirPlace) -> Seq<AmirProjection> {
    if place.projections@.len() > 0 && all_fields(place.projections@) {
        place.projections@
    } else {
        Seq::empty()
    }
}

pub fn tracked_move_place(place: &AmirPlace) -> (r: AmirPlace)
    ensures
        r.local == place.local,
        r.projections@ == tracked_projections(*place),
{
    let n = place.projections.len();
    let mut fields_only = n > 0;
    let mut i: usize = 0;
    while i < n
        invariant
            n == place.projections@.len(),
            i <= n,
            fields_only == (n > 0 && forall|k: int| 0 <= k < i ==> (#[trigger] place.projections@[k]) is Field),
        decreases n - i,
    {
        match place.projections[i] {
            AmirProjection::Field(_) => {},
            _ => {
                fields_only = false;
            },
        }
        i = i + 1;
    }
    let mut projections: Vec<AmirProjection> = Vec::new();
    if fields_only {
        let mut j: usize = 0;
        while j < n
            invariant
                n == place.projections@.len(),
                j <= n,
                projections@ == place.projections@.take(j as int),
            decreases n - j,
        {
            projections.push(place.projections[j]);
            proof {
                assert(place.projections@.take(j + 1) == place.projections@.take(j as int).push(
                    place.projections@[j as int],
                ));
            }
            j = j + 1;
        }
        proof {
            assert(place.projections@.take(n as int) == place.projections@);
        }
    }
    AmirPlace { local: place.local, projections }
}

/// Recording is idempotent and never lengthens a path: the recorded place is
/// a prefix of the moved one.
pub proof fn lemma_tracked_prefix(place: AmirPlace, root_place: AmirPlace)
    requires
        root_place.local == place.local,
        root_place.projections@ == tracked_projections(place),
    ensures
        spec_place_is_prefix(root_place, place),
        tracked_projections(root_place) == root_place.projections@,
{
    assert(place.projections@.take(place.projections@.len() as int) =~= place.projections@);
    assert(place.projections@.take(0) =~= Seq::<AmirProjection>::empty());
}

} // verus!
