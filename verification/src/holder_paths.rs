//! The holder-path algebra of the borrow facts: sets of structural paths
//! moved behind a prefix (a value stored into an aggregate or a place),
//! selected below a prefix (a field or element read back), and paths derived
//! from places and from exported borrow contracts.  A set of paths is held
//! as a list in which no path occurs twice.

use vstd::prelude::*;
use crate::amir::{AmirOperand, AmirPlace, AmirProjection, AmirRvalue, BlockId, BorrowPath, BorrowPathSegment, LocalId, TempId};
use crate::borrow_facts::{HolderPath, HolderProjection, Loan, LoanKind};
use crate::id_set::IdSet;

verus! {

/// The paths a list holds.
pub open spec fn paths_view(v: Seq<HolderPath>) -> Set<Seq<HolderProjection>> {
    Set::new(|q: Seq<HolderProjection>| exists|i: int| 0 <= i < v.len() && #[trigger] v[i].0@ == q)
}

/// No path occurs twice in the list.
pub open spec fn paths_distinct(v: Seq<HolderPath>) -> bool {
    forall|i: int, j: int| 0 <= i < j < v.len() ==> #[trigger] v[i].0@ != #[trigger] v[j].0@
}

/// Every path of `s`, behind `prefix`.
pub open spec fn prefixed(s: Set<Seq<HolderProjection>>, prefix: Seq<HolderProjection>) -> Set<
    Seq<HolderProjection>,
> {
    Set::new(
        |q: Seq<HolderProjection>|
            prefix.len() <= q.len() && q.take(prefix.len() as int) == prefix && s.contains(
                q.skip(prefix.len() as int),
            ),
    )
}

/// The paths of `s` that start with `prefix`, with the prefix removed.
pub open spec fn stripped(s: Set<Seq<HolderProjection>>, prefix: Seq<HolderProjection>) -> Set<
    Seq<HolderProjection>,
> {
    Set::new(|q: Seq<HolderProjection>| s.contains(prefix + q))
}

/// The first two steps of a path into payload slot `index` of variant `tag`.
pub open spec fn payload_head(tag: u32, index: u32) -> Seq<HolderProjection> {
    seq![HolderProjection::Variant(tag), HolderProjection::Payload(index)]
}

/// The rest of every path of `s` that starts with the payload slot `index`
/// of any variant.
pub open spec fn payload_selected(s: Set<Seq<HolderProjection>>, index: u32) -> Set<Seq<HolderProjection>> {
    Set::new(
        |q: Seq<HolderProjection>|
            exists|tag: u32|
                s.contains(#[trigger] payload_head(tag, index).add(q)),
    )
}

/// Whether two paths are equal.
fn same_path(a: &HolderPath, b: &HolderPath) -> (r: bool)
    ensures
        r == (a.0@ == b.0@),
{
    let n = a.0.len();
    if n != b.0.len() {
        return false;
    }
    let mut i: usize = 0;
    while i < n
        invariant
            n == a.0@.len(),
            n == b.0@.len(),
            i <= n,
            forall|k: int| 0 <= k < i ==> a.0@[k] == b.0@[k],
        decreases n - i,
    {
        if a.0[i] != b.0[i] {
            return false;
        }
        i = i + 1;
    }
    proof {
        assert(a.0@ =~= b.0@);
    }
    true
}

/// Whether `v` holds `p`.
fn holds_path(v: &Vec<HolderPath>, p: &HolderPath) -> (r: bool)
    ensures
        r == paths_view(v@).contains(p.0@),
{
    let n = v.len();
    let mut i: usize = 0;
    while i < n
        invariant
            n == v@.len(),
            i <= n,
            forall|k: int| 0 <= k < i ==> #[trigger] v@[k].0@ != p.0@,
        decreases n - i,
    {
        if same_path(&v[i], p) {
            return true;
        }
        i = i + 1;
    }
    false
}

/// Adds `p` to the set `v`.
fn insert_path(v: &mut Vec<HolderPath>, p: HolderPath)
    requires
        paths_distinct(old(v)@),
    ensures
        paths_distinct(final(v)@),
        paths_view(final(v)@) == paths_view(old(v)@).insert(p.0@),
{
    if !holds_path(v, &p) {
        let ghost before = v@;
        v.push(p);
        proof {
            assert forall|i: int, j: int| 0 <= i < j < v@.len() implies #[trigger] v@[i].0@ != #[trigger] v@[j].0@ by {
                if j == before.len() {
                    assert(v@[i] == before[i]);
                } else {
                    assert(v@[i] == before[i]);
                    assert(v@[j] == before[j]);
                }
            }
            assert forall|q: Seq<HolderProjection>| #[trigger] paths_view(v@).contains(q) == paths_view(before).insert(
                p.0@,
            ).contains(q) by {
                if paths_view(before).contains(q) {
                    let i = choose|i: int| 0 <= i < before.len() && #[trigger] before[i].0@ == q;
                    assert(v@[i] == before[i]);
                }
                if paths_view(v@).contains(q) {
                    let i = choose|i: int| 0 <= i < v@.len() && #[trigger] v@[i].0@ == q;
                    if i < before.len() {
                        assert(v@[i] == before[i]);
                    }
                }
                if q == p.0@ {
                    assert(v@[before.len() as int].0@ == q);
                }
            }
            assert(paths_view(v@) =~= paths_view(before).insert(p.0@));
        }
    } else {
        proof {
            assert(paths_view(v@) =~= paths_view(v@).insert(p.0@));
        }
    }
}

/// `prefix` followed by `path`.
fn concat_path(prefix: &HolderPath, path: &HolderPath) -> (r: HolderPath)
    ensures
        r.0@ == prefix.0@ + path.0@,
{
    let mut out: Vec<HolderProjection> = Vec::new();
    let n = prefix.0.len();
    let mut i: usize = 0;
    while i < n
        invariant
            n == prefix.0@.len(),
            i <= n,
            out@ == prefix.0@.take(i as int),
        decreases n - i,
    {
        out.push(prefix.0[i]);
        proof {
            assert(prefix.0@.take(i + 1) == prefix.0@.take(i as int).push(prefix.0@[i as int]));
        }
        i = i + 1;
    }
    let m = path.0.len();
    let mut j: usize = 0;
    while j < m
        invariant
            n == prefix.0@.len(),
            m == path.0@.len(),
            j <= m,
            out@ == prefix.0@ + path.0@.take(j as int),
        decreases m - j,
    {
        out.push(path.0[j]);
        proof {
            assert(path.0@.take(j + 1) == path.0@.take(j as int).push(path.0@[j as int]));
            assert(out@ =~= prefix.0@ + path.0@.take(j + 1));
        }
        j = j + 1;
    }
    proof {
        assert(prefix.0@.take(n as int) == prefix.0@);
        assert(path.0@.take(m as int) == path.0@);
    }
    HolderPath(out)
}

/// The steps of `path` from position `from` on.
fn path_suffix(path: &HolderPath, from: usize) -> (r: HolderPath)
    requires
        from <= path.0@.len(),
    ensures
        r.0@ == path.0@.skip(from as int),
{
    let mut out: Vec<HolderProjection> = Vec::new();
    let n = path.0.len();
    let mut i: usize = from;
    while i < n
        invariant
            n == path.0@.len(),
            from <= i <= n,
            out@ == path.0@.subrange(from as int, i as int),
        decreases n - i,
    {
        out.push(path.0[i]);
        proof {
            assert(out@ =~= path.0@.subrange(from as int, i + 1));
        }
        i = i + 1;
    }
    proof {
        assert(out@ =~= path.0@.skip(from as int));
    }
    HolderPath(out)
}

/// Whether `path` starts with `prefix`.
fn starts_with_path(path: &HolderPath, prefix: &HolderPath) -> (r: bool)
    ensures
        r == (prefix.0@.len() <= path.0@.len() && path.0@.take(prefix.0@.len() as int) == prefix.0@),
{
    let n = prefix.0.len();
    if n > path.0.len() {
        return false;
    }
    let mut i: usize = 0;
    while i < n
        invariant
            n == prefix.0@.len(),
            n <= path.0@.len(),
            i <= n,
            forall|k: int| 0 <= k < i ==> path.0@[k] == prefix.0@[k],
        decreases n - i,
    {
        if path.0[i] != prefix.0[i] {
            proof {
                assert(path.0@.take(n as int)[i as int] != prefix.0@[i as int]);
            }
            return false;
        }
        i = i + 1;
    }
    proof {
        assert(path.0@.take(n as int) =~= prefix.0@);
    }
    true
}

/// Every path of `input` behind `prefix`.
pub fn prefix_paths(input: &Vec<HolderPath>, prefix: &HolderPath) -> (out: Vec<HolderPath>)
    ensures
        paths_distinct(out@),
        paths_view(out@) == prefixed(paths_view(input@), prefix.0@),
{
    let ghost p = prefix.0@;
    let n = input.len();
    let mut out: Vec<HolderPath> = Vec::new();
    let mut i: usize = 0;
    proof {
        assert(paths_view(out@) =~= Set::<Seq<HolderProjection>>::empty());
    }
    while i < n
        invariant
            n == input@.len(),
            i <= n,
            p == prefix.0@,
            paths_distinct(out@),
            forall|q: Seq<HolderProjection>|
                #[trigger] paths_view(out@).contains(q) <==> exists|k: int| 0 <= k < i && q == p + #[trigger] input@[k].0@,
        decreases n - i,
    {
        let ghost before = out@;
        let item = concat_path(prefix, &input[i]);
        insert_path(&mut out, item);
        proof {
            assert forall|q: Seq<HolderProjection>|
                #[trigger] paths_view(out@).contains(q) <==> exists|k: int| 0 <= k < i + 1 && q == p + #[trigger] input@[k].0@ by {
                if paths_view(before).contains(q) {
                    let k = choose|k: int| 0 <= k < i && q == p + #[trigger] input@[k].0@;
                }
                if exists|k: int| 0 <= k < i + 1 && q == p + #[trigger] input@[k].0@ {
                    let k = choose|k: int| 0 <= k < i + 1 && q == p + #[trigger] input@[k].0@;
                    if k < i {
                        assert(paths_view(before).contains(q));
                    }
                }
            }
        }
        i = i + 1;
    }
    proof {
        assert forall|q: Seq<HolderProjection>| #[trigger] paths_view(out@).contains(q) == prefixed(
            paths_view(input@),
            p,
        ).contains(q) by {
            if paths_view(out@).contains(q) {
                let k = choose|k: int| 0 <= k < n && q == p + #[trigger] input@[k].0@;
                assert(q.take(p.len() as int) =~= p);
                assert(q.skip(p.len() as int) =~= input@[k].0@);
            }
            if prefixed(paths_view(input@), p).contains(q) {
                let k = choose|k: int| 0 <= k < input@.len() && #[trigger] input@[k].0@ == q.skip(p.len() as int);
                assert(q =~= p + input@[k].0@);
            }
        }
        assert(paths_view(out@) =~= prefixed(paths_view(input@), p));
    }
    out
}

/// The paths of `input` that start with `prefix`, with the prefix removed.
pub fn strip_paths(input: &Vec<HolderPath>, prefix: &HolderPath) -> (out: Vec<HolderPath>)
    ensures
        paths_distinct(out@),
        paths_view(out@) == stripped(paths_view(input@), prefix.0@),
{
    let ghost p = prefix.0@;
    let n = input.len();
    let plen = prefix.0.len();
    let mut out: Vec<HolderPath> = Vec::new();
    let mut i: usize = 0;
    proof {
        assert(paths_view(out@) =~= Set::<Seq<HolderProjection>>::empty());
    }
    while i < n
        invariant
            n == input@.len(),
            plen == p.len(),
            i <= n,
            p == prefix.0@,
            paths_distinct(out@),
            forall|q: Seq<HolderProjection>|
                #[trigger] paths_view(out@).contains(q) <==> exists|k: int| 0 <= k < i && #[trigger] input@[k].0@ == p + q,
        decreases n - i,
    {
        let ghost before = out@;
        if starts_with_path(&input[i], prefix) {
            let item = path_suffix(&input[i], plen);
            insert_path(&mut out, item);
            proof {
                let x = input@[i as int].0@;
                assert(x =~= p + x.skip(p.len() as int));
                assert forall|q: Seq<HolderProjection>|
                    #[trigger] paths_view(out@).contains(q) <==> exists|k: int| 0 <= k < i + 1 && #[trigger] input@[k].0@ == p + q by {
                    if exists|k: int| 0 <= k < i + 1 && #[trigger] input@[k].0@ == p + q {
                        let k = choose|k: int| 0 <= k < i + 1 && #[trigger] input@[k].0@ == p + q;
                        if k < i {
                            assert(paths_view(before).contains(q));
                        } else {
                            assert((p + q).skip(p.len() as int) =~= q);
                        }
                    }
                }
            }
        } else {
            proof {
                assert forall|q: Seq<HolderProjection>|
                    #[trigger] paths_view(out@).contains(q) <==> exists|k: int| 0 <= k < i + 1 && #[trigger] input@[k].0@ == p + q by {
                    if exists|k: int| 0 <= k < i + 1 && #[trigger] input@[k].0@ == p + q {
                        let k = choose|k: int| 0 <= k < i + 1 && #[trigger] input@[k].0@ == p + q;
                        if k == i {
                            assert((p + q).take(p.len() as int) =~= p);
                        }
                    }
                }
            }
        }
        i = i + 1;
    }
    proof {
        assert forall|q: Seq<HolderProjection>| #[trigger] paths_view(out@).contains(q) == stripped(
            paths_view(input@),
            p,
        ).contains(q) by {
            if stripped(paths_view(input@), p).contains(q) {
                let k = choose|k: int| 0 <= k < input@.len() && #[trigger] input@[k].0@ == p + q;
            }
        }
        assert(paths_view(out@) =~= stripped(paths_view(input@), p));
    }
    out
}

/// The rest of every path of `input` that starts with the payload slot
/// `index` of any variant.
pub fn strip_variant_payload(input: &Vec<HolderPath>, index: u32) -> (out: Vec<HolderPath>)
    ensures
        paths_distinct(out@),
        paths_view(out@) == payload_selected(paths_view(input@), index),
{
    let n = input.len();
    let mut out: Vec<HolderPath> = Vec::new();
    let mut i: usize = 0;
    proof {
        assert(paths_view(out@) =~= Set::<Seq<HolderProjection>>::empty());
    }
    while i < n
        invariant
            n == input@.len(),
            i <= n,
            paths_distinct(out@),
            forall|q: Seq<HolderProjection>|
                #[trigger] paths_view(out@).contains(q) <==> exists|k: int, tag: u32|
                    #![trigger input@[k], payload_head(tag, index)]
                    0 <= k < i && input@[k].0@ == payload_head(tag, index) + q,
        decreases n - i,
    {
        let ghost before = out@;
        let path = &input[i];
        let ghost x = path.0@;
        let selected = if path.0.len() >= 2 {
            match (path.0[0], path.0[1]) {
                (HolderProjection::Variant(_), HolderProjection::Payload(found)) => found == index,
                _ => false,
            }
        } else {
            false
        };
        if selected {
            let item = path_suffix(path, 2);
            insert_path(&mut out, item);
            proof {
                let tag0 = x[0]->Variant_0;
                assert(x =~= payload_head(tag0, index) + x.skip(2));
                assert forall|q: Seq<HolderProjection>|
                    #[trigger] paths_view(out@).contains(q) <==> exists|k: int, tag: u32|
                        #![trigger input@[k], payload_head(tag, index)]
                        0 <= k < i + 1 && input@[k].0@ == payload_head(tag, index) + q by {
                    if exists|k: int, tag: u32|
                        #![trigger input@[k], payload_head(tag, index)]
                        0 <= k < i + 1 && input@[k].0@ == payload_head(tag, index) + q {
                        let (k, tag) = choose|k: int, tag: u32|
                            #![trigger input@[k], payload_head(tag, index)]
                            0 <= k < i + 1 && input@[k].0@ == payload_head(tag, index) + q;
                        if k < i {
                            assert(paths_view(before).contains(q));
                        } else {
                            assert(q =~= x.skip(2));
                        }
                    }
                    if q == x.skip(2) {
                        assert(input@[i as int].0@ == payload_head(tag0, index) + q);
                    }
                }
            }
        } else {
            proof {
                assert forall|q: Seq<HolderProjection>|
                    #[trigger] paths_view(out@).contains(q) <==> exists|k: int, tag: u32|
                        #![trigger input@[k], payload_head(tag, index)]
                        0 <= k < i + 1 && input@[k].0@ == payload_head(tag, index) + q by {
                    if exists|k: int, tag: u32|
                        #![trigger input@[k], payload_head(tag, index)]
                        0 <= k < i + 1 && input@[k].0@ == payload_head(tag, index) + q {
                        let (k, tag) = choose|k: int, tag: u32|
                            #![trigger input@[k], payload_head(tag, index)]
                            0 <= k < i + 1 && input@[k].0@ == payload_head(tag, index) + q;
                        if k == i {
                            let y = payload_head(tag, index) + q;
                            assert(y[0] == HolderProjection::Variant(tag));
                            assert(y[1] == HolderProjection::Payload(index));
                        }
                    }
                }
            }
        }
        i = i + 1;
    }
    proof {
        assert forall|q: Seq<HolderProjection>| #[trigger] paths_view(out@).contains(q) == payload_selected(
            paths_view(input@),
            index,
        ).contains(q) by {
            if payload_selected(paths_view(input@), index).contains(q) {
                let tag = choose|tag: u32|
                    paths_view(input@).contains(
                        #[trigger] payload_head(tag, index).add(q),
                    );
                let k = choose|k: int|
                    0 <= k < input@.len() && input@[k].0@ == payload_head(tag, index) + q;
            }
            if paths_view(out@).contains(q) {
                let (k, tag) = choose|k: int, tag: u32|
                    #![trigger input@[k], payload_head(tag, index)]
                    0 <= k < n && input@[k].0@ == payload_head(tag, index) + q;
                assert(paths_view(input@).contains(
                    payload_head(tag, index) + q,
                ));
            }
        }
        assert(paths_view(out@) =~= payload_selected(paths_view(input@), index));
    }
    out
}

/// The holder step of a place projection: named fields keep their symbol,
/// index projections become `Element`.
pub open spec fn projection_step(p: AmirProjection) -> HolderProjection {
    match p {
        AmirProjection::Field(symbol) => HolderProjection::NamedField {
            file_id: symbol.file_id,
            local_id: symbol.local_id,
        },
        AmirProjection::Index(_) => HolderProjection::Element,
        AmirProjection::Deref => HolderProjection::Deref,
    }
}

/// The holder path of a place's projections.
pub fn place_path(place: &AmirPlace) -> (r: HolderPath)
    ensures
        r.0@ == place.projections@.map_values(|p: AmirProjection| projection_step(p)),
{
    let n = place.projections.len();
    let mut out: Vec<HolderProjection> = Vec::new();
    let mut i: usize = 0;
    while i < n
        invariant
            n == place.projections@.len(),
            i <= n,
            out@ == place.projections@.take(i as int).map_values(|p: AmirProjection| projection_step(p)),
        decreases n - i,
    {
        let step = match &place.projections[i] {
            AmirProjection::Field(symbol) => HolderProjection::NamedField {
                file_id: symbol.file_id,
                local_id: symbol.local_id,
            },
            AmirProjection::Index(_) => HolderProjection::Element,
            AmirProjection::Deref => HolderProjection::Deref,
        };
        out.push(step);
        proof {
            assert(out@ =~= place.projections@.take(i + 1).map_values(|p: AmirProjection| projection_step(p)));
        }
        i = i + 1;
    }
    proof {
        assert(place.projections@.take(n as int) == place.projections@);
    }
    HolderPath(out)
}

/// FNV-1a digest of a field name: exported contracts name fields, local
/// paths number them, and the digest keeps named paths distinct without
/// depending on any map order.
pub open spec fn field_digest(name: Seq<u8>) -> u32
    decreases name.len(),
{
    if name.len() == 0 {
        2166136261
    } else {
        vstd::wrapping::u32_specs::wrapping_mul(field_digest(name.drop_last()) ^ (name.last() as u32), 16777619)
    }
}

/// The holder step of a contract path segment.
pub open spec fn segment_step(s: BorrowPathSegment) -> HolderProjection {
    match s {
        BorrowPathSegment::Tuple(index) => HolderProjection::Slot(index),
        BorrowPathSegment::Payload(index) => HolderProjection::Payload(index),
        BorrowPathSegment::Field(name) => HolderProjection::NamedField { file_id: u32::MAX, local_id: field_digest(name@) },
        BorrowPathSegment::Variant(tag) => HolderProjection::Variant(tag),
        BorrowPathSegment::OptionSome => HolderProjection::OptionSome,
        BorrowPathSegment::ResultOk => HolderProjection::ResultOk,
        BorrowPathSegment::ResultErr => HolderProjection::ResultErr,
        BorrowPathSegment::ArrayElement => HolderProjection::Element,
        BorrowPathSegment::NullableValue => HolderProjection::NullableValue,
        BorrowPathSegment::CoroutinePayload => HolderProjection::CoroutinePayload,
        BorrowPathSegment::PollReady => HolderProjection::PollReady,
        BorrowPathSegment::RangeElement => HolderProjection::RangeElement,
    }
}

fn name_digest(name: &Vec<u8>) -> (d: u32)
    ensures
        d == field_digest(name@),
{
    let n = name.len();
    let mut digest: u32 = 2166136261;
    let mut i: usize = 0;
    while i < n
        invariant
            n == name@.len(),
            i <= n,
            digest == field_digest(name@.take(i as int)),
        decreases n - i,
    {
        proof {
            assert(name@.take(i + 1).drop_last() == name@.take(i as int));
            assert(name@.take(i + 1).last() == name@[i as int]);
        }
        digest = digest ^ (name[i] as u32);
        digest = digest.wrapping_mul(16777619);
        i = i + 1;
    }
    proof {
        assert(name@.take(n as int) == name@);
    }
    digest
}

/// The holder path of an exported borrow-contract path.
pub fn holder_path_from_contract(path: &BorrowPath) -> (r: HolderPath)
    ensures
        r.0@ == path.0@.map_values(|s: BorrowPathSegment| segment_step(s)),
{
    let n = path.0.len();
    let mut out: Vec<HolderProjection> = Vec::new();
    let mut i: usize = 0;
    while i < n
        invariant
            n == path.0@.len(),
            i <= n,
            out@ == path.0@.take(i as int).map_values(|s: BorrowPathSegment| segment_step(s)),
        decreases n - i,
    {
        let step = match &path.0[i] {
            BorrowPathSegment::Tuple(index) => HolderProjection::Slot(*index),
            BorrowPathSegment::Payload(index) => HolderProjection::Payload(*index),
            BorrowPathSegment::Field(name) => HolderProjection::NamedField {
                file_id: u32::MAX,
                local_id: name_digest(name),
            },
            BorrowPathSegment::Variant(tag) => HolderProjection::Variant(*tag),
            BorrowPathSegment::OptionSome => HolderProjection::OptionSome,
            BorrowPathSegment::ResultOk => HolderProjection::ResultOk,
            BorrowPathSegment::ResultErr => HolderProjection::ResultErr,
            BorrowPathSegment::ArrayElement => HolderProjection::Element,
            BorrowPathSegment::NullableValue => HolderProjection::NullableValue,
            BorrowPathSegment::CoroutinePayload => HolderProjection::CoroutinePayload,
            BorrowPathSegment::PollReady => HolderProjection::PollReady,
            BorrowPathSegment::RangeElement => HolderProjection::RangeElement,
        };
        out.push(step);
        proof {
            assert(out@ =~= path.0@.take(i + 1).map_values(|s: BorrowPathSegment| segment_step(s)));
        }
        i = i + 1;
    }
    proof {
        assert(path.0@.take(n as int) == path.0@);
    }
    HolderPath(out)
}

/// Reading a value back through the prefix it was stored under gives its
/// holder paths unchanged (a field read after an aggregate store, a load
/// after a store).
pub proof fn lemma_strip_prefixed(s: Set<Seq<HolderProjection>>, p: Seq<HolderProjection>)
    ensures
        stripped(prefixed(s, p), p) == s,
{
    assert forall|q: Seq<HolderProjection>| #[trigger] stripped(prefixed(s, p), p).contains(q) == s.contains(q) by {
        assert((p + q).take(p.len() as int) =~= p);
        assert((p + q).skip(p.len() as int) =~= q);
    }
    assert(stripped(prefixed(s, p), p) =~= s);
}

/// Storing behind `q` and then behind `p` is storing behind `p + q`.
pub proof fn lemma_prefix_twice(s: Set<Seq<HolderProjection>>, p: Seq<HolderProjection>, q: Seq<HolderProjection>)
    ensures
        prefixed(prefixed(s, q), p) == prefixed(s, p + q),
{
    let n = p.len() as int;
    let m = q.len() as int;
    let inner = prefixed(s, q);
    assert forall|x: Seq<HolderProjection>| #[trigger] prefixed(inner, p).contains(x) implies prefixed(
        s,
        p + q,
    ).contains(x) by {
        let y = x.skip(n);
        assert(x.take(n) == p);
        assert(inner.contains(y));
        assert(y.take(m) == q);
        assert(s.contains(y.skip(m)));
        assert(x.take(n + m) =~= p + q);
        assert(x.skip(n + m) =~= y.skip(m));
    }
    assert forall|x: Seq<HolderProjection>| #[trigger] prefixed(s, p + q).contains(x) implies prefixed(
        inner,
        p,
    ).contains(x) by {
        let y = x.skip(n);
        assert(x.take(n + m) == p + q);
        assert(x.take(n) =~= (p + q).take(n));
        assert((p + q).take(n) =~= p);
        assert(y.take(m) =~= x.take(n + m).skip(n));
        assert((p + q).skip(n) =~= q);
        assert(y.skip(m) =~= x.skip(n + m));
        assert(inner.contains(y));
    }
    assert(prefixed(inner, p) =~= prefixed(s, p + q));
}

/// Selecting below `p` and then below `q` is selecting below `p + q`.
pub proof fn lemma_strip_twice(s: Set<Seq<HolderProjection>>, p: Seq<HolderProjection>, q: Seq<HolderProjection>)
    ensures
        stripped(stripped(s, p), q) == stripped(s, p + q),
{
    assert forall|x: Seq<HolderProjection>| #[trigger] stripped(stripped(s, p), q).contains(x) == stripped(
        s,
        p + q,
    ).contains(x) by {
        assert(p + (q + x) =~= (p + q) + x);
    }
    assert(stripped(stripped(s, p), q) =~= stripped(s, p + q));
}

/// Storing what was selected below `p` behind `p` again gives only paths
/// that were there.
pub proof fn lemma_prefix_stripped_subset(s: Set<Seq<HolderProjection>>, p: Seq<HolderProjection>)
    ensures
        prefixed(stripped(s, p), p).subset_of(s),
{
    assert forall|x: Seq<HolderProjection>| prefixed(stripped(s, p), p).contains(x) implies s.contains(x) by {
        assert(x =~= p + x.skip(p.len() as int));
    }
}

/// An enum payload read at the slot a construction stored it in gives the
/// payload's holder paths unchanged.
pub proof fn lemma_payload_roundtrip(s: Set<Seq<HolderProjection>>, tag: u32, index: u32)
    ensures
        payload_selected(prefixed(s, payload_head(tag, index)), index) == s,
{
    let h = payload_head(tag, index);
    assert forall|q: Seq<HolderProjection>| #[trigger] payload_selected(prefixed(s, h), index).contains(q)
        == s.contains(q) by {
        if s.contains(q) {
            assert((h + q).take(2) =~= h);
            assert((h + q).skip(2) =~= q);
            assert(prefixed(s, h).contains(payload_head(tag, index).add(q)));
        }
        if payload_selected(prefixed(s, h), index).contains(q) {
            let t = choose|t: u32| prefixed(s, h).contains(#[trigger] payload_head(t, index).add(q));
            assert((payload_head(t, index) + q).skip(2) =~= q);
        }
    }
    assert(payload_selected(prefixed(s, h), index) =~= s);
}

// ---------------------------------------------------------------------------
// Holder paths of a loan
// ---------------------------------------------------------------------------

/// No path list of the loan holds a path twice.
pub open spec fn loan_wf(loan: Loan) -> bool {
    &&& forall|t: int| 0 <= t < loan.holder_temp_paths@.len() ==> paths_distinct(#[trigger] loan.holder_temp_paths@[t]@)
    &&& forall|l: int| 0 <= l < loan.holder_local_paths@.len() ==> paths_distinct(#[trigger] loan.holder_local_paths@[l]@)
}

/// The paths at which temp `t` holds the loan.
pub open spec fn temp_paths(loan: Loan, t: TempId) -> Set<Seq<HolderProjection>> {
    if t < loan.holder_temp_paths@.len() {
        paths_view(loan.holder_temp_paths@[t as int]@)
    } else {
        Set::empty()
    }
}

/// The paths at which local `l` holds the loan.
pub open spec fn local_paths(loan: Loan, l: LocalId) -> Set<Seq<HolderProjection>> {
    if l < loan.holder_local_paths@.len() {
        paths_view(loan.holder_local_paths@[l as int]@)
    } else {
        Set::empty()
    }
}

/// The paths at which the value `op` reads holds the loan.
pub open spec fn operand_paths(op: AmirOperand, loan: Loan) -> Set<Seq<HolderProjection>> {
    match crate::amir::operand_temp(op) {
        Some(t) => temp_paths(loan, t),
        None => Set::empty(),
    }
}

/// A copy of a path.
fn copy_holder_path(p: &HolderPath) -> (r: HolderPath)
    ensures
        r.0@ == p.0@,
{
    let r = path_suffix(p, 0);
    proof {
        assert(p.0@.skip(0) =~= p.0@);
    }
    r
}

/// A copy of a list of paths.
fn copy_paths(v: &Vec<HolderPath>) -> (r: Vec<HolderPath>)
    ensures
        paths_view(r@) == paths_view(v@),
        paths_distinct(v@) ==> paths_distinct(r@),
{
    let mut out: Vec<HolderPath> = Vec::new();
    let n = v.len();
    let mut i: usize = 0;
    while i < n
        invariant
            n == v@.len(),
            i <= n,
            out@.len() == i,
            forall|k: int| 0 <= k < i ==> #[trigger] out@[k].0@ == v@[k].0@,
        decreases n - i,
    {
        out.push(copy_holder_path(&v[i]));
        i = i + 1;
    }
    proof {
        assert forall|q: Seq<HolderProjection>| paths_view(out@).contains(q) <==> paths_view(v@).contains(q) by {
            if paths_view(out@).contains(q) {
                let k = choose|k: int| 0 <= k < out@.len() && #[trigger] out@[k].0@ == q;
                assert(v@[k].0@ == q);
            }
            if paths_view(v@).contains(q) {
                let k = choose|k: int| 0 <= k < v@.len() && #[trigger] v@[k].0@ == q;
                assert(out@[k].0@ == q);
            }
        }
        assert(paths_view(out@) =~= paths_view(v@));
        if paths_distinct(v@) {
            assert forall|a: int, b: int| 0 <= a < b < out@.len() implies #[trigger] out@[a].0@ != #[trigger] out@[b].0@ by {
                assert(v@[a].0@ != v@[b].0@);
            }
        }
    }
    out
}

/// Adds every path of `add` to the set `v`.
fn extend_paths(v: &mut Vec<HolderPath>, add: &Vec<HolderPath>)
    requires
        paths_distinct(old(v)@),
    ensures
        paths_distinct(final(v)@),
        paths_view(final(v)@) == paths_view(old(v)@) + paths_view(add@),
{
    let ghost v0 = v@;
    let n = add.len();
    let mut i: usize = 0;
    while i < n
        invariant
            n == add@.len(),
            i <= n,
            paths_distinct(v@),
            paths_view(v@) == paths_view(v0) + paths_view(add@.take(i as int)),
        decreases n - i,
    {
        let ghost before = v@;
        insert_path(v, copy_holder_path(&add[i]));
        proof {
            assert forall|q: Seq<HolderProjection>| paths_view(add@.take(i + 1)).contains(q) <==> paths_view(
                add@.take(i as int),
            ).insert(add@[i as int].0@).contains(q) by {
                if paths_view(add@.take(i + 1)).contains(q) {
                    let k = choose|k: int| 0 <= k < add@.take(i + 1).len() && #[trigger] add@.take(i + 1)[k].0@ == q;
                    if k < i {
                        assert(add@.take(i as int)[k] == add@.take(i + 1)[k]);
                    }
                }
                if paths_view(add@.take(i as int)).contains(q) {
                    let k = choose|k: int| 0 <= k < add@.take(i as int).len() && #[trigger] add@.take(i as int)[k].0@ == q;
                    assert(add@.take(i + 1)[k] == add@.take(i as int)[k]);
                }
                if q == add@[i as int].0@ {
                    assert(add@.take(i + 1)[i as int] == add@[i as int]);
                }
            }
            assert(paths_view(add@.take(i + 1)) =~= paths_view(add@.take(i as int)).insert(add@[i as int].0@));
            assert(paths_view(v@) =~= paths_view(v0) + paths_view(add@.take(i + 1)));
        }
        i = i + 1;
    }
    proof {
        assert(add@.take(n as int) =~= add@);
    }
}

/// The paths at which the value `op` reads holds the loan, as a list.
fn operand_holder_paths(op: AmirOperand, loan: &Loan) -> (r: Vec<HolderPath>)
    requires
        loan_wf(*loan),
    ensures
        paths_distinct(r@),
        paths_view(r@) == operand_paths(op, *loan),
{
    match op {
        AmirOperand::Copy(t) | AmirOperand::Move(t) => {
            if t < loan.holder_temp_paths.len() {
                copy_paths(&loan.holder_temp_paths[t])
            } else {
                proof {
                    assert(paths_view(Seq::<HolderPath>::empty()) =~= Set::empty());
                }
                Vec::new()
            }
        },
        _ => {
            proof {
                assert(paths_view(Seq::<HolderPath>::empty()) =~= Set::empty());
            }
            Vec::new()
        },
    }
}

/// The holder step an aggregate puts operand `i` behind: its slot, or the
/// element of an array.
pub open spec fn aggregate_step(slots: bool, i: u32) -> HolderProjection {
    if slots {
        HolderProjection::Slot(i)
    } else {
        HolderProjection::Element
    }
}

/// The paths at which an aggregate of `ops` holds the loan: those of each
/// operand behind its step (operands past position `u32::MAX` are not
/// tracked).
pub open spec fn aggregate_paths(ops: Seq<AmirOperand>, loan: Loan, slots: bool) -> Set<Seq<HolderProjection>> {
    Set::new(
        |q: Seq<HolderProjection>|
            exists|i: int|
                0 <= i < ops.len() && i <= u32::MAX && #[trigger] prefixed(
                    operand_paths(ops[i], loan),
                    seq![aggregate_step(slots, i as u32)],
                ).contains(q),
    )
}

/// The paths at which an aggregate of `ops` holds the loan, as a list.
fn aggregate_holder_paths(ops: &Vec<AmirOperand>, loan: &Loan, slots: bool) -> (r: Vec<HolderPath>)
    requires
        loan_wf(*loan),
    ensures
        paths_distinct(r@),
        paths_view(r@) == aggregate_paths(ops@, *loan, slots),
{
    let mut out: Vec<HolderPath> = Vec::new();
    let n = ops.len();
    let mut i: usize = 0;
    proof {
        assert(paths_view(out@) =~= Set::empty());
        assert(ops@.take(n as int) =~= ops@);
        assert(ops@.take(0) =~= Seq::<AmirOperand>::empty());
        assert(aggregate_paths(ops@.take(0), *loan, slots) =~= Set::empty());
    }
    while i < n
        invariant
            n == ops@.len(),
            ops@.take(n as int) == ops@,
            i <= n,
            loan_wf(*loan),
            paths_distinct(out@),
            paths_view(out@) == aggregate_paths(ops@.take(i as int), *loan, slots),
        ensures
            paths_distinct(out@),
            paths_view(out@) == aggregate_paths(ops@, *loan, slots),
        decreases n - i,
    {
        if i > 4294967295 {
            proof {
                assert forall|q: Seq<HolderProjection>| aggregate_paths(ops@, *loan, slots).contains(q) <==> aggregate_paths(
                    ops@.take(i as int),
                    *loan,
                    slots,
                ).contains(q) by {
                    if aggregate_paths(ops@, *loan, slots).contains(q) {
                        let k = choose|k: int|
                            0 <= k < ops@.len() && k <= u32::MAX && #[trigger] prefixed(
                                operand_paths(ops@[k], *loan),
                                seq![aggregate_step(slots, k as u32)],
                            ).contains(q);
                        assert(ops@.take(i as int)[k] == ops@[k]);
                    }
                    if aggregate_paths(ops@.take(i as int), *loan, slots).contains(q) {
                        let k = choose|k: int|
                            0 <= k < ops@.take(i as int).len() && k <= u32::MAX && #[trigger] prefixed(
                                operand_paths(ops@.take(i as int)[k], *loan),
                                seq![aggregate_step(slots, k as u32)],
                            ).contains(q);
                        assert(ops@.take(i as int)[k] == ops@[k]);
                    }
                }
                assert(aggregate_paths(ops@, *loan, slots) =~= aggregate_paths(ops@.take(i as int), *loan, slots));
            }
            break;
        }
        let step = if slots {
            HolderProjection::Slot(i as u32)
        } else {
            HolderProjection::Element
        };
        let prefix = HolderPath(vec![step]);
        proof {
            assert(prefix.0@ =~= seq![aggregate_step(slots, i as u32)]);
        }
        let o = operand_holder_paths(ops[i], loan);
        let pre = prefix_paths(&o, &prefix);
        let ghost before = out@;
        extend_paths(&mut out, &pre);
        proof {
            let a = aggregate_paths(ops@.take(i as int), *loan, slots);
            let b = aggregate_paths(ops@.take(i + 1), *loan, slots);
            let c = prefixed(operand_paths(ops@[i as int], *loan), seq![aggregate_step(slots, i as u32)]);
            assert forall|q: Seq<HolderProjection>| b.contains(q) <==> (a + c).contains(q) by {
                if b.contains(q) {
                    let k = choose|k: int|
                        0 <= k < ops@.take(i + 1).len() && k <= u32::MAX && #[trigger] prefixed(
                            operand_paths(ops@.take(i + 1)[k], *loan),
                            seq![aggregate_step(slots, k as u32)],
                        ).contains(q);
                    if k < i {
                        assert(ops@.take(i as int)[k] == ops@.take(i + 1)[k]);
                        assert(a.contains(q));
                    } else {
                        assert(ops@.take(i + 1)[k] == ops@[i as int]);
                    }
                }
                if a.contains(q) {
                    let k = choose|k: int|
                        0 <= k < ops@.take(i as int).len() && k <= u32::MAX && #[trigger] prefixed(
                            operand_paths(ops@.take(i as int)[k], *loan),
                            seq![aggregate_step(slots, k as u32)],
                        ).contains(q);
                    assert(ops@.take(i as int)[k] == ops@.take(i + 1)[k]);
                    assert(prefixed(operand_paths(ops@.take(i + 1)[k], *loan), seq![aggregate_step(slots, k as u32)]).contains(q));
                }
                if c.contains(q) {
                    assert(ops@.take(i + 1)[i as int] == ops@[i as int]);
                    assert(prefixed(
                        operand_paths(ops@.take(i + 1)[i as int], *loan),
                        seq![aggregate_step(slots, i as u32)],
                    ).contains(q));
                }
            }
            assert(b =~= a + c);
        }
        i = i + 1;
    }
    out
}

pub open spec fn clamp_index(x: usize) -> u32 {
    if x <= u32::MAX {
        x as u32
    } else {
        u32::MAX
    }
}

fn clamp_to_u32(x: usize) -> (r: u32)
    ensures
        r == clamp_index(x),
{
    if x <= 4294967295 {
        x as u32
    } else {
        4294967295
    }
}

/// The paths at which the value of `rhs` holds the loan: reads pass the
/// paths on, aggregates put them behind a slot or element, projections
/// select below one, a whole-local load selects below the place's path;
/// everything else holds nothing.
pub open spec fn rvalue_paths(rhs: AmirRvalue, loan: Loan) -> Set<Seq<HolderProjection>> {
    match rhs {
        AmirRvalue::Use(op) => operand_paths(op, loan),
        AmirRvalue::BlackBox { value, .. } => operand_paths(value, loan),
        AmirRvalue::SliceView { owner, .. } => operand_paths(owner, loan),
        AmirRvalue::StrView { owner } => operand_paths(owner, loan),
        AmirRvalue::SliceSubslice { slice, .. } => operand_paths(slice, loan),
        AmirRvalue::SliceData(slice) => operand_paths(slice, loan),
        AmirRvalue::StrBytes { source } => operand_paths(source, loan),
        AmirRvalue::Load(place) => stripped(
            local_paths(loan, place.local),
            place.projections@.map_values(|p: AmirProjection| projection_step(p)),
        ),
        AmirRvalue::Tuple { items } => aggregate_paths(items@, loan, true),
        AmirRvalue::Array { items } => aggregate_paths(items@, loan, false),
        AmirRvalue::StructLiteral { fields, .. } => aggregate_paths(
            fields@.map_values(|f: (Vec<u8>, AmirOperand)| f.1),
            loan,
            true,
        ),
        AmirRvalue::FieldAccess { base, field } => stripped(
            operand_paths(base, loan),
            seq![HolderProjection::Slot(clamp_index(field))],
        ),
        AmirRvalue::IndexAccess { base, .. } => stripped(operand_paths(base, loan), seq![HolderProjection::Element]),
        AmirRvalue::EnumConstruct { variant_tag, payload } => match payload {
            Some(p) => prefixed(operand_paths(p, loan), payload_head(clamp_index(variant_tag), 0)),
            None => Set::empty(),
        },
        AmirRvalue::EnumPayload { value, index, .. } => payload_selected(operand_paths(value, loan), clamp_index(index)),
        AmirRvalue::CoroutineReady { value, .. } => prefixed(
            operand_paths(value, loan),
            seq![HolderProjection::CoroutinePayload],
        ),
        _ => Set::empty(),
    }
}

fn no_paths() -> (r: Vec<HolderPath>)
    ensures
        paths_distinct(r@),
        paths_view(r@) == Set::<Seq<HolderProjection>>::empty(),
{
    let r: Vec<HolderPath> = Vec::new();
    proof {
        assert(paths_view(r@) =~= Set::empty());
    }
    r
}

/// The operands of a struct literal's fields.
fn field_operands(fields: &Vec<(Vec<u8>, AmirOperand)>) -> (r: Vec<AmirOperand>)
    ensures
        r@ == fields@.map_values(|f: (Vec<u8>, AmirOperand)| f.1),
{
    let mut out: Vec<AmirOperand> = Vec::new();
    let n = fields.len();
    let mut i: usize = 0;
    while i < n
        invariant
            n == fields@.len(),
            i <= n,
            out@.len() == i,
            forall|k: int| 0 <= k < i ==> #[trigger] out@[k] == fields@[k].1,
        decreases n - i,
    {
        out.push(fields[i].1);
        i = i + 1;
    }
    proof {
        assert(out@ =~= fields@.map_values(|f: (Vec<u8>, AmirOperand)| f.1));
    }
    out
}

/// The paths at which the value of `rhs` holds the loan, as a list.
pub fn rvalue_holder_paths(rhs: &AmirRvalue, loan: &Loan) -> (r: Vec<HolderPath>)
    requires
        loan_wf(*loan),
    ensures
        paths_distinct(r@),
        paths_view(r@) == rvalue_paths(*rhs, *loan),
{
    match rhs {
        AmirRvalue::Use(op) => operand_holder_paths(*op, loan),
        AmirRvalue::BlackBox { value, .. } => operand_holder_paths(*value, loan),
        AmirRvalue::SliceView { owner, .. } => operand_holder_paths(*owner, loan),
        AmirRvalue::StrView { owner } => operand_holder_paths(*owner, loan),
        AmirRvalue::SliceSubslice { slice, .. } => operand_holder_paths(*slice, loan),
        AmirRvalue::SliceData(slice) => operand_holder_paths(*slice, loan),
        AmirRvalue::StrBytes { source } => operand_holder_paths(*source, loan),
        AmirRvalue::Load(place) => {
            let pp = place_path(place);
            if place.local < loan.holder_local_paths.len() {
                strip_paths(&loan.holder_local_paths[place.local], &pp)
            } else {
                let none = no_paths();
                let r = strip_paths(&none, &pp);
                proof {
                    assert(stripped(Set::<Seq<HolderProjection>>::empty(), pp.0@) =~= Set::empty());
                }
                r
            }
        },
        AmirRvalue::Tuple { items } => aggregate_holder_paths(items, loan, true),
        AmirRvalue::Array { items } => aggregate_holder_paths(items, loan, false),
        AmirRvalue::StructLiteral { fields, .. } => {
            let ops = field_operands(fields);
            aggregate_holder_paths(&ops, loan, true)
        },
        AmirRvalue::FieldAccess { base, field } => {
            let o = operand_holder_paths(*base, loan);
            let prefix = HolderPath(vec![HolderProjection::Slot(clamp_to_u32(*field))]);
            proof {
                assert(prefix.0@ =~= seq![HolderProjection::Slot(clamp_index(*field))]);
            }
            strip_paths(&o, &prefix)
        },
        AmirRvalue::IndexAccess { base, .. } => {
            let o = operand_holder_paths(*base, loan);
            let prefix = HolderPath(vec![HolderProjection::Element]);
            proof {
                assert(prefix.0@ =~= seq![HolderProjection::Element]);
            }
            strip_paths(&o, &prefix)
        },
        AmirRvalue::EnumConstruct { variant_tag, payload } => match payload {
            Some(p) => {
                let o = operand_holder_paths(*p, loan);
                let prefix = HolderPath(
                    vec![HolderProjection::Variant(clamp_to_u32(*variant_tag)), HolderProjection::Payload(0)],
                );
                proof {
                    assert(prefix.0@ =~= payload_head(clamp_index(*variant_tag), 0));
                }
                prefix_paths(&o, &prefix)
            },
            None => no_paths(),
        },
        AmirRvalue::EnumPayload { value, index, .. } => {
            let o = operand_holder_paths(*value, loan);
            strip_variant_payload(&o, clamp_to_u32(*index))
        },
        AmirRvalue::CoroutineReady { value, .. } => {
            let o = operand_holder_paths(*value, loan);
            let prefix = HolderPath(vec![HolderProjection::CoroutinePayload]);
            proof {
                assert(prefix.0@ =~= seq![HolderProjection::CoroutinePayload]);
            }
            prefix_paths(&o, &prefix)
        },
        _ => no_paths(),
    }
}

/// Adds `paths` to the paths at which temp `temp` holds the loan and marks
/// the temp a holder when it holds any; reports whether a path was new.  A
/// temp beyond the table changes nothing.
pub fn merge_temp_paths(loan: &mut Loan, temp: TempId, paths: Vec<HolderPath>) -> (changed: bool)
    requires
        loan_wf(*old(loan)),
    ensures
        loan_wf(*final(loan)),
        final(loan).kind == old(loan).kind,
        final(loan).place_local == old(loan).place_local,
        final(loan).place_projections == old(loan).place_projections,
        final(loan).holder_locals == old(loan).holder_locals,
        final(loan).holder_local_paths == old(loan).holder_local_paths,
        final(loan).relative == old(loan).relative,
        final(loan).origin_block == old(loan).origin_block,
        final(loan).holder_temp_paths@.len() == old(loan).holder_temp_paths@.len(),
        forall|t: TempId| t != temp ==> #[trigger] temp_paths(*final(loan), t) == temp_paths(*old(loan), t),
        temp < old(loan).holder_temp_paths@.len() ==> {
            &&& temp_paths(*final(loan), temp) == temp_paths(*old(loan), temp) + paths_view(paths@)
            &&& changed == !paths_view(paths@).subset_of(temp_paths(*old(loan), temp))
            &&& final(loan).holder_temps@ == if temp_paths(*final(loan), temp).is_empty() {
                old(loan).holder_temps@
            } else {
                old(loan).holder_temps@.insert(temp)
            }
        },
        temp >= old(loan).holder_temp_paths@.len() ==> !changed && *final(loan) == *old(loan),
{
    let n = loan.holder_temp_paths.len();
    if temp >= n {
        return false;
    }
    let ghost before = loan.holder_temp_paths@;
    let ghost old_view = paths_view(before[temp as int]@);
    let old_len = loan.holder_temp_paths[temp].len();
    let mut target: Vec<HolderPath> = Vec::new();
    std::mem::swap(&mut target, &mut loan.holder_temp_paths[temp]);
    assert(paths_distinct(before[temp as int]@));
    extend_paths(&mut target, &paths);
    let new_len = target.len();
    let nonempty = new_len > 0;
    proof {
        if paths_view(paths@).subset_of(old_view) {
            assert(paths_view(target@) =~= old_view);
        }
        lemma_distinct_len(before[temp as int]@, target@, paths_view(paths@));
    }
    loan.holder_temp_paths.set(temp, target);
    if nonempty {
        loan.holder_temps.insert(temp);
    }
    proof {
        assert forall|t: TempId| t != temp implies #[trigger] temp_paths(*loan, t) == temp_paths(*old(loan), t) by {
            if t < n {
                assert(loan.holder_temp_paths@[t as int] == before[t as int]);
            }
        }
        assert forall|t: int| 0 <= t < loan.holder_temp_paths@.len() implies paths_distinct(
            #[trigger] loan.holder_temp_paths@[t]@,
        ) by {
            if t != temp {
                assert(loan.holder_temp_paths@[t] == before[t]);
            }
        }
        if temp_paths(*loan, temp).is_empty() {
            assert(!nonempty) by {
                if nonempty {
                    assert(paths_view(loan.holder_temp_paths@[temp as int]@).contains(
                        loan.holder_temp_paths@[temp as int]@[0].0@,
                    ));
                }
            }
        } else {
            assert(nonempty);
        }
    }
    new_len != old_len
}

/// Adds `paths` to the paths at which local `local` holds the loan and marks
/// the local a holder when it holds any; reports whether a path was new.  A
/// local beyond the table changes nothing.
pub fn merge_local_paths(loan: &mut Loan, local: LocalId, paths: Vec<HolderPath>) -> (changed: bool)
    requires
        loan_wf(*old(loan)),
    ensures
        loan_wf(*final(loan)),
        final(loan).kind == old(loan).kind,
        final(loan).place_local == old(loan).place_local,
        final(loan).place_projections == old(loan).place_projections,
        final(loan).holder_temps == old(loan).holder_temps,
        final(loan).holder_temp_paths == old(loan).holder_temp_paths,
        final(loan).relative == old(loan).relative,
        final(loan).origin_block == old(loan).origin_block,
        final(loan).holder_local_paths@.len() == old(loan).holder_local_paths@.len(),
        forall|t: LocalId| t != local ==> #[trigger] local_paths(*final(loan), t) == local_paths(*old(loan), t),
        local < old(loan).holder_local_paths@.len() ==> {
            &&& local_paths(*final(loan), local) == local_paths(*old(loan), local) + paths_view(paths@)
            &&& changed == !paths_view(paths@).subset_of(local_paths(*old(loan), local))
            &&& final(loan).holder_locals@ == if local_paths(*final(loan), local).is_empty() {
                old(loan).holder_locals@
            } else {
                old(loan).holder_locals@.insert(local)
            }
        },
        local >= old(loan).holder_local_paths@.len() ==> !changed && *final(loan) == *old(loan),
{
    let n = loan.holder_local_paths.len();
    if local >= n {
        return false;
    }
    let ghost before = loan.holder_local_paths@;
    let ghost old_view = paths_view(before[local as int]@);
    let old_len = loan.holder_local_paths[local].len();
    let mut target: Vec<HolderPath> = Vec::new();
    std::mem::swap(&mut target, &mut loan.holder_local_paths[local]);
    assert(paths_distinct(before[local as int]@));
    extend_paths(&mut target, &paths);
    let new_len = target.len();
    let nonempty = new_len > 0;
    proof {
        if paths_view(paths@).subset_of(old_view) {
            assert(paths_view(target@) =~= old_view);
        }
        lemma_distinct_len(before[local as int]@, target@, paths_view(paths@));
    }
    loan.holder_local_paths.set(local, target);
    if nonempty {
        loan.holder_locals.insert(local);
    }
    proof {
        assert forall|t: LocalId| t != local implies #[trigger] local_paths(*loan, t) == local_paths(*old(loan), t) by {
            if t < n {
                assert(loan.holder_local_paths@[t as int] == before[t as int]);
            }
        }
        assert forall|t: int| 0 <= t < loan.holder_local_paths@.len() implies paths_distinct(
            #[trigger] loan.holder_local_paths@[t]@,
        ) by {
            if t != local {
                assert(loan.holder_local_paths@[t] == before[t]);
            }
        }
        if local_paths(*loan, local).is_empty() {
            assert(!nonempty) by {
                if nonempty {
                    assert(paths_view(loan.holder_local_paths@[local as int]@).contains(
                        loan.holder_local_paths@[local as int]@[0].0@,
                    ));
                }
            }
        } else {
            assert(nonempty);
        }
    }
    new_len != old_len
}

/// Adding paths to a duplicate-free list changes its length exactly when
/// one of them is new.
proof fn lemma_distinct_len(a: Seq<HolderPath>, b: Seq<HolderPath>, add: Set<Seq<HolderProjection>>)
    requires
        paths_distinct(a),
        paths_distinct(b),
        paths_view(b) == paths_view(a) + add,
    ensures
        (b.len() != a.len()) == !add.subset_of(paths_view(a)),
{
    lemma_distinct_card(a);
    lemma_distinct_card(b);
    if add.subset_of(paths_view(a)) {
        assert(paths_view(b) =~= paths_view(a));
    } else {
        let x = choose|x: Seq<HolderProjection>| add.contains(x) && !paths_view(a).contains(x);
        assert(paths_view(a).subset_of(paths_view(b)));
        assert(paths_view(b).contains(x));
        lemma_finite_views(a);
        lemma_finite_views(b);
        vstd::set_lib::lemma_len_subset(paths_view(a).insert(x), paths_view(b));
    }
}

proof fn lemma_finite_views(a: Seq<HolderPath>)
    ensures
        paths_view(a).finite(),
{
    let f = |p: HolderPath| p.0@;
    let m = a.map_values(f);
    assert forall|q: Seq<HolderProjection>| paths_view(a).contains(q) <==> m.to_set().contains(q) by {
        if paths_view(a).contains(q) {
            let k = choose|k: int| 0 <= k < a.len() && #[trigger] a[k].0@ == q;
            assert(m[k] == q);
            assert(m.contains(q));
        }
        if m.to_set().contains(q) {
            assert(m.contains(q));
            let k = choose|k: int| 0 <= k < m.len() && m[k] == q;
            assert(a[k].0@ == q);
        }
    }
    assert(paths_view(a) =~= m.to_set());
    vstd::seq_lib::seq_to_set_is_finite(a.map_values(f));
}

/// A duplicate-free list holds as many paths as it has entries.
proof fn lemma_distinct_card(a: Seq<HolderPath>)
    requires
        paths_distinct(a),
    ensures
        paths_view(a).finite(),
        paths_view(a).len() == a.len(),
    decreases a.len(),
{
    lemma_finite_views(a);
    if a.len() > 0 {
        let front = a.drop_last();
        assert forall|i: int, j: int| 0 <= i < j < front.len() implies #[trigger] front[i].0@ != #[trigger] front[j].0@ by {
            assert(front[i] == a[i]);
            assert(front[j] == a[j]);
        }
        lemma_distinct_card(front);
        let x = a.last().0@;
        assert forall|q: Seq<HolderProjection>| paths_view(a).contains(q) <==> paths_view(front).insert(x).contains(q) by {
            if paths_view(a).contains(q) {
                let k = choose|k: int| 0 <= k < a.len() && #[trigger] a[k].0@ == q;
                if k < a.len() - 1 {
                    assert(front[k] == a[k]);
                }
            }
            if paths_view(front).contains(q) {
                let k = choose|k: int| 0 <= k < front.len() && #[trigger] front[k].0@ == q;
                assert(a[k] == front[k]);
            }
            if q == x {
                assert(a[a.len() - 1].0@ == q);
            }
        }
        assert(paths_view(a) =~= paths_view(front).insert(x));
        assert(!paths_view(front).contains(x)) by {
            if paths_view(front).contains(x) {
                let k = choose|k: int| 0 <= k < front.len() && #[trigger] front[k].0@ == x;
                assert(a[k].0@ != a[a.len() - 1].0@);
            }
        }
    } else {
        assert(paths_view(a) =~= Set::empty());
    }
}

/// A loan of `place` of the given kind, held at the root by `holder` only,
/// with empty path tables for `num_temps` temps and `num_locals` locals.
pub fn new_loan(
    kind: LoanKind,
    place: AmirPlace,
    holder: TempId,
    origin_block: BlockId,
    relative: bool,
    num_temps: usize,
    num_locals: usize,
) -> (loan: Loan)
    requires
        holder < usize::MAX,
    ensures
        loan_wf(loan),
        loan.kind == kind,
        loan.place_local == place.local,
        loan.place_projections@ == place.projections@,
        loan.holder_temps@ == Set::<usize>::empty().insert(holder),
        loan.holder_locals@ == Set::<usize>::empty(),
        loan.holder_temp_paths@.len() == num_temps,
        loan.holder_local_paths@.len() == num_locals,
        forall|t: TempId| #[trigger] temp_paths(loan, t) == if t == holder && holder < num_temps {
            Set::<Seq<HolderProjection>>::empty().insert(Seq::empty())
        } else {
            Set::empty()
        },
        forall|l: LocalId| #[trigger] local_paths(loan, l) == Set::<Seq<HolderProjection>>::empty(),
        loan.relative == relative,
        loan.origin_block == origin_block,
{
    let mut holder_temps = IdSet::with_capacity(num_temps);
    holder_temps.insert(holder);
    let mut holder_temp_paths: Vec<Vec<HolderPath>> = Vec::new();
    let mut k: usize = 0;
    while k < num_temps
        invariant
            k <= num_temps,
            holder_temp_paths@.len() == k,
            forall|j: int| 0 <= j < k ==> #[trigger] holder_temp_paths@[j]@.len() == (if j == holder {
                1int
            } else {
                0int
            }),
            forall|j: int| 0 <= j < k && j == holder ==> #[trigger] holder_temp_paths@[j]@[0].0@ == Seq::<
                HolderProjection,
            >::empty(),
        decreases num_temps - k,
    {
        if k == holder {
            holder_temp_paths.push(vec![HolderPath(Vec::new())]);
        } else {
            holder_temp_paths.push(Vec::new());
        }
        k = k + 1;
    }
    let mut holder_local_paths: Vec<Vec<HolderPath>> = Vec::new();
    let mut k: usize = 0;
    while k < num_locals
        invariant
            k <= num_locals,
            holder_local_paths@.len() == k,
            forall|j: int| 0 <= j < k ==> #[trigger] holder_local_paths@[j]@.len() == 0,
        decreases num_locals - k,
    {
        holder_local_paths.push(Vec::new());
        k = k + 1;
    }
    let loan = Loan {
        kind,
        place_local: place.local,
        place_projections: place.projections,
        holder_temps,
        holder_locals: IdSet::with_capacity(num_locals),
        holder_temp_paths,
        holder_local_paths,
        relative,
        origin_block,
    };
    proof {
        assert forall|t: TempId| #[trigger] temp_paths(loan, t) == if t == holder && holder < num_temps {
            Set::<Seq<HolderProjection>>::empty().insert(Seq::empty())
        } else {
            Set::empty()
        } by {
            if t < num_temps {
                let v = loan.holder_temp_paths@[t as int]@;
                if t == holder {
                    assert(paths_view(v) =~= Set::<Seq<HolderProjection>>::empty().insert(Seq::empty())) by {
                        assert(v[0].0@ == Seq::<HolderProjection>::empty());
                    }
                } else {
                    assert(paths_view(v) =~= Set::empty());
                }
            }
        }
        assert forall|l: LocalId| #[trigger] local_paths(loan, l) == Set::<Seq<HolderProjection>>::empty() by {
            if l < num_locals {
                assert(paths_view(loan.holder_local_paths@[l as int]@) =~= Set::empty());
            }
        }
        assert forall|t: int| 0 <= t < loan.holder_temp_paths@.len() implies paths_distinct(
            #[trigger] loan.holder_temp_paths@[t]@,
        ) by {}
        assert forall|l: int| 0 <= l < loan.holder_local_paths@.len() implies paths_distinct(
            #[trigger] loan.holder_local_paths@[l]@,
        ) by {}
    }
    loan
}


/// Reading a field or an element selects below it: the result holds the
/// loan at path `q` exactly when the base holds it at the field's slot (or
/// at an element) followed by `q`.
pub proof fn lemma_projection_read_paths(base: AmirOperand, field: usize, index: AmirOperand, loan: Loan)
    requires
        field <= u32::MAX,
    ensures
        forall|q: Seq<HolderProjection>|
            #[trigger] rvalue_paths(AmirRvalue::FieldAccess { base, field }, loan).contains(q) <==> operand_paths(
                base,
                loan,
            ).contains(seq![HolderProjection::Slot(field as u32)] + q),
        forall|q: Seq<HolderProjection>|
            #[trigger] rvalue_paths(AmirRvalue::IndexAccess { base, index }, loan).contains(q) <==> operand_paths(
                base,
                loan,
            ).contains(seq![HolderProjection::Element] + q),
{
}

/// Building an aggregate puts each part behind its step: a tuple's item `i`
/// behind slot `i`, an array's items behind an element, an enum payload
/// behind its variant and payload slot 0, a coroutine's value behind the
/// coroutine payload; a field or element read of what was put there gives
/// the part's paths back.
pub proof fn lemma_aggregate_then_read(op: AmirOperand, loan: Loan, tag: usize, q: Seq<HolderProjection>)
    requires
        tag <= u32::MAX,
    ensures
        rvalue_paths(
            AmirRvalue::EnumConstruct { variant_tag: tag, payload: Some(op) },
            loan,
        ).contains(seq![HolderProjection::Variant(tag as u32), HolderProjection::Payload(0)] + q) <==> operand_paths(
            op,
            loan,
        ).contains(q),
        rvalue_paths(AmirRvalue::CoroutineReady { value: op, payload_ty: 0, stack: true }, loan).contains(
            seq![HolderProjection::CoroutinePayload] + q,
        ) <==> operand_paths(op, loan).contains(q),
        stripped(prefixed(operand_paths(op, loan), seq![HolderProjection::Element]), seq![HolderProjection::Element])
            == operand_paths(op, loan),
{
    let pre = seq![HolderProjection::Variant(tag as u32), HolderProjection::Payload(0)];
    assert((pre + q).take(2) == pre);
    assert((pre + q).skip(2) == q);
    let cp = seq![HolderProjection::CoroutinePayload];
    assert((cp + q).take(1) == cp);
    assert((cp + q).skip(1) == q);
    let e = seq![HolderProjection::Element];
    assert forall|x: Seq<HolderProjection>| #[trigger] stripped(prefixed(operand_paths(op, loan), e), e).contains(x)
        <==> operand_paths(op, loan).contains(x) by {
        assert((e + x).take(1) == e);
        assert((e + x).skip(1) == x);
    }
    assert(stripped(prefixed(operand_paths(op, loan), e), e) =~= operand_paths(op, loan));
}

/// Views and plain uses pass the paths of what they read on unchanged.
pub proof fn lemma_views_pass_paths(op: AmirOperand, loan: Loan, start: AmirOperand, len: AmirOperand)
    ensures
        rvalue_paths(AmirRvalue::Use(op), loan) == operand_paths(op, loan),
        rvalue_paths(AmirRvalue::SliceView { owner: op, data: start, len }, loan) == operand_paths(op, loan),
        rvalue_paths(AmirRvalue::StrView { owner: op }, loan) == operand_paths(op, loan),
        rvalue_paths(AmirRvalue::SliceSubslice { slice: op, start, len }, loan) == operand_paths(op, loan),
        rvalue_paths(AmirRvalue::SliceData(op), loan) == operand_paths(op, loan),
        rvalue_paths(AmirRvalue::StrBytes { source: op }, loan) == operand_paths(op, loan),
{
}


/// Stripping a prefix undoes putting paths behind it, and putting what was
/// stripped back behind the prefix gives only paths that were there: a path
/// lies behind `prefix` exactly when it is `prefix` followed by one of the
/// original paths.
pub proof fn lemma_prefix_strip_inverse(s: Set<Seq<HolderProjection>>, prefix: Seq<HolderProjection>)
    ensures
        stripped(prefixed(s, prefix), prefix) == s,
        prefixed(stripped(s, prefix), prefix).subset_of(s),
        forall|r: Seq<HolderProjection>| #[trigger] prefixed(s, prefix).contains(prefix + r) <==> s.contains(r),
        forall|q: Seq<HolderProjection>|
            #[trigger] prefixed(s, prefix).contains(q) ==> exists|r: Seq<HolderProjection>| s.contains(r) && q == prefix
                + r,
{
    assert forall|r: Seq<HolderProjection>| #[trigger] stripped(prefixed(s, prefix), prefix).contains(r) <==> s.contains(
        r,
    ) by {
        assert((prefix + r).take(prefix.len() as int) == prefix);
        assert((prefix + r).skip(prefix.len() as int) == r);
    }
    assert(stripped(prefixed(s, prefix), prefix) =~= s);
    assert forall|q: Seq<HolderProjection>| #[trigger] prefixed(stripped(s, prefix), prefix).contains(q) implies s.contains(
        q,
    ) by {
        let r = q.skip(prefix.len() as int);
        assert(q == prefix + r) by {
            assert(q =~= q.take(prefix.len() as int) + r);
        }
    }
    assert forall|r: Seq<HolderProjection>| #[trigger] prefixed(s, prefix).contains(prefix + r) <==> s.contains(r) by {
        assert((prefix + r).take(prefix.len() as int) == prefix);
        assert((prefix + r).skip(prefix.len() as int) == r);
    }
    assert forall|q: Seq<HolderProjection>| #[trigger] prefixed(s, prefix).contains(q) implies exists|
        r: Seq<HolderProjection>,
    | s.contains(r) && q == prefix + r by {
        assert(prefix.len() <= q.len() && q.take(prefix.len() as int) == prefix && s.contains(q.skip(prefix.len() as int)));
        let r = q.skip(prefix.len() as int);
        assert(q =~= prefix + r);
        assert(s.contains(r) && q == prefix + r);
    }
}

/// Aggregates put each part's paths behind its step: tuple and struct item
/// `i` behind slot `i`, array items behind an element; reading the payload
/// of an enum value selects below its payload slot, whatever the variant;
/// loading a local selects below the place's path.
pub proof fn lemma_aggregate_paths(
    ops: Vec<AmirOperand>,
    i: int,
    loan: Loan,
    q: Seq<HolderProjection>,
    value: AmirOperand,
    variant: usize,
    index: usize,
    tag: u32,
    place: AmirPlace,
)
    requires
        0 <= i < ops@.len(),
        i <= u32::MAX,
        index <= u32::MAX,
    ensures
        operand_paths(ops@[i], loan).contains(q) ==> rvalue_paths(AmirRvalue::Tuple { items: ops }, loan).contains(
            seq![HolderProjection::Slot(i as u32)] + q,
        ),
        operand_paths(ops@[i], loan).contains(q) ==> rvalue_paths(AmirRvalue::Array { items: ops }, loan).contains(
            seq![HolderProjection::Element] + q,
        ),
        operand_paths(value, loan).contains(seq![HolderProjection::Variant(tag), HolderProjection::Payload(index as u32)] + q)
            ==> rvalue_paths(AmirRvalue::EnumPayload { value, variant, index }, loan).contains(q),
        local_paths(loan, place.local).contains(place.projections@.map_values(|p: AmirProjection| projection_step(p)) + q)
            ==> rvalue_paths(AmirRvalue::Load(place), loan).contains(q),
{
    let sl = seq![HolderProjection::Slot(i as u32)];
    assert((sl + q).take(1) == sl);
    assert((sl + q).skip(1) == q);
    assert(aggregate_step(true, i as u32) == HolderProjection::Slot(i as u32));
    if operand_paths(ops@[i], loan).contains(q) {
        assert(prefixed(operand_paths(ops@[i], loan), seq![aggregate_step(true, i as u32)]).contains(sl + q));
    }
    let el = seq![HolderProjection::Element];
    assert((el + q).take(1) == el);
    assert((el + q).skip(1) == q);
    if operand_paths(ops@[i], loan).contains(q) {
        assert(prefixed(operand_paths(ops@[i], loan), seq![aggregate_step(false, i as u32)]).contains(el + q));
    }
    let ph = payload_head(tag, index as u32);
    assert(ph == seq![HolderProjection::Variant(tag), HolderProjection::Payload(index as u32)]);
    assert(clamp_index(index) == index as u32);
}

} // verus!
