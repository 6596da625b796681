//! Origin maps of the borrow-interface analysis: for each structural path
//! of a value, the formal sources (a parameter and a path inside it) the
//! value may borrow from, and how they flow through operands, aggregates,
//! projections, statements (with the type checker's answers as plain
//! tables) and block arguments.

use vstd::prelude::*;
use crate::amir::{
    copy_path,
    copy_bytes, LocalId, TypeId, ReturnBorrowSummary, ReturnBorrowDependency, AmirStmt, AmirRvalue,
    AmirFunc, AmirOperand, AmirTerminator, BlockId, BlockParam, BorrowPath, BorrowPathSegment, BorrowSource,
    SwitchTarget, SymbolId, TempId, copy_seg, copy_source, path_view, seg_view, source_view,
};

verus! {

/// A borrow-bearing result path for which no formal origin was shown.
#[derive(Clone, Debug)]
pub struct UnprovenBorrowReturn {
    pub function: SymbolId,
    pub result_path: BorrowPath,
}

fn bytes_eq(a: &Vec<u8>, b: &Vec<u8>) -> (r: bool)
    ensures
        r == (a@ == b@),
{
    let n = a.len();
    if n != b.len() {
        return false;
    }
    let mut i: usize = 0;
    while i < n
        invariant
            n == a@.len(),
            n == b@.len(),
            i <= n,
            forall|k: int| 0 <= k < i ==> a@[k] == b@[k],
        decreases n - i,
    {
        if a[i] != b[i] {
            return false;
        }
        i = i + 1;
    }
    proof {
        assert(a@ =~= b@);
    }
    true
}

/// Whether two segments are the same.
fn seg_eq(a: &BorrowPathSegment, b: &BorrowPathSegment) -> (r: bool)
    ensures
        r == (seg_view(*a) == seg_view(*b)),
{
    match (a, b) {
        (BorrowPathSegment::Tuple(x), BorrowPathSegment::Tuple(y)) => *x == *y,
        (BorrowPathSegment::Payload(x), BorrowPathSegment::Payload(y)) => *x == *y,
        (BorrowPathSegment::Field(x), BorrowPathSegment::Field(y)) => bytes_eq(x, y),
        (BorrowPathSegment::Variant(x), BorrowPathSegment::Variant(y)) => *x == *y,
        (BorrowPathSegment::OptionSome, BorrowPathSegment::OptionSome) => true,
        (BorrowPathSegment::ResultOk, BorrowPathSegment::ResultOk) => true,
        (BorrowPathSegment::ResultErr, BorrowPathSegment::ResultErr) => true,
        (BorrowPathSegment::ArrayElement, BorrowPathSegment::ArrayElement) => true,
        (BorrowPathSegment::NullableValue, BorrowPathSegment::NullableValue) => true,
        (BorrowPathSegment::CoroutinePayload, BorrowPathSegment::CoroutinePayload) => true,
        (BorrowPathSegment::PollReady, BorrowPathSegment::PollReady) => true,
        (BorrowPathSegment::RangeElement, BorrowPathSegment::RangeElement) => true,
        _ => false,
    }
}

/// Whether two paths are the same.
fn path_eq(a: &BorrowPath, b: &BorrowPath) -> (r: bool)
    ensures
        r == (path_view(*a) == path_view(*b)),
{
    let n = a.0.len();
    if n != b.0.len() {
        proof {
            assert(path_view(*a).len() != path_view(*b).len());
        }
        return false;
    }
    let mut i: usize = 0;
    while i < n
        invariant
            n == a.0@.len(),
            n == b.0@.len(),
            i <= n,
            forall|k: int| 0 <= k < i ==> seg_view(a.0@[k]) == seg_view(b.0@[k]),
        decreases n - i,
    {
        if !seg_eq(&a.0[i], &b.0[i]) {
            proof {
                assert(path_view(*a)[i as int] != path_view(*b)[i as int]);
            }
            return false;
        }
        i = i + 1;
    }
    proof {
        assert(path_view(*a) =~= path_view(*b));
    }
    true
}

/// Whether two sources are the same.
fn source_eq(a: &BorrowSource, b: &BorrowSource) -> (r: bool)
    ensures
        r == (source_view(*a) == source_view(*b)),
{
    a.parameter_index == b.parameter_index && path_eq(&a.parameter_path, &b.parameter_path)
}

/// `head` followed by the segments of `path` from `from` on.
fn build_path(head: Option<&BorrowPathSegment>, path: &BorrowPath, from: usize) -> (r: BorrowPath)
    requires
        from <= path.0@.len(),
    ensures
        path_view(r) == (match head {
            Some(h) => seq![seg_view(*h)],
            None => Seq::empty(),
        }) + path_view(*path).skip(from as int),
{
    let mut out: Vec<BorrowPathSegment> = Vec::new();
    let ghost front: Seq<(int, u32, Seq<u8>)> = match head {
        Some(h) => seq![seg_view(*h)],
        None => Seq::empty(),
    };
    match head {
        Some(h) => {
            out.push(copy_seg(h));
        },
        None => {},
    }
    proof {
        assert(out@.map_values(|s: BorrowPathSegment| seg_view(s)) =~= front);
    }
    let n = path.0.len();
    let mut i: usize = from;
    while i < n
        invariant
            n == path.0@.len(),
            from <= i <= n,
            out@.map_values(|s: BorrowPathSegment| seg_view(s)) == front + path_view(*path).subrange(
                from as int,
                i as int,
            ),
        decreases n - i,
    {
        let s = copy_seg(&path.0[i]);
        let ghost before = out@;
        out.push(s);
        proof {
            assert(out@.map_values(|s: BorrowPathSegment| seg_view(s)) =~= before.map_values(
                |s: BorrowPathSegment| seg_view(s),
            ).push(seg_view(s)));
            assert(front + path_view(*path).subrange(from as int, i + 1) =~= (front + path_view(*path).subrange(
                from as int,
                i as int,
            )).push(path_view(*path)[i as int]));
        }
        i = i + 1;
    }
    proof {
        assert(path_view(*path).subrange(from as int, n as int) =~= path_view(*path).skip(from as int));
    }
    BorrowPath(out)
}



/// The formal sources recorded for one path.
#[derive(Debug)]
pub struct OriginEntry {
    pub path: BorrowPath,
    pub sources: Vec<BorrowSource>,
}

/// For each path of a value, the formal sources it may borrow from.  A path
/// may be listed more than once; its sources are then the union.
#[derive(Debug)]
pub struct OriginMap {
    pub entries: Vec<OriginEntry>,
}

/// The sources of the entries of `es` whose path is `p`.
pub open spec fn listed_sources(es: Seq<OriginEntry>, p: Seq<(int, u32, Seq<u8>)>) -> Set<
    (u32, Seq<(int, u32, Seq<u8>)>),
> {
    Set::new(
        |s: (u32, Seq<(int, u32, Seq<u8>)>)|
            exists|i: int, j: int|
                0 <= i < es.len() && path_view(es[i].path) == p && 0 <= j < es[i].sources@.len()
                    && #[trigger] source_view(es[i].sources@[j]) == s,
    )
}

/// The sources `m` records at path `p`.
pub open spec fn sources_at(m: OriginMap, p: Seq<(int, u32, Seq<u8>)>) -> Set<(u32, Seq<(int, u32, Seq<u8>)>)> {
    listed_sources(m.entries@, p)
}

/// The sources an entry lists.
pub open spec fn entry_sources(e: OriginEntry) -> Set<(u32, Seq<(int, u32, Seq<u8>)>)> {
    Set::new(
        |s: (u32, Seq<(int, u32, Seq<u8>)>)|
            exists|j: int| 0 <= j < e.sources@.len() && #[trigger] source_view(e.sources@[j]) == s,
    )
}

/// Appending an entry adds its sources to its path and changes no other.
proof fn lemma_push_entry(es: Seq<OriginEntry>, e: OriginEntry)
    ensures
        forall|q: Seq<(int, u32, Seq<u8>)>|
            #[trigger] listed_sources(es.push(e), q) == listed_sources(es, q) + (if path_view(e.path) == q {
                entry_sources(e)
            } else {
                Set::empty()
            }),
{
    let es2 = es.push(e);
    assert forall|q: Seq<(int, u32, Seq<u8>)>|
        #[trigger] listed_sources(es2, q) == listed_sources(es, q) + (if path_view(e.path) == q {
            entry_sources(e)
        } else {
            Set::empty()
        }) by {
        let rhs = listed_sources(es, q) + (if path_view(e.path) == q {
            entry_sources(e)
        } else {
            Set::empty()
        });
        assert forall|s: (u32, Seq<(int, u32, Seq<u8>)>)| listed_sources(es2, q).contains(s) <==> rhs.contains(s) by {
            if listed_sources(es2, q).contains(s) {
                let (i, j) = choose|i: int, j: int|
                    0 <= i < es2.len() && path_view(es2[i].path) == q && 0 <= j < es2[i].sources@.len()
                        && #[trigger] source_view(es2[i].sources@[j]) == s;
                if i < es.len() {
                    assert(es2[i] == es[i]);
                    assert(listed_sources(es, q).contains(s));
                } else {
                    assert(es2[i] == e);
                    assert(entry_sources(e).contains(s));
                }
            }
            if listed_sources(es, q).contains(s) {
                let (i, j) = choose|i: int, j: int|
                    0 <= i < es.len() && path_view(es[i].path) == q && 0 <= j < es[i].sources@.len()
                        && #[trigger] source_view(es[i].sources@[j]) == s;
                assert(es2[i] == es[i]);
                assert(source_view(es2[i].sources@[j]) == s);
            }
            if path_view(e.path) == q && entry_sources(e).contains(s) {
                let j = choose|j: int| 0 <= j < e.sources@.len() && #[trigger] source_view(e.sources@[j]) == s;
                let i = es.len() as int;
                assert(es2[i] == e);
                assert(source_view(es2[i].sources@[j]) == s);
            }
        }
        assert(listed_sources(es2, q) =~= rhs);
    }
}

/// A map with no sources.
pub fn empty_origins() -> (m: OriginMap)
    ensures
        m.entries@.len() == 0,
        forall|q: Seq<(int, u32, Seq<u8>)>| #[trigger] sources_at(m, q) == Set::<(u32, Seq<(int, u32, Seq<u8>)>)>::empty(),
{
    let m = OriginMap { entries: Vec::new() };
    proof {
        assert forall|q: Seq<(int, u32, Seq<u8>)>| #[trigger] sources_at(m, q) == Set::<
            (u32, Seq<(int, u32, Seq<u8>)>),
        >::empty() by {
            assert(sources_at(m, q) =~= Set::<(u32, Seq<(int, u32, Seq<u8>)>)>::empty());
        }
    }
    m
}

/// A copy of a list of sources.
fn copy_sources(v: &Vec<BorrowSource>) -> (r: Vec<BorrowSource>)
    ensures
        r@.len() == v@.len(),
        forall|j: int| 0 <= j < v@.len() ==> source_view(#[trigger] r@[j]) == source_view(v@[j]),
{
    let mut r: Vec<BorrowSource> = Vec::new();
    let n = v.len();
    let mut j: usize = 0;
    while j < n
        invariant
            n == v@.len(),
            j <= n,
            r@.len() == j,
            forall|k: int| 0 <= k < j ==> source_view(#[trigger] r@[k]) == source_view(v@[k]),
        decreases n - j,
    {
        r.push(copy_source(&v[j]));
        j = j + 1;
    }
    r
}

/// The entry `path` with a copy of `sources`.
fn copied_entry(path: BorrowPath, sources: &Vec<BorrowSource>) -> (e: OriginEntry)
    ensures
        path_view(e.path) == path_view(path),
        entry_sources(e) == Set::new(
            |s: (u32, Seq<(int, u32, Seq<u8>)>)|
                exists|j: int| 0 <= j < sources@.len() && #[trigger] source_view(sources@[j]) == s,
        ),
{
    let e = OriginEntry { path, sources: copy_sources(sources) };
    proof {
        let want = Set::new(
            |s: (u32, Seq<(int, u32, Seq<u8>)>)|
                exists|j: int| 0 <= j < sources@.len() && #[trigger] source_view(sources@[j]) == s,
        );
        assert forall|s: (u32, Seq<(int, u32, Seq<u8>)>)| entry_sources(e).contains(s) <==> want.contains(s) by {
            if entry_sources(e).contains(s) {
                let j = choose|j: int| 0 <= j < e.sources@.len() && #[trigger] source_view(e.sources@[j]) == s;
                assert(source_view(sources@[j]) == s);
            }
            if want.contains(s) {
                let j = choose|j: int| 0 <= j < sources@.len() && #[trigger] source_view(sources@[j]) == s;
                assert(source_view(e.sources@[j]) == s);
            }
        }
        assert(entry_sources(e) =~= want);
    }
    e
}

/// A copy of `m`: the same sources at every path.
pub fn copy_origins(m: &OriginMap) -> (r: OriginMap)
    ensures
        forall|q: Seq<(int, u32, Seq<u8>)>| #[trigger] sources_at(r, q) == sources_at(*m, q),
{
    let mut r = empty_origins();
    let n = m.entries.len();
    let mut i: usize = 0;
    while i < n
        invariant
            n == m.entries@.len(),
            i <= n,
            forall|q: Seq<(int, u32, Seq<u8>)>| #[trigger] listed_sources(r.entries@, q) == listed_sources(
                m.entries@.take(i as int),
                q,
            ),
        decreases n - i,
    {
        let e = copied_entry(build_path(None, &m.entries[i].path, 0), &m.entries[i].sources);
        let ghost r0 = r.entries@;

        proof {
            let p = m.entries@[i as int].path;
            assert(path_view(p).skip(0) =~= path_view(p));
            assert(Seq::<(int, u32, Seq<u8>)>::empty() + path_view(p) =~= path_view(p));
            assert(entry_sources(e) == entry_sources(m.entries@[i as int]));
        }
        r.entries.push(e);
        proof {
            lemma_push_entry(r0, e);
            assert(m.entries@.take(i + 1) == m.entries@.take(i as int).push(m.entries@[i as int]));
            lemma_push_entry(m.entries@.take(i as int), m.entries@[i as int]);
            assert(r.entries@ == r0.push(e));
            assert forall|q: Seq<(int, u32, Seq<u8>)>| #[trigger] listed_sources(r.entries@, q) == listed_sources(
                m.entries@.take(i + 1),
                q,
            ) by {
                assert(listed_sources(r0, q) == listed_sources(m.entries@.take(i as int), q));
                assert(listed_sources(r.entries@, q) == listed_sources(r0, q) + (if path_view(e.path) == q {
                    entry_sources(e)
                } else {
                    Set::empty()
                }));
            }
        }
        i = i + 1;
    }
    proof {
        assert(m.entries@.take(n as int) =~= m.entries@);
    }
    r
}



/// The sources the value of `op` may borrow from at path `q`: those of its
/// temp, none for a constant or a temp out of range.
pub open spec fn operand_sources(op: AmirOperand, temps: Seq<OriginMap>, q: Seq<(int, u32, Seq<u8>)>) -> Set<
    (u32, Seq<(int, u32, Seq<u8>)>),
> {
    match crate::amir::operand_temp(op) {
        Some(t) => if t < temps.len() {
            sources_at(temps[t as int], q)
        } else {
            Set::empty()
        },
        None => Set::empty(),
    }
}

/// The temp an operand reads.
fn operand_temp(operand: AmirOperand) -> (r: Option<TempId>)
    ensures
        r == crate::amir::operand_temp(operand),
{
    match operand {
        AmirOperand::Copy(t) => Some(t),
        AmirOperand::Move(t) => Some(t),
        _ => None,
    }
}

/// The origins of the value an operand reads.
pub fn operand_origins(operand: AmirOperand, temps: &Vec<OriginMap>) -> (r: OriginMap)
    ensures
        forall|q: Seq<(int, u32, Seq<u8>)>| #[trigger] sources_at(r, q) == operand_sources(operand, temps@, q),
{
    match operand_temp(operand) {
        Some(t) => {
            if t < temps.len() {
                copy_origins(&temps[t])
            } else {
                empty_origins()
            }
        },
        None => empty_origins(),
    }
}

/// `q` is the segment `sv` followed by `p`.
proof fn lemma_cons_path(sv: (int, u32, Seq<u8>), p: Seq<(int, u32, Seq<u8>)>, q: Seq<(int, u32, Seq<u8>)>)
    ensures
        (seq![sv] + p == q) <==> (q.len() > 0 && q[0] == sv && q.drop_first() == p),
{
    if seq![sv] + p == q {
        assert(q.drop_first() =~= p);
    }
    if q.len() > 0 && q[0] == sv && q.drop_first() == p {
        assert(seq![sv] + p =~= q);
    }
}

/// The sources of `es` behind the segment `sv`, at path `q`.
pub open spec fn prefixed_sources(es: Seq<OriginEntry>, sv: (int, u32, Seq<u8>), q: Seq<(int, u32, Seq<u8>)>) -> Set<
    (u32, Seq<(int, u32, Seq<u8>)>),
> {
    if q.len() > 0 && q[0] == sv {
        listed_sources(es, q.drop_first())
    } else {
        Set::empty()
    }
}

/// Adds to `output` every path of `input` behind `segment`, with its sources.
pub fn prefix_origins(output: &mut OriginMap, input: &OriginMap, segment: BorrowPathSegment)
    ensures
        forall|q: Seq<(int, u32, Seq<u8>)>|
            #[trigger] sources_at(*final(output), q) == sources_at(*old(output), q) + prefixed_sources(
                input.entries@,
                seg_view(segment),
                q,
            ),
{
    let ghost out0 = output.entries@;
    let ghost sv = seg_view(segment);
    let n = input.entries.len();
    let mut k: usize = 0;
    while k < n
        invariant
            n == input.entries@.len(),
            sv == seg_view(segment),
            k <= n,
            forall|q: Seq<(int, u32, Seq<u8>)>|
                #[trigger] listed_sources(output.entries@, q) == listed_sources(out0, q) + prefixed_sources(
                    input.entries@.take(k as int),
                    sv,
                    q,
                ),
        decreases n - k,
    {
        let ghost before = output.entries@;
        let ghost ek = input.entries@[k as int];
        let e = copied_entry(build_path(Some(&segment), &input.entries[k].path, 0), &input.entries[k].sources);
        proof {
            assert(path_view(ek.path).skip(0) =~= path_view(ek.path));
            assert(entry_sources(e) == entry_sources(ek));
            assert(path_view(e.path) == seq![sv] + path_view(ek.path));
        }
        output.entries.push(e);
        proof {
            lemma_push_entry(before, e);
            assert(input.entries@.take(k + 1) == input.entries@.take(k as int).push(ek));
            lemma_push_entry(input.entries@.take(k as int), ek);
            assert forall|q: Seq<(int, u32, Seq<u8>)>|
                #[trigger] listed_sources(output.entries@, q) == listed_sources(out0, q) + prefixed_sources(
                    input.entries@.take(k + 1),
                    sv,
                    q,
                ) by {
                lemma_cons_path(sv, path_view(ek.path), q);
                assert(listed_sources(output.entries@, q) == listed_sources(before, q) + (if path_view(e.path) == q {
                    entry_sources(e)
                } else {
                    Set::empty()
                }));
                if q.len() > 0 && q[0] == sv {
                    assert(listed_sources(input.entries@.take(k + 1), q.drop_first()) == listed_sources(
                        input.entries@.take(k as int),
                        q.drop_first(),
                    ) + (if path_view(ek.path) == q.drop_first() {
                        entry_sources(ek)
                    } else {
                        Set::empty()
                    }));
                    assert(listed_sources(output.entries@, q) =~= listed_sources(out0, q) + prefixed_sources(
                        input.entries@.take(k + 1),
                        sv,
                        q,
                    ));
                } else {
                    assert(listed_sources(output.entries@, q) =~= listed_sources(out0, q) + prefixed_sources(
                        input.entries@.take(k + 1),
                        sv,
                        q,
                    ));
                }
            }
        }
        k = k + 1;
    }
    proof {
        assert(input.entries@.take(n as int) =~= input.entries@);
    }
}



/// The sources of `es` at the paths below segment `sv`, moved up by it, at
/// path `q`; the sources of the root stay at the root.
pub open spec fn stripped_sources(es: Seq<OriginEntry>, sv: (int, u32, Seq<u8>), q: Seq<(int, u32, Seq<u8>)>) -> Set<
    (u32, Seq<(int, u32, Seq<u8>)>),
> {
    listed_sources(es, seq![sv] + q) + if q.len() == 0 {
        listed_sources(es, q)
    } else {
        Set::empty()
    }
}

/// The origins of the part of a value below `segment`: every path that
/// starts with it loses it; the root keeps its sources.
pub fn strip_prefix(input: &OriginMap, segment: &BorrowPathSegment) -> (r: OriginMap)
    ensures
        forall|q: Seq<(int, u32, Seq<u8>)>|
            #[trigger] sources_at(r, q) == stripped_sources(input.entries@, seg_view(*segment), q),
{
    let ghost sv = seg_view(*segment);
    let mut out = empty_origins();
    let n = input.entries.len();
    let mut k: usize = 0;
    while k < n
        invariant
            n == input.entries@.len(),
            sv == seg_view(*segment),
            k <= n,
            forall|q: Seq<(int, u32, Seq<u8>)>|
                #[trigger] listed_sources(out.entries@, q) == stripped_sources(input.entries@.take(k as int), sv, q),
        decreases n - k,
    {
        let ghost before = out.entries@;
        let ghost ek = input.entries@[k as int];
        let ghost pk = path_view(ek.path);
        let path = &input.entries[k].path;
        let first_matches = path.0.len() > 0 && seg_eq(&path.0[0], segment);
        proof {
            assert(input.entries@.take(k + 1) == input.entries@.take(k as int).push(ek));
            lemma_push_entry(input.entries@.take(k as int), ek);
        }
        if first_matches || path.0.len() == 0 {
            let from: usize = if first_matches {
                1
            } else {
                0
            };
            let e = copied_entry(build_path(None, path, from), &input.entries[k].sources);
            proof {
                assert(entry_sources(e) == entry_sources(ek));
                assert(Seq::<(int, u32, Seq<u8>)>::empty() + pk.skip(from as int) =~= pk.skip(from as int));
            }
            out.entries.push(e);
            proof {
                lemma_push_entry(before, e);
                assert forall|q: Seq<(int, u32, Seq<u8>)>|
                    #[trigger] listed_sources(out.entries@, q) == stripped_sources(input.entries@.take(k + 1), sv, q) by {
                    lemma_cons_path(sv, q, pk);
                    if first_matches {
                        assert(pk[0] == sv);
                        assert(pk.skip(1) =~= pk.drop_first());
                        assert(pk != q || q.len() != 0);
                    } else {
                        assert(pk.len() == 0);
                        assert(pk.skip(0) =~= pk);
                        assert(seq![sv] + q != pk);
                    }
                    assert(listed_sources(out.entries@, q) =~= stripped_sources(input.entries@.take(k + 1), sv, q));
                }
            }
        } else {
            proof {
                assert forall|q: Seq<(int, u32, Seq<u8>)>|
                    #[trigger] listed_sources(out.entries@, q) == stripped_sources(input.entries@.take(k + 1), sv, q) by {
                    lemma_cons_path(sv, q, pk);
                    if pk.len() > 0 {
                        assert(pk[0] != sv);
                    }
                    assert(seq![sv] + q != pk);
                    assert(listed_sources(out.entries@, q) =~= stripped_sources(input.entries@.take(k + 1), sv, q));
                }
            }
        }
        k = k + 1;
    }
    proof {
        assert(input.entries@.take(n as int) =~= input.entries@);
    }
    out
}

/// Whether `m` records source `s` at `path`.
fn has_source(m: &OriginMap, path: &BorrowPath, s: &BorrowSource) -> (r: bool)
    ensures
        r == sources_at(*m, path_view(*path)).contains(source_view(*s)),
{
    let n = m.entries.len();
    let mut i: usize = 0;
    while i < n
        invariant
            n == m.entries@.len(),
            i <= n,
            forall|ii: int, j: int|
                0 <= ii < i && path_view(m.entries@[ii].path) == path_view(*path) && 0 <= j < m.entries@[ii].sources@.len()
                    ==> source_view(#[trigger] m.entries@[ii].sources@[j]) != source_view(*s),
        decreases n - i,
    {
        if path_eq(&m.entries[i].path, path) {
            let ns = m.entries[i].sources.len();
            let mut j: usize = 0;
            while j < ns
                invariant
                    n == m.entries@.len(),
                    i < n,
                    ns == m.entries@[i as int].sources@.len(),
                    path_view(m.entries@[i as int].path) == path_view(*path),
                    j <= ns,
                    forall|jj: int| 0 <= jj < j ==> source_view(#[trigger] m.entries@[i as int].sources@[jj]) != source_view(*s),
                decreases ns - j,
            {
                if source_eq(&m.entries[i].sources[j], s) {
                    proof {
                        assert(source_view(m.entries@[i as int].sources@[j as int]) == source_view(*s));
                    }
                    return true;
                }
                j = j + 1;
            }
        }
        i = i + 1;
    }
    false
}



/// At some path, `src` lists a source that `t` does not.
pub open spec fn adds_sources(t: Seq<OriginEntry>, src: Seq<OriginEntry>) -> bool {
    exists|q: Seq<(int, u32, Seq<u8>)>| !#[trigger] listed_sources(src, q).subset_of(listed_sources(t, q))
}

/// The first `j` sources an entry lists.
spec fn first_sources(e: OriginEntry, j: int) -> Set<(u32, Seq<(int, u32, Seq<u8>)>)> {
    Set::new(
        |s: (u32, Seq<(int, u32, Seq<u8>)>)| exists|jj: int| 0 <= jj < j && #[trigger] source_view(e.sources@[jj]) == s,
    )
}

/// Adds the sources of `source` to `target`, path by path, and tells
/// whether `target` gained any.
pub fn merge_origins(target: &mut OriginMap, source: &mut OriginMap) -> (changed: bool)
    ensures
        *final(source) == *old(source),
        forall|q: Seq<(int, u32, Seq<u8>)>|
            #[trigger] sources_at(*final(target), q) == sources_at(*old(target), q) + sources_at(*old(source), q),
        changed == adds_sources(old(target).entries@, old(source).entries@),
{
    let ghost t0 = target.entries@;
    let ghost src = source.entries@;
    let mut changed = false;
    let n = source.entries.len();
    let mut k: usize = 0;
    proof {
        assert forall|q: Seq<(int, u32, Seq<u8>)>| #[trigger] listed_sources(target.entries@, q) == listed_sources(t0, q)
            + listed_sources(src.take(0), q) by {
            assert(listed_sources(src.take(0), q) =~= Set::empty());
            assert(listed_sources(target.entries@, q) =~= listed_sources(t0, q) + listed_sources(src.take(0), q));
        }
        assert(!adds_sources(t0, src.take(0))) by {
            assert forall|q: Seq<(int, u32, Seq<u8>)>| #[trigger] listed_sources(src.take(0), q).subset_of(
                listed_sources(t0, q),
            ) by {
                assert(listed_sources(src.take(0), q) =~= Set::empty());
            }
        }
    }
    while k < n
        invariant
            n == src.len(),
            src == source.entries@,
            k <= n,
            forall|q: Seq<(int, u32, Seq<u8>)>|
                #[trigger] listed_sources(target.entries@, q) == listed_sources(t0, q) + listed_sources(
                    src.take(k as int),
                    q,
                ),
            changed == adds_sources(t0, src.take(k as int)),
        decreases n - k,
    {
        let ghost before = target.entries@;
        let ghost changed0 = changed;
        let ghost ek = src[k as int];
        let ghost pk = path_view(ek.path);
        let ns = source.entries[k].sources.len();
        let mut j: usize = 0;
        proof {
            assert forall|q: Seq<(int, u32, Seq<u8>)>| #[trigger] listed_sources(target.entries@, q) == listed_sources(
                before,
                q,
            ) + (if pk == q {
                first_sources(ek, 0)
            } else {
                Set::empty()
            }) by {
                assert(first_sources(ek, 0) =~= Set::empty());
                assert(listed_sources(target.entries@, q) =~= listed_sources(before, q) + (if pk == q {
                    first_sources(ek, 0)
                } else {
                    Set::empty()
                }));
            }
            assert(first_sources(ek, 0) =~= Set::empty());
        }
        while j < ns
            invariant
                ns == ek.sources@.len(),
                src == source.entries@,
                k < n,
                n == src.len(),
                ek == src[k as int],
                pk == path_view(ek.path),
                j <= ns,
                forall|q: Seq<(int, u32, Seq<u8>)>|
                    #[trigger] listed_sources(target.entries@, q) == listed_sources(before, q) + (if pk == q {
                        first_sources(ek, j as int)
                    } else {
                        Set::empty()
                    }),
                changed == (changed0 || !first_sources(ek, j as int).subset_of(listed_sources(before, pk))),
            decreases ns - j,
        {
            let ghost tj = target.entries@;
            let ghost sj = source_view(ek.sources@[j as int]);
            let present = has_source(target, &source.entries[k].path, &source.entries[k].sources[j]);
            proof {
                assert(first_sources(ek, j + 1) =~= first_sources(ek, j as int).insert(sj));
            }
            if !present {
                let e = OriginEntry {
                    path: build_path(None, &source.entries[k].path, 0),
                    sources: vec![copy_source(&source.entries[k].sources[j])],
                };
                proof {
                    assert(pk.skip(0) =~= pk);
                    assert(Seq::<(int, u32, Seq<u8>)>::empty() + pk =~= pk);
                    assert(entry_sources(e) =~= Set::empty().insert(sj)) by {
                        assert(source_view(e.sources@[0]) == sj);
                    }
                }
                target.entries.push(e);
                changed = true;
                proof {
                    lemma_push_entry(tj, e);
                    assert(!listed_sources(before, pk).contains(sj));
                }
            }
            proof {
                assert forall|q: Seq<(int, u32, Seq<u8>)>|
                    #[trigger] listed_sources(target.entries@, q) == listed_sources(before, q) + (if pk == q {
                        first_sources(ek, j + 1)
                    } else {
                        Set::empty()
                    }) by {
                    assert(listed_sources(target.entries@, q) =~= listed_sources(before, q) + (if pk == q {
                        first_sources(ek, j + 1)
                    } else {
                        Set::empty()
                    }));
                }
                if present && !listed_sources(before, pk).contains(sj) {
                    assert(first_sources(ek, j as int).contains(sj));
                }
            }
            j = j + 1;
        }
        proof {
            assert(first_sources(ek, ns as int) =~= entry_sources(ek));
            assert(src.take(k + 1) == src.take(k as int).push(ek));
            lemma_push_entry(src.take(k as int), ek);
            assert forall|q: Seq<(int, u32, Seq<u8>)>|
                #[trigger] listed_sources(target.entries@, q) == listed_sources(t0, q) + listed_sources(
                    src.take(k + 1),
                    q,
                ) by {
                assert(listed_sources(src.take(k + 1), q) == listed_sources(src.take(k as int), q) + (if pk == q {
                    entry_sources(ek)
                } else {
                    Set::empty()
                }));
                assert(listed_sources(target.entries@, q) =~= listed_sources(t0, q) + listed_sources(src.take(k + 1), q));
            }
            assert(listed_sources(before, pk) == listed_sources(t0, pk) + listed_sources(src.take(k as int), pk));
            if adds_sources(t0, src.take(k + 1)) {
                let q = choose|q: Seq<(int, u32, Seq<u8>)>| !#[trigger] listed_sources(src.take(k + 1), q).subset_of(
                    listed_sources(t0, q),
                );
                if !changed {
                    assert(listed_sources(src.take(k as int), q).subset_of(listed_sources(t0, q)));
                    let s = choose|s: (u32, Seq<(int, u32, Seq<u8>)>)| listed_sources(src.take(k + 1), q).contains(s)
                        && !listed_sources(t0, q).contains(s);
                    assert(pk == q && entry_sources(ek).contains(s));
                    assert(listed_sources(before, pk).contains(s));
                    assert(false);
                }
            }
            if changed && !changed0 {
                let s = choose|s: (u32, Seq<(int, u32, Seq<u8>)>)| entry_sources(ek).contains(s)
                    && !listed_sources(before, pk).contains(s);
                assert(listed_sources(src.take(k + 1), pk).contains(s));
                assert(!listed_sources(src.take(k + 1), pk).subset_of(listed_sources(t0, pk)));
            }
            if changed0 {
                let q = choose|q: Seq<(int, u32, Seq<u8>)>| !#[trigger] listed_sources(src.take(k as int), q).subset_of(
                    listed_sources(t0, q),
                );
                assert(!listed_sources(src.take(k + 1), q).subset_of(listed_sources(t0, q)));
            }
        }
        k = k + 1;
    }
    proof {
        assert(src.take(n as int) =~= src);
    }
    changed
}


/// The sources of an aggregate at path `q`: a path into slot `i` of a tuple
/// built from `ops` has the sources of operand `i` below it.
pub open spec fn aggregated_sources(ops: Seq<AmirOperand>, temps: Seq<OriginMap>, q: Seq<(int, u32, Seq<u8>)>) -> Set<
    (u32, Seq<(int, u32, Seq<u8>)>),
> {
    if q.len() > 0 && q[0].0 == 0 && q[0].2 == Seq::<u8>::empty() && q[0].1 < ops.len() {
        operand_sources(ops[q[0].1 as int], temps, q.drop_first())
    } else {
        Set::empty()
    }
}

/// The origins of a tuple built from `operands`: operand `i` lands behind
/// the segment `Tuple(i)`.
pub fn aggregate_origins(operands: &Vec<AmirOperand>, temps: &Vec<OriginMap>) -> (r: OriginMap)
    ensures
        forall|q: Seq<(int, u32, Seq<u8>)>| #[trigger] sources_at(r, q) == aggregated_sources(operands@, temps@, q),
{
    let mut out = empty_origins();
    let n = operands.len();
    let mut i: usize = 0;
    while i < n
        invariant
            n == operands@.len(),
            i <= n,
            forall|q: Seq<(int, u32, Seq<u8>)>|
                #[trigger] listed_sources(out.entries@, q) == (if q.len() > 0 && q[0].1 < i {
                    aggregated_sources(operands@, temps@, q)
                } else {
                    Set::empty()
                }),
        ensures
            i <= n,
            i == n || i > 4294967295,
            forall|q: Seq<(int, u32, Seq<u8>)>|
                #[trigger] listed_sources(out.entries@, q) == (if q.len() > 0 && q[0].1 < i {
                    aggregated_sources(operands@, temps@, q)
                } else {
                    Set::empty()
                }),
        decreases n - i,
    {
        if i > 4294967295 {
            break;
        }
        let ghost before = out.entries@;
        let o = operand_origins(operands[i], temps);
        let idx = i as u32;
        prefix_origins(&mut out, &o, BorrowPathSegment::Tuple(idx));
        proof {
            assert forall|q: Seq<(int, u32, Seq<u8>)>|
                #[trigger] listed_sources(out.entries@, q) == (if q.len() > 0 && q[0].1 < i + 1 {
                    aggregated_sources(operands@, temps@, q)
                } else {
                    Set::empty()
                }) by {
                assert(sources_at(out, q) == listed_sources(before, q) + prefixed_sources(
                    o.entries@,
                    seg_view(BorrowPathSegment::Tuple(idx)),
                    q,
                ));
                if q.len() > 0 && q[0] == seg_view(BorrowPathSegment::Tuple(idx)) {
                    assert(sources_at(o, q.drop_first()) == operand_sources(operands@[i as int], temps@, q.drop_first()));
                }
                assert(listed_sources(out.entries@, q) =~= (if q.len() > 0 && q[0].1 < i + 1 {
                    aggregated_sources(operands@, temps@, q)
                } else {
                    Set::empty()
                }));
            }
        }
        i = i + 1;
    }
    proof {
        assert forall|q: Seq<(int, u32, Seq<u8>)>| #[trigger] sources_at(out, q) == aggregated_sources(
            operands@,
            temps@,
            q,
        ) by {
            if q.len() > 0 && q[0].1 >= i {
                assert(aggregated_sources(operands@, temps@, q) =~= Set::empty());
            }
        }
    }
    out
}



/// The origins of a value as a function of the path.
pub open spec fn state_of(m: OriginMap) -> spec_fn(Seq<(int, u32, Seq<u8>)>) -> Set<(u32, Seq<(int, u32, Seq<u8>)>)> {
    |q: Seq<(int, u32, Seq<u8>)>| sources_at(m, q)
}

/// The origins the argument `op` passes: those of its temp in `st`.
pub open spec fn arg_state(
    op: AmirOperand,
    st: Seq<spec_fn(Seq<(int, u32, Seq<u8>)>) -> Set<(u32, Seq<(int, u32, Seq<u8>)>)>>,
) -> spec_fn(Seq<(int, u32, Seq<u8>)>) -> Set<(u32, Seq<(int, u32, Seq<u8>)>)> {
    match crate::amir::operand_temp(op) {
        Some(t) => if t < st.len() {
            st[t as int]
        } else {
            |q: Seq<(int, u32, Seq<u8>)>| Set::empty()
        },
        None => |q: Seq<(int, u32, Seq<u8>)>| Set::empty(),
    }
}

/// The states after the first `k` arguments of a jump are merged, in turn,
/// into the temps of the matching block parameters.
pub open spec fn param_fold(
    st: Seq<spec_fn(Seq<(int, u32, Seq<u8>)>) -> Set<(u32, Seq<(int, u32, Seq<u8>)>)>>,
    params: Seq<BlockParam>,
    args: Seq<AmirOperand>,
    k: nat,
) -> Seq<spec_fn(Seq<(int, u32, Seq<u8>)>) -> Set<(u32, Seq<(int, u32, Seq<u8>)>)>>
    decreases k,
{
    if k == 0 {
        st
    } else {
        let prev = param_fold(st, params, args, (k - 1) as nat);
        let id = params[k - 1].id as int;
        if id < prev.len() {
            let a = arg_state(args[k - 1], prev);
            let f = prev[id];
            prev.update(id, |q: Seq<(int, u32, Seq<u8>)>| f(q) + a(q))
        } else {
            prev
        }
    }
}

/// The states after a jump to `target` with `args`: each argument flows
/// into the matching parameter of the target; a target out of range
/// changes nothing.
pub open spec fn jump_state(
    func: AmirFunc,
    st: Seq<spec_fn(Seq<(int, u32, Seq<u8>)>) -> Set<(u32, Seq<(int, u32, Seq<u8>)>)>>,
    target: BlockId,
    args: Seq<AmirOperand>,
) -> Seq<spec_fn(Seq<(int, u32, Seq<u8>)>) -> Set<(u32, Seq<(int, u32, Seq<u8>)>)>> {
    if target < func.blocks@.len() {
        let params = func.block_params_spec(target as int);
        param_fold(
            st,
            params,
            args,
            if params.len() < args.len() {
                params.len()
            } else {
                args.len()
            },
        )
    } else {
        st
    }
}

/// The jumps of a terminator that hand arguments to block parameters,
/// the resumption of a suspension included.
pub open spec fn arg_jumps(t: AmirTerminator) -> Seq<(BlockId, Seq<AmirOperand>)> {
    match t {
        AmirTerminator::Goto { target, args } => seq![(target, args@)],
        AmirTerminator::Suspend { resume, args, .. } => seq![(resume, args@)],
        AmirTerminator::Branch { if_true, true_args, if_false, false_args, .. } => seq![
            (if_true, true_args@),
            (if_false, false_args@),
        ],
        AmirTerminator::SwitchInt { targets, otherwise, .. } => targets@.map_values(
            |s: SwitchTarget| (s.target, s.args@),
        ).push((otherwise.target, otherwise.args@)),
        _ => seq![],
    }
}

/// The states after the first `k` jumps of `js`, in order.
pub open spec fn jumps_state(
    func: AmirFunc,
    st: Seq<spec_fn(Seq<(int, u32, Seq<u8>)>) -> Set<(u32, Seq<(int, u32, Seq<u8>)>)>>,
    js: Seq<(BlockId, Seq<AmirOperand>)>,
    k: nat,
) -> Seq<spec_fn(Seq<(int, u32, Seq<u8>)>) -> Set<(u32, Seq<(int, u32, Seq<u8>)>)>>
    decreases k,
{
    if k == 0 {
        st
    } else {
        jump_state(func, jumps_state(func, st, js, (k - 1) as nat), js[k - 1].0, js[k - 1].1)
    }
}

/// The temps hold the states `st`.
pub open spec fn holds_states(
    temps: Seq<OriginMap>,
    st: Seq<spec_fn(Seq<(int, u32, Seq<u8>)>) -> Set<(u32, Seq<(int, u32, Seq<u8>)>)>>,
) -> bool {
    &&& temps.len() == st.len()
    &&& forall|t: int, q: Seq<(int, u32, Seq<u8>)>| 0 <= t < temps.len() ==> #[trigger] sources_at(temps[t], q) == st[t](q)
}

/// Every state of `a` is contained in that of `b`.
pub open spec fn states_grow(
    a: Seq<spec_fn(Seq<(int, u32, Seq<u8>)>) -> Set<(u32, Seq<(int, u32, Seq<u8>)>)>>,
    b: Seq<spec_fn(Seq<(int, u32, Seq<u8>)>) -> Set<(u32, Seq<(int, u32, Seq<u8>)>)>>,
) -> bool {
    &&& a.len() == b.len()
    &&& forall|t: int, q: Seq<(int, u32, Seq<u8>)>| 0 <= t < a.len() ==> #[trigger] a[t](q).subset_of(b[t](q))
}

/// Some state of `b` differs from that of `a`.
pub open spec fn states_differ(
    a: Seq<spec_fn(Seq<(int, u32, Seq<u8>)>) -> Set<(u32, Seq<(int, u32, Seq<u8>)>)>>,
    b: Seq<spec_fn(Seq<(int, u32, Seq<u8>)>) -> Set<(u32, Seq<(int, u32, Seq<u8>)>)>>,
) -> bool {
    exists|t: int, q: Seq<(int, u32, Seq<u8>)>| 0 <= t < a.len() && #[trigger] a[t](q) != b[t](q)
}

proof fn lemma_grow_trans(
    a: Seq<spec_fn(Seq<(int, u32, Seq<u8>)>) -> Set<(u32, Seq<(int, u32, Seq<u8>)>)>>,
    b: Seq<spec_fn(Seq<(int, u32, Seq<u8>)>) -> Set<(u32, Seq<(int, u32, Seq<u8>)>)>>,
    c: Seq<spec_fn(Seq<(int, u32, Seq<u8>)>) -> Set<(u32, Seq<(int, u32, Seq<u8>)>)>>,
)
    requires
        states_grow(a, b),
        states_grow(b, c),
    ensures
        states_grow(a, c),
        states_differ(a, c) == (states_differ(a, b) || states_differ(b, c)),
{
    assert forall|t: int, q: Seq<(int, u32, Seq<u8>)>| 0 <= t < a.len() implies #[trigger] a[t](q).subset_of(c[t](q)) by {
        assert(a[t](q).subset_of(b[t](q)));
        assert(b[t](q).subset_of(c[t](q)));
    }
    if states_differ(a, b) {
        let (t, q) = choose|t: int, q: Seq<(int, u32, Seq<u8>)>| 0 <= t < a.len() && #[trigger] a[t](q) != b[t](q);
        assert(a[t](q).subset_of(b[t](q)));
        assert(b[t](q).subset_of(c[t](q)));
        if b[t](q).subset_of(a[t](q)) {
            assert(a[t](q) =~= b[t](q));
        }
        let bs = b[t](q);
        let as_ = a[t](q);
        let s = choose|s: (u32, Seq<(int, u32, Seq<u8>)>)| bs.contains(s) && !as_.contains(s);
        assert(c[t](q).contains(s));
        assert(a[t](q) != c[t](q));
    }
    if states_differ(b, c) {
        let (t, q) = choose|t: int, q: Seq<(int, u32, Seq<u8>)>| 0 <= t < b.len() && #[trigger] b[t](q) != c[t](q);
        assert(a[t](q).subset_of(b[t](q)));
        assert(b[t](q).subset_of(c[t](q)));
        if c[t](q).subset_of(b[t](q)) {
            assert(b[t](q) =~= c[t](q));
        }
        let cs = c[t](q);
        let bs = b[t](q);
        let s = choose|s: (u32, Seq<(int, u32, Seq<u8>)>)| cs.contains(s) && !bs.contains(s);
        assert(!a[t](q).contains(s));
        assert(a[t](q) != c[t](q));
    }
    if states_differ(a, c) && !states_differ(a, b) {
        let (t, q) = choose|t: int, q: Seq<(int, u32, Seq<u8>)>| 0 <= t < a.len() && #[trigger] a[t](q) != c[t](q);
        assert(a[t](q) == b[t](q));
        assert(b[t](q) != c[t](q));
    }
}

proof fn lemma_grow_refl(a: Seq<spec_fn(Seq<(int, u32, Seq<u8>)>) -> Set<(u32, Seq<(int, u32, Seq<u8>)>)>>)
    ensures
        states_grow(a, a),
        !states_differ(a, a),
{
    assert forall|t: int, q: Seq<(int, u32, Seq<u8>)>| 0 <= t < a.len() implies #[trigger] a[t](q).subset_of(a[t](q)) by {}
}

/// Merges the origins of each argument, in turn, into the temp of the
/// matching parameter of `target`.
fn transfer_jump(
    func: &AmirFunc,
    target: BlockId,
    args: &Vec<AmirOperand>,
    temps: &mut Vec<OriginMap>,
    changed: &mut bool,
    Ghost(st): Ghost<Seq<spec_fn(Seq<(int, u32, Seq<u8>)>) -> Set<(u32, Seq<(int, u32, Seq<u8>)>)>>>,
)
    requires
        forall|b: int| 0 <= b < func.blocks@.len() ==> #[trigger] func.block_ranges_ok(b),
        holds_states(old(temps)@, st),
    ensures
        holds_states(final(temps)@, jump_state(*func, st, target, args@)),
        states_grow(st, jump_state(*func, st, target, args@)),
        *final(changed) == (*old(changed) || states_differ(st, jump_state(*func, st, target, args@))),
{
    if target >= func.blocks.len() {
        proof {
            lemma_grow_refl(st);
        }
        return;
    }
    let n_params = func.block_params.len();
    let pr = func.blocks[target].params;
    assert(func.block_ranges_ok(target as int));
    let ghost params = func.block_params_spec(target as int);
    let m = if pr.len < args.len() {
        pr.len
    } else {
        args.len()
    };
    let mut k: usize = 0;
    let ghost c0 = *changed;
    proof {
        lemma_grow_refl(st);
    }
    while k < m
        invariant
            n_params == func.block_params@.len(),
            pr == func.blocks@[target as int].params,
            pr.start + pr.len <= func.block_params@.len(),
            params == func.block_params_spec(target as int),
            params.len() == pr.len,
            m <= pr.len,
            m <= args@.len(),
            m == (if params.len() < args@.len() {
                params.len()
            } else {
                args@.len()
            }),
            k <= m,
            holds_states(temps@, param_fold(st, params, args@, k as nat)),
            states_grow(st, param_fold(st, params, args@, k as nat)),
            *changed == (c0 || states_differ(st, param_fold(st, params, args@, k as nat))),
        decreases m - k,
    {
        let ghost prev = param_fold(st, params, args@, k as nat);
        let ghost next = param_fold(st, params, args@, (k + 1) as nat);
        let ghost t_before = temps@;
        let bp = func.block_params[pr.start + k];
        assert(params[k as int] == bp);
        let mut src = operand_origins(args[k], temps);
        let ghost a = arg_state(args@[k as int], prev);
        proof {
            assert forall|q: Seq<(int, u32, Seq<u8>)>| #[trigger] sources_at(src, q) == a(q) by {
                match crate::amir::operand_temp(args@[k as int]) {
                    Some(t) => {
                        if t < prev.len() {
                            assert(sources_at(temps@[t as int], q) == prev[t as int](q));
                        }
                    },
                    None => {},
                }
            }
        }
        if bp.id < temps.len() {
            let grew = merge_origins(&mut temps[bp.id], &mut src);
            let ghost f = prev[bp.id as int];
            proof {
                assert(next == prev.update(bp.id as int, |q: Seq<(int, u32, Seq<u8>)>| f(q) + a(q)));
                assert forall|t: int, q: Seq<(int, u32, Seq<u8>)>| 0 <= t < temps@.len() implies #[trigger] sources_at(
                    temps@[t],
                    q,
                ) == next[t](q) by {
                    if t != bp.id {
                        assert(temps@[t] == t_before[t]);
                    } else {
                        assert(sources_at(temps@[t], q) == sources_at(t_before[t], q) + sources_at(src, q));
                    }
                }
                assert forall|t: int, q: Seq<(int, u32, Seq<u8>)>| 0 <= t < prev.len() implies #[trigger] prev[t](q).subset_of(
                    next[t](q),
                ) by {}
                lemma_grow_trans(st, prev, next);
                if grew {
                    let q = choose|q: Seq<(int, u32, Seq<u8>)>| !#[trigger] listed_sources(src.entries@, q).subset_of(
                        listed_sources(t_before[bp.id as int].entries@, q),
                    );
                    let ss = listed_sources(src.entries@, q);
                    let ts = listed_sources(t_before[bp.id as int].entries@, q);
                    let s0 = choose|s0: (u32, Seq<(int, u32, Seq<u8>)>)| ss.contains(s0) && !ts.contains(s0);
                    assert(sources_at(t_before[bp.id as int], q) == prev[bp.id as int](q));
                    assert(prev[bp.id as int](q) == ts);
                    assert(sources_at(src, q) == a(q));
                    assert(a(q) == ss);
                    assert(next[bp.id as int](q) == prev[bp.id as int](q) + a(q));
                    assert(next[bp.id as int](q).contains(s0));
                    assert(prev[bp.id as int](q) != next[bp.id as int](q));
                } else {
                    assert forall|t: int, q: Seq<(int, u32, Seq<u8>)>| 0 <= t < prev.len() implies #[trigger] prev[t](q)
                        == next[t](q) by {
                        if t == bp.id {
                            assert(listed_sources(src.entries@, q).subset_of(
                                listed_sources(t_before[bp.id as int].entries@, q),
                            ));
                            assert(prev[t](q) == sources_at(t_before[t], q));
                            assert(a(q) == sources_at(src, q));
                            assert(next[t](q) == prev[t](q) + a(q));
                            assert(prev[t](q) =~= next[t](q));
                        }
                    }
                }
            }
            if grew {
                *changed = true;
            }
        } else {
            proof {
                assert(next == prev);
                lemma_grow_refl(prev);
                lemma_grow_trans(st, prev, next);
            }
        }
        k = k + 1;
    }
}



/// The states the temps hold.
pub open spec fn states(temps: Seq<OriginMap>) -> Seq<
    spec_fn(Seq<(int, u32, Seq<u8>)>) -> Set<(u32, Seq<(int, u32, Seq<u8>)>)>,
> {
    temps.map_values(|m: OriginMap| state_of(m))
}

/// Passes the origins of the jump arguments of a terminator to the
/// parameters of the target blocks, jump by jump, and records in `changed`
/// whether any temp gained sources.
pub fn transfer_terminator(
    function: &AmirFunc,
    terminator: &AmirTerminator,
    temps: &mut Vec<OriginMap>,
    changed: &mut bool,
)
    requires
        forall|b: int| 0 <= b < function.blocks@.len() ==> #[trigger] function.block_ranges_ok(b),
    ensures
        holds_states(
            final(temps)@,
            jumps_state(*function, states(old(temps)@), arg_jumps(*terminator), arg_jumps(*terminator).len()),
        ),
        *final(changed) == (*old(changed) || states_differ(
            states(old(temps)@),
            jumps_state(*function, states(old(temps)@), arg_jumps(*terminator), arg_jumps(*terminator).len()),
        )),
{
    let ghost st0 = states(temps@);
    let ghost js = arg_jumps(*terminator);
    let ghost c0 = *changed;
    proof {
        assert(holds_states(temps@, st0));
        lemma_grow_refl(st0);
        assert(jumps_state(*function, st0, js, 0) == st0);
    }
    match terminator {
        AmirTerminator::Goto { target, args } => {
            transfer_jump(function, *target, args, temps, changed, Ghost(st0));
            proof {
                assert(jumps_state(*function, st0, js, 1) == jump_state(*function, st0, *target, args@));
            }
        },
        AmirTerminator::Suspend { resume, args, .. } => {
            transfer_jump(function, *resume, args, temps, changed, Ghost(st0));
            proof {
                assert(jumps_state(*function, st0, js, 1) == jump_state(*function, st0, *resume, args@));
            }
        },
        AmirTerminator::Branch { if_true, true_args, if_false, false_args, .. } => {
            transfer_jump(function, *if_true, true_args, temps, changed, Ghost(st0));
            let ghost st1 = jump_state(*function, st0, *if_true, true_args@);
            transfer_jump(function, *if_false, false_args, temps, changed, Ghost(st1));
            proof {
                let st2 = jump_state(*function, st1, *if_false, false_args@);
                assert(jumps_state(*function, st0, js, 1) == st1);
                assert(jumps_state(*function, st0, js, 2) == st2);
                lemma_grow_trans(st0, st1, st2);
            }
        },
        AmirTerminator::SwitchInt { targets, otherwise, .. } => {
            let nsw = targets.len();
            let mut m: usize = 0;
            while m < nsw
                invariant
                    forall|b: int| 0 <= b < function.blocks@.len() ==> #[trigger] function.block_ranges_ok(b),
                    js == arg_jumps(*terminator),
                    *terminator == (AmirTerminator::SwitchInt {
                        discriminant: terminator->discriminant,
                        targets: *targets,
                        otherwise: *otherwise,
                    }),
                    nsw == targets@.len(),
                    m <= nsw,
                    holds_states(temps@, jumps_state(*function, st0, js, m as nat)),
                    states_grow(st0, jumps_state(*function, st0, js, m as nat)),
                    *changed == (c0 || states_differ(st0, jumps_state(*function, st0, js, m as nat))),
                decreases nsw - m,
            {
                let ghost prev = jumps_state(*function, st0, js, m as nat);
                assert(js[m as int] == (targets@[m as int].target, targets@[m as int].args@));
                transfer_jump(function, targets[m].target, &targets[m].args, temps, changed, Ghost(prev));
                proof {
                    let next = jumps_state(*function, st0, js, (m + 1) as nat);
                    assert(next == jump_state(*function, prev, targets@[m as int].target, targets@[m as int].args@));
                    lemma_grow_trans(st0, prev, next);
                }
                m = m + 1;
            }
            let ghost prev = jumps_state(*function, st0, js, nsw as nat);
            assert(js[nsw as int] == (otherwise.target, otherwise.args@));
            transfer_jump(function, otherwise.target, &otherwise.args, temps, changed, Ghost(prev));
            proof {
                let next = jumps_state(*function, st0, js, (nsw + 1) as nat);
                assert(next == jump_state(*function, prev, otherwise.target, otherwise.args@));
                lemma_grow_trans(st0, prev, next);
            }
        },
        _ => {},
    }
}



/// Stripping the segment a prefix step just added gives back the sources
/// of every path.
pub proof fn lemma_strip_after_prefix(es: Seq<OriginEntry>, sv: (int, u32, Seq<u8>), q: Seq<(int, u32, Seq<u8>)>)
    ensures
        prefixed_sources(es, sv, seq![sv] + q) + (if q.len() == 0 {
            prefixed_sources(es, sv, q)
        } else {
            Set::empty()
        }) == listed_sources(es, q),
{
    let p = seq![sv] + q;
    assert(p.drop_first() =~= q);
    assert(p[0] == sv);
    assert(prefixed_sources(es, sv, p) + (if q.len() == 0 {
        prefixed_sources(es, sv, q)
    } else {
        Set::empty()
    }) =~= listed_sources(es, q));
}

/// A merge leaves nothing more to add: merging the same sources again
/// reports no change.
pub proof fn lemma_merge_settles(t0: Seq<OriginEntry>, src: Seq<OriginEntry>, t1: Seq<OriginEntry>)
    requires
        forall|q: Seq<(int, u32, Seq<u8>)>| #[trigger] listed_sources(t1, q) == listed_sources(t0, q) + listed_sources(src, q),
    ensures
        !adds_sources(t1, src),
{
    assert forall|q: Seq<(int, u32, Seq<u8>)>| #[trigger] listed_sources(src, q).subset_of(listed_sources(t1, q)) by {
        assert(listed_sources(t1, q) == listed_sources(t0, q) + listed_sources(src, q));
    }
}

proof fn lemma_param_fold_grows(
    st: Seq<spec_fn(Seq<(int, u32, Seq<u8>)>) -> Set<(u32, Seq<(int, u32, Seq<u8>)>)>>,
    params: Seq<BlockParam>,
    args: Seq<AmirOperand>,
    k: nat,
)
    ensures
        states_grow(st, param_fold(st, params, args, k)),
    decreases k,
{
    if k == 0 {
        lemma_grow_refl(st);
    } else {
        let prev = param_fold(st, params, args, (k - 1) as nat);
        let next = param_fold(st, params, args, k);
        lemma_param_fold_grows(st, params, args, (k - 1) as nat);
        assert forall|t: int, q: Seq<(int, u32, Seq<u8>)>| 0 <= t < prev.len() implies #[trigger] prev[t](q).subset_of(
            next[t](q),
        ) by {}
        lemma_grow_trans(st, prev, next);
    }
}

/// Passing jump arguments only ever adds sources: every temp keeps the
/// sources it had.
pub proof fn lemma_jumps_only_add(
    func: AmirFunc,
    st: Seq<spec_fn(Seq<(int, u32, Seq<u8>)>) -> Set<(u32, Seq<(int, u32, Seq<u8>)>)>>,
    js: Seq<(BlockId, Seq<AmirOperand>)>,
    k: nat,
)
    ensures
        states_grow(st, jumps_state(func, st, js, k)),
    decreases k,
{
    if k == 0 {
        lemma_grow_refl(st);
    } else {
        let prev = jumps_state(func, st, js, (k - 1) as nat);
        lemma_jumps_only_add(func, st, js, (k - 1) as nat);
        let (target, args) = js[k - 1];
        if target < func.blocks@.len() {
            let params = func.block_params_spec(target as int);
            lemma_param_fold_grows(prev, params, args, if params.len() < args.len() {
                params.len()
            } else {
                args.len()
            });
        } else {
            lemma_grow_refl(prev);
        }
        lemma_grow_trans(st, prev, jumps_state(func, st, js, k));
    }
}


// ---------------------------------------------------------------------------
// Statement transfer
// ---------------------------------------------------------------------------

/// What a type resolves to, as far as the origin transfer cares.
#[derive(Clone, Copy, Debug, PartialEq, Eq, Structural)]
pub enum ValueShape {
    OptionType,
    ResultType,
    OtherType,
}

/// A named field of a struct: its position and its name.
#[derive(Clone, Debug)]
pub struct StructField {
    pub index: usize,
    pub name: Vec<u8>,
}

/// The type checker's answers the statement transfer reads, as plain
/// tables: for each type id the shape it resolves to and the fields of the
/// struct it names once references are peeled off, and the tag of each
/// enum variant.  A type id beyond the tables has shape `OtherType` and no
/// fields; a variant without a tag has tag 0.
pub struct TypeFacts {
    pub shapes: Vec<ValueShape>,
    pub struct_fields: Vec<Vec<StructField>>,
    pub variant_tags: Vec<(usize, usize)>,
}

pub open spec fn spec_type_shape(facts: TypeFacts, ty: TypeId) -> ValueShape {
    if (ty as int) < facts.shapes@.len() {
        facts.shapes@[ty as int]
    } else {
        ValueShape::OtherType
    }
}

fn type_shape(facts: &TypeFacts, ty: TypeId) -> (r: ValueShape)
    ensures
        r == spec_type_shape(*facts, ty),
{
    let i = ty as usize;
    if i < facts.shapes.len() {
        facts.shapes[i]
    } else {
        ValueShape::OtherType
    }
}

/// The name of the first field at position `index` of the struct `ty`
/// names, if any.
pub open spec fn spec_field_name(facts: TypeFacts, ty: TypeId, index: usize) -> Option<Seq<u8>> {
    if (ty as int) < facts.struct_fields@.len() {
        let fs = facts.struct_fields@[ty as int]@;
        if exists|k: int| 0 <= k < fs.len() && fs[k].index == index {
            let k = choose|k: int|
                0 <= k < fs.len() && fs[k].index == index && forall|j: int| 0 <= j < k ==> fs[j].index != index;
            Some(fs[k].name@)
        } else {
            None
        }
    } else {
        None
    }
}

fn field_name(facts: &TypeFacts, ty: TypeId, index: usize) -> (r: Option<Vec<u8>>)
    ensures
        match r {
            Some(n) => spec_field_name(*facts, ty, index) == Some(n@),
            None => spec_field_name(*facts, ty, index) is None,
        },
{
    let i = ty as usize;
    if i >= facts.struct_fields.len() {
        return None;
    }
    let fs = &facts.struct_fields[i];
    let n = fs.len();
    let mut k: usize = 0;
    while k < n
        invariant
            n == fs@.len(),
            (ty as int) < facts.struct_fields@.len(),
            *fs == facts.struct_fields@[ty as int],
            k <= n,
            forall|j: int| 0 <= j < k ==> fs@[j].index != index,
        decreases n - k,
    {
        if fs[k].index == index {
            proof {
                let ki = k as int;
                assert(0 <= ki < fs@.len() && fs@[ki].index == index && forall|j: int|
                    0 <= j < ki ==> fs@[j].index != index);
                let kk = choose|kk: int|
                    0 <= kk < fs@.len() && fs@[kk].index == index && forall|j: int|
                        0 <= j < kk ==> fs@[j].index != index;
                if kk < ki {
                    assert(fs@[kk].index != index);
                }
                if kk > ki {
                    assert(fs@[ki].index != index);
                }
                assert(kk == ki);
                assert(spec_field_name(*facts, ty, index) == Some(fs@[ki].name@));
            }
            let name = copy_bytes(&fs[k].name);
            assert(spec_field_name(*facts, ty, index) == Some(name@));
            return Some(name);
        }
        k = k + 1;
    }
    None
}

/// The tag recorded for `variant` (the first entry for it), 0 when none.
pub open spec fn spec_variant_tag(facts: TypeFacts, variant: usize) -> usize {
    let ts = facts.variant_tags@;
    if exists|k: int| 0 <= k < ts.len() && ts[k].0 == variant {
        let k = choose|k: int|
            0 <= k < ts.len() && ts[k].0 == variant && forall|j: int| 0 <= j < k ==> ts[j].0 != variant;
        ts[k].1
    } else {
        0
    }
}

fn variant_tag(facts: &TypeFacts, variant: usize) -> (r: usize)
    ensures
        r == spec_variant_tag(*facts, variant),
{
    let ts = &facts.variant_tags;
    let n = ts.len();
    let mut k: usize = 0;
    while k < n
        invariant
            n == ts@.len(),
            *ts == facts.variant_tags,
            k <= n,
            forall|j: int| 0 <= j < k ==> ts@[j].0 != variant,
        decreases n - k,
    {
        if ts[k].0 == variant {
            proof {
                let kk = choose|kk: int|
                    0 <= kk < ts@.len() && ts@[kk].0 == variant && forall|j: int| 0 <= j < kk ==> ts@[j].0 != variant;
                if kk < k {
                    assert(ts@[kk].0 != variant);
                }
                if kk > k {
                    assert(ts@[k as int].0 != variant);
                }
            }
            return ts[k].1;
        }
        k = k + 1;
    }
    0
}

/// `st` with the sources of `f` added to slot `i`; unchanged when `i` is
/// out of range.
pub open spec fn add_to(
    st: Seq<spec_fn(Seq<(int, u32, Seq<u8>)>) -> Set<(u32, Seq<(int, u32, Seq<u8>)>)>>,
    i: int,
    f: spec_fn(Seq<(int, u32, Seq<u8>)>) -> Set<(u32, Seq<(int, u32, Seq<u8>)>)>,
) -> Seq<spec_fn(Seq<(int, u32, Seq<u8>)>) -> Set<(u32, Seq<(int, u32, Seq<u8>)>)>> {
    if 0 <= i < st.len() {
        let g = st[i];
        st.update(i, |q: Seq<(int, u32, Seq<u8>)>| g(q) + f(q))
    } else {
        st
    }
}

/// Adds the sources of `src` to slot `idx` of `maps` (nothing when `idx` is
/// out of range) and records in `changed` whether the slot gained any.
fn merge_into(maps: &mut Vec<OriginMap>, idx: usize, src: &mut OriginMap, changed: &mut bool)
    ensures
        holds_states(final(maps)@, add_to(states(old(maps)@), idx as int, state_of(*old(src)))),
        states_grow(states(old(maps)@), add_to(states(old(maps)@), idx as int, state_of(*old(src)))),
        *final(changed) == (*old(changed) || states_differ(
            states(old(maps)@),
            add_to(states(old(maps)@), idx as int, state_of(*old(src))),
        )),
{
    let ghost st = states(maps@);
    let ghost m0 = maps@;
    let ghost f = state_of(*src);
    let ghost next = add_to(st, idx as int, f);
    if idx >= maps.len() {
        proof {
            lemma_grow_refl(st);
            assert forall|t: int, q: Seq<(int, u32, Seq<u8>)>| 0 <= t < maps@.len() implies #[trigger] sources_at(
                maps@[t],
                q,
            ) == next[t](q) by {}
        }
        return;
    }
    let ghost s0 = *src;
    let grew = merge_origins(&mut maps[idx], src);
    proof {
        assert forall|t: int, q: Seq<(int, u32, Seq<u8>)>| 0 <= t < maps@.len() implies #[trigger] sources_at(
            maps@[t],
            q,
        ) == next[t](q) by {
            if t != idx {
                assert(maps@[t] == m0[t]);
            }
        }
        assert forall|t: int, q: Seq<(int, u32, Seq<u8>)>| 0 <= t < st.len() implies #[trigger] st[t](q).subset_of(
            next[t](q),
        ) by {}
        if grew {
            let q = choose|q: Seq<(int, u32, Seq<u8>)>| !#[trigger] listed_sources(s0.entries@, q).subset_of(
                listed_sources(m0[idx as int].entries@, q),
            );
            let ss = listed_sources(s0.entries@, q);
            let ts = listed_sources(m0[idx as int].entries@, q);
            let x = choose|x: (u32, Seq<(int, u32, Seq<u8>)>)| ss.contains(x) && !ts.contains(x);
            assert(next[idx as int](q).contains(x));
            assert(st[idx as int](q) != next[idx as int](q));
        } else {
            assert forall|t: int, q: Seq<(int, u32, Seq<u8>)>| 0 <= t < st.len() implies #[trigger] st[t](q)
                == next[t](q) by {
                if t == idx {
                    assert(listed_sources(s0.entries@, q).subset_of(listed_sources(m0[idx as int].entries@, q)));
                    assert(st[t](q) =~= next[t](q));
                }
            }
        }
    }
    if grew {
        *changed = true;
    }
}

/// The sources at path `q` of a whole local.
pub open spec fn local_sources(l: LocalId, locals: Seq<OriginMap>, q: Seq<(int, u32, Seq<u8>)>) -> Set<
    (u32, Seq<(int, u32, Seq<u8>)>),
> {
    if l < locals.len() {
        sources_at(locals[l as int], q)
    } else {
        Set::empty()
    }
}

/// The origins of a whole local (none when it is out of range).
fn local_origins(l: LocalId, locals: &Vec<OriginMap>) -> (r: OriginMap)
    ensures
        forall|q: Seq<(int, u32, Seq<u8>)>| #[trigger] sources_at(r, q) == local_sources(l, locals@, q),
{
    if l < locals.len() {
        copy_origins(&locals[l])
    } else {
        empty_origins()
    }
}

/// The sources at path `q` of a value that holds `op` behind segment `sv`.
pub open spec fn behind(
    sv: (int, u32, Seq<u8>),
    op: AmirOperand,
    temps: Seq<OriginMap>,
    q: Seq<(int, u32, Seq<u8>)>,
) -> Set<(u32, Seq<(int, u32, Seq<u8>)>)> {
    if q.len() > 0 && q[0] == sv {
        operand_sources(op, temps, q.drop_first())
    } else {
        Set::empty()
    }
}

/// The sources of an array built from `items`: each element lands behind
/// `ArrayElement`.
pub open spec fn elements_sources(items: Seq<AmirOperand>, temps: Seq<OriginMap>, q: Seq<(int, u32, Seq<u8>)>) -> Set<
    (u32, Seq<(int, u32, Seq<u8>)>),
> {
    Set::new(
        |s: (u32, Seq<(int, u32, Seq<u8>)>)|
            exists|i: int|
                0 <= i < items.len() && #[trigger] behind(
                    seg_view(BorrowPathSegment::ArrayElement),
                    items[i],
                    temps,
                    q,
                ).contains(s),
    )
}

/// The sources of a struct literal with `fields`: each field value lands
/// behind its name.
pub open spec fn fields_sources(
    fields: Seq<(Vec<u8>, AmirOperand)>,
    temps: Seq<OriginMap>,
    q: Seq<(int, u32, Seq<u8>)>,
) -> Set<(u32, Seq<(int, u32, Seq<u8>)>)> {
    Set::new(
        |s: (u32, Seq<(int, u32, Seq<u8>)>)|
            exists|i: int|
                0 <= i < fields.len() && #[trigger] behind((2, 0u32, fields[i].0@), fields[i].1, temps, q).contains(s),
    )
}

/// `prefix_origins` of an operand's origins adds exactly `behind`.
proof fn lemma_prefix_behind(
    o: OriginMap,
    op: AmirOperand,
    temps: Seq<OriginMap>,
    sv: (int, u32, Seq<u8>),
    q: Seq<(int, u32, Seq<u8>)>,
)
    requires
        forall|p: Seq<(int, u32, Seq<u8>)>| #[trigger] sources_at(o, p) == operand_sources(op, temps, p),
    ensures
        prefixed_sources(o.entries@, sv, q) == behind(sv, op, temps, q),
{
    if q.len() > 0 && q[0] == sv {
        assert(sources_at(o, q.drop_first()) == operand_sources(op, temps, q.drop_first()));
    }
}

/// The origins of an array built from `items`.
fn elements_origins(items: &Vec<AmirOperand>, temps: &Vec<OriginMap>) -> (r: OriginMap)
    ensures
        forall|q: Seq<(int, u32, Seq<u8>)>| #[trigger] sources_at(r, q) == elements_sources(items@, temps@, q),
{
    let ghost sv = seg_view(BorrowPathSegment::ArrayElement);
    let mut out = empty_origins();
    let n = items.len();
    let mut k: usize = 0;
    while k < n
        invariant
            n == items@.len(),
            k <= n,
            sv == seg_view(BorrowPathSegment::ArrayElement),
            forall|q: Seq<(int, u32, Seq<u8>)>|
                #[trigger] sources_at(out, q) == elements_sources(items@.take(k as int), temps@, q),
        decreases n - k,
    {
        let ghost before = out;
        let o = operand_origins(items[k], temps);
        prefix_origins(&mut out, &o, BorrowPathSegment::ArrayElement);
        proof {
            assert forall|q: Seq<(int, u32, Seq<u8>)>| #[trigger] sources_at(out, q) == elements_sources(
                items@.take(k + 1),
                temps@,
                q,
            ) by {
                lemma_prefix_behind(o, items@[k as int], temps@, sv, q);
                let a = elements_sources(items@.take(k as int), temps@, q);
                let b = elements_sources(items@.take(k + 1), temps@, q);
                let c = behind(sv, items@[k as int], temps@, q);
                assert forall|x: (u32, Seq<(int, u32, Seq<u8>)>)| b.contains(x) <==> (a + c).contains(x) by {
                    if b.contains(x) {
                        let i = choose|i: int|
                            0 <= i < items@.take(k + 1).len() && #[trigger] behind(
                                sv,
                                items@.take(k + 1)[i],
                                temps@,
                                q,
                            ).contains(x);
                        if i < k {
                            assert(items@.take(k as int)[i] == items@.take(k + 1)[i]);
                            assert(a.contains(x));
                        } else {
                            assert(items@.take(k + 1)[i] == items@[k as int]);
                        }
                    }
                    if a.contains(x) {
                        let i = choose|i: int|
                            0 <= i < items@.take(k as int).len() && #[trigger] behind(
                                sv,
                                items@.take(k as int)[i],
                                temps@,
                                q,
                            ).contains(x);
                        assert(items@.take(k as int)[i] == items@.take(k + 1)[i]);
                        assert(behind(sv, items@.take(k + 1)[i], temps@, q).contains(x));
                    }
                    if c.contains(x) {
                        assert(items@.take(k + 1)[k as int] == items@[k as int]);
                        assert(behind(sv, items@.take(k + 1)[k as int], temps@, q).contains(x));
                    }
                }
                assert(b =~= a + c);
            }
        }
        k = k + 1;
    }
    proof {
        assert(items@.take(n as int) =~= items@);
    }
    out
}

/// The origins of a struct literal with `fields`.
fn fields_origins(fields: &Vec<(Vec<u8>, AmirOperand)>, temps: &Vec<OriginMap>) -> (r: OriginMap)
    ensures
        forall|q: Seq<(int, u32, Seq<u8>)>| #[trigger] sources_at(r, q) == fields_sources(fields@, temps@, q),
{
    let mut out = empty_origins();
    let n = fields.len();
    let mut k: usize = 0;
    while k < n
        invariant
            n == fields@.len(),
            k <= n,
            forall|q: Seq<(int, u32, Seq<u8>)>|
                #[trigger] sources_at(out, q) == fields_sources(fields@.take(k as int), temps@, q),
        decreases n - k,
    {
        let ghost sv = (2int, 0u32, fields@[k as int].0@);
        let o = operand_origins(fields[k].1, temps);
        let name = copy_bytes(&fields[k].0);
        assert(seg_view(BorrowPathSegment::Field(name)) == sv);
        prefix_origins(&mut out, &o, BorrowPathSegment::Field(name));
        proof {
            let fk = fields@.take(k as int);
            let fk1 = fields@.take(k + 1);
            assert forall|q: Seq<(int, u32, Seq<u8>)>| #[trigger] sources_at(out, q) == fields_sources(fk1, temps@, q) by {
                lemma_prefix_behind(o, fields@[k as int].1, temps@, sv, q);
                let a = fields_sources(fk, temps@, q);
                let b = fields_sources(fk1, temps@, q);
                let c = behind(sv, fields@[k as int].1, temps@, q);
                assert forall|x: (u32, Seq<(int, u32, Seq<u8>)>)| b.contains(x) <==> (a + c).contains(x) by {
                    if b.contains(x) {
                        let i = choose|i: int|
                            0 <= i < fk1.len() && #[trigger] behind((2, 0u32, fk1[i].0@), fk1[i].1, temps@, q).contains(x);
                        if i < k {
                            assert(fk[i] == fk1[i]);
                            assert(a.contains(x));
                        } else {
                            assert(fk1[i] == fields@[k as int]);
                        }
                    }
                    if a.contains(x) {
                        let i = choose|i: int|
                            0 <= i < fk.len() && #[trigger] behind((2, 0u32, fk[i].0@), fk[i].1, temps@, q).contains(x);
                        assert(fk[i] == fk1[i]);
                        assert(behind((2, 0u32, fk1[i].0@), fk1[i].1, temps@, q).contains(x));
                    }
                    if c.contains(x) {
                        assert(fk1[k as int] == fields@[k as int]);
                        assert(behind((2, 0u32, fk1[k as int].0@), fk1[k as int].1, temps@, q).contains(x));
                    }
                }
                assert(b =~= a + c);
            }
        }
        k = k + 1;
    }
    proof {
        assert(fields@.take(n as int) =~= fields@);
    }
    out
}

/// The sources at path `q` of the part of `op`'s value below segment `sv`
/// (the root keeps its own sources).
pub open spec fn below(
    op: AmirOperand,
    temps: Seq<OriginMap>,
    sv: (int, u32, Seq<u8>),
    q: Seq<(int, u32, Seq<u8>)>,
) -> Set<(u32, Seq<(int, u32, Seq<u8>)>)> {
    operand_sources(op, temps, seq![sv] + q) + if q.len() == 0 {
        operand_sources(op, temps, q)
    } else {
        Set::empty()
    }
}

/// `below` taken twice: first below `sv1`, then below `sv2`.
pub open spec fn below_twice(
    op: AmirOperand,
    temps: Seq<OriginMap>,
    sv1: (int, u32, Seq<u8>),
    sv2: (int, u32, Seq<u8>),
    q: Seq<(int, u32, Seq<u8>)>,
) -> Set<(u32, Seq<(int, u32, Seq<u8>)>)> {
    below(op, temps, sv1, seq![sv2] + q) + if q.len() == 0 {
        below(op, temps, sv1, q)
    } else {
        Set::empty()
    }
}

/// The origins of the part of `op`'s value below `segment`.
fn below_origins(op: AmirOperand, temps: &Vec<OriginMap>, segment: &BorrowPathSegment) -> (r: OriginMap)
    ensures
        forall|q: Seq<(int, u32, Seq<u8>)>| #[trigger] sources_at(r, q) == below(op, temps@, seg_view(*segment), q),
{
    let o = operand_origins(op, temps);
    let r = strip_prefix(&o, segment);
    proof {
        assert forall|q: Seq<(int, u32, Seq<u8>)>| #[trigger] sources_at(r, q) == below(op, temps@, seg_view(*segment), q) by {
            assert(sources_at(o, seq![seg_view(*segment)] + q) == operand_sources(op, temps@, seq![seg_view(*segment)] + q));
            assert(sources_at(o, q) == operand_sources(op, temps@, q));
        }
    }
    r
}

/// The origins of the part of `op`'s value below `first`, then `second`.
fn below_twice_origins(
    op: AmirOperand,
    temps: &Vec<OriginMap>,
    first: &BorrowPathSegment,
    second: &BorrowPathSegment,
) -> (r: OriginMap)
    ensures
        forall|q: Seq<(int, u32, Seq<u8>)>| #[trigger] sources_at(r, q) == below_twice(
            op,
            temps@,
            seg_view(*first),
            seg_view(*second),
            q,
        ),
{
    let o = below_origins(op, temps, first);
    let r = strip_prefix(&o, second);
    proof {
        assert forall|q: Seq<(int, u32, Seq<u8>)>| #[trigger] sources_at(r, q) == below_twice(
            op,
            temps@,
            seg_view(*first),
            seg_view(*second),
            q,
        ) by {
            assert(sources_at(o, seq![seg_view(*second)] + q) == below(op, temps@, seg_view(*first), seq![seg_view(*second)] + q));
            assert(sources_at(o, q) == below(op, temps@, seg_view(*first), q));
        }
    }
    r
}

/// The segment an enum constructor puts its payload behind, read off the
/// type of the temp it defines: `OptionSome`, `ResultOk`, `ResultErr`, or
/// the variant tag; none when the temp is out of range or the tag does not
/// fit a segment.
pub open spec fn construct_segment(f: AmirFunc, facts: TypeFacts, lhs: TempId, tag: usize) -> Option<
    (int, u32, Seq<u8>),
> {
    if lhs < f.temps@.len() {
        let shape = spec_type_shape(facts, f.temps@[lhs as int].ty);
        if shape == ValueShape::OptionType && tag == 1 {
            Some(seg_view(BorrowPathSegment::OptionSome))
        } else if shape == ValueShape::ResultType && tag == 0 {
            Some(seg_view(BorrowPathSegment::ResultOk))
        } else if shape == ValueShape::ResultType && tag == 1 {
            Some(seg_view(BorrowPathSegment::ResultErr))
        } else if tag <= u32::MAX {
            Some(seg_view(BorrowPathSegment::Variant(tag as u32)))
        } else {
            None
        }
    } else {
        None
    }
}

fn construct_seg(f: &AmirFunc, facts: &TypeFacts, lhs: TempId, tag: usize) -> (r: Option<BorrowPathSegment>)
    ensures
        match r {
            Some(sg) => construct_segment(*f, *facts, lhs, tag) == Some(seg_view(sg)),
            None => construct_segment(*f, *facts, lhs, tag) is None,
        },
{
    if lhs >= f.temps.len() {
        return None;
    }
    let shape = type_shape(facts, f.temps[lhs].ty);
    if shape == ValueShape::OptionType && tag == 1 {
        Some(BorrowPathSegment::OptionSome)
    } else if shape == ValueShape::ResultType && tag == 0 {
        Some(BorrowPathSegment::ResultOk)
    } else if shape == ValueShape::ResultType && tag == 1 {
        Some(BorrowPathSegment::ResultErr)
    } else if tag <= 4294967295 {
        Some(BorrowPathSegment::Variant(tag as u32))
    } else {
        None
    }
}

/// The name of field `field` of the struct the temp read by `base` has.
pub open spec fn access_name(f: AmirFunc, facts: TypeFacts, base: AmirOperand, field: usize) -> Option<Seq<u8>> {
    match crate::amir::operand_temp(base) {
        Some(t) => if t < f.temps@.len() {
            spec_field_name(facts, f.temps@[t as int].ty, field)
        } else {
            None
        },
        None => None,
    }
}

fn access_field_name(f: &AmirFunc, facts: &TypeFacts, base: AmirOperand, field: usize) -> (r: Option<Vec<u8>>)
    ensures
        match r {
            Some(n) => access_name(*f, *facts, base, field) == Some(n@),
            None => access_name(*f, *facts, base, field) is None,
        },
{
    match operand_temp(base) {
        Some(t) => {
            if t < f.temps.len() {
                field_name(facts, f.temps[t].ty, field)
            } else {
                None
            }
        },
        None => None,
    }
}

/// The shape of the type of the temp `value` reads, if it reads one.
pub open spec fn payload_shape(f: AmirFunc, facts: TypeFacts, value: AmirOperand) -> Option<ValueShape> {
    match crate::amir::operand_temp(value) {
        Some(t) => if t < f.temps@.len() {
            Some(spec_type_shape(facts, f.temps@[t as int].ty))
        } else {
            None
        },
        None => None,
    }
}

pub open spec fn clamp_u32(x: usize) -> u32 {
    if x <= u32::MAX {
        x as u32
    } else {
        u32::MAX
    }
}

/// The first segment an enum payload read strips: the option or result
/// case, else the variant's tag.
pub open spec fn payload_first(f: AmirFunc, facts: TypeFacts, value: AmirOperand, variant: usize) -> (
    int,
    u32,
    Seq<u8>,
) {
    let tag = spec_variant_tag(facts, variant);
    match payload_shape(f, facts, value) {
        Some(ValueShape::OptionType) => seg_view(BorrowPathSegment::OptionSome),
        Some(ValueShape::ResultType) => if tag == 0 {
            seg_view(BorrowPathSegment::ResultOk)
        } else {
            seg_view(BorrowPathSegment::ResultErr)
        },
        _ => seg_view(BorrowPathSegment::Variant(clamp_u32(tag))),
    }
}

/// The sources of payload `index` of variant `variant` of the enum `value`
/// reads: below the case segment, and below the payload slot too unless the
/// enum is an option or a result.
pub open spec fn payload_sources(
    f: AmirFunc,
    facts: TypeFacts,
    value: AmirOperand,
    variant: usize,
    index: usize,
    temps: Seq<OriginMap>,
    q: Seq<(int, u32, Seq<u8>)>,
) -> Set<(u32, Seq<(int, u32, Seq<u8>)>)> {
    let first = payload_first(f, facts, value, variant);
    match payload_shape(f, facts, value) {
        Some(ValueShape::OptionType) => below(value, temps, first, q),
        Some(ValueShape::ResultType) => below(value, temps, first, q),
        _ => below_twice(value, temps, first, seg_view(BorrowPathSegment::Payload(clamp_u32(index))), q),
    }
}

fn clamp_to_u32(x: usize) -> (r: u32)
    ensures
        r == clamp_u32(x),
{
    if x <= 4294967295 {
        x as u32
    } else {
        4294967295
    }
}

fn payload_origins(
    f: &AmirFunc,
    facts: &TypeFacts,
    value: AmirOperand,
    variant: usize,
    index: usize,
    temps: &Vec<OriginMap>,
) -> (r: OriginMap)
    ensures
        forall|q: Seq<(int, u32, Seq<u8>)>| #[trigger] sources_at(r, q) == payload_sources(
            *f,
            *facts,
            value,
            variant,
            index,
            temps@,
            q,
        ),
{
    let tag = variant_tag(facts, variant);
    let shape: Option<ValueShape> = match operand_temp(value) {
        Some(t) => {
            if t < f.temps.len() {
                Some(type_shape(facts, f.temps[t].ty))
            } else {
                None
            }
        },
        None => None,
    };
    assert(shape == payload_shape(*f, *facts, value));
    let first = match shape {
        Some(ValueShape::OptionType) => BorrowPathSegment::OptionSome,
        Some(ValueShape::ResultType) => if tag == 0 {
            BorrowPathSegment::ResultOk
        } else {
            BorrowPathSegment::ResultErr
        },
        _ => BorrowPathSegment::Variant(clamp_to_u32(tag)),
    };
    assert(seg_view(first) == payload_first(*f, *facts, value, variant));
    match shape {
        Some(ValueShape::OptionType) => below_origins(value, temps, &first),
        Some(ValueShape::ResultType) => below_origins(value, temps, &first),
        _ => below_twice_origins(value, temps, &first, &BorrowPathSegment::Payload(clamp_to_u32(index))),
    }
}

/// The source values a list holds.
pub open spec fn source_set(v: Seq<BorrowSource>) -> Set<(u32, Seq<(int, u32, Seq<u8>)>)> {
    Set::new(|x: (u32, Seq<(int, u32, Seq<u8>)>)| exists|j: int| 0 <= j < v.len() && #[trigger] source_view(v[j]) == x)
}

/// Copies of the sources `m` records at `path`.
fn sources_listed(m: &OriginMap, path: &BorrowPath) -> (r: Vec<BorrowSource>)
    ensures
        source_set(r@) == sources_at(*m, path_view(*path)),
{
    let ghost pv = path_view(*path);
    let mut out: Vec<BorrowSource> = Vec::new();
    let n = m.entries.len();
    let mut i: usize = 0;
    while i < n
        invariant
            n == m.entries@.len(),
            i <= n,
            pv == path_view(*path),
            source_set(out@) == listed_sources(m.entries@.take(i as int), pv),
        decreases n - i,
    {
        let ghost before = out@;
        let ghost ei = m.entries@[i as int];
        proof {
            assert(m.entries@.take(i + 1) == m.entries@.take(i as int).push(ei));
            lemma_push_entry(m.entries@.take(i as int), ei);
        }
        if path_eq(&m.entries[i].path, path) {
            let ns = m.entries[i].sources.len();
            let mut j: usize = 0;
            while j < ns
                invariant
                    n == m.entries@.len(),
                    i < n,
                    ei == m.entries@[i as int],
                    ns == ei.sources@.len(),
                    j <= ns,
                    source_set(out@) == source_set(before) + Set::new(
                        |x: (u32, Seq<(int, u32, Seq<u8>)>)|
                            exists|jj: int| 0 <= jj < j && #[trigger] source_view(ei.sources@[jj]) == x,
                    ),
                decreases ns - j,
            {
                let ghost o = out@;
                out.push(copy_source(&m.entries[i].sources[j]));
                proof {
                    let lhs = source_set(out@);
                    let rhs = source_set(before) + Set::new(
                        |x: (u32, Seq<(int, u32, Seq<u8>)>)|
                            exists|jj: int| 0 <= jj < j + 1 && #[trigger] source_view(ei.sources@[jj]) == x,
                    );
                    assert forall|x: (u32, Seq<(int, u32, Seq<u8>)>)| lhs.contains(x) <==> rhs.contains(x) by {
                        if lhs.contains(x) {
                            let k = choose|k: int| 0 <= k < out@.len() && #[trigger] source_view(out@[k]) == x;
                            if k < o.len() {
                                assert(o[k] == out@[k]);
                                assert(source_set(o).contains(x));
                            } else {
                                assert(source_view(ei.sources@[j as int]) == x);
                            }
                        }
                        if source_set(before).contains(x) {
                            assert(source_set(o).contains(x));
                            let k = choose|k: int| 0 <= k < o.len() && #[trigger] source_view(o[k]) == x;
                            assert(out@[k] == o[k]);
                        }
                        if rhs.contains(x) && !source_set(before).contains(x) {
                            let jj = choose|jj: int| 0 <= jj < j + 1 && #[trigger] source_view(ei.sources@[jj]) == x;
                            if jj < j {
                                assert(source_set(o).contains(x));
                                let k = choose|k: int| 0 <= k < o.len() && #[trigger] source_view(o[k]) == x;
                                assert(out@[k] == o[k]);
                            } else {
                                assert(source_view(out@[o.len() as int]) == x);
                            }
                        }
                    }
                    assert(lhs =~= rhs);
                }
                j = j + 1;
            }
            proof {
                assert(Set::new(
                    |x: (u32, Seq<(int, u32, Seq<u8>)>)|
                        exists|jj: int| 0 <= jj < ns && #[trigger] source_view(ei.sources@[jj]) == x,
                ) =~= entry_sources(ei));
                assert(source_set(out@) =~= listed_sources(m.entries@.take(i + 1), pv));
            }
        } else {
            proof {
                assert(source_set(out@) =~= listed_sources(m.entries@.take(i + 1), pv));
            }
        }
        i = i + 1;
    }
    proof {
        assert(m.entries@.take(n as int) =~= m.entries@);
    }
    out
}

/// The summary recorded for `sym` (the first one listed), if any.
pub open spec fn summary_for(sums: Seq<(SymbolId, ReturnBorrowSummary)>, sym: SymbolId) -> Option<ReturnBorrowSummary> {
    if exists|k: int| 0 <= k < sums.len() && sums[k].0 == sym {
        let k = choose|k: int| 0 <= k < sums.len() && sums[k].0 == sym && forall|j: int| 0 <= j < k ==> sums[j].0 != sym;
        Some(sums[k].1)
    } else {
        None
    }
}

fn find_summary(sums: &Vec<(SymbolId, ReturnBorrowSummary)>, sym: SymbolId) -> (r: Option<usize>)
    ensures
        match r {
            Some(k) => k < sums@.len() && summary_for(sums@, sym) == Some(sums@[k as int].1),
            None => summary_for(sums@, sym) is None,
        },
{
    let n = sums.len();
    let mut k: usize = 0;
    while k < n
        invariant
            n == sums@.len(),
            k <= n,
            forall|j: int| 0 <= j < k ==> sums@[j].0 != sym,
        decreases n - k,
    {
        if sums[k].0 == sym {
            proof {
                let ki = k as int;
                assert(0 <= ki < sums@.len() && sums@[ki].0 == sym && forall|j: int| 0 <= j < ki ==> sums@[j].0 != sym);
                let kk = choose|kk: int|
                    0 <= kk < sums@.len() && sums@[kk].0 == sym && forall|j: int| 0 <= j < kk ==> sums@[j].0 != sym;
                if kk < ki {
                    assert(sums@[kk].0 != sym);
                }
                if kk > ki {
                    assert(sums@[ki].0 != sym);
                }
            }
            return Some(k);
        }
        k = k + 1;
    }
    None
}

/// What source `j` of dependency `d` of `sum` passes at its parameter path:
/// the sources the matching argument has there (none when the parameter is
/// out of range).
pub open spec fn dep_source_sources(
    sum: ReturnBorrowSummary,
    args: Seq<AmirOperand>,
    temps: Seq<OriginMap>,
    d: int,
    j: int,
) -> Set<(u32, Seq<(int, u32, Seq<u8>)>)> {
    let src = sum.dependencies@[d].sources@[j];
    if (src.parameter_index as int) < args.len() {
        operand_sources(args[src.parameter_index as int], temps, path_view(src.parameter_path))
    } else {
        Set::empty()
    }
}

/// The sources a call's result gets at path `q` from the callee's summary:
/// each dependency for `q` inherits what its sources pass.
pub open spec fn call_sources(
    sum: ReturnBorrowSummary,
    args: Seq<AmirOperand>,
    temps: Seq<OriginMap>,
    q: Seq<(int, u32, Seq<u8>)>,
) -> Set<(u32, Seq<(int, u32, Seq<u8>)>)> {
    Set::new(
        |x: (u32, Seq<(int, u32, Seq<u8>)>)|
            exists|d: int, j: int|
                0 <= d < sum.dependencies@.len() && 0 <= j < sum.dependencies@[d].sources@.len() && path_view(
                    sum.dependencies@[d].result_path,
                ) == q && #[trigger] dep_source_sources(sum, args, temps, d, j).contains(x),
    )
}

/// `call_sources` over the first `d` dependencies, the `j` first sources of
/// dependency `d` included.
spec fn call_sources_upto(
    sum: ReturnBorrowSummary,
    args: Seq<AmirOperand>,
    temps: Seq<OriginMap>,
    q: Seq<(int, u32, Seq<u8>)>,
    dd: int,
    jj: int,
) -> Set<(u32, Seq<(int, u32, Seq<u8>)>)> {
    Set::new(
        |x: (u32, Seq<(int, u32, Seq<u8>)>)|
            exists|d: int, j: int|
                0 <= d < sum.dependencies@.len() && 0 <= j < sum.dependencies@[d].sources@.len() && (d < dd || (d
                    == dd && j < jj)) && path_view(sum.dependencies@[d].result_path) == q
                    && #[trigger] dep_source_sources(sum, args, temps, d, j).contains(x),
    )
}

/// The origins a call's result gets from the callee's summary.
fn call_origins(sum: &ReturnBorrowSummary, args: &Vec<AmirOperand>, temps: &Vec<OriginMap>) -> (r: OriginMap)
    ensures
        forall|q: Seq<(int, u32, Seq<u8>)>| #[trigger] sources_at(r, q) == call_sources(*sum, args@, temps@, q),
{
    let mut out = empty_origins();
    let nd = sum.dependencies.len();
    let mut d: usize = 0;
    while d < nd
        invariant
            nd == sum.dependencies@.len(),
            d <= nd,
            forall|q: Seq<(int, u32, Seq<u8>)>|
                #[trigger] sources_at(out, q) == call_sources_upto(*sum, args@, temps@, q, d as int, 0),
        decreases nd - d,
    {
        let dep = &sum.dependencies[d];
        let ns = dep.sources.len();
        let mut j: usize = 0;
        while j < ns
            invariant
                nd == sum.dependencies@.len(),
                d < nd,
                *dep == sum.dependencies@[d as int],
                ns == dep.sources@.len(),
                j <= ns,
                forall|q: Seq<(int, u32, Seq<u8>)>|
                    #[trigger] sources_at(out, q) == call_sources_upto(*sum, args@, temps@, q, d as int, j as int),
            decreases ns - j,
        {
            let src = &dep.sources[j];
            let idx = src.parameter_index as usize;
            if idx < args.len() {
                let arg = operand_origins(args[idx], temps);
                let inherited = sources_listed(&arg, &src.parameter_path);
                let e = OriginEntry { path: copy_path(&dep.result_path), sources: inherited };
                let ghost before = out.entries@;
                let ghost out0 = out;
                out.entries.push(e);
                proof {
                    lemma_push_entry(before, e);
                    assert(entry_sources(e) =~= source_set(inherited@));
                    assert forall|q: Seq<(int, u32, Seq<u8>)>| #[trigger] sources_at(out, q) == call_sources_upto(
                        *sum,
                        args@,
                        temps@,
                        q,
                        d as int,
                        j + 1,
                    ) by {
                        let a = call_sources_upto(*sum, args@, temps@, q, d as int, j as int);
                        let b = call_sources_upto(*sum, args@, temps@, q, d as int, j + 1);
                        let c = dep_source_sources(*sum, args@, temps@, d as int, j as int);
                        let pc = path_view(dep.result_path) == q;
                        assert(sources_at(arg, path_view(src.parameter_path)) == c);
                        assert(sources_at(out0, q) == a);
                        assert(listed_sources(before, q) == a);
                        assert(path_view(e.path) == path_view(dep.result_path));
                        assert(entry_sources(e) == c);
                        assert(sources_at(out, q) == listed_sources(before, q) + (if path_view(e.path) == q {
                            entry_sources(e)
                        } else {
                            Set::empty()
                        }));
                        assert(sources_at(out, q) == a + (if pc { c } else { Set::empty() }));
                        assert forall|x: (u32, Seq<(int, u32, Seq<u8>)>)| b.contains(x) <==> (a + (if pc {
                            c
                        } else {
                            Set::empty()
                        })).contains(x) by {
                            if b.contains(x) && !a.contains(x) {
                                let (d2, j2) = choose|d2: int, j2: int|
                                    0 <= d2 < sum.dependencies@.len() && 0 <= j2 < sum.dependencies@[d2].sources@.len()
                                        && (d2 < d || (d2 == d && j2 < j + 1)) && path_view(
                                        sum.dependencies@[d2].result_path,
                                    ) == q && #[trigger] dep_source_sources(*sum, args@, temps@, d2, j2).contains(x);
                                assert(d2 == d && j2 == j);
                            }
                            if pc && c.contains(x) {
                                assert(dep_source_sources(*sum, args@, temps@, d as int, j as int).contains(x));
                            }
                        }
                        assert(b =~= a + (if pc {
                            c
                        } else {
                            Set::empty()
                        }));
                    }
                }
            } else {
                proof {
                    assert forall|q: Seq<(int, u32, Seq<u8>)>| #[trigger] sources_at(out, q) == call_sources_upto(
                        *sum,
                        args@,
                        temps@,
                        q,
                        d as int,
                        j + 1,
                    ) by {
                        let a = call_sources_upto(*sum, args@, temps@, q, d as int, j as int);
                        let b = call_sources_upto(*sum, args@, temps@, q, d as int, j + 1);
                        assert(dep_source_sources(*sum, args@, temps@, d as int, j as int) =~= Set::empty());
                        assert forall|x: (u32, Seq<(int, u32, Seq<u8>)>)| b.contains(x) <==> a.contains(x) by {
                            if b.contains(x) && !a.contains(x) {
                                let (d2, j2) = choose|d2: int, j2: int|
                                    0 <= d2 < sum.dependencies@.len() && 0 <= j2 < sum.dependencies@[d2].sources@.len()
                                        && (d2 < d || (d2 == d && j2 < j + 1)) && path_view(
                                        sum.dependencies@[d2].result_path,
                                    ) == q && #[trigger] dep_source_sources(*sum, args@, temps@, d2, j2).contains(x);
                                assert(d2 == d && j2 == j);
                            }
                        }
                        assert(b =~= a);
                    }
                }
            }
            j = j + 1;
        }
        proof {
            assert forall|q: Seq<(int, u32, Seq<u8>)>| #[trigger] sources_at(out, q) == call_sources_upto(
                *sum,
                args@,
                temps@,
                q,
                d + 1,
                0,
            ) by {
                assert(call_sources_upto(*sum, args@, temps@, q, d as int, ns as int) =~= call_sources_upto(
                    *sum,
                    args@,
                    temps@,
                    q,
                    d + 1,
                    0,
                ));
            }
        }
        d = d + 1;
    }
    proof {
        assert forall|q: Seq<(int, u32, Seq<u8>)>| #[trigger] sources_at(out, q) == call_sources(*sum, args@, temps@, q) by {
            assert(call_sources_upto(*sum, args@, temps@, q, nd as int, 0) =~= call_sources(*sum, args@, temps@, q));
        }
    }
    out
}

/// The sources at path `q` of the value `rhs` gives the temp `lhs`.
pub open spec fn assign_sources(
    f: AmirFunc,
    facts: TypeFacts,
    lhs: TempId,
    rhs: AmirRvalue,
    temps: Seq<OriginMap>,
    locals: Seq<OriginMap>,
    q: Seq<(int, u32, Seq<u8>)>,
) -> Set<(u32, Seq<(int, u32, Seq<u8>)>)> {
    match rhs {
        AmirRvalue::Use(op) => operand_sources(op, temps, q),
        AmirRvalue::Borrow(p) => local_sources(p.local, locals, q),
        AmirRvalue::BorrowMut(p) => local_sources(p.local, locals, q),
        AmirRvalue::RelativeBorrow { local, .. } => local_sources(local, locals, q),
        AmirRvalue::Load(p) => local_sources(p.local, locals, q),
        AmirRvalue::Tuple { items } => aggregated_sources(items@, temps, q),
        AmirRvalue::Array { items } => elements_sources(items@, temps, q),
        AmirRvalue::StructLiteral { fields, .. } => fields_sources(fields@, temps, q),
        AmirRvalue::EnumConstruct { variant_tag, payload } => match payload {
            Some(p) => match construct_segment(f, facts, lhs, variant_tag) {
                Some(sv) => behind(sv, p, temps, q),
                None => Set::empty(),
            },
            None => Set::empty(),
        },
        AmirRvalue::FieldAccess { base, field } => match access_name(f, facts, base, field) {
            Some(n) => below(base, temps, (2, 0u32, n), q),
            None => Set::empty(),
        },
        AmirRvalue::EnumPayload { value, variant, index } => payload_sources(f, facts, value, variant, index, temps, q),
        AmirRvalue::SliceView { owner, .. } => operand_sources(owner, temps, q),
        AmirRvalue::StrView { owner } => operand_sources(owner, temps, q),
        AmirRvalue::SliceSubslice { slice, .. } => operand_sources(slice, temps, q),
        AmirRvalue::SliceData(slice) => operand_sources(slice, temps, q),
        AmirRvalue::StrBytes { source } => operand_sources(source, temps, q),
        _ => Set::empty(),
    }
}

/// The origins of the value `rhs` gives the temp `lhs`.
fn rvalue_origins(
    f: &AmirFunc,
    facts: &TypeFacts,
    lhs: TempId,
    rhs: &AmirRvalue,
    temps: &Vec<OriginMap>,
    locals: &Vec<OriginMap>,
) -> (r: OriginMap)
    ensures
        forall|q: Seq<(int, u32, Seq<u8>)>| #[trigger] sources_at(r, q) == assign_sources(
            *f,
            *facts,
            lhs,
            *rhs,
            temps@,
            locals@,
            q,
        ),
{
    match rhs {
        AmirRvalue::Use(op) => operand_origins(*op, temps),
        AmirRvalue::Borrow(p) => local_origins(p.local, locals),
        AmirRvalue::BorrowMut(p) => local_origins(p.local, locals),
        AmirRvalue::RelativeBorrow { local, .. } => local_origins(*local, locals),
        AmirRvalue::Load(p) => local_origins(p.local, locals),
        AmirRvalue::Tuple { items } => aggregate_origins(items, temps),
        AmirRvalue::Array { items } => elements_origins(items, temps),
        AmirRvalue::StructLiteral { fields, .. } => fields_origins(fields, temps),
        AmirRvalue::EnumConstruct { variant_tag, payload } => {
            let mut out = empty_origins();
            match payload {
                Some(p) => {
                    match construct_seg(f, facts, lhs, *variant_tag) {
                        Some(sg) => {
                            let ghost sv = seg_view(sg);
                            let o = operand_origins(*p, temps);
                            let ghost out0 = out;
                            prefix_origins(&mut out, &o, sg);
                            proof {
                                assert forall|q: Seq<(int, u32, Seq<u8>)>| #[trigger] sources_at(out, q) == assign_sources(
                                    *f,
                                    *facts,
                                    lhs,
                                    *rhs,
                                    temps@,
                                    locals@,
                                    q,
                                ) by {
                                    lemma_prefix_behind(o, *p, temps@, sv, q);
                                    assert(sources_at(out0, q) =~= Set::empty());
                                    assert(sources_at(out, q) =~= behind(sv, *p, temps@, q));
                                }
                            }
                        },
                        None => {},
                    }
                },
                None => {},
            }
            out
        },
        AmirRvalue::FieldAccess { base, field } => {
            match access_field_name(f, facts, *base, *field) {
                Some(n) => {
                    let sg = BorrowPathSegment::Field(n);
                    below_origins(*base, temps, &sg)
                },
                None => empty_origins(),
            }
        },
        AmirRvalue::EnumPayload { value, variant, index } => payload_origins(f, facts, *value, *variant, *index, temps),
        AmirRvalue::SliceView { owner, .. } => operand_origins(*owner, temps),
        AmirRvalue::StrView { owner } => operand_origins(*owner, temps),
        AmirRvalue::SliceSubslice { slice, .. } => operand_origins(*slice, temps),
        AmirRvalue::SliceData(slice) => operand_origins(*slice, temps),
        AmirRvalue::StrBytes { source } => operand_origins(*source, temps),
        _ => empty_origins(),
    }
}

/// The temp a statement's origins flow into: the target of an assignment,
/// or the result of a direct call.
pub open spec fn flows_to_temp(s: AmirStmt) -> Option<TempId> {
    match s {
        AmirStmt::Assign { lhs, .. } => Some(lhs),
        AmirStmt::Call { lhs, callee, .. } => match (lhs, callee) {
            (Some(l), AmirOperand::FunctionRef(_)) => Some(l),
            _ => None,
        },
        _ => None,
    }
}

/// The local a statement's origins flow into: the target of a store to a
/// whole local.
pub open spec fn flows_to_local(s: AmirStmt) -> Option<LocalId> {
    match s {
        AmirStmt::Store { lhs, .. } => if lhs.projections@.len() == 0 {
            Some(lhs.local)
        } else {
            None
        },
        _ => None,
    }
}

/// What a statement passes to its target, path by path.
pub open spec fn statement_sources(
    f: AmirFunc,
    s: AmirStmt,
    facts: TypeFacts,
    sums: Seq<(SymbolId, ReturnBorrowSummary)>,
    temps: Seq<OriginMap>,
    locals: Seq<OriginMap>,
) -> spec_fn(Seq<(int, u32, Seq<u8>)>) -> Set<(u32, Seq<(int, u32, Seq<u8>)>)> {
    |q: Seq<(int, u32, Seq<u8>)>|
        match s {
            AmirStmt::Assign { lhs, rhs } => assign_sources(f, facts, lhs, rhs, temps, locals, q),
            AmirStmt::Store { rhs, .. } => operand_sources(rhs, temps, q),
            AmirStmt::Call { callee, args, .. } => match callee {
                AmirOperand::FunctionRef(sym) => match summary_for(sums, sym) {
                    Some(sum) => call_sources(sum, args@, temps, q),
                    None => Set::empty(),
                },
                _ => Set::empty(),
            },
            _ => Set::empty(),
        }
}

/// The temp states after a statement.
pub open spec fn temps_after(
    f: AmirFunc,
    s: AmirStmt,
    facts: TypeFacts,
    sums: Seq<(SymbolId, ReturnBorrowSummary)>,
    temps: Seq<OriginMap>,
    locals: Seq<OriginMap>,
) -> Seq<spec_fn(Seq<(int, u32, Seq<u8>)>) -> Set<(u32, Seq<(int, u32, Seq<u8>)>)>> {
    match flows_to_temp(s) {
        Some(t) => add_to(states(temps), t as int, statement_sources(f, s, facts, sums, temps, locals)),
        None => states(temps),
    }
}

/// The local states after a statement.
pub open spec fn locals_after(
    f: AmirFunc,
    s: AmirStmt,
    facts: TypeFacts,
    sums: Seq<(SymbolId, ReturnBorrowSummary)>,
    temps: Seq<OriginMap>,
    locals: Seq<OriginMap>,
) -> Seq<spec_fn(Seq<(int, u32, Seq<u8>)>) -> Set<(u32, Seq<(int, u32, Seq<u8>)>)>> {
    match flows_to_local(s) {
        Some(l) => add_to(states(locals), l as int, statement_sources(f, s, facts, sums, temps, locals)),
        None => states(locals),
    }
}

proof fn lemma_holds_own_states(maps: Seq<OriginMap>)
    ensures
        holds_states(maps, states(maps)),
{
}

/// Adding no sources leaves the states as they are.
proof fn lemma_add_nothing(
    st: Seq<spec_fn(Seq<(int, u32, Seq<u8>)>) -> Set<(u32, Seq<(int, u32, Seq<u8>)>)>>,
    i: int,
    f: spec_fn(Seq<(int, u32, Seq<u8>)>) -> Set<(u32, Seq<(int, u32, Seq<u8>)>)>,
    maps: Seq<OriginMap>,
)
    requires
        holds_states(maps, st),
        forall|q: Seq<(int, u32, Seq<u8>)>| #[trigger] f(q) == Set::<(u32, Seq<(int, u32, Seq<u8>)>)>::empty(),
    ensures
        holds_states(maps, add_to(st, i, f)),
        !states_differ(st, add_to(st, i, f)),
{
    let next = add_to(st, i, f);
    assert forall|t: int, q: Seq<(int, u32, Seq<u8>)>| 0 <= t < st.len() implies #[trigger] st[t](q) == next[t](q) by {
        if t == i {
            assert(next[t](q) =~= st[t](q) + f(q));
            assert(st[t](q) + f(q) =~= st[t](q));
        }
    }
    assert forall|t: int, q: Seq<(int, u32, Seq<u8>)>| 0 <= t < maps.len() implies #[trigger] sources_at(maps[t], q)
        == next[t](q) by {
        assert(st[t](q) == next[t](q));
    }
}

/// Passes the origins a statement produces to its target temp or local and
/// records in `changed` whether the target gained sources.  Enum shapes and
/// field names come from `facts`, callee summaries from `summaries`.
pub fn transfer_statement(
    function: &AmirFunc,
    statement: &AmirStmt,
    facts: &TypeFacts,
    summaries: &Vec<(SymbolId, ReturnBorrowSummary)>,
    temps: &mut Vec<OriginMap>,
    locals: &mut Vec<OriginMap>,
    changed: &mut bool,
)
    ensures
        holds_states(
            final(temps)@,
            temps_after(*function, *statement, *facts, summaries@, old(temps)@, old(locals)@),
        ),
        holds_states(
            final(locals)@,
            locals_after(*function, *statement, *facts, summaries@, old(temps)@, old(locals)@),
        ),
        *final(changed) == (*old(changed) || states_differ(
            states(old(temps)@),
            temps_after(*function, *statement, *facts, summaries@, old(temps)@, old(locals)@),
        ) || states_differ(
            states(old(locals)@),
            locals_after(*function, *statement, *facts, summaries@, old(temps)@, old(locals)@),
        )),
{
    let ghost t0 = temps@;
    let ghost l0 = locals@;
    let ghost prod = statement_sources(*function, *statement, *facts, summaries@, t0, l0);
    proof {
        lemma_holds_own_states(t0);
        lemma_holds_own_states(l0);
        lemma_grow_refl(states(t0));
        lemma_grow_refl(states(l0));
    }
    match statement {
        AmirStmt::Assign { lhs, rhs } => {
            let mut produced = rvalue_origins(function, facts, *lhs, rhs, temps, locals);
            proof {
                assert(state_of(produced) =~= prod);
            }
            merge_into(temps, *lhs, &mut produced, changed);
        },
        AmirStmt::Store { lhs, rhs } => {
            if lhs.projections.len() == 0 {
                let mut source = operand_origins(*rhs, temps);
                proof {
                    assert(state_of(source) =~= prod);
                }
                merge_into(locals, lhs.local, &mut source, changed);
            }
        },
        AmirStmt::Call { lhs, callee, args, .. } => {
            match (lhs, callee) {
                (Some(l), AmirOperand::FunctionRef(sym)) => {
                    match find_summary(summaries, *sym) {
                        Some(k) => {
                            let mut output = call_origins(&summaries[k].1, args, temps);
                            proof {
                                assert(state_of(output) =~= prod);
                            }
                            merge_into(temps, *l, &mut output, changed);
                        },
                        None => {
                            proof {
                                lemma_add_nothing(states(t0), *l as int, prod, t0);
                            }
                        },
                    }
                },
                _ => {},
            }
        },
        _ => {},
    }
}

proof fn lemma_add_to_grows(
    st: Seq<spec_fn(Seq<(int, u32, Seq<u8>)>) -> Set<(u32, Seq<(int, u32, Seq<u8>)>)>>,
    i: int,
    f: spec_fn(Seq<(int, u32, Seq<u8>)>) -> Set<(u32, Seq<(int, u32, Seq<u8>)>)>,
)
    ensures
        states_grow(st, add_to(st, i, f)),
{
    let next = add_to(st, i, f);
    assert forall|t: int, q: Seq<(int, u32, Seq<u8>)>| 0 <= t < st.len() implies #[trigger] st[t](q).subset_of(
        next[t](q),
    ) by {}
}

/// A statement only ever adds sources: every temp and every local keeps
/// the sources it had.
pub proof fn lemma_statement_only_adds(
    f: AmirFunc,
    s: AmirStmt,
    facts: TypeFacts,
    sums: Seq<(SymbolId, ReturnBorrowSummary)>,
    temps: Seq<OriginMap>,
    locals: Seq<OriginMap>,
)
    ensures
        states_grow(states(temps), temps_after(f, s, facts, sums, temps, locals)),
        states_grow(states(locals), locals_after(f, s, facts, sums, temps, locals)),
{
    let prod = statement_sources(f, s, facts, sums, temps, locals);
    match flows_to_temp(s) {
        Some(t) => lemma_add_to_grows(states(temps), t as int, prod),
        None => lemma_grow_refl(states(temps)),
    }
    match flows_to_local(s) {
        Some(l) => lemma_add_to_grows(states(locals), l as int, prod),
        None => lemma_grow_refl(states(locals)),
    }
}


/// The operand a view-like rvalue looks through: the owner of a slice or
/// string view, the slice of a subslice or of its data pointer, the string
/// whose bytes are taken.
pub open spec fn viewed_operand(rhs: AmirRvalue) -> Option<AmirOperand> {
    match rhs {
        AmirRvalue::SliceView { owner, .. } => Some(owner),
        AmirRvalue::StrView { owner } => Some(owner),
        AmirRvalue::SliceSubslice { slice, .. } => Some(slice),
        AmirRvalue::SliceData(slice) => Some(slice),
        AmirRvalue::StrBytes { source } => Some(source),
        _ => None,
    }
}

/// A view borrows from what it views: assigning a view-like rvalue (or a
/// plain use) of temp `t` adds exactly the origins of `t` to the target,
/// path by path, and leaves every other temp as it was.
pub proof fn lemma_view_passes_origins(
    f: AmirFunc,
    facts: TypeFacts,
    sums: Seq<(SymbolId, ReturnBorrowSummary)>,
    temps: Seq<OriginMap>,
    locals: Seq<OriginMap>,
    lhs: TempId,
    rhs: AmirRvalue,
    t: TempId,
)
    requires
        lhs < temps.len(),
        t < temps.len(),
        (viewed_operand(rhs) matches Some(op) && crate::amir::operand_temp(op) == Some(t)) || rhs == AmirRvalue::Use(
            AmirOperand::Copy(t),
        ) || rhs == AmirRvalue::Use(AmirOperand::Move(t)),
    ensures
        forall|q: Seq<(int, u32, Seq<u8>)>|
            #[trigger] temps_after(f, AmirStmt::Assign { lhs, rhs }, facts, sums, temps, locals)[lhs as int](q)
                == sources_at(temps[lhs as int], q) + sources_at(temps[t as int], q),
        forall|u: int, q: Seq<(int, u32, Seq<u8>)>|
            0 <= u < temps.len() && u != lhs ==> #[trigger] temps_after(
                f,
                AmirStmt::Assign { lhs, rhs },
                facts,
                sums,
                temps,
                locals,
            )[u](q) == sources_at(temps[u], q),
{
}

/// A borrow or load of a local takes the origins the local holds: the
/// target gains exactly those, path by path.
pub proof fn lemma_borrow_takes_local_origins(
    f: AmirFunc,
    facts: TypeFacts,
    sums: Seq<(SymbolId, ReturnBorrowSummary)>,
    temps: Seq<OriginMap>,
    locals: Seq<OriginMap>,
    lhs: TempId,
    rhs: AmirRvalue,
    l: LocalId,
)
    requires
        lhs < temps.len(),
        l < locals.len(),
        (rhs matches AmirRvalue::Borrow(p) && p.local == l) || (rhs matches AmirRvalue::BorrowMut(p) && p.local == l)
            || (rhs matches AmirRvalue::Load(p) && p.local == l) || (rhs matches AmirRvalue::RelativeBorrow {
            local,
            ..
        } && local == l),
    ensures
        forall|q: Seq<(int, u32, Seq<u8>)>|
            #[trigger] temps_after(f, AmirStmt::Assign { lhs, rhs }, facts, sums, temps, locals)[lhs as int](q)
                == sources_at(temps[lhs as int], q) + sources_at(locals[l as int], q),
{
}


/// An aggregate holds what its parts borrow, behind each part's segment:
/// tuple item `i` behind `Tuple(i)`, every array item behind the array
/// element, every struct field behind its name.
pub proof fn lemma_aggregate_keeps_part_origins(
    f: AmirFunc,
    facts: TypeFacts,
    sums: Seq<(SymbolId, ReturnBorrowSummary)>,
    temps: Seq<OriginMap>,
    locals: Seq<OriginMap>,
    lhs: TempId,
    rhs: AmirRvalue,
    i: int,
    t: TempId,
    q: Seq<(int, u32, Seq<u8>)>,
    x: (u32, Seq<(int, u32, Seq<u8>)>),
)
    requires
        lhs < temps.len(),
        t < temps.len(),
        sources_at(temps[t as int], q).contains(x),
    ensures
        rhs matches AmirRvalue::Tuple { items } && 0 <= i < items@.len() && i <= u32::MAX
            && crate::amir::operand_temp(items@[i]) == Some(t) ==> temps_after(
            f,
            AmirStmt::Assign { lhs, rhs },
            facts,
            sums,
            temps,
            locals,
        )[lhs as int](seq![(0int, i as u32, Seq::<u8>::empty())] + q).contains(x),
        rhs matches AmirRvalue::Array { items } && 0 <= i < items@.len() && crate::amir::operand_temp(items@[i])
            == Some(t) ==> temps_after(f, AmirStmt::Assign { lhs, rhs }, facts, sums, temps, locals)[lhs as int](
            seq![seg_view(BorrowPathSegment::ArrayElement)] + q,
        ).contains(x),
        rhs matches AmirRvalue::StructLiteral { fields, .. } && 0 <= i < fields@.len() && crate::amir::operand_temp(
            fields@[i].1,
        ) == Some(t) ==> temps_after(f, AmirStmt::Assign { lhs, rhs }, facts, sums, temps, locals)[lhs as int](
            seq![(2int, 0u32, rhs->StructLiteral_fields@[i].0@)] + q,
        ).contains(x),
{
    match rhs {
        AmirRvalue::Tuple { items } => {
            if 0 <= i < items@.len() && i <= u32::MAX && crate::amir::operand_temp(items@[i]) == Some(t) {
                let q2 = seq![(0int, i as u32, Seq::<u8>::empty())] + q;
                assert(q2.drop_first() == q);
                assert(aggregated_sources(items@, temps, q2).contains(x));
            }
        },
        AmirRvalue::Array { items } => {
            if 0 <= i < items@.len() && crate::amir::operand_temp(items@[i]) == Some(t) {
                let q2 = seq![seg_view(BorrowPathSegment::ArrayElement)] + q;
                assert(q2.drop_first() == q);
                assert(behind(seg_view(BorrowPathSegment::ArrayElement), items@[i], temps, q2).contains(x));
                assert(elements_sources(items@, temps, q2).contains(x));
            }
        },
        AmirRvalue::StructLiteral { fields, .. } => {
            if 0 <= i < fields@.len() && crate::amir::operand_temp(fields@[i].1) == Some(t) {
                let q2 = seq![(2int, 0u32, fields@[i].0@)] + q;
                assert(q2.drop_first() == q);
                assert(behind((2, 0u32, fields@[i].0@), fields@[i].1, temps, q2).contains(x));
                assert(fields_sources(fields@, temps, q2).contains(x));
            }
        },
        _ => {},
    }
}


/// A store into a whole local hands it what the stored temp borrows from,
/// and leaves every temp as it was; a store through a projection changes no
/// origin map.
pub proof fn lemma_store_passes_origins(
    f: AmirFunc,
    facts: TypeFacts,
    sums: Seq<(SymbolId, ReturnBorrowSummary)>,
    temps: Seq<OriginMap>,
    locals: Seq<OriginMap>,
    lhs: crate::amir::AmirPlace,
    rhs: AmirOperand,
    t: TempId,
)
    requires
        lhs.local < locals.len(),
        t < temps.len(),
        crate::amir::operand_temp(rhs) == Some(t),
    ensures
        lhs.projections@.len() == 0 ==> forall|q: Seq<(int, u32, Seq<u8>)>|
            #[trigger] locals_after(f, AmirStmt::Store { lhs, rhs }, facts, sums, temps, locals)[lhs.local as int](q)
                == sources_at(locals[lhs.local as int], q) + sources_at(temps[t as int], q),
        lhs.projections@.len() > 0 ==> locals_after(f, AmirStmt::Store { lhs, rhs }, facts, sums, temps, locals)
            == states(locals),
        temps_after(f, AmirStmt::Store { lhs, rhs }, facts, sums, temps, locals) == states(temps),
{
}

/// A constructed enum holds what its payload borrows, behind the segment of
/// its variant: `Some` for an option's variant 1, `Ok` and `Err` for a
/// result's variants 0 and 1, `Variant(tag)` otherwise.
pub proof fn lemma_construct_keeps_payload_origins(
    f: AmirFunc,
    facts: TypeFacts,
    sums: Seq<(SymbolId, ReturnBorrowSummary)>,
    temps: Seq<OriginMap>,
    locals: Seq<OriginMap>,
    lhs: TempId,
    tag: usize,
    payload: AmirOperand,
    t: TempId,
    q: Seq<(int, u32, Seq<u8>)>,
    x: (u32, Seq<(int, u32, Seq<u8>)>),
)
    requires
        lhs < temps.len(),
        lhs < f.temps@.len(),
        t < temps.len(),
        tag <= u32::MAX,
        crate::amir::operand_temp(payload) == Some(t),
        sources_at(temps[t as int], q).contains(x),
    ensures
        ({
            let shape = spec_type_shape(facts, f.temps@[lhs as int].ty);
            let seg = if shape == ValueShape::OptionType && tag == 1 {
                BorrowPathSegment::OptionSome
            } else if shape == ValueShape::ResultType && tag == 0 {
                BorrowPathSegment::ResultOk
            } else if shape == ValueShape::ResultType && tag == 1 {
                BorrowPathSegment::ResultErr
            } else {
                BorrowPathSegment::Variant(tag as u32)
            };
            temps_after(
                f,
                AmirStmt::Assign { lhs, rhs: AmirRvalue::EnumConstruct { variant_tag: tag, payload: Some(payload) } },
                facts,
                sums,
                temps,
                locals,
            )[lhs as int](seq![seg_view(seg)] + q).contains(x)
        }),
{
    let shape = spec_type_shape(facts, f.temps@[lhs as int].ty);
    let seg = if shape == ValueShape::OptionType && tag == 1 {
        BorrowPathSegment::OptionSome
    } else if shape == ValueShape::ResultType && tag == 0 {
        BorrowPathSegment::ResultOk
    } else if shape == ValueShape::ResultType && tag == 1 {
        BorrowPathSegment::ResultErr
    } else {
        BorrowPathSegment::Variant(tag as u32)
    };
    let q2 = seq![seg_view(seg)] + q;
    assert(q2.drop_first() == q);
    assert(construct_segment(f, facts, lhs, tag) == Some(seg_view(seg)));
    assert(behind(seg_view(seg), payload, temps, q2).contains(x));
}


proof fn lemma_param_fold_gets_arg(
    st: Seq<spec_fn(Seq<(int, u32, Seq<u8>)>) -> Set<(u32, Seq<(int, u32, Seq<u8>)>)>>,
    params: Seq<BlockParam>,
    args: Seq<AmirOperand>,
    j: int,
    k: nat,
    q: Seq<(int, u32, Seq<u8>)>,
)
    requires
        0 <= j < k,
        k <= params.len(),
        k <= args.len(),
        params[j].id < st.len(),
    ensures
        arg_state(args[j], st)(q).subset_of(param_fold(st, params, args, k)[params[j].id as int](q)),
    decreases k,
{
    let prev = param_fold(st, params, args, (k - 1) as nat);
    let next = param_fold(st, params, args, k);
    lemma_param_fold_grows(st, params, args, (k - 1) as nat);
    if k - 1 == j {
        match crate::amir::operand_temp(args[j]) {
            Some(t) => {
                if t < st.len() {
                    assert(st[t as int](q).subset_of(prev[t as int](q)));
                }
            },
            None => {},
        }
    } else {
        lemma_param_fold_gets_arg(st, params, args, j, (k - 1) as nat, q);
        let id = params[j].id as int;
        assert(prev[id](q).subset_of(next[id](q)));
    }
}

/// A jump hands each block parameter what its argument borrows from: after
/// the jump the parameter's temp has every source the argument's temp had,
/// path by path.
pub proof fn lemma_jump_passes_arg_origins(
    func: AmirFunc,
    st: Seq<spec_fn(Seq<(int, u32, Seq<u8>)>) -> Set<(u32, Seq<(int, u32, Seq<u8>)>)>>,
    target: BlockId,
    args: Seq<AmirOperand>,
    j: int,
    q: Seq<(int, u32, Seq<u8>)>,
)
    requires
        target < func.blocks@.len(),
        0 <= j < args.len(),
        j < func.block_params_spec(target as int).len(),
        func.block_params_spec(target as int)[j].id < st.len(),
    ensures
        arg_state(args[j], st)(q).subset_of(
            jump_state(func, st, target, args)[func.block_params_spec(target as int)[j].id as int](q),
        ),
{
    let params = func.block_params_spec(target as int);
    let k = if params.len() < args.len() {
        params.len()
    } else {
        args.len()
    };
    lemma_param_fold_gets_arg(st, params, args, j, k, q);
}

} // verus!
