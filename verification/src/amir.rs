//! The AMIR data model: functions made of basic blocks over a flat statement
//! table, SSA temps, stack locals and block parameters, plus the CFG edge
//! lists derived from the terminators.

use vstd::prelude::*;

verus! {

pub type BlockId = usize;

pub type TempId = usize;

pub type LocalId = usize;

pub type InstrId = usize;

pub type TypeId = u32;

/// A symbol of the program: the file that declares it and its index there.
#[derive(Clone, Copy, Debug, PartialEq, Eq, Structural)]
pub struct SymbolId {
    pub file_id: u32,
    pub local_id: u32,
}

/// A source location.
#[derive(Clone, Copy, Debug, PartialEq, Eq, Structural)]
pub struct Span {
    pub file_id: u32,
    pub start: u32,
    pub end: u32,
}

/// A contiguous range `start .. start + len` of a side table.
#[derive(Clone, Copy, Debug, PartialEq, Eq, Structural)]
pub struct DenseRange {
    pub start: usize,
    pub len: usize,
}

impl DenseRange {
    pub open spec fn end(self) -> int {
        self.start + self.len
    }

    pub fn new(start: usize, len: usize) -> (r: DenseRange)
        ensures
            r.start == start,
            r.len == len,
    {
        DenseRange { start, len }
    }

    pub fn empty() -> (r: DenseRange)
        ensures
            r.start == 0,
            r.len == 0,
    {
        DenseRange { start: 0, len: 0 }
    }

    pub fn is_empty(&self) -> (b: bool)
        ensures
            b == (self.len == 0),
    {
        self.len == 0
    }
}

#[derive(Clone, Copy, Debug, PartialEq, Eq, Structural)]
pub enum UnaryOp {
    Neg,
    Not,
    BitNot,
    Deref,
    Await,
}

#[derive(Clone, Copy, Debug, PartialEq, Eq, Structural)]
pub enum BinaryOp {
    Add,
    Sub,
    Mul,
    Div,
    Mod,
    BitOr,
    BitXor,
    BitAnd,
    ShiftLeft,
    ShiftRight,
    Equal,
    NotEqual,
    Lt,
    Gt,
    LtEqual,
    GtEqual,
    And,
    Or,
}

/// A compile-time constant: an entry of the literal pool, a boolean or `nil`.
#[derive(Clone, Copy, Debug, PartialEq, Eq, Structural)]
pub enum AmirConstant {
    Pool(usize),
    Bool(bool),
    Nil,
}

#[derive(Clone, Copy, Debug, PartialEq, Eq, Structural)]
pub enum AmirOperand {
    Constant(AmirConstant),
    Copy(TempId),
    Move(TempId),
    FunctionRef(SymbolId),
    GlobalRef(SymbolId),
}

#[derive(Clone, Copy, Debug, PartialEq, Eq, Structural)]
pub enum AmirProjection {
    Field(SymbolId),
    Index(AmirOperand),
    Deref,
}

#[derive(Clone, Debug)]
pub struct AmirPlace {
    pub local: LocalId,
    pub projections: Vec<AmirProjection>,
}

/// Which generational arena a `Gen*` rvalue talks to.
#[derive(Clone, Copy, Debug, PartialEq, Eq, Structural)]
pub struct GenArenaDomain {
    pub id: u32,
}

#[derive(Clone, Debug)]
pub enum AmirRvalue {
    Use(AmirOperand),
    Binary { op: BinaryOp, left: AmirOperand, right: AmirOperand },
    Unary { op: UnaryOp, operand: AmirOperand },
    FieldAccess { base: AmirOperand, field: usize },
    StructLiteral { struct_symbol: SymbolId, fields: Vec<(Vec<u8>, AmirOperand)> },
    IndexAccess { base: AmirOperand, index: AmirOperand },
    Array { items: Vec<AmirOperand> },
    Tuple { items: Vec<AmirOperand> },
    Discriminant { value: AmirOperand },
    EnumPayload { value: AmirOperand, variant: usize, index: usize },
    EnumConstruct { variant_tag: usize, payload: Option<AmirOperand> },
    Len(AmirOperand),
    SliceData(AmirOperand),
    SliceView { owner: AmirOperand, data: AmirOperand, len: AmirOperand },
    SliceSubslice { slice: AmirOperand, start: AmirOperand, len: AmirOperand },
    StrBytes { source: AmirOperand },
    StrView { owner: AmirOperand },
    Alloc(AmirOperand),
    Load(AmirPlace),
    Borrow(AmirPlace),
    BorrowMut(AmirPlace),
    RelativeBorrow { local: LocalId, mutable: bool },
    CoroutineReady { value: AmirOperand, payload_ty: TypeId, stack: bool },
    GenInsert { value: AmirOperand, payload_ty: TypeId, arena: GenArenaDomain, origin: u32 },
    GenGet { gen_ref: AmirOperand, payload_ty: TypeId, arena: GenArenaDomain, origin: u32 },
    GenSet {
        gen_ref: AmirOperand,
        value: AmirOperand,
        payload_ty: TypeId,
        arena: GenArenaDomain,
        origin: u32,
    },
    GenUpsert {
        gen_ref: AmirOperand,
        value: AmirOperand,
        payload_ty: TypeId,
        arena: GenArenaDomain,
        origin: u32,
    },
    GenRemove { gen_ref: AmirOperand, payload_ty: TypeId, arena: GenArenaDomain, origin: u32 },
    StringInterp { parts: Vec<AmirOperand> },
    ToStr { value: AmirOperand, src_ty: TypeId },
    BlackBox { value: AmirOperand, value_ty: TypeId },
}

/// One structural step of a borrow path in an exported borrow contract.
#[derive(Clone, Debug)]
pub enum BorrowPathSegment {
    Tuple(u32),
    Payload(u32),
    Field(Vec<u8>),
    Variant(u32),
    OptionSome,
    ResultOk,
    ResultErr,
    ArrayElement,
    NullableValue,
    CoroutinePayload,
    PollReady,
    RangeElement,
}

#[derive(Clone, Debug)]
pub struct BorrowPath(pub Vec<BorrowPathSegment>);

#[derive(Clone, Debug)]
pub struct BorrowSource {
    pub parameter_index: u32,
    pub parameter_path: BorrowPath,
}

#[derive(Clone, Debug)]
pub struct ReturnBorrowDependency {
    pub result_path: BorrowPath,
    pub sources: Vec<BorrowSource>,
}

/// Which inputs of a call a returned borrow may come from.
#[derive(Clone, Debug)]
pub struct ReturnBorrowSummary {
    pub dependencies: Vec<ReturnBorrowDependency>,
}

/// A path segment as a value: its variant, its number and its name bytes.
pub open spec fn seg_view(s: BorrowPathSegment) -> (int, u32, Seq<u8>) {
    match s {
        BorrowPathSegment::Tuple(i) => (0, i, seq![]),
        BorrowPathSegment::Payload(i) => (1, i, seq![]),
        BorrowPathSegment::Field(name) => (2, 0, name@),
        BorrowPathSegment::Variant(i) => (3, i, seq![]),
        BorrowPathSegment::OptionSome => (4, 0, seq![]),
        BorrowPathSegment::ResultOk => (5, 0, seq![]),
        BorrowPathSegment::ResultErr => (6, 0, seq![]),
        BorrowPathSegment::ArrayElement => (7, 0, seq![]),
        BorrowPathSegment::NullableValue => (8, 0, seq![]),
        BorrowPathSegment::CoroutinePayload => (9, 0, seq![]),
        BorrowPathSegment::PollReady => (10, 0, seq![]),
        BorrowPathSegment::RangeElement => (11, 0, seq![]),
    }
}

/// A path as a sequence of segment values.
pub open spec fn path_view(p: BorrowPath) -> Seq<(int, u32, Seq<u8>)> {
    p.0@.map_values(|s: BorrowPathSegment| seg_view(s))
}

/// A formal source as a value: the parameter index and the path in it.
pub open spec fn source_view(s: BorrowSource) -> (u32, Seq<(int, u32, Seq<u8>)>) {
    (s.parameter_index, path_view(s.parameter_path))
}

/// A dependency as a value: the result path and its sources.
pub open spec fn dependency_view(d: ReturnBorrowDependency) -> (
    Seq<(int, u32, Seq<u8>)>,
    Seq<(u32, Seq<(int, u32, Seq<u8>)>)>,
) {
    (path_view(d.result_path), d.sources@.map_values(|s: BorrowSource| source_view(s)))
}

/// A call's borrow summary as a value.
pub open spec fn return_borrow_view(r: Option<ReturnBorrowSummary>) -> Option<
    Seq<(Seq<(int, u32, Seq<u8>)>, Seq<(u32, Seq<(int, u32, Seq<u8>)>)>)>,
> {
    match r {
        Some(s) => Some(s.dependencies@.map_values(|d: ReturnBorrowDependency| dependency_view(d))),
        None => None,
    }
}

pub fn copy_bytes(v: &Vec<u8>) -> (r: Vec<u8>)
    ensures
        r@ == v@,
{
    let mut r: Vec<u8> = Vec::new();
    let n = v.len();
    let mut i: usize = 0;
    while i < n
        invariant
            n == v@.len(),
            i <= n,
            r@ == v@.take(i as int),
        decreases n - i,
    {
        r.push(v[i]);
        proof {
            assert(v@.take(i + 1) =~= v@.take(i as int).push(v@[i as int]));
        }
        i = i + 1;
    }
    proof {
        assert(v@.take(n as int) =~= v@);
    }
    r
}

pub fn copy_seg(s: &BorrowPathSegment) -> (r: BorrowPathSegment)
    ensures
        seg_view(r) == seg_view(*s),
{
    match s {
        BorrowPathSegment::Tuple(i) => BorrowPathSegment::Tuple(*i),
        BorrowPathSegment::Payload(i) => BorrowPathSegment::Payload(*i),
        BorrowPathSegment::Field(name) => BorrowPathSegment::Field(copy_bytes(name)),
        BorrowPathSegment::Variant(i) => BorrowPathSegment::Variant(*i),
        BorrowPathSegment::OptionSome => BorrowPathSegment::OptionSome,
        BorrowPathSegment::ResultOk => BorrowPathSegment::ResultOk,
        BorrowPathSegment::ResultErr => BorrowPathSegment::ResultErr,
        BorrowPathSegment::ArrayElement => BorrowPathSegment::ArrayElement,
        BorrowPathSegment::NullableValue => BorrowPathSegment::NullableValue,
        BorrowPathSegment::CoroutinePayload => BorrowPathSegment::CoroutinePayload,
        BorrowPathSegment::PollReady => BorrowPathSegment::PollReady,
        BorrowPathSegment::RangeElement => BorrowPathSegment::RangeElement,
    }
}

pub fn copy_path(p: &BorrowPath) -> (r: BorrowPath)
    ensures
        path_view(r) == path_view(*p),
{
    let mut out: Vec<BorrowPathSegment> = Vec::new();
    let n = p.0.len();
    let mut i: usize = 0;
    while i < n
        invariant
            n == p.0@.len(),
            i <= n,
            out@.len() == i,
            forall|k: int| 0 <= k < i ==> seg_view(#[trigger] out@[k]) == seg_view(p.0@[k]),
        decreases n - i,
    {
        out.push(copy_seg(&p.0[i]));
        i = i + 1;
    }
    let r = BorrowPath(out);
    proof {
        assert(path_view(r) =~= path_view(*p));
    }
    r
}

pub fn copy_source(s: &BorrowSource) -> (r: BorrowSource)
    ensures
        source_view(r) == source_view(*s),
{
    BorrowSource { parameter_index: s.parameter_index, parameter_path: copy_path(&s.parameter_path) }
}

fn copy_dependency(d: &ReturnBorrowDependency) -> (r: ReturnBorrowDependency)
    ensures
        dependency_view(r) == dependency_view(*d),
{
    let mut sources: Vec<BorrowSource> = Vec::new();
    let n = d.sources.len();
    let mut i: usize = 0;
    while i < n
        invariant
            n == d.sources@.len(),
            i <= n,
            sources@.len() == i,
            forall|k: int| 0 <= k < i ==> source_view(#[trigger] sources@[k]) == source_view(d.sources@[k]),
        decreases n - i,
    {
        sources.push(copy_source(&d.sources[i]));
        i = i + 1;
    }
    let r = ReturnBorrowDependency { result_path: copy_path(&d.result_path), sources };
    proof {
        assert(r.sources@.map_values(|s: BorrowSource| source_view(s)) =~= d.sources@.map_values(
            |s: BorrowSource| source_view(s),
        ));
    }
    r
}

/// A copy of a call's borrow summary.
pub fn copy_return_borrow(r: &Option<ReturnBorrowSummary>) -> (c: Option<ReturnBorrowSummary>)
    ensures
        return_borrow_view(c) == return_borrow_view(*r),
{
    match r {
        None => None,
        Some(s) => {
            let mut deps: Vec<ReturnBorrowDependency> = Vec::new();
            let n = s.dependencies.len();
            let mut i: usize = 0;
            while i < n
                invariant
                    n == s.dependencies@.len(),
                    i <= n,
                    deps@.len() == i,
                    forall|k: int| 0 <= k < i ==> dependency_view(#[trigger] deps@[k]) == dependency_view(
                        s.dependencies@[k],
                    ),
                decreases n - i,
            {
                deps.push(copy_dependency(&s.dependencies[i]));
                i = i + 1;
            }
            let c = ReturnBorrowSummary { dependencies: deps };
            proof {
                assert(c.dependencies@.map_values(|d: ReturnBorrowDependency| dependency_view(d))
                    =~= s.dependencies@.map_values(|d: ReturnBorrowDependency| dependency_view(d)));
            }
            Some(c)
        },
    }
}

#[derive(Clone, Debug)]
pub enum AmirStmt {
    Assign { lhs: TempId, rhs: AmirRvalue },
    Store { lhs: AmirPlace, rhs: AmirOperand },
    Call {
        lhs: Option<TempId>,
        callee: AmirOperand,
        args: Vec<AmirOperand>,
        return_borrow: Option<ReturnBorrowSummary>,
    },
    Free(AmirOperand),
    Destroy(AmirPlace),
    StorageLive(LocalId),
    StorageDead(LocalId),
    Nop,
}

/// One arm of a `SwitchInt`: the value, the target and its jump arguments.
#[derive(Clone, Debug)]
pub struct SwitchTarget {
    pub value: i128,
    pub target: BlockId,
    pub args: Vec<AmirOperand>,
}

/// The default arm of a `SwitchInt`.
#[derive(Clone, Debug)]
pub struct SwitchOtherwise {
    pub target: BlockId,
    pub args: Vec<AmirOperand>,
}

#[derive(Clone, Debug)]
pub enum AmirTerminator {
    Goto { target: BlockId, args: Vec<AmirOperand> },
    Branch {
        condition: AmirOperand,
        if_true: BlockId,
        true_args: Vec<AmirOperand>,
        if_false: BlockId,
        false_args: Vec<AmirOperand>,
    },
    SwitchInt {
        discriminant: AmirOperand,
        targets: Vec<SwitchTarget>,
        otherwise: SwitchOtherwise,
    },
    Suspend { future: AmirOperand, resume: BlockId, args: Vec<AmirOperand> },
    Return,
    Unreachable,
}

#[derive(Clone, Copy, Debug, PartialEq, Eq, Structural)]
pub struct AmirTemp {
    pub id: TempId,
    pub ty: TypeId,
    pub is_copy: bool,
    pub is_nullable: bool,
    pub span: Span,
}

#[derive(Clone, Copy, Debug, PartialEq, Eq, Structural)]
pub struct AmirLocal {
    pub id: LocalId,
    pub ty: TypeId,
    pub is_memory: bool,
    pub symbol: Option<SymbolId>,
    pub span: Span,
    pub use_span: Option<Span>,
}

/// An SSA block parameter (a φ node): the temp it defines and the local it
/// stands for.
#[derive(Clone, Copy, Debug, PartialEq, Eq, Structural)]
pub struct BlockParam {
    pub id: TempId,
    pub local: LocalId,
    pub ty: TypeId,
    pub moved: bool,
}

#[derive(Clone, Copy, Debug, PartialEq, Eq, Structural)]
pub struct ReceiverParam {
    pub temp: TempId,
}

#[derive(Clone, Debug)]
pub struct AmirBasicBlock {
    pub id: BlockId,
    pub statements: DenseRange,
    pub params: DenseRange,
    pub terminator: AmirTerminator,
}

/// Successor and predecessor lists of every block.
#[derive(Clone, Debug)]
pub struct CfgEdges {
    pub successors: Vec<Vec<BlockId>>,
    pub predecessors: Vec<Vec<BlockId>>,
}

#[derive(Clone, Debug)]
pub struct AmirFunc {
    pub symbol: SymbolId,
    pub return_type: TypeId,
    pub receiver: Option<ReceiverParam>,
    pub params: Vec<TempId>,
    pub locals: Vec<AmirLocal>,
    pub temps: Vec<AmirTemp>,
    pub blocks: Vec<AmirBasicBlock>,
    pub block_params: Vec<BlockParam>,
    pub stmts: Vec<AmirStmt>,
    pub cfg: CfgEdges,
}

// ---------------------------------------------------------------------------
// Control-flow specifications
// ---------------------------------------------------------------------------

/// The blocks a terminator may transfer control to, in operand order.
pub open spec fn terminator_targets(t: AmirTerminator) -> Seq<BlockId> {
    match t {
        AmirTerminator::Goto { target, .. } => seq![target],
        AmirTerminator::Suspend { resume, .. } => seq![resume],
        AmirTerminator::Branch { if_true, if_false, .. } => seq![if_true, if_false],
        AmirTerminator::SwitchInt { targets, otherwise, .. } => targets@.map_values(
            |s: SwitchTarget| s.target,
        ).push(otherwise.target),
        AmirTerminator::Return => seq![],
        AmirTerminator::Unreachable => seq![],
    }
}

pub open spec fn targets_in_range(t: AmirTerminator, n: nat) -> bool {
    forall|i: int| 0 <= i < terminator_targets(t).len() ==> #[trigger] terminator_targets(t)[i] < n
}

/// `preds` lists, in strictly increasing order, exactly the blocks whose
/// terminator targets `b`.
pub open spec fn is_pred_list(blocks: Seq<AmirBasicBlock>, b: int, preds: Seq<BlockId>) -> bool {
    &&& forall|i: int, j: int| 0 <= i < j < preds.len() ==> preds[i] < preds[j]
    &&& forall|i: int| 0 <= i < preds.len() ==> #[trigger] preds[i] < blocks.len()
    &&& forall|i: int|
        0 <= i < preds.len() ==> terminator_targets(blocks[preds[i] as int].terminator).contains(
            b as usize,
        )
    &&& forall|p: int|
        0 <= p < blocks.len() && #[trigger] terminator_targets(blocks[p].terminator).contains(
            b as usize,
        ) ==> preds.contains(p as usize)
}

/// The CFG edge lists agree with the terminators of `blocks`.
pub open spec fn cfg_matches(cfg: CfgEdges, blocks: Seq<AmirBasicBlock>) -> bool {
    &&& cfg.successors@.len() == blocks.len()
    &&& cfg.predecessors@.len() == blocks.len()
    &&& forall|b: int|
        0 <= b < blocks.len() ==> #[trigger] cfg.successors@[b]@ == terminator_targets(
            blocks[b].terminator,
        )
    &&& forall|b: int|
        0 <= b < blocks.len() ==> is_pred_list(blocks, b, #[trigger] cfg.predecessors@[b]@)
}

pub open spec fn blocks_targets_in_range(blocks: Seq<AmirBasicBlock>) -> bool {
    forall|b: int| 0 <= b < blocks.len() ==> targets_in_range(#[trigger] blocks[b].terminator, blocks.len())
}

// ---------------------------------------------------------------------------
// Operand specifications
// ---------------------------------------------------------------------------

/// The temp an operand reads, if any.
pub open spec fn operand_temp(op: AmirOperand) -> Option<TempId> {
    match op {
        AmirOperand::Copy(t) => Some(t),
        AmirOperand::Move(t) => Some(t),
        _ => None,
    }
}

pub open spec fn operand_ok(op: AmirOperand, nt: nat) -> bool {
    match operand_temp(op) {
        Some(t) => t < nt,
        None => true,
    }
}

pub open spec fn operands_ok(ops: Seq<AmirOperand>, nt: nat) -> bool {
    forall|i: int| 0 <= i < ops.len() ==> operand_ok(#[trigger] ops[i], nt)
}

/// The operands inside the index projections of a place.
pub open spec fn place_index_operands(projs: Seq<AmirProjection>) -> Seq<AmirOperand>
    decreases projs.len(),
{
    if projs.len() == 0 {
        seq![]
    } else {
        let rest = place_index_operands(projs.drop_last());
        match projs.last() {
            AmirProjection::Index(op) => rest.push(op),
            _ => rest,
        }
    }
}

/// Every operand an rvalue reads, in source order.
pub open spec fn rvalue_operands(rv: AmirRvalue) -> Seq<AmirOperand> {
    match rv {
        AmirRvalue::Use(op) => seq![op],
        AmirRvalue::Binary { left, right, .. } => seq![left, right],
        AmirRvalue::Unary { operand, .. } => seq![operand],
        AmirRvalue::FieldAccess { base, .. } => seq![base],
        AmirRvalue::StructLiteral { fields, .. } => fields@.map_values(
            |f: (Vec<u8>, AmirOperand)| f.1,
        ),
        AmirRvalue::IndexAccess { base, index } => seq![base, index],
        AmirRvalue::Array { items } => items@,
        AmirRvalue::Tuple { items } => items@,
        AmirRvalue::Discriminant { value } => seq![value],
        AmirRvalue::EnumPayload { value, .. } => seq![value],
        AmirRvalue::EnumConstruct { payload, .. } => match payload {
            Some(p) => seq![p],
            None => seq![],
        },
        AmirRvalue::Len(op) => seq![op],
        AmirRvalue::SliceData(op) => seq![op],
        AmirRvalue::SliceView { owner, data, len } => seq![owner, data, len],
        AmirRvalue::SliceSubslice { slice, start, len } => seq![slice, start, len],
        AmirRvalue::StrBytes { source } => seq![source],
        AmirRvalue::StrView { owner } => seq![owner],
        AmirRvalue::Alloc(op) => seq![op],
        AmirRvalue::Load(place) => place_index_operands(place.projections@),
        AmirRvalue::Borrow(place) => place_index_operands(place.projections@),
        AmirRvalue::BorrowMut(place) => place_index_operands(place.projections@),
        AmirRvalue::RelativeBorrow { .. } => seq![],
        AmirRvalue::CoroutineReady { value, .. } => seq![value],
        AmirRvalue::GenInsert { value, .. } => seq![value],
        AmirRvalue::GenGet { gen_ref, .. } => seq![gen_ref],
        AmirRvalue::GenSet { gen_ref, value, .. } => seq![gen_ref, value],
        AmirRvalue::GenUpsert { gen_ref, value, .. } => seq![gen_ref, value],
        AmirRvalue::GenRemove { gen_ref, .. } => seq![gen_ref],
        AmirRvalue::StringInterp { parts } => parts@,
        AmirRvalue::ToStr { value, .. } => seq![value],
        AmirRvalue::BlackBox { value, .. } => seq![value],
    }
}

/// Every operand a statement reads.
pub open spec fn stmt_operands(s: AmirStmt) -> Seq<AmirOperand> {
    match s {
        AmirStmt::Assign { rhs, .. } => rvalue_operands(rhs),
        AmirStmt::Store { lhs, rhs } => seq![rhs] + place_index_operands(lhs.projections@),
        AmirStmt::Call { callee, args, .. } => seq![callee] + args@,
        AmirStmt::Free(op) => seq![op],
        AmirStmt::Destroy(place) => place_index_operands(place.projections@),
        _ => seq![],
    }
}

/// Every operand a terminator reads: conditions and jump arguments.
pub open spec fn terminator_operands(t: AmirTerminator) -> Seq<AmirOperand> {
    match t {
        AmirTerminator::Goto { args, .. } => args@,
        AmirTerminator::Branch { condition, true_args, false_args, .. } => seq![condition]
            + true_args@ + false_args@,
        AmirTerminator::SwitchInt { discriminant, targets, otherwise } => seq![discriminant]
            + switch_args(targets@) + otherwise.args@,
        AmirTerminator::Suspend { future, args, .. } => seq![future] + args@,
        AmirTerminator::Return => seq![],
        AmirTerminator::Unreachable => seq![],
    }
}

pub open spec fn switch_args(targets: Seq<SwitchTarget>) -> Seq<AmirOperand>
    decreases targets.len(),
{
    if targets.len() == 0 {
        seq![]
    } else {
        switch_args(targets.drop_last()) + targets.last().args@
    }
}

/// The temp a statement defines, if any.
pub open spec fn stmt_def(s: AmirStmt) -> Option<TempId> {
    match s {
        AmirStmt::Assign { lhs, .. } => Some(lhs),
        AmirStmt::Call { lhs, .. } => lhs,
        _ => None,
    }
}

/// Locals a statement names directly.
pub open spec fn stmt_locals_ok(s: AmirStmt, nl: nat) -> bool {
    match s {
        AmirStmt::Assign { rhs, .. } => match rhs {
            AmirRvalue::Load(p) => p.local < nl,
            AmirRvalue::Borrow(p) => p.local < nl,
            AmirRvalue::BorrowMut(p) => p.local < nl,
            AmirRvalue::RelativeBorrow { local, .. } => local < nl,
            _ => true,
        },
        AmirStmt::Store { lhs, .. } => lhs.local < nl,
        AmirStmt::Destroy(p) => p.local < nl,
        AmirStmt::StorageLive(l) => l < nl,
        AmirStmt::StorageDead(l) => l < nl,
        _ => true,
    }
}

pub open spec fn stmt_ok(s: AmirStmt, nt: nat, nl: nat) -> bool {
    &&& operands_ok(stmt_operands(s), nt)
    &&& match stmt_def(s) {
        Some(t) => t < nt,
        None => true,
    }
    &&& stmt_locals_ok(s, nl)
}

// ---------------------------------------------------------------------------
// Function well-formedness
// ---------------------------------------------------------------------------

impl AmirFunc {
    /// The statement ids of block `b`, in order.
    pub open spec fn stmt_ids(self, b: int) -> Seq<InstrId> {
        let r = self.blocks@[b].statements;
        Seq::new(r.len as nat, |i: int| (r.start + i) as usize)
    }

    /// The statements of block `b`, in order.
    pub open spec fn block_stmts_spec(self, b: int) -> Seq<AmirStmt> {
        let r = self.blocks@[b].statements;
        self.stmts@.subrange(r.start as int, r.start + r.len)
    }

    /// The block parameters of block `b`, in order.
    pub open spec fn block_params_spec(self, b: int) -> Seq<BlockParam> {
        let r = self.blocks@[b].params;
        self.block_params@.subrange(r.start as int, r.start + r.len)
    }

    /// Ranges of block `b` lie inside their side tables.
    pub open spec fn block_ranges_ok(self, b: int) -> bool {
        &&& self.blocks@[b].statements.start + self.blocks@[b].statements.len <= self.stmts@.len()
        &&& self.blocks@[b].params.start + self.blocks@[b].params.len <= self.block_params@.len()
    }

    /// Structural validity that every pass relies on: ids in range, ranges in
    /// bounds and CFG lists that agree with the terminators.  Statement ranges
    /// of different blocks may still overlap; passes that rebuild the table
    /// report that as an internal error.
    pub open spec fn wf(self) -> bool {
        &&& self.wf_body()
        &&& cfg_matches(self.cfg, self.blocks@)
    }

    /// `wf` without the agreement of the CFG lists with the terminators:
    /// passes that rewrite terminators leave the lists stale until the CFG is
    /// simplified again.
    pub open spec fn wf_body(self) -> bool {
        let nb = self.blocks@.len();
        let nt = self.temps@.len();
        let nl = self.locals@.len();
        &&& forall|b: int| 0 <= b < nb ==> #[trigger] self.blocks@[b].id == b
        &&& forall|b: int| 0 <= b < nb ==> #[trigger] self.block_ranges_ok(b)
        &&& blocks_targets_in_range(self.blocks@)
        &&& forall|b: int|
            0 <= b < nb ==> operands_ok(
                terminator_operands(#[trigger] self.blocks@[b].terminator),
                nt,
            )
        &&& forall|i: int| 0 <= i < self.stmts@.len() ==> stmt_ok(#[trigger] self.stmts@[i], nt, nl)
        &&& forall|i: int|
            0 <= i < self.block_params@.len() ==> #[trigger] self.block_params@[i].id < nt
                && self.block_params@[i].local < nl
        &&& forall|i: int| 0 <= i < self.params@.len() ==> #[trigger] self.params@[i] < nt
        &&& match self.receiver {
            Some(r) => r.temp < nt,
            None => true,
        }
    }

    /// `wf_body` without the bound on local ids: what the passes that never
    /// look at locals (DCE, CFG simplification) rely on.
    pub open spec fn wf_shape(self) -> bool {
        let nb = self.blocks@.len();
        let nt = self.temps@.len();
        &&& forall|b: int| 0 <= b < nb ==> #[trigger] self.blocks@[b].id == b
        &&& forall|b: int| 0 <= b < nb ==> #[trigger] self.block_ranges_ok(b)
        &&& blocks_targets_in_range(self.blocks@)
        &&& forall|b: int|
            0 <= b < nb ==> operands_ok(
                terminator_operands(#[trigger] self.blocks@[b].terminator),
                nt,
            )
        &&& forall|i: int| 0 <= i < self.stmts@.len() ==> stmt_temps_ok(#[trigger] self.stmts@[i], nt)
        &&& forall|i: int| 0 <= i < self.block_params@.len() ==> #[trigger] self.block_params@[i].id < nt
        &&& forall|i: int| 0 <= i < self.params@.len() ==> #[trigger] self.params@[i] < nt
        &&& match self.receiver {
            Some(r) => r.temp < nt,
            None => true,
        }
    }

    /// `wf_shape` together with CFG lists that agree with the terminators.
    pub open spec fn wf_shape_cfg(self) -> bool {
        &&& self.wf_shape()
        &&& cfg_matches(self.cfg, self.blocks@)
    }

    /// Every local id that statements and block parameters name is below `nl`.
    pub open spec fn locals_ok(self, nl: nat) -> bool {
        &&& forall|i: int| 0 <= i < self.stmts@.len() ==> stmt_locals_ok(#[trigger] self.stmts@[i], nl)
        &&& forall|i: int| 0 <= i < self.block_params@.len() ==> #[trigger] self.block_params@[i].local < nl
    }
}

/// The temps part of `stmt_ok`.
pub open spec fn stmt_temps_ok(s: AmirStmt, nt: nat) -> bool {
    &&& operands_ok(stmt_operands(s), nt)
    &&& match stmt_def(s) {
        Some(t) => t < nt,
        None => true,
    }
}

/// `wf_body` is `wf_shape` plus the bound on local ids.
pub proof fn lemma_wf_body_parts(f: AmirFunc)
    ensures
        f.wf_body() <==> f.wf_shape() && f.locals_ok(f.locals@.len()),
{
    if f.wf_shape() && f.locals_ok(f.locals@.len()) {
        assert forall|i: int| 0 <= i < f.stmts@.len() implies stmt_ok(
            #[trigger] f.stmts@[i],
            f.temps@.len(),
            f.locals@.len(),
        ) by {
            assert(stmt_temps_ok(f.stmts@[i], f.temps@.len()));
            assert(stmt_locals_ok(f.stmts@[i], f.locals@.len()));
        }
        assert forall|i: int| 0 <= i < f.block_params@.len() implies #[trigger] f.block_params@[i].id
            < f.temps@.len() && f.block_params@[i].local < f.locals@.len() by {
            assert(f.block_params@[i].local < f.locals@.len());
        }
    }
    if f.wf_body() {
        assert forall|i: int| 0 <= i < f.stmts@.len() implies stmt_temps_ok(#[trigger] f.stmts@[i], f.temps@.len())
            && stmt_locals_ok(f.stmts@[i], f.locals@.len()) by {
            assert(stmt_ok(f.stmts@[i], f.temps@.len(), f.locals@.len()));
        }
        assert forall|i: int| 0 <= i < f.block_params@.len() implies #[trigger] f.block_params@[i].local
            < f.locals@.len() by {
            assert(f.block_params@[i].id < f.temps@.len());
        }
    }
}

/// Every statement and block parameter of `new` occurs in `old`.
pub open spec fn drawn_from(old: AmirFunc, new: AmirFunc) -> bool {
    &&& forall|i: int| 0 <= i < new.stmts@.len() ==> old.stmts@.contains(#[trigger] new.stmts@[i])
    &&& forall|i: int|
        0 <= i < new.block_params@.len() ==> old.block_params@.contains(#[trigger] new.block_params@[i])
}

/// Drawing statements and parameters from a function keeps its local ids in
/// bounds.
pub proof fn lemma_drawn_locals(old: AmirFunc, new: AmirFunc, nl: nat)
    requires
        drawn_from(old, new),
        old.locals_ok(nl),
    ensures
        new.locals_ok(nl),
{
    assert forall|i: int| 0 <= i < new.stmts@.len() implies stmt_locals_ok(#[trigger] new.stmts@[i], nl) by {
        let j = choose|j: int| 0 <= j < old.stmts@.len() && old.stmts@[j] == new.stmts@[i];
        assert(stmt_locals_ok(old.stmts@[j], nl));
    }
    assert forall|i: int| 0 <= i < new.block_params@.len() implies #[trigger] new.block_params@[i].local < nl by {
        let j = choose|j: int| 0 <= j < old.block_params@.len() && old.block_params@[j] == new.block_params@[i];
        assert(old.block_params@[j].local < nl);
    }
}

pub proof fn lemma_drawn_trans(a: AmirFunc, b: AmirFunc, c: AmirFunc)
    requires
        drawn_from(a, b),
        drawn_from(b, c),
    ensures
        drawn_from(a, c),
{
    assert forall|i: int| 0 <= i < c.stmts@.len() implies a.stmts@.contains(#[trigger] c.stmts@[i]) by {
        let j = choose|j: int| 0 <= j < b.stmts@.len() && b.stmts@[j] == c.stmts@[i];
        assert(a.stmts@.contains(b.stmts@[j]));
    }
    assert forall|i: int| 0 <= i < c.block_params@.len() implies a.block_params@.contains(
        #[trigger] c.block_params@[i],
    ) by {
        let j = choose|j: int| 0 <= j < b.block_params@.len() && b.block_params@[j] == c.block_params@[i];
        assert(a.block_params@.contains(b.block_params@[j]));
    }
}

// ---------------------------------------------------------------------------
// CFG construction
// ---------------------------------------------------------------------------

/// The targets of every arm of a switch followed by its default target.
pub fn switch_targets_list(targets: &Vec<SwitchTarget>, otherwise: BlockId) -> (r: Vec<BlockId>)
    ensures
        r@ == targets@.map_values(|s: SwitchTarget| s.target).push(otherwise),
{
    let mut out: Vec<BlockId> = Vec::new();
    let n = targets.len();
    let mut i: usize = 0;
    while i < n
        invariant
            n == targets@.len(),
            i <= n,
            out@ == targets@.map_values(|s: SwitchTarget| s.target).take(i as int),
        decreases n - i,
    {
        out.push(targets[i].target);
        proof {
            let ts = targets@.map_values(|s: SwitchTarget| s.target);
            assert(ts.take(i + 1) == ts.take(i as int).push(ts[i as int]));
        }
        i = i + 1;
    }
    out.push(otherwise);
    proof {
        let ts = targets@.map_values(|s: SwitchTarget| s.target);
        assert(ts.take(n as int) == ts);
    }
    out
}

/// The targets of a terminator as a list.
pub fn successor_list(t: &AmirTerminator) -> (r: Vec<BlockId>)
    ensures
        r@ == terminator_targets(*t),
{
    match t {
        AmirTerminator::Goto { target, .. } => {
            let mut v: Vec<BlockId> = Vec::new();
            v.push(*target);
            v
        },
        AmirTerminator::Suspend { resume, .. } => {
            let mut v: Vec<BlockId> = Vec::new();
            v.push(*resume);
            v
        },
        AmirTerminator::Branch { if_true, if_false, .. } => {
            let mut v: Vec<BlockId> = Vec::new();
            v.push(*if_true);
            v.push(*if_false);
            v
        },
        AmirTerminator::SwitchInt { targets, otherwise, .. } => switch_targets_list(
            targets,
            otherwise.target,
        ),
        AmirTerminator::Return => Vec::new(),
        AmirTerminator::Unreachable => Vec::new(),
    }
}

/// Successor and predecessor lists computed from the terminators.
pub fn compute_cfg_edges(blocks: &Vec<AmirBasicBlock>) -> (cfg: CfgEdges)
    requires
        blocks_targets_in_range(blocks@),
    ensures
        cfg_matches(cfg, blocks@),
{
    let n = blocks.len();
    let mut successors: Vec<Vec<BlockId>> = Vec::new();
    let mut predecessors: Vec<Vec<BlockId>> = Vec::new();
    let mut b: usize = 0;
    while b < n
        invariant
            n == blocks@.len(),
            b <= n,
            successors@.len() == b,
            predecessors@.len() == b,
            forall|i: int| 0 <= i < b ==> (#[trigger] successors@[i])@ == terminator_targets(blocks@[i].terminator),
            forall|i: int| 0 <= i < b ==> (#[trigger] predecessors@[i])@.len() == 0,
        decreases n - b,
    {
        successors.push(successor_list(&blocks[b].terminator));
        predecessors.push(Vec::new());
        b = b + 1;
    }
    let mut p: usize = 0;
    while p < n
        invariant
            n == blocks@.len(),
            p <= n,
            blocks_targets_in_range(blocks@),
            successors@.len() == n,
            predecessors@.len() == n,
            forall|i: int| 0 <= i < n ==> (#[trigger] successors@[i])@ == terminator_targets(blocks@[i].terminator),
            forall|s: int| 0 <= s < n ==> preds_upto(blocks@, s, #[trigger] predecessors@[s]@, p as int),
        decreases n - p,
    {
        let succ = &successors[p];
        let m = succ.len();
        let mut k: usize = 0;
        while k < m
            invariant
                n == blocks@.len(),
                p < n,
                k <= m,
                m == succ@.len(),
                succ@ == terminator_targets(blocks@[p as int].terminator),
                blocks_targets_in_range(blocks@),
                predecessors@.len() == n,
                forall|s: int|
                    0 <= s < n ==> preds_partial(blocks@, s, #[trigger] predecessors@[s]@, p as int, k as int),
            decreases m - k,
        {
            let s = succ[k];
            assert(targets_in_range(blocks@[p as int].terminator, n as nat));
            assert(succ@[k as int] < n);
            let len = predecessors[s].len();
            let fresh = len == 0 || predecessors[s][len - 1] != p;
            if fresh {
                let ghost before = predecessors@;
                predecessors[s].push(p);
                proof {
                    assert forall|x: int| 0 <= x < n implies preds_partial(
                        blocks@,
                        x,
                        #[trigger] predecessors@[x]@,
                        p as int,
                        k + 1,
                    ) by {
                        lemma_take_push_contains(succ@, k as int, x);
                        if x != s {
                            assert(predecessors@[x] == before[x]);
                        } else {
                            let ps = predecessors@[x]@;
                            let olds = before[x]@;
                            assert(ps == olds.push(p));
                            assert(preds_partial(blocks@, x, olds, p as int, k as int));
                            if olds.contains(p) {
                                assert(olds[olds.len() - 1] == p);
                                assert(false);
                            }
                            assert forall|i: int| 0 <= i < olds.len() implies #[trigger] olds[i] < p by {
                                if olds[i] == p {
                                    assert(olds.contains(p));
                                }
                            }
                            assert forall|i: int, j: int| 0 <= i < j < ps.len() implies ps[i] < ps[j] by {
                                if j == ps.len() - 1 {
                                    assert(ps[i] == olds[i]);
                                } else {
                                    assert(ps[i] == olds[i] && ps[j] == olds[j]);
                                }
                            }
                            assert forall|q: int| 0 <= q < p && #[trigger] terminator_targets(
                                blocks@[q].terminator,
                            ).contains(x as usize) implies ps.contains(q as usize) by {
                                assert(olds.contains(q as usize));
                                let w = choose|w: int| 0 <= w < olds.len() && olds[w] == q as usize;
                                assert(ps[w] == q as usize);
                            }
                            assert forall|i: int| 0 <= i < ps.len() implies terminator_targets(
                                blocks@[ps[i] as int].terminator,
                            ).contains(x as usize) by {
                                if i == ps.len() - 1 {
                                    assert(succ@.take(k + 1).contains(x as usize));
                                    let w = choose|w: int| 0 <= w < k + 1 && #[trigger] succ@.take(k + 1)[w] == x as usize;
                                    assert(succ@[w] == x as usize);
                                } else {
                                    assert(ps[i] == olds[i]);
                                }
                            }
                            assert(ps[ps.len() - 1] == p);
                            assert(ps.contains(p));
                        }
                    }
                }
            } else {
                proof {
                    assert forall|x: int| 0 <= x < n implies preds_partial(
                        blocks@,
                        x,
                        #[trigger] predecessors@[x]@,
                        p as int,
                        k + 1,
                    ) by {
                        lemma_take_push_contains(succ@, k as int, x);
                        if x == s {
                            let ps = predecessors@[x]@;
                            assert(ps[ps.len() - 1] == p);
                        }
                    }
                }
            }
            k = k + 1;
        }
        proof {
            assert(succ@.take(m as int) == succ@);
            assert forall|x: int| 0 <= x < n implies preds_upto(blocks@, x, #[trigger] predecessors@[x]@, p + 1) by {
                let ps = predecessors@[x]@;
                assert(preds_partial(blocks@, x, ps, p as int, m as int));
            }
        }
        p = p + 1;
    }
    proof {
        assert forall|x: int| 0 <= x < n implies is_pred_list(blocks@, x, #[trigger] predecessors@[x]@) by {
            assert(preds_upto(blocks@, x, predecessors@[x]@, n as int));
        }
    }
    CfgEdges { successors, predecessors }
}

/// `preds` is the predecessor list of `s` restricted to blocks below `p`.
pub open spec fn preds_upto(blocks: Seq<AmirBasicBlock>, s: int, preds: Seq<BlockId>, p: int) -> bool {
    &&& forall|i: int, j: int| 0 <= i < j < preds.len() ==> preds[i] < preds[j]
    &&& forall|i: int| 0 <= i < preds.len() ==> #[trigger] preds[i] < p
    &&& forall|i: int|
        0 <= i < preds.len() ==> terminator_targets(blocks[preds[i] as int].terminator).contains(
            s as usize,
        )
    &&& forall|q: int|
        0 <= q < p && #[trigger] terminator_targets(blocks[q].terminator).contains(s as usize)
            ==> preds.contains(q as usize)
}

/// `preds_upto` after the first `k` targets of block `p` were also seen.
pub open spec fn preds_partial(
    blocks: Seq<AmirBasicBlock>,
    s: int,
    preds: Seq<BlockId>,
    p: int,
    k: int,
) -> bool {
    let seen = terminator_targets(blocks[p].terminator).take(k).contains(s as usize);
    &&& forall|i: int, j: int| 0 <= i < j < preds.len() ==> preds[i] < preds[j]
    &&& forall|i: int| 0 <= i < preds.len() ==> #[trigger] preds[i] <= p
    &&& forall|i: int|
        0 <= i < preds.len() ==> terminator_targets(blocks[preds[i] as int].terminator).contains(
            s as usize,
        )
    &&& forall|q: int|
        0 <= q < p && #[trigger] terminator_targets(blocks[q].terminator).contains(s as usize)
            ==> preds.contains(q as usize)
    &&& (preds.contains(p as usize) <==> seen)
    &&& (preds.contains(p as usize) ==> preds[preds.len() - 1] == p)
}

pub proof fn lemma_take_push_contains(s: Seq<BlockId>, k: int, x: int)
    requires
        0 <= k < s.len(),
        0 <= x <= usize::MAX,
    ensures
        s.take(k + 1).contains(x as usize) == (s.take(k).contains(x as usize) || s[k] == x),
{
    assert(s.take(k + 1) == s.take(k).push(s[k]));
    if s.take(k + 1).contains(x as usize) {
        let w = choose|w: int| 0 <= w < k + 1 && #[trigger] s.take(k + 1)[w] == x as usize;
        if w < k {
            assert(s.take(k)[w] == x as usize);
        }
    }
    if s.take(k).contains(x as usize) {
        let w = choose|w: int| 0 <= w < k && #[trigger] s.take(k)[w] == x as usize;
        assert(s.take(k + 1)[w] == x as usize);
    }
    if s[k] == x {
        assert(s.take(k + 1)[k] == x as usize);
    }
}

// ---------------------------------------------------------------------------
// Operand lists
// ---------------------------------------------------------------------------

fn push_all(out: &mut Vec<AmirOperand>, v: &Vec<AmirOperand>)
    ensures
        final(out)@ == old(out)@ + v@,
{
    let n = v.len();
    let ghost o = out@;
    let mut i: usize = 0;
    while i < n
        invariant
            n == v@.len(),
            i <= n,
            out@ == o + v@.take(i as int),
        decreases n - i,
    {
        out.push(v[i]);
        proof {
            assert(v@.take(i + 1) == v@.take(i as int).push(v@[i as int]));
        }
        i = i + 1;
    }
    assert(v@.take(n as int) == v@);
}

/// The operands of the index projections of a place, in order.
pub fn place_index_operand_list(projs: &Vec<AmirProjection>) -> (r: Vec<AmirOperand>)
    ensures
        r@ == place_index_operands(projs@),
{
    let mut out: Vec<AmirOperand> = Vec::new();
    let n = projs.len();
    let mut i: usize = 0;
    while i < n
        invariant
            n == projs@.len(),
            i <= n,
            out@ == place_index_operands(projs@.take(i as int)),
        decreases n - i,
    {
        proof {
            assert(projs@.take(i + 1).drop_last() == projs@.take(i as int));
        }
        match projs[i] {
            AmirProjection::Index(op) => out.push(op),
            _ => {},
        }
        i = i + 1;
    }
    assert(projs@.take(n as int) == projs@);
    out
}

/// The operands an rvalue reads, in order.
pub fn rvalue_operand_list(rv: &AmirRvalue) -> (r: Vec<AmirOperand>)
    ensures
        r@ == rvalue_operands(*rv),
{
    let mut out: Vec<AmirOperand> = Vec::new();
    match rv {
        AmirRvalue::Use(op) => out.push(*op),
        AmirRvalue::Binary { left, right, .. } => {
            out.push(*left);
            out.push(*right);
        },
        AmirRvalue::Unary { operand, .. } => out.push(*operand),
        AmirRvalue::FieldAccess { base, .. } => out.push(*base),
        AmirRvalue::StructLiteral { fields, .. } => {
            let n = fields.len();
            let mut i: usize = 0;
            while i < n
                invariant
                    n == fields@.len(),
                    i <= n,
                    out@ == fields@.map_values(|f: (Vec<u8>, AmirOperand)| f.1).take(i as int),
                decreases n - i,
            {
                out.push(fields[i].1);
                proof {
                    let m = fields@.map_values(|f: (Vec<u8>, AmirOperand)| f.1);
                    assert(m.take(i + 1) == m.take(i as int).push(m[i as int]));
                }
                i = i + 1;
            }
            proof {
                let m = fields@.map_values(|f: (Vec<u8>, AmirOperand)| f.1);
                assert(m.take(n as int) == m);
            }
        },
        AmirRvalue::IndexAccess { base, index } => {
            out.push(*base);
            out.push(*index);
        },
        AmirRvalue::Array { items } => push_all(&mut out, items),
        AmirRvalue::Tuple { items } => push_all(&mut out, items),
        AmirRvalue::Discriminant { value } => out.push(*value),
        AmirRvalue::EnumPayload { value, .. } => out.push(*value),
        AmirRvalue::EnumConstruct { payload, .. } => match payload {
            Some(p) => out.push(*p),
            None => {},
        },
        AmirRvalue::Len(op) => out.push(*op),
        AmirRvalue::SliceData(op) => out.push(*op),
        AmirRvalue::SliceView { owner, data, len } => {
            out.push(*owner);
            out.push(*data);
            out.push(*len);
        },
        AmirRvalue::SliceSubslice { slice, start, len } => {
            out.push(*slice);
            out.push(*start);
            out.push(*len);
        },
        AmirRvalue::StrBytes { source } => out.push(*source),
        AmirRvalue::StrView { owner } => out.push(*owner),
        AmirRvalue::Alloc(op) => out.push(*op),
        AmirRvalue::Load(place) => {
            return place_index_operand_list(&place.projections);
        },
        AmirRvalue::Borrow(place) => {
            return place_index_operand_list(&place.projections);
        },
        AmirRvalue::BorrowMut(place) => {
            return place_index_operand_list(&place.projections);
        },
        AmirRvalue::RelativeBorrow { .. } => {},
        AmirRvalue::CoroutineReady { value, .. } => out.push(*value),
        AmirRvalue::GenInsert { value, .. } => out.push(*value),
        AmirRvalue::GenGet { gen_ref, .. } => out.push(*gen_ref),
        AmirRvalue::GenSet { gen_ref, value, .. } => {
            out.push(*gen_ref);
            out.push(*value);
        },
        AmirRvalue::GenUpsert { gen_ref, value, .. } => {
            out.push(*gen_ref);
            out.push(*value);
        },
        AmirRvalue::GenRemove { gen_ref, .. } => out.push(*gen_ref),
        AmirRvalue::StringInterp { parts } => push_all(&mut out, parts),
        AmirRvalue::ToStr { value, .. } => out.push(*value),
        AmirRvalue::BlackBox { value, .. } => out.push(*value),
    }
    assert(out@ =~= rvalue_operands(*rv));
    out
}

/// The operands a statement reads, in order.
pub fn stmt_operand_list(s: &AmirStmt) -> (r: Vec<AmirOperand>)
    ensures
        r@ == stmt_operands(*s),
{
    match s {
        AmirStmt::Assign { rhs, .. } => rvalue_operand_list(rhs),
        AmirStmt::Store { lhs, rhs } => {
            let mut out: Vec<AmirOperand> = Vec::new();
            out.push(*rhs);
            let idx = place_index_operand_list(&lhs.projections);
            push_all(&mut out, &idx);
            out
        },
        AmirStmt::Call { callee, args, .. } => {
            let mut out: Vec<AmirOperand> = Vec::new();
            out.push(*callee);
            push_all(&mut out, args);
            out
        },
        AmirStmt::Free(op) => {
            let mut out: Vec<AmirOperand> = Vec::new();
            out.push(*op);
            out
        },
        AmirStmt::Destroy(place) => place_index_operand_list(&place.projections),
        _ => {
            let out: Vec<AmirOperand> = Vec::new();
            assert(out@ =~= stmt_operands(*s));
            out
        },
    }
}

/// The operands a terminator reads, in order.
pub fn terminator_operand_list(t: &AmirTerminator) -> (r: Vec<AmirOperand>)
    ensures
        r@ == terminator_operands(*t),
{
    let mut out: Vec<AmirOperand> = Vec::new();
    match t {
        AmirTerminator::Goto { args, .. } => push_all(&mut out, args),
        AmirTerminator::Branch { condition, true_args, false_args, .. } => {
            out.push(*condition);
            push_all(&mut out, true_args);
            push_all(&mut out, false_args);
        },
        AmirTerminator::SwitchInt { discriminant, targets, otherwise } => {
            out.push(*discriminant);
            let n = targets.len();
            let ghost base = out@;
            let mut i: usize = 0;
            while i < n
                invariant
                    n == targets@.len(),
                    i <= n,
                    out@ == base + switch_args(targets@.take(i as int)),
                decreases n - i,
            {
                push_all(&mut out, &targets[i].args);
                proof {
                    assert(targets@.take(i + 1).drop_last() == targets@.take(i as int));
                    assert(targets@.take(i + 1).last() == targets@[i as int]);
                }
                i = i + 1;
            }
            assert(targets@.take(n as int) == targets@);
            push_all(&mut out, &otherwise.args);
        },
        AmirTerminator::Suspend { future, args, .. } => {
            out.push(*future);
            push_all(&mut out, args);
        },
        AmirTerminator::Return => {},
        AmirTerminator::Unreachable => {},
    }
    assert(out@ =~= terminator_operands(*t));
    out
}

/// Some operand of `ops` reads temp `t`.
pub open spec fn uses_temp(ops: Seq<AmirOperand>, t: TempId) -> bool {
    exists|k: int| 0 <= k < ops.len() && operand_temp(ops[k]) == Some(t)
}

/// The temps an operand list reads, in order, one per reading operand.
pub fn operand_temps(ops: &Vec<AmirOperand>) -> (r: Vec<TempId>)
    ensures
        forall|t: TempId| r@.contains(t) <==> uses_temp(ops@, t),
        forall|i: int| 0 <= i < r@.len() ==> uses_temp(ops@, #[trigger] r@[i]),
{
    let mut out: Vec<TempId> = Vec::new();
    let n = ops.len();
    let mut i: usize = 0;
    while i < n
        invariant
            n == ops@.len(),
            i <= n,
            forall|t: TempId| out@.contains(t) <==> uses_temp(ops@.take(i as int), t),
        decreases n - i,
    {
        let ghost before = out@;
        match ops[i] {
            AmirOperand::Copy(t) => out.push(t),
            AmirOperand::Move(t) => out.push(t),
            _ => {},
        }
        proof {
            let a = ops@.take(i as int);
            let b = ops@.take(i + 1);
            assert forall|t: TempId| out@.contains(t) <==> uses_temp(b, t) by {
                if uses_temp(b, t) {
                    let k = choose|k: int| 0 <= k < b.len() && operand_temp(b[k]) == Some(t);
                    if k < i {
                        assert(a[k] == b[k]);
                        assert(before.contains(t));
                        let w = choose|w: int| 0 <= w < before.len() && before[w] == t;
                        assert(out@[w] == t);
                    } else {
                        assert(out@[out@.len() - 1] == t);
                    }
                }
                if out@.contains(t) {
                    let w = choose|w: int| 0 <= w < out@.len() && out@[w] == t;
                    if w < before.len() {
                        assert(before.contains(t));
                        let k = choose|k: int| 0 <= k < a.len() && operand_temp(a[k]) == Some(t);
                        assert(b[k] == a[k]);
                    } else {
                        assert(operand_temp(b[i as int]) == Some(t));
                    }
                }
            }
        }
        i = i + 1;
    }
    assert(ops@.take(n as int) == ops@);
    proof {
        assert forall|i: int| 0 <= i < out@.len() implies uses_temp(ops@, #[trigger] out@[i]) by {
            assert(out@.contains(out@[i]));
        }
    }
    out
}


/// Sum of the statement-range lengths of the first `b` blocks.
pub open spec fn range_total(func: AmirFunc, b: int) -> nat
    decreases b,
{
    if b <= 0 {
        0
    } else {
        range_total(func, b - 1) + func.blocks@[b - 1].statements.len as nat
    }
}

pub proof fn lemma_range_total_mono(func: AmirFunc, a: int, b: int)
    requires
        0 <= a <= b <= func.blocks@.len(),
    ensures
        range_total(func, a) <= range_total(func, b),
    decreases b - a,
{
    if a < b {
        lemma_range_total_mono(func, a, b - 1);
    }
}


/// Range totals depend only on the statement ranges of the blocks.
pub proof fn lemma_range_total_same(f: AmirFunc, g: AmirFunc, k: int)
    requires
        0 <= k <= f.blocks@.len(),
        f.blocks@.len() == g.blocks@.len(),
        forall|b: int| 0 <= b < f.blocks@.len() ==> #[trigger] f.blocks@[b].statements == g.blocks@[b].statements,
    ensures
        range_total(f, k) == range_total(g, k),
    decreases k,
{
    if k > 0 {
        lemma_range_total_same(f, g, k - 1);
        assert(f.blocks@[k - 1].statements == g.blocks@[k - 1].statements);
    }
}

} // verus!
