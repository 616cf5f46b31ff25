//! The intermediate representation the core works on, as handed over by
//! the module-loading collaborator: function bodies made of blocks of
//! single-assignment instructions, an explicit control-flow graph with
//! reverse-postorder numbering, and a per-operator summary of declared
//! side effects.
//!
//! Blocks and values are small integer indices into append-only arenas.

use vstd::prelude::*;

verus! {

/// Index of an SSA value in a function body's value arena.
pub type Value = usize;

/// Index of a basic block in a function body's block arena.
pub type Block = usize;

/// Index of a Wasm global.
pub type GlobalId = usize;

/// A Wasm value type tag.
#[derive(Clone, Copy, Debug, PartialEq, Eq, Structural)]
pub enum Type {
    I32,
    I64,
    F32,
    F64,
    V128,
    FuncRef,
    ExternRef,
}

/// One declared side effect of an operator, from the collaborator's
/// side-effect table.
#[derive(Clone, Copy, Debug, PartialEq, Eq, Structural)]
pub enum SideEffect {
    /// The operator may trap.
    Trap,
    ReadMem,
    WriteMem,
    ReadGlobal,
    WriteGlobal,
    ReadTable,
    WriteTable,
    /// Any other effect (calls, unknown effects).
    Other,
}

/// The opcode classes the dead-code-elimination policy distinguishes;
/// everything else is `Other`.
#[derive(Clone, Copy, Debug, PartialEq, Eq, Structural)]
pub enum Opcode {
    TableSize,
    MemorySize,
    GlobalGet,
    TableGet,
    Other,
}

/// Summary of one operator: its opcode class, its declared side effects,
/// and the collaborator's purity and load predicates.
#[derive(Clone, Debug, PartialEq, Eq)]
#[verifier::ext_equal]
pub struct Operator {
    pub opcode: Opcode,
    pub effects: Vec<SideEffect>,
    /// No ambient-state access and no side effect at all.
    pub is_pure: bool,
    /// A memory load.
    pub is_load: bool,
}

/// The definition of one SSA value.
#[derive(Clone, Debug, PartialEq, Eq)]
#[verifier::ext_equal]
pub enum ValueDef {
    /// The `i`-th parameter of a block: `(block, index, type)`.
    BlockParam(Block, usize, Type),
    /// An operator instruction: operator, argument values, result types.
    Operator(Operator, Vec<Value>, Vec<Type>),
    /// Projection of the `i`-th result of a multi-result producer.
    PickOutput(Value, usize, Type),
    /// A pure alias of another (earlier-defined) value.
    Alias(Value),
    /// A placeholder of a known type, awaiting a definition.
    Placeholder(Type),
    /// No definition.
    Undefined,
}

/// One branch edge: the target block and the values passed positionally
/// to its block parameters.
#[derive(Clone, Debug, PartialEq, Eq)]
#[verifier::ext_equal]
pub struct BranchTarget {
    pub block: Block,
    pub args: Vec<Value>,
}

/// A block terminator.
#[derive(Clone, Debug, PartialEq, Eq)]
#[verifier::ext_equal]
pub enum Terminator {
    Br { target: BranchTarget },
    CondBr { cond: Value, if_true: BranchTarget, if_false: BranchTarget },
    Select { value: Value, targets: Vec<BranchTarget>, default: BranchTarget },
    Return { values: Vec<Value> },
    Unreachable,
    /// Not yet terminated.
    Unset,
}

/// One basic block: typed parameters, the instruction list, and the
/// terminator.
#[derive(Clone, Debug, PartialEq, Eq)]
#[verifier::ext_equal]
pub struct BlockDef {
    pub params: Vec<(Type, Value)>,
    pub insts: Vec<Value>,
    pub terminator: Terminator,
}

/// A function body in SSA form.
#[derive(Clone, Debug, PartialEq, Eq)]
#[verifier::ext_equal]
pub struct FunctionBody {
    pub entry: Block,
    pub blocks: Vec<BlockDef>,
    pub values: Vec<ValueDef>,
}

/// Control-flow-graph information for a function body: the reachable
/// blocks in reverse postorder, and each block's position in that order
/// (`None` for a block unreachable from the entry).
#[derive(Clone, Debug, PartialEq, Eq)]
#[verifier::ext_equal]
pub struct CFGInfo {
    pub rpo: Vec<Block>,
    pub rpo_pos: Vec<Option<usize>>,
}

impl Terminator {
    /// The branch targets of this terminator, in visiting order.
    pub open spec fn targets(self) -> Seq<BranchTarget> {
        match self {
            Terminator::Br { target } => seq![target],
            Terminator::CondBr { cond: _, if_true, if_false } => seq![if_true, if_false],
            Terminator::Select { value: _, targets, default } => targets@.push(default),
            Terminator::Return { .. } => Seq::empty(),
            Terminator::Unreachable => Seq::empty(),
            Terminator::Unset => Seq::empty(),
        }
    }
}

/// A branch target is well formed: it names a real block, all its
/// arguments name real values, and it passes exactly one argument per
/// target block parameter.
pub open spec fn target_wf(t: BranchTarget, blocks: Seq<BlockDef>, nvals: nat) -> bool {
    &&& t.block < blocks.len()
    &&& forall|i: int| 0 <= i < t.args@.len() ==> t.args@[i] < nvals
    &&& t.args@.len() == blocks[t.block as int].params@.len()
}

/// A terminator is well formed: all targets are, and every value it reads
/// names a real value.
pub open spec fn term_wf(t: Terminator, blocks: Seq<BlockDef>, nvals: nat) -> bool {
    &&& forall|i: int| 0 <= i < t.targets().len() ==> target_wf(#[trigger] t.targets()[i], blocks, nvals)
    &&& match t {
        Terminator::CondBr { cond, .. } => cond < nvals,
        Terminator::Select { value, .. } => value < nvals,
        Terminator::Return { values } => forall|i: int| 0 <= i < values@.len() ==> values@[i] < nvals,
        _ => true,
    }
}

/// A block is well formed: parameter and instruction values are in range
/// and the terminator is well formed.
pub open spec fn block_wf(bd: BlockDef, blocks: Seq<BlockDef>, nvals: nat) -> bool {
    &&& forall|i: int| 0 <= i < bd.params@.len() ==> (#[trigger] bd.params@[i]).1 < nvals
    &&& forall|i: int| 0 <= i < bd.insts@.len() ==> bd.insts@[i] < nvals
    &&& term_wf(bd.terminator, blocks, nvals)
}

/// A value definition is well formed at arena position `v`: every value
/// it references is in range, and an alias refers strictly backwards, so
/// alias chains cannot cycle.
pub open spec fn valuedef_wf(d: ValueDef, v: int, nblocks: nat, nvals: nat) -> bool {
    match d {
        ValueDef::BlockParam(b, _i, _ty) => b < nblocks,
        ValueDef::Operator(_op, args, _tys) => forall|i: int|
            0 <= i < args@.len() ==> args@[i] < nvals,
        ValueDef::PickOutput(src, _i, _ty) => src < nvals,
        ValueDef::Alias(t) => t < v,
        ValueDef::Placeholder(_ty) => true,
        ValueDef::Undefined => true,
    }
}

/// A function body is well formed.
pub open spec fn body_wf(f: FunctionBody) -> bool {
    &&& f.entry < f.blocks@.len()
    &&& forall|b: int|
        0 <= b < f.blocks@.len() ==> block_wf(#[trigger] f.blocks@[b], f.blocks@, f.values@.len())
    &&& forall|v: int|
        0 <= v < f.values@.len() ==> valuedef_wf(
            #[trigger] f.values@[v],
            v,
            f.blocks@.len(),
            f.values@.len(),
        )
}

/// CFG info is consistent with a function of `nblocks` blocks: positions
/// and the reverse-postorder sequence are inverse to each other, so a
/// block is reachable exactly when its position is present.
pub open spec fn cfg_wf(cfg: CFGInfo, nblocks: nat) -> bool {
    &&& cfg.rpo_pos@.len() == nblocks
    &&& forall|i: int| 0 <= i < cfg.rpo@.len() ==> (#[trigger] cfg.rpo@[i]) < nblocks
    &&& forall|i: int|
        0 <= i < cfg.rpo@.len() ==> cfg.rpo_pos@[#[trigger] cfg.rpo@[i] as int] == Some(i as usize)
    &&& forall|b: int|
        0 <= b < nblocks ==> match #[trigger] cfg.rpo_pos@[b] {
            Some(p) => p < cfg.rpo@.len() && cfg.rpo@[p as int] == b,
            None => true,
        }
}

/// Follow an alias chain to the non-alias definition it ultimately names.
pub open spec fn spec_resolve_alias(vals: Seq<ValueDef>, v: Value) -> Value
    decreases v,
{
    if v < vals.len() {
        match vals[v as int] {
            ValueDef::Alias(t) => if t < v {
                spec_resolve_alias(vals, t)
            } else {
                v
            },
            _ => v,
        }
    } else {
        v
    }
}

/// The static type of a value definition, if it has a single one.
pub open spec fn spec_value_ty(d: ValueDef) -> Option<Type> {
    match d {
        ValueDef::BlockParam(_b, _i, ty) => Some(ty),
        ValueDef::Operator(_op, _args, tys) => if tys.len() == 1 {
            Some(tys[0])
        } else {
            None
        },
        ValueDef::PickOutput(_src, _i, ty) => Some(ty),
        ValueDef::Alias(_t) => None,
        ValueDef::Placeholder(ty) => Some(ty),
        ValueDef::Undefined => None,
    }
}

/// Chase alias definitions back to the defining value.
pub fn resolve_alias(f: &FunctionBody, v: Value) -> (r: Value)
    requires
        v < f.values@.len(),
    ensures
        r == spec_resolve_alias(f.values@, v),
        r < f.values@.len(),
{
    let mut cur = v;
    loop
        invariant
            cur < f.values@.len(),
            spec_resolve_alias(f.values@, cur) == spec_resolve_alias(f.values@, v),
        ensures
            cur < f.values@.len(),
            cur == spec_resolve_alias(f.values@, v),
        decreases cur,
    {
        match &f.values[cur] {
            ValueDef::Alias(t) => {
                if *t < cur {
                    cur = *t;
                } else {
                    return cur;
                }
            },
            _ => {
                return cur;
            },
        }
    }
}

/// The static type of value `v`, if its definition has a single one.
pub fn value_ty(f: &FunctionBody, v: Value) -> (r: Option<Type>)
    requires
        v < f.values@.len(),
    ensures
        r == spec_value_ty(f.values@[v as int]),
{
    match &f.values[v] {
        ValueDef::BlockParam(_b, _i, ty) => Some(*ty),
        ValueDef::Operator(_op, _args, tys) => {
            if tys.len() == 1 {
                Some(tys[0])
            } else {
                None
            }
        },
        ValueDef::PickOutput(_src, _i, ty) => Some(*ty),
        ValueDef::Alias(_t) => None,
        ValueDef::Placeholder(ty) => Some(*ty),
        ValueDef::Undefined => None,
    }
}

} // verus!
