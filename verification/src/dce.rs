//! Effect-aware dead-code elimination.
//!
//! A backward liveness fixed point over a specialized function body,
//! followed by removal of every instruction, block parameter, and branch
//! argument that contributes no observable result. The removability
//! policy assumes the input program never traps: loads, trap-only
//! operators, and bounded ambient reads (`table.size`, `memory.size`,
//! table and global gets) may all be discarded when unused. Anything with
//! any other effect is kept unconditionally.

use crate::ir::{
    body_wf, cfg_wf, spec_resolve_alias, spec_value_ty, target_wf, BlockDef, BranchTarget,
    CFGInfo, FunctionBody, Opcode, Operator, SideEffect, Terminator, Type, Value,
};
use crate::ir::{resolve_alias, value_ty, Block, ValueDef};
use vstd::prelude::*;

verus! {

/// The set of values found to be used, one bit per value index.
pub struct UsedSet {
    pub bits: Vec<bool>,
}

impl UsedSet {
    pub open spec fn len(&self) -> nat {
        self.bits@.len()
    }

    pub open spec fn contains(&self, v: Value) -> bool {
        v < self.bits@.len() && self.bits@[v as int]
    }

    pub fn new(n: usize) -> (r: UsedSet)
        ensures
            r.len() == n,
            forall|v: Value| !r.contains(v),
    {
        let mut bits: Vec<bool> = Vec::new();
        let mut i: usize = 0;
        while i < n
            invariant
                i <= n,
                bits@.len() == i,
                forall|j: int| 0 <= j < i ==> !bits@[j],
            decreases n - i,
        {
            bits.push(false);
            i += 1;
        }
        UsedSet { bits }
    }

    pub fn get(&self, v: Value) -> (r: bool)
        ensures
            r == self.contains(v),
    {
        if v < self.bits.len() {
            self.bits[v]
        } else {
            false
        }
    }

    /// Mark `v` used; returns whether it was newly marked.
    pub fn insert(&mut self, v: Value) -> (r: bool)
        requires
            v < old(self).len(),
        ensures
            final(self).bits@ == old(self).bits@.update(v as int, true),
            r == !old(self).contains(v),
    {
        let r = !self.bits[v];
        self.bits.set(v, true);
        r
    }
}

/// The number of set bits.
pub open spec fn count_true(s: Seq<bool>) -> nat
    decreases s.len(),
{
    if s.len() == 0 {
        0
    } else {
        count_true(s.drop_last()) + if s.last() {
            1nat
        } else {
            0nat
        }
    }
}

/// Pointwise implication between bit vectors cannot decrease the count.
pub proof fn lemma_count_true_le(s1: Seq<bool>, s2: Seq<bool>)
    requires
        s1.len() == s2.len(),
        forall|j: int| 0 <= j < s1.len() ==> (s1[j] ==> s2[j]),
    ensures
        count_true(s1) <= count_true(s2),
    decreases s1.len(),
{
    if s1.len() > 0 {
        assert(forall|j: int|
            0 <= j < s1.drop_last().len() ==> (s1.drop_last()[j] ==> s2.drop_last()[j]));
        lemma_count_true_le(s1.drop_last(), s2.drop_last());
    }
}

/// A bit vector that grows pointwise and differs somewhere has a bit that
/// was newly set.
pub proof fn lemma_grown_bit_witness(s1: Seq<bool>, s2: Seq<bool>)
    requires
        s1.len() == s2.len(),
        forall|j: int| 0 <= j < s1.len() ==> (s1[j] ==> s2[j]),
        s1 != s2,
    ensures
        exists|j: int| 0 <= j < s1.len() && !s1[j] && s2[j],
{
    if forall|j: int| 0 <= j < s1.len() ==> s1[j] == s2[j] {
        assert(s1 =~= s2);
    }
    let j = choose|j: int| 0 <= j < s1.len() && s1[j] != s2[j];
    assert(!s1[j] && s2[j]);
}

/// A strict pointwise growth strictly increases the count.
pub proof fn lemma_count_true_lt(s1: Seq<bool>, s2: Seq<bool>)
    requires
        s1.len() == s2.len(),
        forall|j: int| 0 <= j < s1.len() ==> (s1[j] ==> s2[j]),
        s1 != s2,
    ensures
        count_true(s1) < count_true(s2),
    decreases s1.len(),
{
    lemma_grown_bit_witness(s1, s2);
    let w = choose|j: int| 0 <= j < s1.len() && !s1[j] && s2[j];
    assert(forall|j: int|
        0 <= j < s1.drop_last().len() ==> (s1.drop_last()[j] ==> s2.drop_last()[j]));
    if w == s1.len() - 1 {
        assert(!s1.last() && s2.last());
        lemma_count_true_le(s1.drop_last(), s2.drop_last());
    } else {
        assert(!s1.drop_last()[w] && s2.drop_last()[w]);
        assert(s1.drop_last() != s2.drop_last());
        lemma_count_true_lt(s1.drop_last(), s2.drop_last());
    }
}

/// The count never exceeds the length.
pub proof fn lemma_count_true_bound(s: Seq<bool>)
    ensures
        count_true(s) <= s.len(),
    decreases s.len(),
{
    if s.len() > 0 {
        lemma_count_true_bound(s.drop_last());
    }
}

/// The removability policy under the non-trapping execution model: an
/// unused operation may be discarded when it is a load, its only declared
/// side effect is a possible trap, it is a bounded ambient read
/// (`table.size`, `memory.size`, a table or global get), or it is pure.
pub open spec fn removable(op: Operator) -> bool {
    ||| op.is_load
    ||| op.effects@ == seq![SideEffect::Trap]
    ||| op.opcode == Opcode::TableSize
    ||| op.opcode == Opcode::MemorySize
    ||| op.opcode == Opcode::GlobalGet
    ||| op.opcode == Opcode::TableGet
    ||| op.is_pure
}

/// Decide the removability policy for one operator.
pub fn op_can_be_removed(op: &Operator) -> (r: bool)
    ensures
        r == removable(*op),
{
    if op.is_load {
        return true;
    }
    if op.effects.len() == 1 {
        if op.effects[0] == SideEffect::Trap {
            proof {
                assert(op.effects@ =~= seq![SideEffect::Trap]);
            }
            return true;
        }
    }
    proof {
        assert(op.effects@ != seq![SideEffect::Trap]) by {
            if op.effects@ == seq![SideEffect::Trap] {
                assert(op.effects@.len() == 1);
                assert(op.effects@[0] == SideEffect::Trap);
            }
        }
    }
    match op.opcode {
        Opcode::TableSize => true,
        Opcode::MemorySize => true,
        Opcode::GlobalGet => true,
        Opcode::TableGet => true,
        Opcode::Other => op.is_pure,
    }
}

/// Block parameter `u` is fed positionally by branch argument `v` at
/// target `t` of block `b`'s terminator.
pub open spec fn branch_edge_at(
    f: FunctionBody,
    u: Value,
    v: Value,
    b: int,
    t: int,
    i: int,
) -> bool {
    &&& 0 <= b < f.blocks@.len()
    &&& 0 <= t < f.blocks@[b].terminator.targets().len()
    &&& 0 <= i < f.blocks@[b].terminator.targets()[t].args@.len()
    &&& f.blocks@[b].terminator.targets()[t].block < f.blocks@.len()
    &&& i < f.blocks@[f.blocks@[b].terminator.targets()[t].block as int].params@.len()
    &&& f.blocks@[f.blocks@[b].terminator.targets()[t].block as int].params@[i].1 == u
    &&& f.blocks@[b].terminator.targets()[t].args@[i] == v
}

/// Block parameter `u` is fed by branch argument `v` somewhere.
pub open spec fn branch_edge(f: FunctionBody, u: Value, v: Value) -> bool {
    exists|b: int, t: int, i: int| branch_edge_at(f, u, v, b, t, i)
}

/// One demand edge: if `u` is needed, `v` feeds it — as an operand, a
/// projection source, an alias target, or a branch argument feeding it.
pub open spec fn demand_edge(f: FunctionBody, u: Value, v: Value) -> bool {
    ||| (u < f.values@.len() && match f.values@[u as int] {
        crate::ir::ValueDef::Operator(_op, args, _tys) => args@.contains(v),
        crate::ir::ValueDef::PickOutput(src, _i, _ty) => v == src,
        crate::ir::ValueDef::Alias(t) => v == t,
        _ => false,
    })
    ||| branch_edge(f, u, v)
}

/// A terminator observes `v` directly.
pub open spec fn term_observes(t: Terminator, v: Value) -> bool {
    match t {
        Terminator::CondBr { cond, .. } => cond == v,
        Terminator::Select { value, .. } => value == v,
        Terminator::Return { values } => values@.contains(v),
        _ => false,
    }
}

/// A demand root: an entry block parameter (an incoming argument), a
/// value a terminator observes, or an instruction whose operator must be
/// kept under the removability policy.
pub open spec fn demand_root(f: FunctionBody, v: Value) -> bool {
    ||| (f.entry < f.blocks@.len() && exists|i: int|
        0 <= i < f.blocks@[f.entry as int].params@.len() && (#[trigger] f.blocks@[f.entry
            as int].params@[i]).1 == v)
    ||| (exists|b: int|
        0 <= b < f.blocks@.len() && term_observes((#[trigger] f.blocks@[b]).terminator, v))
    ||| (exists|b: int|
        0 <= b < f.blocks@.len() && (#[trigger] f.blocks@[b]).insts@.contains(v) && v
            < f.values@.len() && match f.values@[v as int] {
            crate::ir::ValueDef::Operator(op, _a, _t) => !removable(op),
            _ => false,
        })
}

/// A demand chain: from a root, along demand edges, to `v`.
pub open spec fn demand_chain(f: FunctionBody, s: Seq<Value>, v: Value) -> bool {
    &&& s.len() > 0
    &&& demand_root(f, s[0])
    &&& s.last() == v
    &&& forall|k: int| 0 <= k < s.len() - 1 ==> demand_edge(f, #[trigger] s[k], s[k + 1])
}

/// `v` is demanded: some chain of demand edges leads to it from a root.
pub open spec fn demanded(f: FunctionBody, v: Value) -> bool {
    exists|s: Seq<Value>| demand_chain(f, s, v)
}

/// Every marked value is demanded.
pub open spec fn bits_demanded(f: FunctionBody, bits: Seq<bool>) -> bool {
    forall|v: Value| #[trigger] bit(bits, v) ==> demanded(f, v)
}

/// A root is demanded by the one-element chain.
pub proof fn lemma_demand_of_root(f: FunctionBody, v: Value)
    requires
        demand_root(f, v),
    ensures
        demanded(f, v),
{
    let s = seq![v];
    assert(demand_chain(f, s, v));
}

/// A demand chain extends along an edge.
pub proof fn lemma_demand_extend(f: FunctionBody, u: Value, v: Value)
    requires
        demanded(f, u),
        demand_edge(f, u, v),
    ensures
        demanded(f, v),
{
    let s = choose|s: Seq<Value>| demand_chain(f, s, u);
    let s2 = s.push(v);
    assert(s2[0] == s[0]);
    assert(s2.last() == v);
    assert forall|k: int| 0 <= k < s2.len() - 1 implies demand_edge(
        f,
        #[trigger] s2[k],
        s2[k + 1],
    ) by {
        if k < s.len() - 1 {
            assert(s2[k] == s[k] && s2[k + 1] == s[k + 1]);
        } else {
            assert(s2[k] == s.last() && s2[k + 1] == v);
        }
    }
    assert(demand_chain(f, s2, v));
}

/// Bit growth in two steps: how the "anything changed yet" flag evolves,
/// and that growth composes.
pub proof fn lemma_changed_step(base: Seq<bool>, pre: Seq<bool>, cur: Seq<bool>, c0: bool, c: bool)
    requires
        base.len() == pre.len(),
        pre.len() == cur.len(),
        forall|j: int| 0 <= j < base.len() ==> (base[j] ==> pre[j]),
        forall|j: int| 0 <= j < pre.len() ==> (pre[j] ==> cur[j]),
        c0 == (pre != base),
        c == (cur != pre),
    ensures
        (c0 || c) == (cur != base),
        forall|j: int| 0 <= j < base.len() ==> (base[j] ==> cur[j]),
{
    if c0 {
        lemma_grown_bit_witness(base, pre);
        let j = choose|j: int| 0 <= j < base.len() && !base[j] && pre[j];
        assert(cur[j] != base[j]);
    }
}

/// An instruction whose operator must be kept (it is not removable) has
/// its bit set.
pub open spec fn marked_if_unremovable_bits(func: FunctionBody, bits: Seq<bool>, v: Value) -> bool {
    v < func.values@.len() ==> match func.values@[v as int] {
        crate::ir::ValueDef::Operator(op, _args, _tys) => !removable(op) ==> (v < bits.len()
            && bits[v as int]),
        _ => true,
    }
}

/// An instruction whose operator must be kept (it is not removable) is in
/// the used set.
pub open spec fn marked_if_unremovable(func: FunctionBody, used: UsedSet, v: Value) -> bool {
    marked_if_unremovable_bits(func, used.bits@, v)
}

/// Mark `arg` used, chasing its alias chain: marking a value marks
/// whatever it aliases, transitively, down to a non-alias definition.
/// Returns whether the used set grew.
fn mark_used(func: &FunctionBody, used: &mut UsedSet, arg: Value) -> (changed: bool)
    requires
        body_wf(*func),
        arg < func.values@.len(),
        old(used).len() == func.values@.len(),
        demanded(*func, arg),
        bits_demanded(*func, old(used).bits@),
    ensures
        final(used).len() == old(used).len(),
        forall|j: int| 0 <= j < old(used).bits@.len() ==> (old(used).bits@[j] ==> final(used).bits@[j]),
        final(used).contains(arg),
        changed == (final(used).bits@ != old(used).bits@),
        bits_demanded(*func, final(used).bits@),
{
    let ghost used0 = *old(used);
    let mut changed = false;
    let c0 = used.insert(arg);
    proof {
        if c0 {
            assert(used.bits@[arg as int] != used0.bits@[arg as int]);
        } else {
            assert(used.bits@ =~= used0.bits@);
        }
        assert forall|v: Value| #[trigger] bit(used.bits@, v) implies demanded(*func, v) by {
            if v != arg {
                assert(bit(used0.bits@, v));
            }
        }
    }
    changed = changed || c0;
    let mut cur = arg;
    loop
        invariant
            used0 == *old(used),
            body_wf(*func),
            cur < func.values@.len(),
            used.len() == used0.len(),
            used0.len() == func.values@.len(),
            forall|j: int| 0 <= j < used0.bits@.len() ==> (used0.bits@[j] ==> used.bits@[j]),
            used.contains(arg),
            used.contains(cur),
            changed == (used.bits@ != used0.bits@),
            demanded(*func, cur),
            bits_demanded(*func, used.bits@),
        decreases cur,
    {
        match &func.values[cur] {
            crate::ir::ValueDef::Alias(t) => {
                let tv = *t;
                proof {
                    assert(tv < cur);
                    assert(demand_edge(*func, cur, tv));
                    lemma_demand_extend(*func, cur, tv);
                }
                cur = tv;
                let ghost pre = used.bits@;
                let c = used.insert(cur);
                proof {
                    if c {
                        assert(used.bits@[cur as int] != used0.bits@[cur as int]);
                    } else {
                        assert(used.bits@ =~= pre);
                    }
                    assert forall|v: Value| #[trigger] bit(used.bits@, v) implies demanded(
                        *func,
                        v,
                    ) by {
                        if v != cur {
                            assert(bit(pre, v));
                        }
                    }
                }
                changed = changed || c;
            },
            _ => {
                return changed;
            },
        }
    }
}

/// Each argument of a well-formed target is a branch edge from its
/// positionally matching parameter.
proof fn lemma_target_edges(f: FunctionBody, b: int, t: int)
    requires
        0 <= b < f.blocks@.len(),
        0 <= t < f.blocks@[b].terminator.targets().len(),
        target_wf(f.blocks@[b].terminator.targets()[t], f.blocks@, f.values@.len()),
    ensures
        forall|i: int|
            #![trigger f.blocks@[b].terminator.targets()[t].args@[i]]
            0 <= i < f.blocks@[b].terminator.targets()[t].args@.len() ==> branch_edge(
                f,
                f.blocks@[f.blocks@[b].terminator.targets()[t].block as int].params@[i].1,
                f.blocks@[b].terminator.targets()[t].args@[i],
            ),
{
    let tgt = f.blocks@[b].terminator.targets()[t];
    assert forall|i: int| 0 <= i < tgt.args@.len() implies branch_edge(
        f,
        f.blocks@[tgt.block as int].params@[i].1,
        #[trigger] tgt.args@[i],
    ) by {
        assert(branch_edge_at(f, f.blocks@[tgt.block as int].params@[i].1, tgt.args@[i], b, t, i));
    }
}

/// For one branch target: mark each argument whose positionally matching
/// parameter of the target block is already used.
fn scan_target(func: &FunctionBody, target: &BranchTarget, used: &mut UsedSet) -> (changed: bool)
    requires
        body_wf(*func),
        target_wf(*target, func.blocks@, func.values@.len()),
        old(used).len() == func.values@.len(),
        bits_demanded(*func, old(used).bits@),
        forall|i: int|
            #![trigger target.args@[i]]
            0 <= i < target.args@.len() ==> branch_edge(
                *func,
                func.blocks@[target.block as int].params@[i].1,
                target.args@[i],
            ),
    ensures
        final(used).len() == old(used).len(),
        forall|j: int|
            0 <= j < old(used).bits@.len() ==> (old(used).bits@[j] ==> final(used).bits@[j]),
        changed == (final(used).bits@ != old(used).bits@),
        bits_demanded(*func, final(used).bits@),
{
    let ghost used0 = *old(used);
    let mut changed = false;
    let n = target.args.len();
    let mut i: usize = 0;
    while i < n
        invariant
            used0 == *old(used),
            body_wf(*func),
            target_wf(*target, func.blocks@, func.values@.len()),
            used.len() == used0.len(),
            used0.len() == func.values@.len(),
            i <= n,
            n == target.args@.len(),
            forall|j: int| 0 <= j < used0.bits@.len() ==> (used0.bits@[j] ==> used.bits@[j]),
            changed == (used.bits@ != used0.bits@),
            bits_demanded(*func, used.bits@),
            forall|k: int|
                #![trigger target.args@[k]]
                0 <= k < target.args@.len() ==> branch_edge(
                    *func,
                    func.blocks@[target.block as int].params@[k].1,
                    target.args@[k],
                ),
        decreases n - i,
    {
        let param = func.blocks[target.block].params[i].1;
        if used.get(param) {
            proof {
                assert(bit(used.bits@, param));
                assert(demand_edge(*func, param, target.args@[i as int]));
                lemma_demand_extend(*func, param, target.args@[i as int]);
            }
            let ghost pre = used.bits@;
            let c = mark_used(func, used, target.args[i]);
            proof {
                lemma_changed_step(used0.bits@, pre, used.bits@, changed, c);
            }
            changed = changed || c;
        }
        i += 1;
    }
    changed
}

/// Scan one block backwards, marking the inputs of everything that is
/// itself used (or, for a branch argument, whose target parameter is
/// used), and unconditionally marking every instruction whose operator is
/// not removable. Returns whether the used set grew. Afterwards every
/// unremovable instruction of the block is marked, and that persists
/// under any further growth of the set.
pub fn scan_block(func: &FunctionBody, block: Block, used: &mut UsedSet) -> (changed: bool)
    requires
        body_wf(*func),
        block < func.blocks@.len(),
        old(used).len() == func.values@.len(),
        bits_demanded(*func, old(used).bits@),
    ensures
        final(used).len() == old(used).len(),
        forall|j: int|
            0 <= j < old(used).bits@.len() ==> (old(used).bits@[j] ==> final(used).bits@[j]),
        changed == (final(used).bits@ != old(used).bits@),
        forall|i: int|
            0 <= i < func.blocks@[block as int].insts@.len() ==> marked_if_unremovable(
                *func,
                *final(used),
                #[trigger] func.blocks@[block as int].insts@[i],
            ),
        bits_demanded(*func, final(used).bits@),
{
    let ghost used0 = *old(used);
    let mut changed = false;

    // Branch arguments feeding used parameters of successor blocks.
    match &func.blocks[block].terminator {
        Terminator::Br { target } => {
            proof {
                assert(func.blocks@[block as int].terminator.targets()[0] == *target);
                lemma_target_edges(*func, block as int, 0);
            }
            let ghost pre = used.bits@;
            let c = scan_target(func, target, used);
            proof {
                lemma_changed_step(used0.bits@, pre, used.bits@, changed, c);
            }
            changed = changed || c;
        },
        Terminator::CondBr { cond: _, if_true, if_false } => {
            proof {
                assert(func.blocks@[block as int].terminator.targets()[0] == *if_true);
                assert(func.blocks@[block as int].terminator.targets()[1] == *if_false);
                lemma_target_edges(*func, block as int, 0);
                lemma_target_edges(*func, block as int, 1);
            }
            let ghost pre1 = used.bits@;
            let c1 = scan_target(func, if_true, used);
            proof {
                lemma_changed_step(used0.bits@, pre1, used.bits@, changed, c1);
            }
            changed = changed || c1;
            let ghost pre2 = used.bits@;
            let c2 = scan_target(func, if_false, used);
            proof {
                lemma_changed_step(used0.bits@, pre2, used.bits@, changed, c2);
            }
            changed = changed || c2;
        },
        Terminator::Select { value: _, targets, default } => {
            let m = targets.len();
            let mut t: usize = 0;
            while t < m
                invariant
                    used0 == *old(used),
                    body_wf(*func),
                    block < func.blocks@.len(),
                    func.blocks@[block as int].terminator matches Terminator::Select { .. },
                    m == targets@.len(),
                    t <= m,
                    *targets == (match func.blocks@[block as int].terminator {
                        Terminator::Select { targets: ts, .. } => ts,
                        _ => arbitrary(),
                    }),
                    used.len() == used0.len(),
                    used0.len() == func.values@.len(),
                    forall|j: int|
                        0 <= j < used0.bits@.len() ==> (used0.bits@[j] ==> used.bits@[j]),
                    changed == (used.bits@ != used0.bits@),
                    bits_demanded(*func, used.bits@),
                decreases m - t,
            {
                proof {
                    assert(func.blocks@[block as int].terminator.targets()[t as int]
                        == targets@[t as int]);
                    lemma_target_edges(*func, block as int, t as int);
                }
                let ghost pre = used.bits@;
                let c = scan_target(func, &targets[t], used);
                proof {
                    lemma_changed_step(used0.bits@, pre, used.bits@, changed, c);
                }
                changed = changed || c;
                t += 1;
            }
            proof {
                let term = func.blocks@[block as int].terminator;
                assert(term.targets()[term.targets().len() - 1] == *default);
                lemma_target_edges(*func, block as int, term.targets().len() - 1);
            }
            let ghost pre = used.bits@;
            let c = scan_target(func, default, used);
            proof {
                lemma_changed_step(used0.bits@, pre, used.bits@, changed, c);
            }
            changed = changed || c;
        },
        _ => {},
    }

    // Condition, selector, and return values are observable.
    match &func.blocks[block].terminator {
        Terminator::CondBr { cond, .. } => {
            proof {
                assert(term_observes(func.blocks@[block as int].terminator, *cond));
                lemma_demand_of_root(*func, *cond);
            }
            let ghost pre = used.bits@;
            let c = mark_used(func, used, *cond);
            proof {
                lemma_changed_step(used0.bits@, pre, used.bits@, changed, c);
            }
            changed = changed || c;
        },
        Terminator::Select { value, .. } => {
            proof {
                assert(term_observes(func.blocks@[block as int].terminator, *value));
                lemma_demand_of_root(*func, *value);
            }
            let ghost pre = used.bits@;
            let c = mark_used(func, used, *value);
            proof {
                lemma_changed_step(used0.bits@, pre, used.bits@, changed, c);
            }
            changed = changed || c;
        },
        Terminator::Return { values } => {
            let m = values.len();
            let mut t: usize = 0;
            while t < m
                invariant
                    used0 == *old(used),
                    body_wf(*func),
                    block < func.blocks@.len(),
                    m == values@.len(),
                    t <= m,
                    *values == (match func.blocks@[block as int].terminator {
                        Terminator::Return { values: vs } => vs,
                        _ => arbitrary(),
                    }),
                    func.blocks@[block as int].terminator matches Terminator::Return { .. },
                    used.len() == used0.len(),
                    used0.len() == func.values@.len(),
                    forall|j: int|
                        0 <= j < used0.bits@.len() ==> (used0.bits@[j] ==> used.bits@[j]),
                    changed == (used.bits@ != used0.bits@),
                    bits_demanded(*func, used.bits@),
                decreases m - t,
            {
                proof {
                    assert(values@.contains(values@[t as int]));
                    assert(term_observes(func.blocks@[block as int].terminator, values@[t as int]));
                    lemma_demand_of_root(*func, values@[t as int]);
                }
                let ghost pre = used.bits@;
                let c = mark_used(func, used, values[t]);
                proof {
                    lemma_changed_step(used0.bits@, pre, used.bits@, changed, c);
                }
                changed = changed || c;
                t += 1;
            }
        },
        _ => {},
    }

    // Instructions, in reverse.
    let insts_len = func.blocks[block].insts.len();
    let mut ii = insts_len;
    while ii > 0
        invariant
            used0 == *old(used),
            body_wf(*func),
            block < func.blocks@.len(),
            used.len() == used0.len(),
            used0.len() == func.values@.len(),
            ii <= insts_len,
            insts_len == func.blocks@[block as int].insts@.len(),
            forall|j: int| 0 <= j < used0.bits@.len() ==> (used0.bits@[j] ==> used.bits@[j]),
            changed == (used.bits@ != used0.bits@),
            forall|i: int|
                ii <= i < insts_len ==> marked_if_unremovable_bits(
                    *func,
                    used.bits@,
                    #[trigger] func.blocks@[block as int].insts@[i],
                ),
            bits_demanded(*func, used.bits@),
        decreases ii,
    {
        ii -= 1;
        let inst = func.blocks[block].insts[ii];
        let ghost iter_pre = used.bits@;
        match &func.values[inst] {
            ValueDef::BlockParam(..) => {},
            ValueDef::Alias(..) => {},
            ValueDef::PickOutput(value, _idx, _ty) => {
                if used.get(inst) {
                    proof {
                        assert(bit(used.bits@, inst));
                        assert(demand_edge(*func, inst, *value));
                        lemma_demand_extend(*func, inst, *value);
                    }
                    let ghost pre = used.bits@;
                    let c = mark_used(func, used, *value);
                    proof {
                        lemma_changed_step(used0.bits@, pre, used.bits@, changed, c);
                    }
                    changed = changed || c;
                }
            },
            ValueDef::Operator(op, args, _tys) => {
                if !op_can_be_removed(op) {
                    proof {
                        assert(func.blocks@[block as int].insts@[ii as int] == inst);
                        assert(func.blocks@[block as int].insts@.contains(inst));
                        assert(demand_root(*func, inst));
                        lemma_demand_of_root(*func, inst);
                    }
                    let ghost pre = used.bits@;
                    let c = used.insert(inst);
                    proof {
                        if !c {
                            assert(used.bits@ =~= pre);
                        }
                        lemma_changed_step(used0.bits@, pre, used.bits@, changed, c);
                        assert forall|v: Value| #[trigger] bit(used.bits@, v) implies demanded(
                            *func,
                            v,
                        ) by {
                            if v != inst {
                                assert(bit(pre, v));
                            }
                        }
                    }
                    changed = changed || c;
                }
                if used.get(inst) {
                    let m = args.len();
                    let mut t: usize = 0;
                    while t < m
                        invariant
                            used0 == *old(used),
                            body_wf(*func),
                            inst < func.values@.len(),
                            func.values@[inst as int] matches ValueDef::Operator { .. },
                            m == args@.len(),
                            t <= m,
                            *args == (match func.values@[inst as int] {
                                ValueDef::Operator(_o, a, _t) => a,
                                _ => arbitrary(),
                            }),
                            used.len() == used0.len(),
                            used0.len() == func.values@.len(),
                            used.contains(inst),
                            forall|j: int|
                                0 <= j < used0.bits@.len() ==> (used0.bits@[j]
                                    ==> used.bits@[j]),
                            forall|j: int|
                                0 <= j < iter_pre.len() ==> (iter_pre[j] ==> used.bits@[j]),
                            iter_pre.len() == used0.bits@.len(),
                            changed == (used.bits@ != used0.bits@),
                            bits_demanded(*func, used.bits@),
                        decreases m - t,
                    {
                        proof {
                            assert(bit(used.bits@, inst));
                            assert(args@.contains(args@[t as int]));
                            assert(demand_edge(*func, inst, args@[t as int]));
                            lemma_demand_extend(*func, inst, args@[t as int]);
                        }
                        let ghost pre = used.bits@;
                        let c = mark_used(func, used, args[t]);
                        proof {
                            lemma_changed_step(used0.bits@, pre, used.bits@, changed, c);
                            lemma_changed_step(iter_pre, pre, used.bits@, pre != iter_pre, c);
                        }
                        changed = changed || c;
                        t += 1;
                    }
                }
            },
            ValueDef::Placeholder(_) => {},
            ValueDef::Undefined => {},
        }
        proof {
            assert(forall|j: int| 0 <= j < iter_pre.len() ==> (iter_pre[j] ==> used.bits@[j]));
            assert forall|i: int|
                ii <= i < insts_len implies marked_if_unremovable_bits(
                *func,
                used.bits@,
                #[trigger] func.blocks@[block as int].insts@[i],
            ) by {
                let v = func.blocks@[block as int].insts@[i];
                if i > ii {
                    assert(marked_if_unremovable_bits(*func, iter_pre, v));
                }
            }
        }
    }
    changed
}

/// Bit `v` of the used set.
pub open spec fn bit(bits: Seq<bool>, v: Value) -> bool {
    v < bits.len() && bits[v as int]
}

/// A block stripped by unreachable-block pruning.
pub open spec fn cleared(bd: BlockDef) -> bool {
    bd.insts@.len() == 0 && bd.params@.len() == 0 && bd.terminator == Terminator::Unreachable
}

/// The instruction list with unused values removed.
pub open spec fn retain_vals(s: Seq<Value>, bits: Seq<bool>) -> Seq<Value>
    decreases s.len(),
{
    if s.len() == 0 {
        Seq::empty()
    } else {
        let rest = retain_vals(s.drop_last(), bits);
        if bit(bits, s.last()) {
            rest.push(s.last())
        } else {
            rest
        }
    }
}

/// The parameter list with unused parameters removed.
pub open spec fn retain_params(s: Seq<(Type, Value)>, bits: Seq<bool>) -> Seq<(Type, Value)>
    decreases s.len(),
{
    if s.len() == 0 {
        Seq::empty()
    } else {
        let rest = retain_params(s.drop_last(), bits);
        if bit(bits, s.last().1) {
            rest.push(s.last())
        } else {
            rest
        }
    }
}

/// The branch-argument list with each argument removed whose positionally
/// matching target parameter is unused.
pub open spec fn retain_args(args: Seq<Value>, params: Seq<(Type, Value)>, bits: Seq<bool>) -> Seq<
    Value,
>
    decreases args.len(),
{
    if args.len() == 0 {
        Seq::empty()
    } else {
        let rest = retain_args(args.drop_last(), params, bits);
        if args.len() <= params.len() && bit(bits, params[args.len() - 1].1) {
            rest.push(args.last())
        } else {
            rest
        }
    }
}

/// Every retained value occurs in the original sequence.
pub proof fn lemma_retain_vals_elems(s: Seq<Value>, bits: Seq<bool>)
    ensures
        retain_vals(s, bits).len() <= s.len(),
        forall|i: int|
            0 <= i < retain_vals(s, bits).len() ==> s.contains(#[trigger] retain_vals(s, bits)[i])
                && bit(bits, retain_vals(s, bits)[i]),
    decreases s.len(),
{
    if s.len() > 0 {
        lemma_retain_vals_elems(s.drop_last(), bits);
        assert forall|i: int| 0 <= i < retain_vals(s, bits).len() implies s.contains(
            #[trigger] retain_vals(s, bits)[i],
        ) && bit(bits, retain_vals(s, bits)[i]) by {
            let r = retain_vals(s, bits);
            let rest = retain_vals(s.drop_last(), bits);
            if i < rest.len() {
                assert(s.drop_last().contains(rest[i]));
                let j = choose|j: int| 0 <= j < s.drop_last().len() && s.drop_last()[j] == rest[i];
                assert(s[j] == rest[i]);
            } else {
                assert(r[i] == s.last());
                assert(s[s.len() - 1] == s.last());
            }
        }
    }
}

/// Every retained argument occurs in the original argument list.
pub proof fn lemma_retain_args_elems(args: Seq<Value>, params: Seq<(Type, Value)>, bits: Seq<bool>)
    ensures
        retain_args(args, params, bits).len() <= args.len(),
        forall|i: int|
            0 <= i < retain_args(args, params, bits).len() ==> args.contains(
                #[trigger] retain_args(args, params, bits)[i],
            ),
    decreases args.len(),
{
    if args.len() > 0 {
        lemma_retain_args_elems(args.drop_last(), params, bits);
        assert forall|i: int| 0 <= i < retain_args(args, params, bits).len() implies args.contains(
            #[trigger] retain_args(args, params, bits)[i],
        ) by {
            let r = retain_args(args, params, bits);
            let rest = retain_args(args.drop_last(), params, bits);
            if i < rest.len() {
                assert(args.drop_last().contains(rest[i]));
                let j = choose|j: int|
                    0 <= j < args.drop_last().len() && args.drop_last()[j] == rest[i];
                assert(args[j] == rest[i]);
            } else {
                assert(r[i] == args.last());
                assert(args[args.len() - 1] == args.last());
            }
        }
    }
}

/// Filtering arguments positionally by parameter liveness and filtering
/// the parameters themselves keep the two lists the same length.
pub proof fn lemma_retain_lens(args: Seq<Value>, params: Seq<(Type, Value)>, bits: Seq<bool>)
    requires
        args.len() <= params.len(),
    ensures
        retain_args(args, params, bits).len() == retain_params(params.take(args.len() as int),
            bits).len(),
    decreases args.len(),
{
    if args.len() == 0 {
        assert(params.take(0) =~= Seq::<(Type, Value)>::empty());
    } else {
        lemma_retain_lens(args.drop_last(), params, bits);
        let p1 = params.take(args.len() as int);
        assert(p1.drop_last() =~= params.take(args.len() - 1));
        assert(args.drop_last().len() == args.len() - 1);
        assert(p1.last() == params[args.len() - 1]);
    }
}

/// One rebuilt branch target: same block, arguments filtered by the
/// liveness of the target's (pre-removal) parameters.
pub open spec fn target_retained(
    t1: BranchTarget,
    t2: BranchTarget,
    blocks: Seq<BlockDef>,
    bits: Seq<bool>,
) -> bool {
    &&& t2.block == t1.block
    &&& t1.block < blocks.len()
    &&& t2.args@ == retain_args(t1.args@, blocks[t1.block as int].params@, bits)
}

/// The rebuilt terminator: same shape and scalar inputs, every target
/// rebuilt by `target_retained`.
pub open spec fn term_retained(
    t1: Terminator,
    t2: Terminator,
    blocks: Seq<BlockDef>,
    bits: Seq<bool>,
) -> bool {
    match (t1, t2) {
        (Terminator::Br { target: a }, Terminator::Br { target: b }) => target_retained(
            a,
            b,
            blocks,
            bits,
        ),
        (
            Terminator::CondBr { cond: c1, if_true: a1, if_false: b1 },
            Terminator::CondBr { cond: c2, if_true: a2, if_false: b2 },
        ) => c1 == c2 && target_retained(a1, a2, blocks, bits) && target_retained(
            b1,
            b2,
            blocks,
            bits,
        ),
        (
            Terminator::Select { value: v1, targets: ts1, default: d1 },
            Terminator::Select { value: v2, targets: ts2, default: d2 },
        ) => v1 == v2 && ts1@.len() == ts2@.len() && (forall|i: int|
            0 <= i < ts1@.len() ==> target_retained(
                #[trigger] ts1@[i],
                ts2@[i],
                blocks,
                bits,
            )) && target_retained(d1, d2, blocks, bits),
        (Terminator::Return { values: v1 }, Terminator::Return { values: v2 }) => v1@ == v2@,
        (Terminator::Unreachable, Terminator::Unreachable) => true,
        (Terminator::Unset, Terminator::Unset) => true,
        _ => false,
    }
}

/// Every branch-argument/parameter pair of one target has matching
/// static types (arguments resolved through their alias chains).
pub open spec fn target_types_ok(f: FunctionBody, t: BranchTarget) -> bool {
    forall|i: int|
        #![trigger t.args@[i]]
        0 <= i < t.args@.len() && i < f.blocks@[t.block as int].params@.len() ==> {
            let arg = spec_resolve_alias(f.values@, t.args@[i]);
            arg < f.values@.len() && spec_value_ty(f.values@[arg as int]) == Some(
                f.blocks@[t.block as int].params@[i].0,
            )
        }
}

/// Every target of one block's terminator passes the pair type check.
pub open spec fn block_types_ok(f: FunctionBody, b: int) -> bool {
    forall|t: int|
        0 <= t < f.blocks@[b].terminator.targets().len() ==> target_types_ok(
            f,
            #[trigger] f.blocks@[b].terminator.targets()[t],
        )
}

/// Every remaining branch-argument/parameter pair in the function has
/// matching static types.
pub open spec fn branch_types_ok(f: FunctionBody) -> bool {
    forall|b: int| 0 <= b < f.blocks@.len() ==> #[trigger] block_types_ok(f, b)
}

/// Reachable blocks only branch to reachable blocks: the precondition the
/// unreachable-block pruning relies on.
pub open spec fn cfg_edges_ok(cfg: CFGInfo, f: FunctionBody) -> bool {
    forall|b: int, t: int|
        0 <= b < f.blocks@.len() && cfg.rpo_pos@[b] is Some && 0 <= t < f.blocks@[b]
            .terminator.targets().len() ==> cfg.rpo_pos@[(#[trigger] f.blocks@[b]
            .terminator.targets()[t]).block as int] is Some
}

/// What `run` did, witnessed by the final used set: unreachable blocks
/// are cleared; in every reachable block the instructions, parameters,
/// and branch arguments are exactly the old ones filtered by the used
/// set; every unmarked instruction of a reachable block was removable (or
/// not an operator at all); and the entry block's parameters are marked.
pub open spec fn dce_post(
    old_f: FunctionBody,
    new_f: FunctionBody,
    cfg: CFGInfo,
    bits: Seq<bool>,
) -> bool {
    &&& bits.len() == old_f.values@.len()
    &&& forall|b: int|
        0 <= b < old_f.blocks@.len() && cfg.rpo_pos@[b] is None ==> cleared(
            #[trigger] new_f.blocks@[b],
        )
    &&& forall|b: int|
        0 <= b < old_f.blocks@.len() && cfg.rpo_pos@[b] is Some ==> {
            &&& (#[trigger] new_f.blocks@[b]).insts@ == retain_vals(old_f.blocks@[b].insts@, bits)
            &&& new_f.blocks@[b].params@ == retain_params(old_f.blocks@[b].params@, bits)
            &&& term_retained(
                old_f.blocks@[b].terminator,
                new_f.blocks@[b].terminator,
                old_f.blocks@,
                bits,
            )
        }
    &&& forall|b: int, i: int|
        0 <= b < old_f.blocks@.len() && cfg.rpo_pos@[b] is Some && 0 <= i < old_f.blocks@[b]
            .insts@.len() ==> marked_if_unremovable_bits(
            old_f,
            bits,
            #[trigger] old_f.blocks@[b].insts@[i],
        )
    &&& (cfg.rpo_pos@[old_f.entry as int] is Some ==> forall|i: int|
        0 <= i < old_f.blocks@[old_f.entry as int].params@.len() ==> bit(
            bits,
            (#[trigger] old_f.blocks@[old_f.entry as int].params@[i]).1,
        ))
    &&& forall|v: Value| #[trigger] bit(bits, v) ==> demanded(old_f, v)
}

/// A demand chain in the pruned function is a demand chain in the
/// original one: pruning only empties blocks, so it only removes roots
/// and edges.
proof fn lemma_demanded_transfer(f1: FunctionBody, f2: FunctionBody, v: Value)
    requires
        demanded(f1, v),
        f1.values@ == f2.values@,
        f1.entry == f2.entry,
        f1.entry < f1.blocks@.len(),
        f1.blocks@.len() == f2.blocks@.len(),
        forall|b: int|
            0 <= b < f1.blocks@.len() ==> ((#[trigger] f1.blocks@[b]) == f2.blocks@[b] || cleared(
                f1.blocks@[b],
            )),
    ensures
        demanded(f2, v),
{
    let s = choose|s: Seq<Value>| demand_chain(f1, s, v);
    assert(demand_root(f2, s[0])) by {
        let r = s[0];
        if f1.entry < f1.blocks@.len() && exists|i: int|
            0 <= i < f1.blocks@[f1.entry as int].params@.len() && (#[trigger] f1.blocks@[f1.entry
                as int].params@[i]).1 == r {
            assert(!cleared(f1.blocks@[f1.entry as int]) ==> f1.blocks@[f1.entry as int]
                == f2.blocks@[f2.entry as int]);
        } else if exists|b: int|
            0 <= b < f1.blocks@.len() && term_observes((#[trigger] f1.blocks@[b]).terminator, r) {
            let b = choose|b: int|
                0 <= b < f1.blocks@.len() && term_observes(
                    (#[trigger] f1.blocks@[b]).terminator,
                    r,
                );
            assert(!cleared(f1.blocks@[b]));
            assert(term_observes(f2.blocks@[b].terminator, r));
        } else {
            let b = choose|b: int|
                0 <= b < f1.blocks@.len() && (#[trigger] f1.blocks@[b]).insts@.contains(r) && r
                    < f1.values@.len() && match f1.values@[r as int] {
                    crate::ir::ValueDef::Operator(op, _a, _t) => !removable(op),
                    _ => false,
                };
            assert(!cleared(f1.blocks@[b]));
            assert(f2.blocks@[b].insts@.contains(r));
        }
    }
    assert forall|k: int| 0 <= k < s.len() - 1 implies demand_edge(
        f2,
        #[trigger] s[k],
        s[k + 1],
    ) by {
        assert(demand_edge(f1, s[k], s[k + 1]));
        if branch_edge(f1, s[k], s[k + 1]) {
            let (b, t, i) = choose|b: int, t: int, i: int|
                #[trigger] branch_edge_at(f1, s[k], s[k + 1], b, t, i);
            assert(f1.blocks@[b].terminator.targets().len() > 0);
            assert(!cleared(f1.blocks@[b])) by {
                if cleared(f1.blocks@[b]) {
                    assert(f1.blocks@[b].terminator.targets() =~= Seq::<BranchTarget>::empty());
                }
            }
            let tb = f1.blocks@[b].terminator.targets()[t].block;
            assert(!cleared(f1.blocks@[tb as int])) by {
                if cleared(f1.blocks@[tb as int]) {
                    assert(f1.blocks@[tb as int].params@.len() == 0);
                }
            }
            assert(branch_edge_at(f2, s[k], s[k + 1], b, t, i));
        }
    }
    assert(demand_chain(f2, s, v));
}

/// Law: after elimination, every remaining instruction of a reachable
/// block is demanded: a chain of demand edges (operands, projection
/// sources, alias targets, branch arguments) leads to it from an
/// observable root — an entry parameter, a value a terminator observes,
/// or an instruction whose operator the removability policy must keep.
pub proof fn lemma_dce_remaining_demanded(
    old_f: FunctionBody,
    new_f: FunctionBody,
    cfg: CFGInfo,
    bits: Seq<bool>,
    b: int,
    k: int,
)
    requires
        dce_post(old_f, new_f, cfg, bits),
        0 <= b < old_f.blocks@.len(),
        cfg.rpo_pos@[b] is Some,
        0 <= k < new_f.blocks@[b].insts@.len(),
    ensures
        demanded(old_f, new_f.blocks@[b].insts@[k]),
{
    lemma_retain_vals_elems(old_f.blocks@[b].insts@, bits);
    assert(bit(bits, new_f.blocks@[b].insts@[k]));
}

/// Copy a list of values.
fn clone_values(v: &Vec<Value>) -> (r: Vec<Value>)
    ensures
        r@ == v@,
{
    let mut r: Vec<Value> = Vec::new();
    let n = v.len();
    let mut i: usize = 0;
    while i < n
        invariant
            n == v@.len(),
            i <= n,
            r@ == v@.take(i as int),
        decreases n - i,
    {
        r.push(v[i]);
        proof {
            assert(v@.take(i as int).push(v@[i as int]) =~= v@.take(i as int + 1));
        }
        i += 1;
    }
    proof {
        assert(v@.take(n as int) =~= v@);
    }
    r
}

/// Every retained parameter occurs in the original parameter list.
pub proof fn lemma_retain_params_elems(s: Seq<(Type, Value)>, bits: Seq<bool>)
    ensures
        retain_params(s, bits).len() <= s.len(),
        forall|i: int|
            0 <= i < retain_params(s, bits).len() ==> s.contains(
                #[trigger] retain_params(s, bits)[i],
            ),
    decreases s.len(),
{
    if s.len() > 0 {
        lemma_retain_params_elems(s.drop_last(), bits);
        assert forall|i: int| 0 <= i < retain_params(s, bits).len() implies s.contains(
            #[trigger] retain_params(s, bits)[i],
        ) by {
            let r = retain_params(s, bits);
            let rest = retain_params(s.drop_last(), bits);
            if i < rest.len() {
                assert(s.drop_last().contains(rest[i]));
                let j = choose|j: int| 0 <= j < s.drop_last().len() && s.drop_last()[j] == rest[i];
                assert(s[j] == rest[i]);
            } else {
                assert(r[i] == s.last());
                assert(s[s.len() - 1] == s.last());
            }
        }
    }
}

/// Filter an instruction list by the used set.
fn retain_vals_exec(v: &Vec<Value>, used: &UsedSet) -> (r: Vec<Value>)
    ensures
        r@ == retain_vals(v@, used.bits@),
{
    let mut out: Vec<Value> = Vec::new();
    let n = v.len();
    let mut i: usize = 0;
    while i < n
        invariant
            n == v@.len(),
            i <= n,
            out@ == retain_vals(v@.take(i as int), used.bits@),
        decreases n - i,
    {
        let x = v[i];
        proof {
            assert(v@.take(i as int + 1).drop_last() =~= v@.take(i as int));
            assert(v@.take(i as int + 1).last() == v@[i as int]);
        }
        if used.get(x) {
            out.push(x);
        }
        i += 1;
    }
    proof {
        assert(v@.take(n as int) =~= v@);
    }
    out
}

/// Filter a parameter list by the used set.
fn retain_params_exec(v: &Vec<(Type, Value)>, used: &UsedSet) -> (r: Vec<(Type, Value)>)
    ensures
        r@ == retain_params(v@, used.bits@),
{
    let mut out: Vec<(Type, Value)> = Vec::new();
    let n = v.len();
    let mut i: usize = 0;
    while i < n
        invariant
            n == v@.len(),
            i <= n,
            out@ == retain_params(v@.take(i as int), used.bits@),
        decreases n - i,
    {
        let p = v[i];
        proof {
            assert(v@.take(i as int + 1).drop_last() =~= v@.take(i as int));
            assert(v@.take(i as int + 1).last() == v@[i as int]);
        }
        if used.get(p.1) {
            out.push(p);
        }
        i += 1;
    }
    proof {
        assert(v@.take(n as int) =~= v@);
    }
    out
}

/// Rebuild one branch target, dropping each argument whose positionally
/// matching target parameter is unused.
fn retain_target_exec(func: &FunctionBody, t: &BranchTarget, used: &UsedSet) -> (r: BranchTarget)
    requires
        t.block < func.blocks@.len(),
        t.args@.len() <= func.blocks@[t.block as int].params@.len(),
    ensures
        r.block == t.block,
        r.args@ == retain_args(t.args@, func.blocks@[t.block as int].params@, used.bits@),
{
    let ghost params = func.blocks@[t.block as int].params@;
    let mut args: Vec<Value> = Vec::new();
    let n = t.args.len();
    let mut i: usize = 0;
    while i < n
        invariant
            n == t.args@.len(),
            i <= n,
            t.block < func.blocks@.len(),
            params == func.blocks@[t.block as int].params@,
            n <= params.len(),
            args@ == retain_args(t.args@.take(i as int), params, used.bits@),
        decreases n - i,
    {
        let p = func.blocks[t.block].params[i].1;
        proof {
            assert(t.args@.take(i as int + 1).drop_last() =~= t.args@.take(i as int));
            assert(t.args@.take(i as int + 1).last() == t.args@[i as int]);
        }
        if used.get(p) {
            args.push(t.args[i]);
        }
        i += 1;
    }
    proof {
        assert(t.args@.take(n as int) =~= t.args@);
    }
    BranchTarget { block: t.block, args }
}

/// Rebuild the terminator of block `b`, filtering every target's
/// arguments by its target block's (current) parameter liveness.
fn rebuild_terminator(func: &FunctionBody, b: Block, used: &UsedSet) -> (r: Terminator)
    requires
        b < func.blocks@.len(),
        crate::ir::term_wf(
            func.blocks@[b as int].terminator,
            func.blocks@,
            func.values@.len(),
        ),
    ensures
        term_retained(func.blocks@[b as int].terminator, r, func.blocks@, used.bits@),
{
    let ghost term = func.blocks@[b as int].terminator;
    match &func.blocks[b].terminator {
        Terminator::Br { target } => {
            proof {
                assert(term.targets()[0] == *target);
            }
            Terminator::Br { target: retain_target_exec(func, target, used) }
        },
        Terminator::CondBr { cond, if_true, if_false } => {
            proof {
                assert(term.targets()[0] == *if_true);
                assert(term.targets()[1] == *if_false);
            }
            Terminator::CondBr {
                cond: *cond,
                if_true: retain_target_exec(func, if_true, used),
                if_false: retain_target_exec(func, if_false, used),
            }
        },
        Terminator::Select { value, targets, default } => {
            let mut ts: Vec<BranchTarget> = Vec::new();
            let n = targets.len();
            let mut i: usize = 0;
            while i < n
                invariant
                    b < func.blocks@.len(),
                    term == func.blocks@[b as int].terminator,
                    crate::ir::term_wf(term, func.blocks@, func.values@.len()),
                    term matches Terminator::Select { .. },
                    *targets == (match term {
                        Terminator::Select { targets: x, .. } => x,
                        _ => arbitrary(),
                    }),
                    n == targets@.len(),
                    i <= n,
                    ts@.len() == i,
                    forall|j: int|
                        0 <= j < i ==> target_retained(
                            targets@[j],
                            #[trigger] ts@[j],
                            func.blocks@,
                            used.bits@,
                        ),
                decreases n - i,
            {
                proof {
                    assert(term.targets()[i as int] == targets@[i as int]);
                }
                ts.push(retain_target_exec(func, &targets[i], used));
                i += 1;
            }
            proof {
                assert(term.targets()[term.targets().len() - 1] == *default);
            }
            Terminator::Select {
                value: *value,
                targets: ts,
                default: retain_target_exec(func, default, used),
            }
        },
        Terminator::Return { values } => {
            Terminator::Return { values: clone_values(values) }
        },
        Terminator::Unreachable => Terminator::Unreachable,
        Terminator::Unset => Terminator::Unset,
    }
}

/// `term_retained` only reads the parameter lists of the blocks its
/// targets name, so it transfers between block arenas that agree there.
proof fn lemma_term_retained_blocks_agree(
    t1: Terminator,
    t2: Terminator,
    blocks1: Seq<BlockDef>,
    blocks2: Seq<BlockDef>,
    bits: Seq<bool>,
)
    requires
        term_retained(t1, t2, blocks1, bits),
        forall|i: int|
            0 <= i < t1.targets().len() ==> {
                let tb = (#[trigger] t1.targets()[i]).block;
                &&& tb < blocks2.len()
                &&& blocks1[tb as int].params@ == blocks2[tb as int].params@
            },
    ensures
        term_retained(t1, t2, blocks2, bits),
{
    match (t1, t2) {
        (Terminator::Br { target: a }, Terminator::Br { target: _b }) => {
            assert(t1.targets()[0] == a);
        },
        (
            Terminator::CondBr { cond: _, if_true: a1, if_false: b1 },
            Terminator::CondBr { .. },
        ) => {
            assert(t1.targets()[0] == a1);
            assert(t1.targets()[1] == b1);
        },
        (
            Terminator::Select { value: _, targets: ts1, default: d1 },
            Terminator::Select { value: _, targets: ts2, default: _d2 },
        ) => {
            assert forall|i: int| 0 <= i < ts1@.len() implies target_retained(
                #[trigger] ts1@[i],
                ts2@[i],
                blocks2,
                bits,
            ) by {
                assert(t1.targets()[i] == ts1@[i]);
            }
            assert(t1.targets()[ts1@.len() as int] == d1);
        },
        _ => {},
    }
}

/// A rebuilt target of a well-formed target is well formed against the
/// arena whose parameter lists have been filtered by the same used set.
proof fn lemma_target_retained_wf(
    a1: BranchTarget,
    a2: BranchTarget,
    blocks1: Seq<BlockDef>,
    blocks2: Seq<BlockDef>,
    bits: Seq<bool>,
    nvals: nat,
)
    requires
        target_wf(a1, blocks1, nvals),
        target_retained(a1, a2, blocks1, bits),
        blocks1.len() == blocks2.len(),
        forall|j: int|
            0 <= j < blocks2.len() ==> (#[trigger] blocks2[j]).params@ == retain_params(
                blocks1[j].params@,
                bits,
            ),
    ensures
        target_wf(a2, blocks2, nvals),
{
    let params1 = blocks1[a1.block as int].params@;
    lemma_retain_args_elems(a1.args@, params1, bits);
    assert forall|i: int| 0 <= i < a2.args@.len() implies (#[trigger] a2.args@[i]) < nvals by {
        assert(a1.args@.contains(a2.args@[i]));
        let j = choose|j: int| 0 <= j < a1.args@.len() && a1.args@[j] == a2.args@[i];
        assert(a1.args@[j] < nvals);
    }
    lemma_retain_lens(a1.args@, params1, bits);
    assert(params1.take(a1.args@.len() as int) =~= params1);
}

/// A rebuilt terminator of a well-formed terminator is well formed
/// against the parameter-filtered arena.
proof fn lemma_term_retained_wf(
    t1: Terminator,
    t2: Terminator,
    blocks1: Seq<BlockDef>,
    blocks2: Seq<BlockDef>,
    bits: Seq<bool>,
    nvals: nat,
)
    requires
        crate::ir::term_wf(t1, blocks1, nvals),
        term_retained(t1, t2, blocks1, bits),
        blocks1.len() == blocks2.len(),
        forall|j: int|
            0 <= j < blocks2.len() ==> (#[trigger] blocks2[j]).params@ == retain_params(
                blocks1[j].params@,
                bits,
            ),
    ensures
        crate::ir::term_wf(t2, blocks2, nvals),
{
    match (t1, t2) {
        (Terminator::Br { target: a1 }, Terminator::Br { target: a2 }) => {
            assert(t1.targets()[0] == a1);
            lemma_target_retained_wf(a1, a2, blocks1, blocks2, bits, nvals);
            assert forall|i: int| 0 <= i < t2.targets().len() implies target_wf(
                #[trigger] t2.targets()[i],
                blocks2,
                nvals,
            ) by {
                assert(t2.targets()[i] == a2);
            }
        },
        (
            Terminator::CondBr { cond: _, if_true: a1, if_false: b1 },
            Terminator::CondBr { cond: _, if_true: a2, if_false: b2 },
        ) => {
            assert(t1.targets()[0] == a1);
            assert(t1.targets()[1] == b1);
            lemma_target_retained_wf(a1, a2, blocks1, blocks2, bits, nvals);
            lemma_target_retained_wf(b1, b2, blocks1, blocks2, bits, nvals);
            assert forall|i: int| 0 <= i < t2.targets().len() implies target_wf(
                #[trigger] t2.targets()[i],
                blocks2,
                nvals,
            ) by {
                if i == 0 {
                    assert(t2.targets()[i] == a2);
                } else {
                    assert(t2.targets()[i] == b2);
                }
            }
        },
        (
            Terminator::Select { value: _, targets: ts1, default: d1 },
            Terminator::Select { value: _, targets: ts2, default: d2 },
        ) => {
            assert(t1.targets()[ts1@.len() as int] == d1);
            lemma_target_retained_wf(d1, d2, blocks1, blocks2, bits, nvals);
            assert forall|i: int| 0 <= i < t2.targets().len() implies target_wf(
                #[trigger] t2.targets()[i],
                blocks2,
                nvals,
            ) by {
                if i < ts2@.len() {
                    assert(t1.targets()[i] == ts1@[i]);
                    assert(t2.targets()[i] == ts2@[i]);
                    lemma_target_retained_wf(ts1@[i], ts2@[i], blocks1, blocks2, bits, nvals);
                } else {
                    assert(t2.targets()[i] == d2);
                }
            }
        },
        (Terminator::Return { values: v1 }, Terminator::Return { values: v2 }) => {
            assert(forall|i: int| 0 <= i < v2@.len() ==> v2@[i] == v1@[i]);
        },
        _ => {},
    }
}

/// Removing an element and reinserting another at the same position is a
/// pointwise update.
proof fn lemma_remove_insert_update<T>(s: Seq<T>, i: int, x: T)
    requires
        0 <= i < s.len(),
    ensures
        s.remove(i).insert(i, x) =~= s.update(i, x),
{
}

/// Prune unreachable blocks: any block without a reverse-postorder
/// position has its instructions and parameters cleared and its
/// terminator replaced by the unreachable terminator. Only another
/// unreachable block could have targeted it, so no reachable branch
/// argument needs adjusting.
fn prune_unreachable(func: &mut FunctionBody, cfg: &CFGInfo)
    requires
        body_wf(*old(func)),
        cfg_wf(*cfg, old(func).blocks@.len()),
        cfg_edges_ok(*cfg, *old(func)),
    ensures
        final(func).entry == old(func).entry,
        final(func).values == old(func).values,
        final(func).blocks@.len() == old(func).blocks@.len(),
        forall|b: int|
            0 <= b < old(func).blocks@.len() && cfg.rpo_pos@[b] is Some ==> (
            #[trigger] final(func).blocks@[b]) == old(func).blocks@[b],
        forall|b: int|
            0 <= b < old(func).blocks@.len() && cfg.rpo_pos@[b] is None ==> cleared(
                #[trigger] final(func).blocks@[b],
            ),
        body_wf(*final(func)),
{
    let n = func.blocks.len();
    let mut b: usize = 0;
    while b < n
        invariant
            n == func.blocks@.len(),
            b <= n,
            func.entry == old(func).entry,
            func.values == old(func).values,
            func.blocks@.len() == old(func).blocks@.len(),
            cfg_wf(*cfg, old(func).blocks@.len()),
            forall|j: int| b <= j < n ==> (#[trigger] func.blocks@[j]) == old(func).blocks@[j],
            forall|j: int|
                0 <= j < b && cfg.rpo_pos@[j] is Some ==> (#[trigger] func.blocks@[j]) == old(
                    func,
                ).blocks@[j],
            forall|j: int|
                0 <= j < b && cfg.rpo_pos@[j] is None ==> cleared(#[trigger] func.blocks@[j]),
        decreases n - b,
    {
        let reachable = match cfg.rpo_pos[b] {
            Some(_) => true,
            None => false,
        };
        if !reachable {
            func.blocks.set(
                b,
                BlockDef {
                    params: Vec::new(),
                    insts: Vec::new(),
                    terminator: Terminator::Unreachable,
                },
            );
        }
        b += 1;
    }
    proof {
        let nvals = func.values@.len();
        assert forall|bb: int| 0 <= bb < func.blocks@.len() implies crate::ir::block_wf(
            #[trigger] func.blocks@[bb],
            func.blocks@,
            nvals,
        ) by {
            if cfg.rpo_pos@[bb] is Some {
                assert(crate::ir::block_wf(old(func).blocks@[bb], old(func).blocks@, nvals));
                let bd = func.blocks@[bb];
                assert forall|t: int| 0 <= t < bd.terminator.targets().len() implies target_wf(
                    #[trigger] bd.terminator.targets()[t],
                    func.blocks@,
                    nvals,
                ) by {
                    let tg = bd.terminator.targets()[t];
                    assert(target_wf(tg, old(func).blocks@, nvals));
                    assert(cfg.rpo_pos@[tg.block as int] is Some);
                    assert(func.blocks@[tg.block as int] == old(func).blocks@[tg.block as int]);
                }
            } else {
                assert(cleared(func.blocks@[bb]));
                assert(func.blocks@[bb].terminator.targets() =~= Seq::<BranchTarget>::empty());
            }
        }
    }
}

/// Delete every instruction not in the used set, in every block.
fn retain_insts_pass(func: &mut FunctionBody, used: &UsedSet)
    requires
        body_wf(*old(func)),
    ensures
        final(func).entry == old(func).entry,
        final(func).values == old(func).values,
        final(func).blocks@.len() == old(func).blocks@.len(),
        forall|b: int|
            0 <= b < old(func).blocks@.len() ==> {
                &&& (#[trigger] final(func).blocks@[b]).params == old(func).blocks@[b].params
                &&& final(func).blocks@[b].terminator == old(func).blocks@[b].terminator
                &&& final(func).blocks@[b].insts@ == retain_vals(
                    old(func).blocks@[b].insts@,
                    used.bits@,
                )
            },
        body_wf(*final(func)),
{
    let n = func.blocks.len();
    let mut b: usize = 0;
    while b < n
        invariant
            n == func.blocks@.len(),
            b <= n,
            func.entry == old(func).entry,
            func.values == old(func).values,
            func.blocks@.len() == old(func).blocks@.len(),
            forall|j: int| b <= j < n ==> (#[trigger] func.blocks@[j]) == old(func).blocks@[j],
            forall|j: int|
                0 <= j < b ==> {
                    &&& (#[trigger] func.blocks@[j]).params == old(func).blocks@[j].params
                    &&& func.blocks@[j].terminator == old(func).blocks@[j].terminator
                    &&& func.blocks@[j].insts@ == retain_vals(
                        old(func).blocks@[j].insts@,
                        used.bits@,
                    )
                },
        decreases n - b,
    {
        let ghost pre = func.blocks@;
        let bd = func.blocks.remove(b);
        let BlockDef { params, insts, terminator } = bd;
        let new_insts = retain_vals_exec(&insts, used);
        let newbd = BlockDef { params, insts: new_insts, terminator };
        let ghost gnb = newbd;
        func.blocks.insert(b, newbd);
        proof {
            lemma_remove_insert_update(pre, b as int, gnb);
            assert(func.blocks@ =~= pre.update(b as int, gnb));
        }
        b += 1;
    }
    proof {
        let nvals = func.values@.len();
        assert forall|bb: int| 0 <= bb < func.blocks@.len() implies crate::ir::block_wf(
            #[trigger] func.blocks@[bb],
            func.blocks@,
            nvals,
        ) by {
            assert(crate::ir::block_wf(old(func).blocks@[bb], old(func).blocks@, nvals));
            let ob = old(func).blocks@[bb];
            let nb = func.blocks@[bb];
            lemma_retain_vals_elems(ob.insts@, used.bits@);
            assert forall|i: int| 0 <= i < nb.insts@.len() implies nb.insts@[i] < nvals by {
                assert(ob.insts@.contains(nb.insts@[i]));
                let j = choose|j: int| 0 <= j < ob.insts@.len() && ob.insts@[j] == nb.insts@[i];
            }
            assert forall|t: int| 0 <= t < nb.terminator.targets().len() implies target_wf(
                #[trigger] nb.terminator.targets()[t],
                func.blocks@,
                nvals,
            ) by {
                let tg = nb.terminator.targets()[t];
                assert(target_wf(tg, old(func).blocks@, nvals));
                assert(func.blocks@[tg.block as int].params == old(func).blocks@[tg.block
                    as int].params);
            }
        }
    }
}

/// Rebuild every terminator, dropping each branch argument whose target
/// parameter is unused. Parameters themselves are still intact here; they
/// are filtered afterwards by the same set, which keeps the pairs aligned.
fn rebuild_terms_pass(func: &mut FunctionBody, used: &UsedSet)
    requires
        body_wf(*old(func)),
    ensures
        final(func).entry == old(func).entry,
        final(func).values == old(func).values,
        final(func).blocks@.len() == old(func).blocks@.len(),
        forall|b: int|
            0 <= b < old(func).blocks@.len() ==> {
                &&& (#[trigger] final(func).blocks@[b]).params == old(func).blocks@[b].params
                &&& final(func).blocks@[b].insts == old(func).blocks@[b].insts
                &&& term_retained(
                    old(func).blocks@[b].terminator,
                    final(func).blocks@[b].terminator,
                    old(func).blocks@,
                    used.bits@,
                )
            },
{
    let n = func.blocks.len();
    let mut b: usize = 0;
    while b < n
        invariant
            n == func.blocks@.len(),
            b <= n,
            body_wf(*old(func)),
            func.entry == old(func).entry,
            func.values == old(func).values,
            func.blocks@.len() == old(func).blocks@.len(),
            forall|j: int| b <= j < n ==> (#[trigger] func.blocks@[j]) == old(func).blocks@[j],
            forall|j: int|
                0 <= j < n ==> (#[trigger] func.blocks@[j]).params == old(func).blocks@[j].params,
            forall|j: int|
                0 <= j < b ==> {
                    &&& (#[trigger] func.blocks@[j]).insts == old(func).blocks@[j].insts
                    &&& term_retained(
                        old(func).blocks@[j].terminator,
                        func.blocks@[j].terminator,
                        old(func).blocks@,
                        used.bits@,
                    )
                },
        decreases n - b,
    {
        proof {
            let nvals = func.values@.len();
            assert(crate::ir::block_wf(old(func).blocks@[b as int], old(func).blocks@, nvals));
            assert forall|t: int|
                0 <= t < func.blocks@[b as int].terminator.targets().len() implies target_wf(
                #[trigger] func.blocks@[b as int].terminator.targets()[t],
                func.blocks@,
                nvals,
            ) by {
                let tg = func.blocks@[b as int].terminator.targets()[t];
                assert(target_wf(tg, old(func).blocks@, nvals));
                assert(func.blocks@[tg.block as int].params == old(func).blocks@[tg.block
                    as int].params);
            }
        }
        let new_term = rebuild_terminator(func, b, used);
        proof {
            lemma_term_retained_blocks_agree(
                func.blocks@[b as int].terminator,
                new_term,
                func.blocks@,
                old(func).blocks@,
                used.bits@,
            );
        }
        let ghost pre = func.blocks@;
        let bd = func.blocks.remove(b);
        let BlockDef { params, insts, terminator: _dropped } = bd;
        let newbd = BlockDef { params, insts, terminator: new_term };
        let ghost gnb = newbd;
        func.blocks.insert(b, newbd);
        proof {
            lemma_remove_insert_update(pre, b as int, gnb);
            assert(func.blocks@ =~= pre.update(b as int, gnb));
        }
        b += 1;
    }
}

/// Delete every block parameter not in the used set, in every block.
fn retain_params_pass(func: &mut FunctionBody, used: &UsedSet)
    ensures
        final(func).entry == old(func).entry,
        final(func).values == old(func).values,
        final(func).blocks@.len() == old(func).blocks@.len(),
        forall|b: int|
            0 <= b < old(func).blocks@.len() ==> {
                &&& (#[trigger] final(func).blocks@[b]).insts == old(func).blocks@[b].insts
                &&& final(func).blocks@[b].terminator == old(func).blocks@[b].terminator
                &&& final(func).blocks@[b].params@ == retain_params(
                    old(func).blocks@[b].params@,
                    used.bits@,
                )
            },
{
    let n = func.blocks.len();
    let mut b: usize = 0;
    while b < n
        invariant
            n == func.blocks@.len(),
            b <= n,
            func.entry == old(func).entry,
            func.values == old(func).values,
            func.blocks@.len() == old(func).blocks@.len(),
            forall|j: int| b <= j < n ==> (#[trigger] func.blocks@[j]) == old(func).blocks@[j],
            forall|j: int|
                0 <= j < b ==> {
                    &&& (#[trigger] func.blocks@[j]).insts == old(func).blocks@[j].insts
                    &&& func.blocks@[j].terminator == old(func).blocks@[j].terminator
                    &&& func.blocks@[j].params@ == retain_params(
                        old(func).blocks@[j].params@,
                        used.bits@,
                    )
                },
        decreases n - b,
    {
        let ghost pre = func.blocks@;
        let bd = func.blocks.remove(b);
        let BlockDef { params, insts, terminator } = bd;
        let new_params = retain_params_exec(&params, used);
        let newbd = BlockDef { params: new_params, insts, terminator };
        let ghost gnb = newbd;
        func.blocks.insert(b, newbd);
        proof {
            lemma_remove_insert_update(pre, b as int, gnb);
            assert(func.blocks@ =~= pre.update(b as int, gnb));
        }
        b += 1;
    }
}

/// A fatal programming-invariant violation found by the post-removal
/// check: a remaining branch argument whose static type does not match
/// its target block parameter's declared type. It indicates a bug in an
/// upstream transformation; the pass halts rather than continue with
/// corrupted code.
#[derive(Clone, Copy, Debug, PartialEq, Eq, Structural)]
pub struct DceError {
    /// The block whose terminator holds the offending argument.
    pub block: Block,
    /// The target block of the offending edge.
    pub target_block: Block,
    /// The (alias-resolved) argument value.
    pub arg: Value,
    /// The parameter value it feeds.
    pub param: Value,
}

/// Check one target's argument/parameter pairs.
fn check_target(func: &FunctionBody, b: Block, t: &BranchTarget) -> (r: Option<DceError>)
    requires
        t.block < func.blocks@.len(),
        forall|k: int| 0 <= k < t.args@.len() ==> t.args@[k] < func.values@.len(),
    ensures
        (r is None) == target_types_ok(*func, *t),
{
    let n = t.args.len();
    let m = func.blocks[t.block].params.len();
    let lim = if n < m {
        n
    } else {
        m
    };
    let mut i: usize = 0;
    while i < lim
        invariant
            t.block < func.blocks@.len(),
            forall|k: int| 0 <= k < t.args@.len() ==> t.args@[k] < func.values@.len(),
            n == t.args@.len(),
            m == func.blocks@[t.block as int].params@.len(),
            lim <= n,
            lim <= m,
            lim == n || lim == m,
            i <= lim,
            forall|k: int|
                #![trigger t.args@[k]]
                0 <= k < i ==> {
                    let arg = spec_resolve_alias(func.values@, t.args@[k]);
                    arg < func.values@.len() && spec_value_ty(func.values@[arg as int]) == Some(
                        func.blocks@[t.block as int].params@[k].0,
                    )
                },
        decreases lim - i,
    {
        let a = resolve_alias(func, t.args[i]);
        let aty = value_ty(func, a);
        let pty = func.blocks[t.block].params[i].0;
        let ok = match aty {
            Some(x) => x == pty,
            None => false,
        };
        if !ok {
            let err = DceError {
                block: b,
                target_block: t.block,
                arg: a,
                param: func.blocks[t.block].params[i].1,
            };
            proof {
                assert(!target_types_ok(*func, *t)) by {
                    if target_types_ok(*func, *t) {
                        assert(0 <= i < t.args@.len() && i < func.blocks@[t.block
                            as int].params@.len());
                        assert(t.args@[i as int] == t.args@[i as int]);
                    }
                }
            }
            return Some(err);
        }
        i += 1;
    }
    None
}

/// Walk every terminator and check every remaining branch-argument
/// against its target block parameter's declared type; the first
/// mismatch halts the pass with its context.
fn validate(func: &FunctionBody) -> (r: Result<(), DceError>)
    requires
        body_wf(*func),
    ensures
        (r is Ok) == branch_types_ok(*func),
{
    let n = func.blocks.len();
    let mut b: usize = 0;
    while b < n
        invariant
            body_wf(*func),
            n == func.blocks@.len(),
            b <= n,
            forall|j: int| 0 <= j < b ==> #[trigger] block_types_ok(*func, j),
        decreases n - b,
    {
        let ghost term = func.blocks@[b as int].terminator;
        proof {
            assert(crate::ir::block_wf(func.blocks@[b as int], func.blocks@, func.values@.len()));
        }
        match &func.blocks[b].terminator {
            Terminator::Br { target } => {
                proof {
                    assert(term.targets()[0] == *target);
                }
                if let Some(err) = check_target(func, b, target) {
                    proof {
                        if branch_types_ok(*func) {
                            assert(block_types_ok(*func, b as int));
                        }
                    }
                    return Err(err);
                }
                proof {
                    assert forall|t: int| 0 <= t < term.targets().len() implies target_types_ok(
                        *func,
                        #[trigger] term.targets()[t],
                    ) by {
                        assert(term.targets()[t] == *target);
                    }
                }
            },
            Terminator::CondBr { cond: _, if_true, if_false } => {
                proof {
                    assert(term.targets()[0] == *if_true);
                    assert(term.targets()[1] == *if_false);
                }
                if let Some(err) = check_target(func, b, if_true) {
                    proof {
                        if branch_types_ok(*func) {
                            assert(block_types_ok(*func, b as int));
                        }
                    }
                    return Err(err);
                }
                if let Some(err) = check_target(func, b, if_false) {
                    proof {
                        if branch_types_ok(*func) {
                            assert(block_types_ok(*func, b as int));
                        }
                    }
                    return Err(err);
                }
                proof {
                    assert forall|t: int| 0 <= t < term.targets().len() implies target_types_ok(
                        *func,
                        #[trigger] term.targets()[t],
                    ) by {
                        if t == 0 {
                            assert(term.targets()[t] == *if_true);
                        } else {
                            assert(term.targets()[t] == *if_false);
                        }
                    }
                }
            },
            Terminator::Select { value: _, targets, default } => {
                let m = targets.len();
                let mut t: usize = 0;
                while t < m
                    invariant
                        body_wf(*func),
                        b < func.blocks@.len(),
                        term == func.blocks@[b as int].terminator,
                        term matches Terminator::Select { .. },
                        *targets == (match term {
                            Terminator::Select { targets: x, .. } => x,
                            _ => arbitrary(),
                        }),
                        m == targets@.len(),
                        t <= m,
                        forall|k: int|
                            0 <= k < t ==> target_types_ok(*func, #[trigger] targets@[k]),
                    decreases m - t,
                {
                    proof {
                        assert(term.targets()[t as int] == targets@[t as int]);
                        assert(crate::ir::block_wf(
                            func.blocks@[b as int],
                            func.blocks@,
                            func.values@.len(),
                        ));
                    }
                    if let Some(err) = check_target(func, b, &targets[t]) {
                        proof {
                            if branch_types_ok(*func) {
                                assert(block_types_ok(*func, b as int));
                                assert(target_types_ok(*func, term.targets()[t as int]));
                            }
                        }
                        return Err(err);
                    }
                    t += 1;
                }
                proof {
                    assert(term.targets()[term.targets().len() - 1] == *default);
                }
                if let Some(err) = check_target(func, b, default) {
                    proof {
                        if branch_types_ok(*func) {
                            assert(block_types_ok(*func, b as int));
                            assert(target_types_ok(
                                *func,
                                term.targets()[term.targets().len() - 1],
                            ));
                        }
                    }
                    return Err(err);
                }
                proof {
                    assert forall|k: int| 0 <= k < term.targets().len() implies target_types_ok(
                        *func,
                        #[trigger] term.targets()[k],
                    ) by {
                        if k < targets@.len() {
                            assert(term.targets()[k] == targets@[k]);
                        } else {
                            assert(term.targets()[k] == *default);
                        }
                    }
                }
            },
            _ => {
                proof {
                    assert(term.targets().len() == 0);
                }
            },
        }
        proof {
            assert(block_types_ok(*func, b as int));
        }
        b += 1;
    }
    Ok(())
}

/// Run dead-code elimination on a function body: prune unreachable
/// blocks, compute the backward liveness fixed point seeded with the
/// entry block's parameters, delete every unused instruction, block
/// parameter, and branch argument, and re-validate that every remaining
/// branch-argument/parameter pair agrees in type. A type mismatch is a
/// fatal invariant violation reported as the error.
pub fn run(func: &mut FunctionBody, cfg: &CFGInfo) -> (r: Result<(), DceError>)
    requires
        body_wf(*old(func)),
        cfg_wf(*cfg, old(func).blocks@.len()),
        cfg_edges_ok(*cfg, *old(func)),
    ensures
        final(func).entry == old(func).entry,
        final(func).values == old(func).values,
        final(func).blocks@.len() == old(func).blocks@.len(),
        body_wf(*final(func)),
        exists|bits: Seq<bool>| dce_post(*old(func), *final(func), *cfg, bits),
        (r is Ok) == branch_types_ok(*final(func)),
{
    prune_unreachable(func, cfg);
    let ghost f1 = *func;
    let nvals = func.values.len();
    let mut used = UsedSet::new(nvals);
    proof {
        assert forall|v: Value| #[trigger] bit(used.bits@, v) implies demanded(f1, v) by {
            assert(!used.contains(v));
        }
    }

    // Seed: the entry block's parameters are the function's incoming
    // arguments and always observable.
    let entry = func.entry;
    let en = func.blocks[entry].params.len();
    let mut i: usize = 0;
    while i < en
        invariant
            *func == f1,
            body_wf(f1),
            entry == f1.entry,
            entry < f1.blocks@.len(),
            en == f1.blocks@[entry as int].params@.len(),
            i <= en,
            used.len() == nvals,
            nvals == f1.values@.len(),
            forall|j: int|
                0 <= j < i ==> bit(
                    used.bits@,
                    (#[trigger] f1.blocks@[entry as int].params@[j]).1,
                ),
            bits_demanded(f1, used.bits@),
        decreases en - i,
    {
        let pv = func.blocks[entry].params[i].1;
        proof {
            assert(f1.blocks@[entry as int].params@[i as int].1 == pv);
            assert(demand_root(f1, pv));
            lemma_demand_of_root(f1, pv);
        }
        let ghost pre = used.bits@;
        used.insert(pv);
        proof {
            assert forall|v: Value| #[trigger] bit(used.bits@, v) implies demanded(f1, v) by {
                if v != pv {
                    assert(bit(pre, v));
                }
            }
        }
        i += 1;
    }

    // Liveness fixed point, scanning blocks in reverse of reverse
    // postorder until nothing changes. The used set only grows and is
    // bounded by the number of values, so this terminates.
    let rpo_len = cfg.rpo.len();
    loop
        invariant
            *func == f1,
            body_wf(f1),
            cfg_wf(*cfg, f1.blocks@.len()),
            rpo_len == cfg.rpo@.len(),
            used.len() == nvals,
            nvals == f1.values@.len(),
            entry == f1.entry,
            entry < f1.blocks@.len(),
            forall|j: int|
                0 <= j < f1.blocks@[entry as int].params@.len() ==> bit(
                    used.bits@,
                    (#[trigger] f1.blocks@[entry as int].params@[j]).1,
                ),
            bits_demanded(f1, used.bits@),
        ensures
            *func == f1,
            used.len() == nvals,
            bits_demanded(f1, used.bits@),
            forall|j: int|
                0 <= j < f1.blocks@[entry as int].params@.len() ==> bit(
                    used.bits@,
                    (#[trigger] f1.blocks@[entry as int].params@[j]).1,
                ),
            forall|u: int, k: int|
                0 <= u < cfg.rpo@.len() && 0 <= k < f1.blocks@[cfg.rpo@[u] as int].insts@.len()
                    ==> marked_if_unremovable_bits(
                    f1,
                    used.bits@,
                    #[trigger] f1.blocks@[cfg.rpo@[u] as int].insts@[k],
                ),
        decreases nvals - count_true(used.bits@),
    {
        let ghost iter0 = used.bits@;
        let mut changed = false;
        let mut t = rpo_len;
        while t > 0
            invariant
                *func == f1,
                body_wf(f1),
                cfg_wf(*cfg, f1.blocks@.len()),
                rpo_len == cfg.rpo@.len(),
                t <= rpo_len,
                used.len() == nvals,
                nvals == f1.values@.len(),
                iter0.len() == nvals,
                entry == f1.entry,
                entry < f1.blocks@.len(),
                forall|j: int| 0 <= j < iter0.len() ==> (iter0[j] ==> used.bits@[j]),
                changed == (used.bits@ != iter0),
                bits_demanded(f1, used.bits@),
                forall|j: int|
                    0 <= j < f1.blocks@[entry as int].params@.len() ==> bit(
                        used.bits@,
                        (#[trigger] f1.blocks@[entry as int].params@[j]).1,
                    ),
                forall|u: int, k: int|
                    t <= u < rpo_len && 0 <= k < f1.blocks@[cfg.rpo@[u] as int].insts@.len()
                        ==> marked_if_unremovable_bits(
                        f1,
                        used.bits@,
                        #[trigger] f1.blocks@[cfg.rpo@[u] as int].insts@[k],
                    ),
            decreases t,
        {
            t -= 1;
            let b = cfg.rpo[t];
            let ghost pre = used.bits@;
            let c = scan_block(func, b, &mut used);
            proof {
                lemma_changed_step(iter0, pre, used.bits@, changed, c);
            }
            changed = changed || c;
            proof {
                assert(forall|j: int| 0 <= j < pre.len() ==> (pre[j] ==> used.bits@[j]));
            }
        }
        if !changed {
            break ;
        }
        proof {
            lemma_count_true_lt(iter0, used.bits@);
            lemma_count_true_bound(used.bits@);
        }
    }

    // Removal.
    retain_insts_pass(func, &used);
    let ghost f2 = *func;
    rebuild_terms_pass(func, &used);
    let ghost f3 = *func;
    retain_params_pass(func, &used);

    proof {
        let bits = used.bits@;
        let of = *old(func);
        let nf = *func;
        let nvals_g = of.values@.len();

        // Unreachable blocks stay cleared through the removal passes.
        assert forall|b: int|
            0 <= b < of.blocks@.len() && cfg.rpo_pos@[b] is None implies cleared(
            #[trigger] nf.blocks@[b],
        ) by {
            assert(cleared(f1.blocks@[b]));
            assert(f2.blocks@[b].insts@ == retain_vals(f1.blocks@[b].insts@, bits));
            assert(f2.blocks@[b].insts@.len() == 0);
            assert(term_retained(f2.blocks@[b].terminator, f3.blocks@[b].terminator, f2.blocks@,
                bits));
            assert(f3.blocks@[b].terminator == Terminator::Unreachable);
            assert(nf.blocks@[b].params@ == retain_params(f3.blocks@[b].params@, bits));
        }

        // Reachable blocks are the old ones filtered by the used set.
        assert forall|b: int|
            0 <= b < of.blocks@.len() && cfg.rpo_pos@[b] is Some implies {
            &&& (#[trigger] nf.blocks@[b]).insts@ == retain_vals(of.blocks@[b].insts@, bits)
            &&& nf.blocks@[b].params@ == retain_params(of.blocks@[b].params@, bits)
            &&& term_retained(of.blocks@[b].terminator, nf.blocks@[b].terminator, of.blocks@,
                bits)
        } by {
            assert(f1.blocks@[b] == of.blocks@[b]);
            assert(term_retained(f2.blocks@[b].terminator, f3.blocks@[b].terminator, f2.blocks@,
                bits));
            assert(f2.blocks@[b].terminator == of.blocks@[b].terminator);
            lemma_term_retained_blocks_agree(
                of.blocks@[b].terminator,
                f3.blocks@[b].terminator,
                f2.blocks@,
                of.blocks@,
                bits,
            );
        }

        // Every unmarked instruction of a reachable block was removable.
        assert forall|b: int, k: int|
            0 <= b < of.blocks@.len() && cfg.rpo_pos@[b] is Some && 0 <= k < of.blocks@[b]
                .insts@.len() implies marked_if_unremovable_bits(
            of,
            bits,
            #[trigger] of.blocks@[b].insts@[k],
        ) by {
            let p = cfg.rpo_pos@[b].unwrap();
            assert(cfg.rpo@[p as int] == b);
            assert(f1.blocks@[b] == of.blocks@[b]);
            assert(marked_if_unremovable_bits(f1, bits, f1.blocks@[b].insts@[k]));
        }

        // Everything marked is demanded, transferred from the pruned
        // function back to the original one.
        assert forall|v: Value| #[trigger] bit(bits, v) implies demanded(of, v) by {
            assert(demanded(f1, v));
            lemma_demanded_transfer(f1, of, v);
        }

        assert(dce_post(of, nf, *cfg, bits));

        // The body stays well formed.
        assert(body_wf(nf)) by {
            assert forall|b: int| 0 <= b < nf.blocks@.len() implies crate::ir::block_wf(
                #[trigger] nf.blocks@[b],
                nf.blocks@,
                nvals_g,
            ) by {
                assert(crate::ir::block_wf(f2.blocks@[b], f2.blocks@, nvals_g));
                lemma_retain_params_elems(f3.blocks@[b].params@, bits);
                assert forall|k: int| 0 <= k < nf.blocks@[b].params@.len() implies (
                #[trigger] nf.blocks@[b].params@[k]).1 < nvals_g by {
                    assert(f3.blocks@[b].params@.contains(nf.blocks@[b].params@[k]));
                    let j = choose|j: int|
                        0 <= j < f3.blocks@[b].params@.len() && f3.blocks@[b].params@[j]
                            == nf.blocks@[b].params@[k];
                    assert(f3.blocks@[b].params@[j] == f2.blocks@[b].params@[j]);
                }
                lemma_term_retained_wf(
                    f2.blocks@[b].terminator,
                    nf.blocks@[b].terminator,
                    f2.blocks@,
                    nf.blocks@,
                    bits,
                    nvals_g,
                );
            }
        }
    }

    validate(func)
}

} // verus!
