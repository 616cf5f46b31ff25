//! Specialization state.
//!
//! Per context, the state has two halves: the SSA values, which are
//! flow-insensitive (each value is defined exactly once), and the
//! flow-sensitive half — an overlay of tracked values on symbolic memory
//! addresses plus abstract values for the module globals — which certain
//! instructions update and which therefore is tracked per program point.

use crate::assoc::{
    lookup, map_meet_with, opt_meet, unique_keys, AssocMap, EqItem, MeetItem,
};
use crate::assoc::{lemma_lookup_entry, lemma_lookup_exists, lemma_lookup_found,
    lemma_lookup_none, lemma_lookup_push};
use crate::ctx::{Context, ContextElem, Contexts};
use crate::image::Image;
use crate::ir::{FunctionBody, GlobalId, Type, Value};
use crate::lattice::AbstractValue;
use vstd::prelude::*;

verus! {

/// An abstract memory location: an opaque provenance token distinguishing
/// disjoint regions, the element type accessed, and a signed byte offset
/// supporting pointer arithmetic. Addresses with different tokens are
/// never assumed to alias.
#[derive(Clone, Copy, Debug, PartialEq, Eq, Structural)]
pub struct SymbolicAddr {
    pub token: u32,
    pub element_ty: Type,
    pub offset: i64,
}

impl SymbolicAddr {
    /// Advance the byte offset. The offset arithmetic staying in range is
    /// a programming invariant of the upstream transformation.
    pub fn add_offset(self, off: i64) -> (r: SymbolicAddr)
        requires
            i64::MIN <= self.offset + off <= i64::MAX,
        ensures
            r == (SymbolicAddr { offset: (self.offset + off) as i64, ..self }),
    {
        SymbolicAddr { token: self.token, element_ty: self.element_ty, offset: self.offset + off }
    }

    /// Retreat the byte offset; same range requirement as `add_offset`.
    pub fn sub_offset(self, off: i64) -> (r: SymbolicAddr)
        requires
            i64::MIN <= self.offset - off <= i64::MAX,
        ensures
            r == (SymbolicAddr { offset: (self.offset - off) as i64, ..self }),
    {
        SymbolicAddr { token: self.token, element_ty: self.element_ty, offset: self.offset - off }
    }
}

impl EqItem for SymbolicAddr {
    fn eq_item(a: &SymbolicAddr, b: &SymbolicAddr) -> (r: bool)
        ensures
            r == (*a == *b),
    {
        *a == *b
    }
}

/// One slot of the memory overlay.
#[derive(Clone, Copy, Debug, PartialEq, Eq, Structural)]
pub enum MemValue {
    /// A concretely tracked cell: the SSA value holding its current
    /// contents, its type, the SSA value of its address, whether it has
    /// not yet been flushed back to the memory image, and the abstract
    /// value summarizing what is known of it.
    Value { data: Value, ty: Type, addr: Value, dirty: bool, abs: AbstractValue },
    /// Multiple predecessors agree on the type and merge to this abstract
    /// value, but no single SSA value represents the cell yet; resolved
    /// into a block parameter lazily.
    TypedMerge(Type, AbstractValue),
    /// The cell was committed back to memory and is no longer tracked.
    Flushed { ty: Type, addr: Value },
    /// Predecessors disagree irreconcilably; the slot must be evicted.
    Conflict,
}

impl MemValue {
    /// The meet of two overlay slots: identical slots meet to themselves;
    /// two tracked values of one type, or a tracked value and a merge of
    /// one type, fold to the typed merge of their abstract values;
    /// anything else — type mismatches included — is a conflict.
    pub open spec fn meet_spec(a: MemValue, b: MemValue) -> MemValue {
        if a == b {
            a
        } else {
            match (a, b) {
                (
                    MemValue::Value { ty: ty1, abs: abs1, .. },
                    MemValue::Value { ty: ty2, abs: abs2, .. },
                ) => if ty1 == ty2 {
                    MemValue::TypedMerge(ty1, AbstractValue::meet_spec(abs1, abs2))
                } else {
                    MemValue::Conflict
                },
                (MemValue::TypedMerge(ty, abs), MemValue::Value { ty: ty1, abs: abs1, .. }) => if ty
                    == ty1 {
                    MemValue::TypedMerge(ty, AbstractValue::meet_spec(abs, abs1))
                } else {
                    MemValue::Conflict
                },
                (MemValue::Value { ty: ty1, abs: abs1, .. }, MemValue::TypedMerge(ty, abs)) => if ty
                    == ty1 {
                    MemValue::TypedMerge(ty, AbstractValue::meet_spec(abs, abs1))
                } else {
                    MemValue::Conflict
                },
                _ => MemValue::Conflict,
            }
        }
    }

    /// Merge two overlay slots coming from different predecessors.
    pub fn meet(a: &MemValue, b: &MemValue) -> (r: MemValue)
        ensures
            r == MemValue::meet_spec(*a, *b),
    {
        if *a == *b {
            *a
        } else {
            match (a, b) {
                (
                    MemValue::Value { ty: ty1, abs: abs1, .. },
                    MemValue::Value { ty: ty2, abs: abs2, .. },
                ) => {
                    if *ty1 == *ty2 {
                        MemValue::TypedMerge(*ty1, AbstractValue::meet(abs1, abs2))
                    } else {
                        MemValue::Conflict
                    }
                },
                (MemValue::TypedMerge(ty, abs), MemValue::Value { ty: ty1, abs: abs1, .. }) => {
                    if *ty == *ty1 {
                        MemValue::TypedMerge(*ty, AbstractValue::meet(abs, abs1))
                    } else {
                        MemValue::Conflict
                    }
                },
                (MemValue::Value { ty: ty1, abs: abs1, .. }, MemValue::TypedMerge(ty, abs)) => {
                    if *ty == *ty1 {
                        MemValue::TypedMerge(*ty, AbstractValue::meet(abs, abs1))
                    } else {
                        MemValue::Conflict
                    }
                },
                _ => MemValue::Conflict,
            }
        }
    }

    /// The address and data values of a concretely tracked cell.
    pub open spec fn spec_to_addr_and_value(self) -> Option<(Value, Value)> {
        match self {
            MemValue::Value { addr, data, .. } => Some((addr, data)),
            _ => None,
        }
    }

    pub fn to_addr_and_value(&self) -> (r: Option<(Value, Value)>)
        ensures
            r == self.spec_to_addr_and_value(),
    {
        match self {
            MemValue::Value { addr, data, .. } => Some((*addr, *data)),
            _ => None,
        }
    }

    /// The element type of a tracked or merged cell.
    pub open spec fn spec_to_type(self) -> Option<Type> {
        match self {
            MemValue::Value { ty, .. } => Some(ty),
            MemValue::TypedMerge(ty, _) => Some(ty),
            _ => None,
        }
    }

    pub fn to_type(&self) -> (r: Option<Type>)
        ensures
            r == self.spec_to_type(),
    {
        match self {
            MemValue::Value { ty, .. } => Some(*ty),
            MemValue::TypedMerge(ty, _) => Some(*ty),
            _ => None,
        }
    }
}

impl EqItem for MemValue {
    fn eq_item(a: &MemValue, b: &MemValue) -> (r: bool)
        ensures
            r == (*a == *b),
    {
        *a == *b
    }
}

impl MeetItem for MemValue {
    open spec fn meet_item_spec(a: MemValue, b: MemValue) -> MemValue {
        MemValue::meet_spec(a, b)
    }

    fn meet_item(a: &MemValue, b: &MemValue) -> (r: MemValue)
        ensures
            r == <MemValue as MeetItem>::meet_item_spec(*a, *b),
    {
        MemValue::meet(a, b)
    }
}

impl EqItem for AbstractValue {
    fn eq_item(a: &AbstractValue, b: &AbstractValue) -> (r: bool)
        ensures
            r == (*a == *b),
    {
        *a == *b
    }
}

impl MeetItem for AbstractValue {
    open spec fn meet_item_spec(a: AbstractValue, b: AbstractValue) -> AbstractValue {
        AbstractValue::meet_spec(a, b)
    }

    fn meet_item(a: &AbstractValue, b: &AbstractValue) -> (r: AbstractValue)
        ensures
            r == <AbstractValue as MeetItem>::meet_item_spec(*a, *b),
    {
        AbstractValue::meet(a, b)
    }
}

/// Law: the meet of two distinct tracked cells of one type is the typed
/// merge of their abstract values.
pub proof fn lemma_mem_meet_values_same_ty(a: MemValue, b: MemValue, ty: Type)
    requires
        a matches MemValue::Value { .. },
        b matches MemValue::Value { .. },
        a.spec_to_type() == Some(ty),
        b.spec_to_type() == Some(ty),
        a != b,
    ensures
        match (a, b) {
            (MemValue::Value { abs: abs1, .. }, MemValue::Value { abs: abs2, .. }) =>
                MemValue::meet_spec(a, b) == MemValue::TypedMerge(
                    ty,
                    AbstractValue::meet_spec(abs1, abs2),
                ),
            _ => false,
        },
{
}

/// Law: the meet of two slots whose element types differ is a conflict.
pub proof fn lemma_mem_meet_type_mismatch(a: MemValue, b: MemValue)
    requires
        a.spec_to_type() is Some,
        b.spec_to_type() is Some,
        a.spec_to_type() != b.spec_to_type(),
    ensures
        MemValue::meet_spec(a, b) == MemValue::Conflict,
{
}

/// Law: the meet of any slot with itself is itself.
pub proof fn lemma_mem_meet_idempotent(a: MemValue)
    ensures
        MemValue::meet_spec(a, a) == a,
{
}

/// The flow-insensitive half of the state. The single-assignment values
/// need no per-program-point storage; their abstract values live in
/// `FunctionState`.
#[derive(Clone, Copy, Debug, PartialEq, Eq, Structural)]
pub struct SSAState {}

/// The flow-sensitive half of the state at one program point: the memory
/// overlay and the per-global abstract values.
#[derive(Clone, Debug, PartialEq, Eq)]
pub struct ProgPointState {
    /// Memory overlay: what is known to sit at each tracked symbolic
    /// address, ahead of committing it back.
    pub mem_overlay: AssocMap<SymbolicAddr, MemValue>,
    /// Abstract values of the module globals.
    pub globals: AssocMap<GlobalId, AbstractValue>,
}

/// How one overlay cell changes when state propagates across a
/// control-flow edge: tracked values become typed merges, so block entry
/// always sees cells backed by a real block parameter.
pub open spec fn across_edge_cell(v: MemValue) -> MemValue {
    match v {
        MemValue::Value { data: _, ty, addr: _, dirty: _, abs } => MemValue::TypedMerge(ty, abs),
        _ => v,
    }
}

impl ProgPointState {
    pub open spec fn wf(&self) -> bool {
        &&& self.mem_overlay.wf()
        &&& self.globals.wf()
    }

    /// The state at function entry: an empty overlay, and every global of
    /// the module mapped to the opaque runtime value with no tags.
    pub fn entry(im: &Image) -> (r: ProgPointState)
        requires
            im.wf(),
        ensures
            r.wf(),
            r.mem_overlay.entries@.len() == 0,
            r.mem_overlay@ == Map::<SymbolicAddr, MemValue>::empty(),
            forall|g: GlobalId| #[trigger]
                r.globals.spec_get(g) == (if im.globals.spec_get(g) is Some {
                    Some(AbstractValue::unknown_spec())
                } else {
                    None::<AbstractValue>
                }),
    {
        let ghost src = im.globals.entries@;
        let mut globals: Vec<(GlobalId, AbstractValue)> = Vec::new();
        let n = im.globals.entries.len();
        let mut i: usize = 0;
        while i < n
            invariant
                n == src.len(),
                im.globals.entries@ == src,
                unique_keys(src),
                i <= n,
                globals@.len() == i,
                forall|j: int|
                    0 <= j < i ==> (#[trigger] globals@[j]).0 == src[j].0 && globals@[j].1
                        == AbstractValue::unknown_spec(),
            decreases n - i,
        {
            let (g, _v) = im.globals.entries[i];
            globals.push((g, AbstractValue::unknown()));
            i += 1;
        }
        let r = ProgPointState { mem_overlay: AssocMap::new(), globals: AssocMap { entries: globals } };
        proof {
            let dst = r.globals.entries@;
            assert(unique_keys(dst)) by {
                assert forall|p: int, q: int| 0 <= p < q < dst.len() implies dst[p].0
                    != dst[q].0 by {
                    assert(dst[p].0 == src[p].0 && dst[q].0 == src[q].0);
                }
            }
            assert forall|g: GlobalId| #[trigger]
                r.globals.spec_get(g) == (if im.globals.spec_get(g) is Some {
                    Some(AbstractValue::unknown_spec())
                } else {
                    None::<AbstractValue>
                }) by {
                if lookup(src, g) is Some {
                    lemma_lookup_entry(src, g);
                    let t = choose|t: int|
                        0 <= t < src.len() && src[t].0 == g && lookup(src, g) == Some(src[t].1);
                    lemma_lookup_found(dst, g, t);
                } else {
                    assert forall|j: int| 0 <= j < dst.len() implies dst[j].0 != g by {
                        if dst[j].0 == g {
                            lemma_lookup_exists(src, g, j);
                        }
                    }
                    lemma_lookup_none(dst, g);
                }
            }
        }
        r
    }

    /// Meet another program-point state into this one, in place: overlay
    /// cells absent on one side are deleted (the overlay only refines the
    /// assumed-unknown base), while globals absent on one side meet toward
    /// the opaque runtime value every global started from. Returns whether
    /// anything differs from the prior state, for the driver's fixed-point
    /// loop.
    pub fn meet_with(&mut self, other: &ProgPointState) -> (changed: bool)
        requires
            old(self).wf(),
            other.wf(),
        ensures
            final(self).wf(),
            forall|a: SymbolicAddr| #[trigger]
                final(self).mem_overlay.spec_get(a) == opt_meet(
                    old(self).mem_overlay.spec_get(a),
                    other.mem_overlay.spec_get(a),
                    None,
                ),
            forall|g: GlobalId| #[trigger]
                final(self).globals.spec_get(g) == opt_meet(
                    old(self).globals.spec_get(g),
                    other.globals.spec_get(g),
                    Some(AbstractValue::unknown_spec()),
                ),
            changed == (final(self).mem_overlay@ != old(self).mem_overlay@ || final(self).globals@
                != old(self).globals@),
    {
        let mut changed = false;
        let c1 = map_meet_with(&mut self.mem_overlay, &other.mem_overlay, None);
        changed = changed || c1;
        let c2 = map_meet_with(
            &mut self.globals,
            &other.globals,
            Some(AbstractValue::unknown()),
        );
        changed = changed || c2;
        changed
    }

    /// Propagate across a control-flow edge: every tracked cell becomes a
    /// typed merge — even with a single predecessor — so that at block
    /// entry, live cells are always backed by a block parameter rather
    /// than a predecessor-specific SSA value that would not dominate the
    /// successor.
    pub fn update_across_edge(&mut self)
        requires
            old(self).wf(),
        ensures
            final(self).wf(),
            final(self).globals == old(self).globals,
            forall|a: SymbolicAddr| #[trigger]
                final(self).mem_overlay.spec_get(a) == match old(self).mem_overlay.spec_get(a) {
                    Some(v) => Some(across_edge_cell(v)),
                    None => None,
                },
    {
        let ghost src = old(self).mem_overlay.entries@;
        let n = self.mem_overlay.entries.len();
        let mut i: usize = 0;
        while i < n
            invariant
                n == self.mem_overlay.entries@.len(),
                self.mem_overlay.entries@.len() == src.len(),
                i <= n,
                self.globals == old(self).globals,
                unique_keys(src),
                forall|j: int|
                    0 <= j < n ==> (#[trigger] self.mem_overlay.entries@[j]).0 == src[j].0,
                forall|j: int|
                    0 <= j < i ==> (#[trigger] self.mem_overlay.entries@[j]).1
                        == across_edge_cell(src[j].1),
                forall|j: int|
                    i <= j < n ==> (#[trigger] self.mem_overlay.entries@[j]).1 == src[j].1,
            decreases n - i,
        {
            let (a, v) = self.mem_overlay.entries[i];
            match v {
                MemValue::Value { data: _, ty, addr: _, dirty: _, abs } => {
                    self.mem_overlay.entries.set(i, (a, MemValue::TypedMerge(ty, abs)));
                },
                _ => {},
            }
            i += 1;
        }
        proof {
            let dst = self.mem_overlay.entries@;
            assert(unique_keys(dst)) by {
                assert forall|p: int, q: int| 0 <= p < q < dst.len() implies dst[p].0
                    != dst[q].0 by {
                    assert(dst[p].0 == src[p].0 && dst[q].0 == src[q].0);
                }
            }
            assert forall|ad: SymbolicAddr| #[trigger]
                lookup(dst, ad) == match lookup(src, ad) {
                    Some(v) => Some(across_edge_cell(v)),
                    None => None::<MemValue>,
                } by {
                if lookup(src, ad) is Some {
                    lemma_lookup_entry(src, ad);
                    let t = choose|t: int|
                        0 <= t < src.len() && src[t].0 == ad && lookup(src, ad) == Some(
                            src[t].1,
                        );
                    lemma_lookup_found(dst, ad, t);
                } else {
                    assert forall|j: int| 0 <= j < dst.len() implies dst[j].0 != ad by {
                        if dst[j].0 == ad {
                            lemma_lookup_exists(src, ad, j);
                        }
                    }
                    lemma_lookup_none(dst, ad);
                }
            }
        }
    }
}

/// State carried while the specializer walks one block.
#[derive(Clone, Debug, PartialEq, Eq)]
pub struct PointState {
    pub context: Context,
    pub pending_context: Option<Context>,
    pub flow: ProgPointState,
}

/// The driver-supplied source of block parameters backing merged overlay
/// cells at a block entry.
pub trait ParamSource {
    /// Materialize (or fetch) the block parameter for a merged cell at
    /// `addr` of type `ty`; returns the cell's address value and the
    /// parameter value in the specialized function.
    fn get_blockparam(&mut self, addr: SymbolicAddr, ty: Type) -> (Value, Value);

    /// Remove the block parameter previously materialized for `addr`.
    fn remove_blockparam(&mut self, addr: SymbolicAddr);
}

/// How one overlay slot may change at block entry: merged cells become
/// concretely tracked cells of the same type and abstract value, backed by
/// a freshly materialized block parameter and conservatively marked dirty;
/// conflicted slots are evicted; tracked and flushed cells are untouched.
pub open spec fn slot_resolved(before: Option<MemValue>, after: Option<MemValue>) -> bool {
    match before {
        None => after is None,
        Some(MemValue::Conflict) => after is None,
        Some(MemValue::TypedMerge(ty, abs)) => match after {
            Some(MemValue::Value { data: _, ty: t2, addr: _, dirty, abs: a2 }) => t2 == ty && dirty
                && a2 == abs,
            _ => false,
        },
        Some(v) => after == Some(v),
    }
}

impl ProgPointState {
    /// Resolve the overlay at a block entry: materialize a block
    /// parameter for every merged cell (conservatively dirty, since clean
    /// provenance cannot be proven before all predecessors are known), and
    /// evict every conflicted cell, removing its block parameter —
    /// conflicting knowledge is represented by not tracking the location.
    pub fn update_at_block_entry<C: ParamSource>(&mut self, ctx: &mut C)
        requires
            old(self).wf(),
        ensures
            final(self).wf(),
            final(self).globals == old(self).globals,
            forall|a: SymbolicAddr|
                slot_resolved(
                    old(self).mem_overlay.spec_get(a),
                    #[trigger] final(self).mem_overlay.spec_get(a),
                ),
    {
        let ghost src = old(self).mem_overlay.entries@;
        let mut out: Vec<(SymbolicAddr, MemValue)> = Vec::new();
        let n = self.mem_overlay.entries.len();
        let mut i: usize = 0;
        while i < n
            invariant
                n == self.mem_overlay.entries@.len(),
                self.mem_overlay.entries@ == src,
                self.globals == old(self).globals,
                unique_keys(src),
                unique_keys(out@),
                i <= n,
                forall|k: SymbolicAddr|
                    slot_resolved(
                        lookup(src.subrange(0, i as int), k),
                        #[trigger] lookup(out@, k),
                    ),
            decreases n - i,
        {
            let (a, v) = self.mem_overlay.entries[i];
            proof {
                lemma_lookup_found(src, a, i as int);
                lemma_lookup_none(src.subrange(0, i as int), a);
                assert(src.subrange(0, i as int + 1) =~= src.subrange(0, i as int).push(
                    src[i as int],
                ));
            }
            let ghost out_before = out@;
            match v {
                MemValue::Value { .. } => {
                    out.push((a, v));
                },
                MemValue::TypedMerge(ty, abs) => {
                    let (addr2, param) = ctx.get_blockparam(a, ty);
                    out.push(
                        (
                            a,
                            MemValue::Value {
                                data: param,
                                ty,
                                addr: addr2,
                                dirty: true,
                                abs,
                            },
                        ),
                    );
                },
                MemValue::Flushed { .. } => {
                    out.push((a, v));
                },
                MemValue::Conflict => {
                    ctx.remove_blockparam(a);
                },
            }
            proof {
                let prefix = src.subrange(0, i as int);
                let prefix1 = src.subrange(0, i as int + 1);
                assert forall|k: SymbolicAddr|
                    slot_resolved(lookup(prefix1, k), #[trigger] lookup(out@, k)) by {
                    lemma_lookup_push(prefix, src[i as int], k);
                    if out@ != out_before {
                        lemma_lookup_push(out_before, out@.last(), k);
                        assert(out@ == out_before.push(out@.last()));
                    }
                }
                assert(unique_keys(out@)) by {
                    if out@ != out_before {
                        assert forall|p: int, q: int| 0 <= p < q < out@.len() implies out@[p].0
                            != out@[q].0 by {
                            if q == out@.len() - 1 {
                                if out@[p].0 == a {
                                    lemma_lookup_exists(out_before, a, p);
                                    assert(slot_resolved(
                                        lookup(prefix, a),
                                        lookup(out_before, a),
                                    ));
                                }
                            }
                        }
                    }
                }
            }
            i += 1;
        }
        proof {
            assert(src.subrange(0, n as int) =~= src);
        }
        self.mem_overlay.entries = out;
    }
}

/// A dense table of abstract values indexed by specialized SSA value,
/// growing on demand; indices never written hold the no-knowledge
/// default.
#[derive(Clone, Debug, PartialEq, Eq)]
pub struct PerValue {
    pub table: Vec<AbstractValue>,
}

impl PerValue {
    /// The abstract value recorded for `v`.
    pub open spec fn at(&self, v: Value) -> AbstractValue {
        if v < self.table@.len() {
            self.table@[v as int]
        } else {
            AbstractValue::unknown_spec()
        }
    }

    pub fn new() -> (r: PerValue)
        ensures
            forall|v: Value| #[trigger] r.at(v) == AbstractValue::unknown_spec(),
    {
        PerValue { table: Vec::new() }
    }

    pub fn get(&self, v: Value) -> (r: AbstractValue)
        ensures
            r == self.at(v),
    {
        if v < self.table.len() {
            self.table[v]
        } else {
            AbstractValue::unknown()
        }
    }

    pub fn set(&mut self, v: Value, val: AbstractValue)
        ensures
            final(self).at(v) == val,
            forall|u: Value| u != v ==> #[trigger] final(self).at(u) == old(self).at(u),
    {
        let ghost orig = *old(self);
        while self.table.len() <= v
            invariant
                orig.table@.len() <= self.table@.len(),
                forall|j: int|
                    0 <= j < orig.table@.len() ==> #[trigger] self.table@[j] == orig.table@[j],
                forall|j: int|
                    orig.table@.len() <= j < self.table@.len() ==> #[trigger] self.table@[j]
                        == AbstractValue::unknown_spec(),
            decreases v + 1 - self.table@.len(),
        {
            self.table.push(AbstractValue::unknown());
        }
        self.table.set(v, val);
        proof {
            assert forall|u: Value| u != v implies #[trigger] self.at(u) == orig.at(u) by {}
        }
    }
}

/// A dense table of program-point states indexed by specialized block,
/// growing on demand with empty states.
#[derive(Clone, Debug, PartialEq, Eq)]
pub struct PerBlock {
    pub table: Vec<ProgPointState>,
}

impl PerBlock {
    /// The state recorded for block `b`, if the table reaches it.
    pub open spec fn at(&self, b: usize) -> Option<ProgPointState> {
        if b < self.table@.len() {
            Some(self.table@[b as int])
        } else {
            None
        }
    }

    pub fn new() -> (r: PerBlock)
        ensures
            r.table@.len() == 0,
    {
        PerBlock { table: Vec::new() }
    }

    /// Grow the table with empty states until it reaches `n` entries.
    pub fn grow(&mut self, n: usize)
        ensures
            final(self).table@.len() >= n,
            final(self).table@.len() >= old(self).table@.len(),
            forall|b: usize|
                b < old(self).table@.len() ==> #[trigger] final(self).at(b) == old(self).at(b),
            forall|b: usize|
                old(self).table@.len() <= b < final(self).table@.len()
                    ==> match #[trigger] final(self).at(b) {
                    Some(st) => st.mem_overlay.entries@.len() == 0 && st.globals.entries@.len()
                        == 0,
                    None => false,
                },
    {
        let ghost orig = *old(self);
        while self.table.len() < n
            invariant
                self.table@.len() >= orig.table@.len(),
                forall|j: int|
                    0 <= j < orig.table@.len() ==> #[trigger] self.table@[j] == orig.table@[j],
                forall|j: int|
                    orig.table@.len() <= j < self.table@.len() ==> (#[trigger] self.table@[j])
                        .mem_overlay.entries@.len() == 0 && self.table@[j].globals.entries@.len()
                        == 0,
            decreases n - self.table@.len(),
        {
            self.table.push(
                ProgPointState { mem_overlay: AssocMap::new(), globals: AssocMap::new() },
            );
        }
    }

    pub fn get(&self, b: usize) -> (r: &ProgPointState)
        requires
            b < self.table@.len(),
        ensures
            Some(*r) == self.at(b),
    {
        &self.table[b]
    }

    pub fn set(&mut self, b: usize, st: ProgPointState)
        requires
            b < old(self).table@.len(),
        ensures
            final(self).at(b) == Some(st),
            forall|u: usize| u != b ==> #[trigger] final(self).at(u) == old(self).at(u),
    {
        self.table.set(b, st);
    }
}

/// The key under which the specialized copy of an original SSA value is
/// registered for a given context.
#[derive(Clone, Copy, Debug, PartialEq, Eq, Structural)]
pub struct SpecSite {
    pub ctx: Context,
    pub orig: Value,
}

impl EqItem for SpecSite {
    fn eq_item(a: &SpecSite, b: &SpecSite) -> (r: bool)
        ensures
            r == (*a == *b),
    {
        *a == *b
    }
}

/// The specialized values that the entry block's parameters map to under
/// `ctx`, in parameter order.
pub open spec fn entry_param_targets(
    body: FunctionBody,
    ctx: Context,
    vm: AssocMap<SpecSite, Value>,
) -> Seq<Value> {
    Seq::new(
        body.blocks@[body.entry as int].params@.len(),
        |j: int|
            vm.spec_get(
                SpecSite { ctx, orig: body.blocks@[body.entry as int].params@[j].1 },
            ).unwrap(),
    )
}

/// The state for one specialized function body during analysis: the
/// context arena, the flow-insensitive abstract value of every
/// specialized SSA value, and the flow-sensitive state captured at every
/// specialized block's entry and exit.
pub struct FunctionState {
    pub contexts: Contexts,
    pub values: PerValue,
    pub block_entry: PerBlock,
    pub block_exit: PerBlock,
}

impl FunctionState {
    pub fn new() -> (r: FunctionState)
        ensures
            r.contexts.wf(),
            r.contexts.len() == 0,
            forall|v: Value| #[trigger] r.values.at(v) == AbstractValue::unknown_spec(),
            r.block_entry.table@.len() == 0,
            r.block_exit.table@.len() == 0,
    {
        FunctionState {
            contexts: Contexts::new(),
            values: PerValue::new(),
            block_entry: PerBlock::new(),
            block_exit: PerBlock::new(),
        }
    }

    /// Seed a specialized function: intern the root context and build the
    /// entry program-point state from the module image.
    pub fn init(&mut self, im: &Image) -> (r: (Context, ProgPointState))
        requires
            old(self).contexts.wf(),
            im.wf(),
        ensures
            final(self).contexts.wf(),
            final(self).values == old(self).values,
            final(self).block_entry == old(self).block_entry,
            final(self).block_exit == old(self).block_exit,
            r.0 < final(self).contexts.len(),
            final(self).contexts.entry_of(r.0) == (None::<Context>, ContextElem::Root),
            r.1.wf(),
            r.1.mem_overlay.entries@.len() == 0,
            forall|g: GlobalId| #[trigger]
                r.1.globals.spec_get(g) == (if im.globals.spec_get(g) is Some {
                    Some(AbstractValue::unknown_spec())
                } else {
                    None::<AbstractValue>
                }),
    {
        let c = self.contexts.create(None, ContextElem::Root);
        let st = ProgPointState::entry(im);
        (c, st)
    }

    /// Bind the incoming arguments' abstract values: for each parameter of
    /// the entry block, set the value of its specialized copy under `ctx`.
    pub fn set_args(
        &mut self,
        orig_body: &FunctionBody,
        args: &Vec<AbstractValue>,
        ctx: Context,
        value_map: &AssocMap<SpecSite, Value>,
    )
        requires
            orig_body.entry < orig_body.blocks@.len(),
            args@.len() == orig_body.blocks@[orig_body.entry as int].params@.len(),
            forall|j: int|
                0 <= j < args@.len() ==> value_map.spec_get(
                    SpecSite {
                        ctx,
                        orig: (#[trigger] orig_body.blocks@[orig_body.entry as int].params@[j]).1,
                    },
                ) is Some,
            forall|p: int, q: int|
                0 <= p < q < args@.len() ==> entry_param_targets(*orig_body, ctx, *value_map)[p]
                    != entry_param_targets(*orig_body, ctx, *value_map)[q],
        ensures
            final(self).contexts == old(self).contexts,
            final(self).block_entry == old(self).block_entry,
            final(self).block_exit == old(self).block_exit,
            forall|j: int|
                0 <= j < args@.len() ==> final(self).values.at(
                    #[trigger] entry_param_targets(*orig_body, ctx, *value_map)[j],
                ) == args@[j],
            forall|v: Value|
                !entry_param_targets(*orig_body, ctx, *value_map).contains(v)
                    ==> #[trigger] final(self).values.at(v) == old(self).values.at(v),
    {
        let ghost targets = entry_param_targets(*orig_body, ctx, *value_map);
        let n = args.len();
        let mut i: usize = 0;
        while i < n
            invariant
                n == args@.len(),
                i <= n,
                orig_body.entry < orig_body.blocks@.len(),
                args@.len() == orig_body.blocks@[orig_body.entry as int].params@.len(),
                targets == entry_param_targets(*orig_body, ctx, *value_map),
                forall|j: int|
                    0 <= j < args@.len() ==> value_map.spec_get(
                        SpecSite {
                            ctx,
                            orig: (#[trigger] orig_body.blocks@[
                                orig_body.entry as int
                            ].params@[j]).1,
                        },
                    ) is Some,
                forall|p: int, q: int| 0 <= p < q < args@.len() ==> targets[p] != targets[q],
                self.contexts == old(self).contexts,
                self.block_entry == old(self).block_entry,
                self.block_exit == old(self).block_exit,
                forall|j: int| 0 <= j < i ==> self.values.at(#[trigger] targets[j]) == args@[j],
                forall|v: Value|
                    !targets.contains(v) ==> #[trigger] self.values.at(v) == old(
                        self,
                    ).values.at(v),
            decreases n - i,
        {
            let (_pty, ov) = orig_body.blocks[orig_body.entry].params[i];
            let key = SpecSite { ctx, orig: ov };
            let sv_opt = value_map.get(&key);
            match sv_opt {
                Some(sv) => {
                    proof {
                        assert(sv == targets[i as int]);
                        assert(targets.contains(sv));
                    }
                    self.values.set(sv, args[i]);
                },
                None => {},
            }
            i += 1;
        }
    }
}

} // verus!
