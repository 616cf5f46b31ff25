//! The abstract value lattice: per-value knowledge tracked during
//! specialization. A value is either a constant known at specialization
//! time or an opaque runtime value; both carry side-metadata tag bits.
//! Knowledge from multiple control-flow predecessors is merged with `meet`,
//! which is commutative, associative, idempotent, and never invents
//! precision.

use vstd::prelude::*;

verus! {

/// Side-metadata tag bits attached to an abstract value (provenance hints
/// and similar). Merging keeps only the tags common to both operands.
#[derive(Clone, Copy, Debug, PartialEq, Eq, Structural)]
pub struct ValueTags {
    pub bits: u64,
}

impl ValueTags {
    /// The tag set shared by both operands.
    pub open spec fn meet_spec(self, other: ValueTags) -> ValueTags {
        ValueTags { bits: self.bits & other.bits }
    }

    pub open spec fn empty_spec() -> ValueTags {
        ValueTags { bits: 0 }
    }

    /// No tags at all.
    pub fn empty() -> (r: ValueTags)
        ensures
            r == ValueTags::empty_spec(),
    {
        ValueTags { bits: 0 }
    }

    pub fn meet(self, other: ValueTags) -> (r: ValueTags)
        ensures
            r == self.meet_spec(other),
    {
        ValueTags { bits: self.bits & other.bits }
    }
}

pub proof fn lemma_tags_meet_commutative(a: ValueTags, b: ValueTags)
    ensures
        a.meet_spec(b) == b.meet_spec(a),
{
    let x = a.bits;
    let y = b.bits;
    assert(x & y == y & x) by (bit_vector);
}

pub proof fn lemma_tags_meet_associative(a: ValueTags, b: ValueTags, c: ValueTags)
    ensures
        a.meet_spec(b.meet_spec(c)) == a.meet_spec(b).meet_spec(c),
{
    let x = a.bits;
    let y = b.bits;
    let z = c.bits;
    assert(x & (y & z) == (x & y) & z) by (bit_vector);
}

pub proof fn lemma_tags_meet_idempotent(a: ValueTags)
    ensures
        a.meet_spec(a) == a,
{
    let x = a.bits;
    assert(x & x == x) by (bit_vector);
}

pub proof fn lemma_tags_meet_empty(a: ValueTags)
    ensures
        a.meet_spec(ValueTags::empty_spec()) == ValueTags::empty_spec(),
{
    let x = a.bits;
    assert(x & 0u64 == 0u64) by (bit_vector);
}

/// A constant value of one of the Wasm integer value types.
#[derive(Clone, Copy, Debug, PartialEq, Eq, Structural)]
pub enum WasmVal {
    I32(u32),
    I64(u64),
}

/// Knowledge about one SSA value: a constant known at specialization time,
/// or a value resolved only at run time.
#[derive(Clone, Copy, Debug, PartialEq, Eq, Structural)]
pub enum AbstractValue {
    /// Known at specialization time to be this constant.
    Concrete(WasmVal, ValueTags),
    /// Opaque: resolved only at run time.
    Runtime(ValueTags),
}

impl AbstractValue {
    /// The bottom of the lattice: a runtime value with no tags. This is the
    /// no-knowledge default, and it absorbs every other value under `meet`.
    pub open spec fn unknown_spec() -> AbstractValue {
        AbstractValue::Runtime(ValueTags::empty_spec())
    }

    pub fn unknown() -> (r: AbstractValue)
        ensures
            r == AbstractValue::unknown_spec(),
    {
        AbstractValue::Runtime(ValueTags::empty())
    }

    /// The lattice merge: equal constants stay constant, two different
    /// constants lose to runtime, runtime absorbs everything; tags always
    /// meet pointwise.
    pub open spec fn meet_spec(a: AbstractValue, b: AbstractValue) -> AbstractValue {
        match (a, b) {
            (AbstractValue::Concrete(v1, t1), AbstractValue::Concrete(v2, t2)) => if v1 == v2 {
                AbstractValue::Concrete(v1, t1.meet_spec(t2))
            } else {
                AbstractValue::Runtime(t1.meet_spec(t2))
            },
            (AbstractValue::Concrete(_, t1), AbstractValue::Runtime(t2)) => AbstractValue::Runtime(
                t1.meet_spec(t2),
            ),
            (AbstractValue::Runtime(t1), AbstractValue::Concrete(_, t2)) => AbstractValue::Runtime(
                t1.meet_spec(t2),
            ),
            (AbstractValue::Runtime(t1), AbstractValue::Runtime(t2)) => AbstractValue::Runtime(
                t1.meet_spec(t2),
            ),
        }
    }

    /// Merge knowledge from two control-flow predecessors.
    pub fn meet(a: &AbstractValue, b: &AbstractValue) -> (r: AbstractValue)
        ensures
            r == AbstractValue::meet_spec(*a, *b),
    {
        match (a, b) {
            (AbstractValue::Concrete(v1, t1), AbstractValue::Concrete(v2, t2)) => if v1 == v2 {
                AbstractValue::Concrete(*v1, t1.meet(*t2))
            } else {
                AbstractValue::Runtime(t1.meet(*t2))
            },
            (AbstractValue::Concrete(_, t1), AbstractValue::Runtime(t2)) => AbstractValue::Runtime(
                t1.meet(*t2),
            ),
            (AbstractValue::Runtime(t1), AbstractValue::Concrete(_, t2)) => AbstractValue::Runtime(
                t1.meet(*t2),
            ),
            (AbstractValue::Runtime(t1), AbstractValue::Runtime(t2)) => AbstractValue::Runtime(
                t1.meet(*t2),
            ),
        }
    }

    /// The tag bits carried by this value.
    pub open spec fn tags_spec(self) -> ValueTags {
        match self {
            AbstractValue::Concrete(_, t) => t,
            AbstractValue::Runtime(t) => t,
        }
    }
}

/// Law: `meet` is commutative.
pub proof fn lemma_meet_commutative(a: AbstractValue, b: AbstractValue)
    ensures
        AbstractValue::meet_spec(a, b) == AbstractValue::meet_spec(b, a),
{
    lemma_tags_meet_commutative(a.tags_spec(), b.tags_spec());
}

/// Law: `meet` is associative.
pub proof fn lemma_meet_associative(a: AbstractValue, b: AbstractValue, c: AbstractValue)
    ensures
        AbstractValue::meet_spec(a, AbstractValue::meet_spec(b, c)) == AbstractValue::meet_spec(
            AbstractValue::meet_spec(a, b),
            c,
        ),
{
    lemma_tags_meet_associative(a.tags_spec(), b.tags_spec(), c.tags_spec());
}

/// Law: `meet` is idempotent.
pub proof fn lemma_meet_idempotent(a: AbstractValue)
    ensures
        AbstractValue::meet_spec(a, a) == a,
{
    lemma_tags_meet_idempotent(a.tags_spec());
}

/// Law: the opaque no-tags value absorbs everything under `meet`.
pub proof fn lemma_meet_unknown(a: AbstractValue)
    ensures
        AbstractValue::meet_spec(a, AbstractValue::unknown_spec())
            == AbstractValue::unknown_spec(),
{
    lemma_tags_meet_empty(a.tags_spec());
}

/// Law: `meet` is monotone in the sense that it never produces more precise
/// knowledge than either input alone: the result is concrete only if both
/// inputs are concrete and agree on the constant.
pub proof fn lemma_meet_no_invented_precision(a: AbstractValue, b: AbstractValue)
    ensures
        AbstractValue::meet_spec(a, b) is Concrete ==> a is Concrete && b is Concrete
            && a->Concrete_0 == b->Concrete_0,
{
}

} // verus!
