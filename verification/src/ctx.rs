//! The context table: an arena of interned specialization contexts.
//!
//! A context is a node identified by a parent context and a leaf element,
//! describing the stack of loop-iteration and specialization decisions
//! that led to one specialized code path. Contexts are interned: creating
//! a context with an already-seen `(parent, element)` pair returns the
//! existing identifier, which bounds the context space when the same
//! loop/point combination recurs.

use crate::ir::Value;
use vstd::prelude::*;

verus! {

/// A program-counter-like tag supplied by a runtime intrinsic.
pub type PC = u32;

/// Identifier of a context: an index into the arena.
pub type Context = usize;

/// One element in the context stack.
#[derive(Clone, Copy, Debug, PartialEq, Eq, Structural)]
pub enum ContextElem {
    /// Function entry; no parent.
    Root,
    /// One iteration of a statically-unrolled loop, keyed by its PC tag.
    Loop(PC),
    /// A value nominated for constant specialization, not yet resolved:
    /// seed value, request id, generation.
    PendingSpecialize(Value, u32, u32),
    /// A resolved specialization point: seed value, generation.
    Specialized(Value, u32),
}

/// Arena of contexts. Each entry holds the parent (or `None` for the
/// sentinel "no parent" used by root entries) and the leaf element.
pub struct Contexts {
    pub entries: Vec<(Option<Context>, ContextElem)>,
}

impl Contexts {
    /// Well-formed: parents point strictly backwards in the arena (the
    /// context graph is a finite tree), and no `(parent, element)` pair
    /// occurs twice (interning).
    pub open spec fn wf(&self) -> bool {
        &&& forall|i: int|
            0 <= i < self.entries@.len() ==> match (#[trigger] self.entries@[i]).0 {
                Some(p) => p < i,
                None => true,
            }
        &&& forall|i: int, j: int|
            0 <= i < j < self.entries@.len() ==> self.entries@[i] != self.entries@[j]
    }

    pub open spec fn len(&self) -> nat {
        self.entries@.len()
    }

    /// The `(parent, element)` pair stored for a context.
    pub open spec fn entry_of(&self, c: Context) -> (Option<Context>, ContextElem) {
        self.entries@[c as int]
    }

    /// Whether the arena already holds this `(parent, element)` pair.
    pub open spec fn has_pair(&self, parent: Option<Context>, elem: ContextElem) -> bool {
        exists|i: int| 0 <= i < self.entries@.len() && self.entries@[i] == (parent, elem)
    }

    pub fn new() -> (r: Contexts)
        ensures
            r.wf(),
            r.len() == 0,
    {
        Contexts { entries: Vec::new() }
    }

    /// Create (or intern) the context `(parent, elem)`. If the pair is
    /// already in the arena its existing identifier is returned and the
    /// arena is unchanged; otherwise the pair is appended.
    pub fn create(&mut self, parent: Option<Context>, elem: ContextElem) -> (r: Context)
        requires
            old(self).wf(),
            match parent {
                Some(p) => p < old(self).len(),
                None => true,
            },
        ensures
            final(self).wf(),
            r < final(self).len(),
            final(self).entry_of(r) == (parent, elem),
            old(self).has_pair(parent, elem) ==> *final(self) == *old(self),
            !old(self).has_pair(parent, elem) ==> final(self).entries@ == old(
                self,
            ).entries@.push((parent, elem)),
    {
        let n = self.entries.len();
        let mut i: usize = 0;
        while i < n
            invariant
                self.entries@ == old(self).entries@,
                self.wf(),
                n == self.entries@.len(),
                i <= n,
                forall|j: int| 0 <= j < i ==> self.entries@[j] != (parent, elem),
            decreases n - i,
        {
            let (p, e) = self.entries[i];
            let parent_eq = match (p, parent) {
                (Some(a), Some(b)) => a == b,
                (None, None) => true,
                _ => false,
            };
            if parent_eq && e == elem {
                return i;
            }
            i += 1;
        }
        self.entries.push((parent, elem));
        proof {
            assert(self.entries@[self.entries@.len() - 1] == (parent, elem));
        }
        n
    }

    /// The parent of a context (`None` for a root entry).
    pub fn parent(&self, c: Context) -> (r: Option<Context>)
        requires
            c < self.len(),
        ensures
            r == self.entry_of(c).0,
    {
        self.entries[c].0
    }

    /// The leaf element of a context.
    pub fn leaf_element(&self, c: Context) -> (r: ContextElem)
        requires
            c < self.len(),
        ensures
            r == self.entry_of(c).1,
    {
        self.entries[c].1
    }

    /// The walk made by `pop_one_loop` stays inside the tree: every
    /// ancestor it visits before finding a `Loop` or `Root` element has a
    /// parent.
    pub open spec fn pop_walk_ok(&self, c: Context) -> bool
        decreases c,
    {
        c < self.len() && match self.entry_of(c) {
            (_, ContextElem::Root) => true,
            (Some(_), ContextElem::Loop(_)) => true,
            (None, ContextElem::Loop(_)) => false,
            (Some(p), _) => p < c && self.pop_walk_ok(p),
            (None, _) => false,
        }
    }

    /// What `pop_one_loop` returns: the parent of the nearest ancestor
    /// whose leaf is a `Loop` element, or the context itself if a `Root`
    /// leaf is found first.
    pub open spec fn pop_spec(&self, c: Context) -> Context
        decreases c,
    {
        match self.entry_of(c) {
            (_, ContextElem::Root) => c,
            (Some(p), ContextElem::Loop(_)) => p,
            (Some(p), _) => if p < c {
                self.pop_spec(p)
            } else {
                c
            },
            (None, _) => c,
        }
    }

    /// Pop one loop level: walk ancestors until a `Loop` element's parent
    /// or the root is found. Terminates within the context's depth because
    /// the context graph is a finite tree.
    pub fn pop_one_loop(&self, c: Context) -> (r: Context)
        requires
            self.wf(),
            self.pop_walk_ok(c),
        ensures
            r == self.pop_spec(c),
            r <= c,
            r < self.len(),
    {
        let mut cur = c;
        loop
            invariant
                self.wf(),
                self.pop_walk_ok(cur),
                cur <= c,
                self.pop_spec(cur) == self.pop_spec(c),
            decreases cur,
        {
            let (p, e) = self.entries[cur];
            match e {
                ContextElem::Loop(_) => {
                    match p {
                        Some(pp) => {
                            return pp;
                        },
                        None => {
                            return cur;
                        },
                    }
                },
                ContextElem::Root => {
                    return cur;
                },
                _ => {
                    match p {
                        Some(pp) => {
                            cur = pp;
                        },
                        None => {
                            return cur;
                        },
                    }
                },
            }
        }
    }
}

/// Law (interning): creating a context with an already-present
/// `(parent, element)` pair leaves the arena unchanged and returns the
/// identifier of the existing entry, which is unique.
pub proof fn lemma_create_interns(ctxs: Contexts, i: Context)
    requires
        ctxs.wf(),
        i < ctxs.len(),
    ensures
        forall|j: Context|
            j < ctxs.len() && ctxs.entry_of(j) == ctxs.entry_of(i) ==> j == i,
{
    assert forall|j: Context|
        j < ctxs.len() && ctxs.entry_of(j) == ctxs.entry_of(i) implies j == i by {
        if j < i {
            assert(ctxs.entries@[j as int] != ctxs.entries@[i as int]);
        } else if i < j {
            assert(ctxs.entries@[i as int] != ctxs.entries@[j as int]);
        }
    }
}

/// Law (no aliasing): contexts holding distinct `(parent, element)` pairs
/// have distinct identifiers.
pub proof fn lemma_distinct_pairs_distinct_ids(ctxs: Contexts, a: Context, b: Context)
    requires
        a < ctxs.len(),
        b < ctxs.len(),
        ctxs.entry_of(a) != ctxs.entry_of(b),
    ensures
        a != b,
{
}

/// Law: popping one loop from a context whose leaf element is `Root`
/// returns that same context.
pub proof fn lemma_pop_of_root_is_fixed_point(ctxs: Contexts, c: Context)
    requires
        c < ctxs.len(),
        ctxs.entry_of(c).1 is Root,
    ensures
        ctxs.pop_spec(c) == c,
{
}

/// `c` sits on a chain of `n` nested `Loop` elements above `base`.
pub open spec fn loop_chain(ctxs: Contexts, c: Context, n: nat, base: Context) -> bool
    decreases n,
{
    if n == 0 {
        c == base
    } else {
        c < ctxs.len() && match ctxs.entry_of(c) {
            (Some(p), ContextElem::Loop(_)) => loop_chain(ctxs, p, (n - 1) as nat, base),
            _ => false,
        }
    }
}

/// `pop_spec` applied `n` times.
pub open spec fn pop_iter(ctxs: Contexts, c: Context, n: nat) -> Context
    decreases n,
{
    if n == 0 {
        c
    } else {
        pop_iter(ctxs, ctxs.pop_spec(c), (n - 1) as nat)
    }
}

/// Law: on a chain of `n` nested `Loop` elements, popping one loop `n`
/// times terminates exactly at the first non-loop ancestor below the
/// chain.
pub proof fn lemma_pop_chain_reaches_base(ctxs: Contexts, c: Context, n: nat, base: Context)
    requires
        ctxs.wf(),
        loop_chain(ctxs, c, n, base),
    ensures
        pop_iter(ctxs, c, n) == base,
    decreases n,
{
    if n > 0 {
        match ctxs.entry_of(c) {
            (Some(p), ContextElem::Loop(_)) => {
                assert(ctxs.pop_spec(c) == p);
                lemma_pop_chain_reaches_base(ctxs, p, (n - 1) as nat, base);
            },
            _ => {
                assert(false);
            },
        }
    }
}

} // verus!
