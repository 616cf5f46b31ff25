//! Small vector-backed associative containers used by the flow-sensitive
//! state: a map with unique keys and a set, each viewed as the
//! corresponding mathematical `Map` / `Set`, together with the generic
//! merge helpers `map_meet_with` (meet two maps pointwise, defaulting
//! absent keys to an optional bottom value) and `set_union`.

use vstd::prelude::*;

verus! {

/// A key or value that can be compared for equality in executable code,
/// with the comparison meaning structural equality.
pub trait EqItem: Sized + Copy {
    fn eq_item(a: &Self, b: &Self) -> (r: bool)
        ensures
            r == (*a == *b),
    ;
}

/// A value with a lattice merge operation.
pub trait MeetItem: EqItem {
    spec fn meet_item_spec(a: Self, b: Self) -> Self;

    fn meet_item(a: &Self, b: &Self) -> (r: Self)
        ensures
            r == Self::meet_item_spec(*a, *b),
    ;
}

impl EqItem for usize {
    fn eq_item(a: &usize, b: &usize) -> (r: bool)
        ensures
            r == (*a == *b),
    {
        *a == *b
    }
}

/// First-match lookup in a sequence of key-value entries.
pub open spec fn lookup<K, V>(s: Seq<(K, V)>, k: K) -> Option<V>
    decreases s.len(),
{
    if s.len() == 0 {
        None
    } else if s[0].0 == k {
        Some(s[0].1)
    } else {
        lookup(s.subrange(1, s.len() as int), k)
    }
}

/// All keys in the entry sequence are pairwise distinct.
pub open spec fn unique_keys<K, V>(s: Seq<(K, V)>) -> bool {
    forall|i: int, j: int| 0 <= i < j < s.len() ==> s[i].0 != s[j].0
}

/// If position `i` holds the first entry for key `k`, lookup returns it.
pub proof fn lemma_lookup_found<K, V>(s: Seq<(K, V)>, k: K, i: int)
    requires
        0 <= i < s.len(),
        s[i].0 == k,
        forall|j: int| 0 <= j < i ==> s[j].0 != k,
    ensures
        lookup(s, k) == Some(s[i].1),
    decreases i,
{
    if i == 0 {
    } else {
        let s1 = s.subrange(1, s.len() as int);
        assert(s1[i - 1] == s[i]);
        assert(forall|j: int| 0 <= j < i - 1 ==> s1[j] == s[j + 1]);
        lemma_lookup_found(s1, k, i - 1);
    }
}

/// If no entry holds key `k`, lookup misses.
pub proof fn lemma_lookup_none<K, V>(s: Seq<(K, V)>, k: K)
    requires
        forall|j: int| 0 <= j < s.len() ==> s[j].0 != k,
    ensures
        lookup(s, k) is None,
    decreases s.len(),
{
    if s.len() > 0 {
        let s1 = s.subrange(1, s.len() as int);
        assert(forall|j: int| 0 <= j < s1.len() ==> s1[j] == s[j + 1]);
        lemma_lookup_none(s1, k);
    }
}

/// A hit returns the value of some entry with that key.
pub proof fn lemma_lookup_entry<K, V>(s: Seq<(K, V)>, k: K)
    requires
        lookup(s, k) is Some,
    ensures
        exists|i: int|
            0 <= i < s.len() && s[i].0 == k && lookup(s, k) == Some(s[i].1),
    decreases s.len(),
{
    if s.len() > 0 {
        if s[0].0 == k {
            assert(0 <= 0 < s.len() && s[0].0 == k && lookup(s, k) == Some(s[0].1));
        } else {
            let s1 = s.subrange(1, s.len() as int);
            lemma_lookup_entry(s1, k);
            let i1 = choose|i: int|
                0 <= i < s1.len() && s1[i].0 == k && lookup(s1, k) == Some(s1[i].1);
            assert(s[i1 + 1] == s1[i1]);
        }
    }
}

/// If some entry holds key `k`, lookup hits.
pub proof fn lemma_lookup_exists<K, V>(s: Seq<(K, V)>, k: K, i: int)
    requires
        0 <= i < s.len(),
        s[i].0 == k,
    ensures
        lookup(s, k) is Some,
    decreases i,
{
    if s[0].0 == k {
    } else {
        let s1 = s.subrange(1, s.len() as int);
        assert(s1[i - 1] == s[i]);
        lemma_lookup_exists(s1, k, i - 1);
    }
}

/// How lookup behaves after appending one entry.
pub proof fn lemma_lookup_push<K, V>(s: Seq<(K, V)>, p: (K, V), k2: K)
    ensures
        lookup(s.push(p), k2) == (if lookup(s, k2) is Some {
            lookup(s, k2)
        } else if p.0 == k2 {
            Some(p.1)
        } else {
            None
        }),
    decreases s.len(),
{
    let sp = s.push(p);
    assert(sp.len() == s.len() + 1);
    if s.len() == 0 {
        assert(sp[0] == p);
        if p.0 == k2 {
            assert(lookup(sp, k2) == Some(p.1));
        } else {
            assert(sp.subrange(1, 1) =~= Seq::<(K, V)>::empty());
            assert(lookup(sp, k2) == lookup(sp.subrange(1, 1), k2));
            assert(lookup(sp, k2) is None);
        }
        assert(lookup(s, k2) is None);
    } else {
        assert(sp[0] == s[0]);
        if s[0].0 == k2 {
            assert(lookup(sp, k2) == Some(sp[0].1));
            assert(lookup(s, k2) == Some(s[0].1));
        } else {
            let st = s.subrange(1, s.len() as int);
            assert(sp.subrange(1, sp.len() as int) =~= st.push(p));
            lemma_lookup_push(st, p, k2);
            assert(lookup(sp, k2) == lookup(sp.subrange(1, sp.len() as int), k2));
            assert(lookup(s, k2) == lookup(st, k2));
        }
    }
}

/// Membership in a sequence after appending one item.
pub proof fn lemma_seq_contains_push<K>(s: Seq<K>, v: K, x: K)
    ensures
        s.push(v).contains(x) <==> (s.contains(x) || x == v),
{
    if s.contains(x) {
        let i = choose|i: int| 0 <= i < s.len() && s[i] == x;
        assert(s.push(v)[i] == x);
    }
    if x == v {
        assert(s.push(v)[s.len() as int] == x);
    }
    if s.push(v).contains(x) {
        let i = choose|i: int| 0 <= i < s.push(v).len() && s.push(v)[i] == x;
        if i < s.len() {
            assert(s[i] == x);
        }
    }
}

/// First-match lookup over a vector of entries.
pub fn vec_lookup<K: EqItem, V: Copy>(s: &Vec<(K, V)>, k: &K) -> (r: Option<V>)
    ensures
        r == lookup(s@, *k),
{
    let n = s.len();
    let mut i: usize = 0;
    while i < n
        invariant
            n == s@.len(),
            i <= n,
            forall|j: int| 0 <= j < i ==> s@[j].0 != *k,
        decreases n - i,
    {
        let hit = K::eq_item(&s[i].0, k);
        if hit {
            proof {
                lemma_lookup_found(s@, *k, i as int);
            }
            return Some(s[i].1);
        }
        i += 1;
    }
    proof {
        lemma_lookup_none(s@, *k);
    }
    None
}

/// A map from keys to values, stored as a vector of entries with pairwise
/// distinct keys, and viewed as a mathematical `Map`.
#[derive(Clone, Debug, PartialEq, Eq)]
pub struct AssocMap<K, V> {
    pub entries: Vec<(K, V)>,
}

impl<K, V> View for AssocMap<K, V> {
    type V = Map<K, V>;

    open spec fn view(&self) -> Map<K, V> {
        Map::new(
            |k: K| lookup(self.entries@, k) is Some,
            |k: K|
                match lookup(self.entries@, k) {
                    Some(v) => v,
                    None => arbitrary(),
                },
        )
    }
}

impl<K: EqItem, V: Copy> AssocMap<K, V> {
    /// Well-formed: keys are pairwise distinct.
    pub open spec fn wf(&self) -> bool {
        unique_keys(self.entries@)
    }

    /// The lookup function this map's view is built from.
    pub open spec fn spec_get(&self, k: K) -> Option<V> {
        lookup(self.entries@, k)
    }

    pub fn new() -> (r: Self)
        ensures
            r.wf(),
            r@ == Map::<K, V>::empty(),
            r.entries@.len() == 0,
    {
        let r = AssocMap { entries: Vec::new() };
        proof {
            assert(r@ =~= Map::<K, V>::empty());
        }
        r
    }

    pub fn len(&self) -> (n: usize)
        ensures
            n == self.entries@.len(),
    {
        self.entries.len()
    }

    pub fn get(&self, k: &K) -> (r: Option<V>)
        ensures
            r == self.spec_get(*k),
    {
        vec_lookup(&self.entries, k)
    }

    pub fn contains_key(&self, k: &K) -> (r: bool)
        ensures
            r == (self.spec_get(*k) is Some),
    {
        self.get(k).is_some()
    }
}

/// Two well-formed entry vectors hold the same map exactly when lookup
/// agrees on every key.
pub fn entries_map_eq<K: EqItem, V: EqItem>(a: &Vec<(K, V)>, b: &Vec<(K, V)>) -> (r: bool)
    requires
        unique_keys(a@),
        unique_keys(b@),
    ensures
        r == (forall|k: K| #[trigger] lookup(a@, k) == lookup(b@, k)),
{
    let an = a.len();
    let mut i: usize = 0;
    while i < an
        invariant
            an == a@.len(),
            i <= an,
            unique_keys(a@),
            unique_keys(b@),
            forall|j: int|
                0 <= j < i ==> lookup(b@, #[trigger] a@[j].0) == Some(a@[j].1),
        decreases an - i,
    {
        let (k, v) = a[i];
        proof {
            lemma_lookup_found(a@, k, i as int);
        }
        match vec_lookup(b, &k) {
            None => {
                assert(lookup(a@, k) != lookup(b@, k));
                return false;
            },
            Some(w) => {
                let same = V::eq_item(&v, &w);
                if !same {
                    assert(lookup(a@, k) != lookup(b@, k));
                    return false;
                }
            },
        }
        i += 1;
    }
    let bn = b.len();
    let mut j: usize = 0;
    while j < bn
        invariant
            bn == b@.len(),
            j <= bn,
            unique_keys(a@),
            unique_keys(b@),
            forall|t: int|
                0 <= t < a@.len() ==> lookup(b@, #[trigger] a@[t].0) == Some(a@[t].1),
            forall|t: int| 0 <= t < j ==> lookup(a@, #[trigger] b@[t].0) is Some,
        decreases bn - j,
    {
        let (k, _w) = b[j];
        proof {
            lemma_lookup_found(b@, k, j as int);
        }
        let r = vec_lookup(a, &k);
        if r.is_none() {
            assert(lookup(a@, k) != lookup(b@, k));
            return false;
        }
        j += 1;
    }
    proof {
        assert forall|k: K| #[trigger] lookup(a@, k) == lookup(b@, k) by {
            if lookup(a@, k) is Some {
                lemma_lookup_entry(a@, k);
                let t = choose|t: int|
                    0 <= t < a@.len() && a@[t].0 == k && lookup(a@, k) == Some(a@[t].1);
                assert(lookup(b@, a@[t].0) == Some(a@[t].1));
            } else if lookup(b@, k) is Some {
                lemma_lookup_entry(b@, k);
                let t = choose|t: int|
                    0 <= t < b@.len() && b@[t].0 == k && lookup(b@, k) == Some(b@[t].1);
                assert(lookup(a@, b@[t].0) is Some);
            }
        }
    }
    true
}

/// The pointwise meet of two optional values: present on both sides means
/// the lattice meet; present on one side only defaults to `bot` (deletion
/// when `bot` is `None`); absent on both sides stays absent.
pub open spec fn opt_meet<V: MeetItem>(a: Option<V>, b: Option<V>, bot: Option<V>) -> Option<
    V,
> {
    match (a, b) {
        (Some(x), Some(y)) => Some(V::meet_item_spec(x, y)),
        (Some(_), None) => bot,
        (None, Some(_)) => bot,
        (None, None) => None,
    }
}

/// Pointwise lookup agreement implies equal map views.
pub proof fn lemma_lookup_eq_view_eq<K: EqItem, V: Copy>(a: AssocMap<K, V>, b: AssocMap<K, V>)
    requires
        forall|k: K| #[trigger] lookup(a.entries@, k) == lookup(b.entries@, k),
    ensures
        a@ == b@,
{
    assert(a@ =~= b@);
}

/// Meet `other` into `this` in place, pointwise over the keys of both
/// maps. A key present on only one side is set to `bot`, or deleted when
/// `bot` is `None`. Returns whether the merged map differs from the prior
/// one.
pub fn map_meet_with<K: EqItem, V: MeetItem>(
    this: &mut AssocMap<K, V>,
    other: &AssocMap<K, V>,
    bot: Option<V>,
) -> (changed: bool)
    requires
        old(this).wf(),
        other.wf(),
    ensures
        final(this).wf(),
        forall|k: K| #[trigger]
            lookup(final(this).entries@, k) == opt_meet(
                lookup(old(this).entries@, k),
                lookup(other.entries@, k),
                bot,
            ),
        changed == (final(this)@ != old(this)@),
{
    let ghost m1 = this.entries@;
    let ghost m2 = other.entries@;
    let mut out: Vec<(K, V)> = Vec::new();
    let n = this.entries.len();
    let mut i: usize = 0;
    while i < n
        invariant
            n == this.entries@.len(),
            i <= n,
            this.entries@ == m1,
            other.entries@ == m2,
            unique_keys(m1),
            unique_keys(m2),
            unique_keys(out@),
            forall|k: K| #[trigger]
                lookup(out@, k) == (if lookup(m1.subrange(0, i as int), k) is Some {
                    opt_meet(lookup(m1, k), lookup(m2, k), bot)
                } else {
                    None::<V>
                }),
        decreases n - i,
    {
        let (k, v) = this.entries[i];
        proof {
            lemma_lookup_found(m1, k, i as int);
            lemma_lookup_none(m1.subrange(0, i as int), k);
            if lookup(out@, k) is Some {
                assert(lookup(m1.subrange(0, i as int), k) is Some);
            }
            assert(m1.subrange(0, i as int + 1) =~= m1.subrange(0, i as int).push(m1[i as int]));
        }
        let ghost out_before = out@;
        let ov = other.get(&k);
        match ov {
            Some(w) => {
                let met = V::meet_item(&v, &w);
                proof {
                    if lookup(out_before, k) is Some {
                        lemma_lookup_entry(out_before, k);
                    }
                }
                out.push((k, met));
            },
            None => {
                match &bot {
                    Some(b) => {
                        proof {
                            if lookup(out_before, k) is Some {
                                lemma_lookup_entry(out_before, k);
                            }
                        }
                        out.push((k, *b));
                    },
                    None => {},
                }
            },
        }
        proof {
            let prefix = m1.subrange(0, i as int);
            let prefix1 = m1.subrange(0, i as int + 1);
            assert forall|k2: K| #[trigger]
                lookup(out@, k2) == (if lookup(prefix1, k2) is Some {
                    opt_meet(lookup(m1, k2), lookup(m2, k2), bot)
                } else {
                    None::<V>
                }) by {
                lemma_lookup_push(prefix, m1[i as int], k2);
                if out@ != out_before {
                    lemma_lookup_push(out_before, out@.last(), k2);
                    assert(out@ == out_before.push(out@.last()));
                }
            }
            assert(unique_keys(out@)) by {
                if out@ != out_before {
                    assert forall|p: int, q: int| 0 <= p < q < out@.len() implies out@[p].0
                        != out@[q].0 by {
                        if q == out@.len() - 1 {
                            if out@[p].0 == k {
                                lemma_lookup_exists(out_before, k, p);
                            }
                        }
                    }
                }
            }
        }
        i += 1;
    }
    proof {
        assert(m1.subrange(0, n as int) =~= m1);
    }
    let on = other.entries.len();
    let mut j: usize = 0;
    while j < on
        invariant
            on == other.entries@.len(),
            this.entries@ == m1,
            other.entries@ == m2,
            j <= on,
            unique_keys(m1),
            unique_keys(m2),
            unique_keys(out@),
            forall|k: K| #[trigger]
                lookup(out@, k) == (if lookup(m1, k) is Some {
                    opt_meet(lookup(m1, k), lookup(m2, k), bot)
                } else if lookup(m2.subrange(0, j as int), k) is Some {
                    opt_meet(lookup(m1, k), lookup(m2, k), bot)
                } else {
                    None::<V>
                }),
        decreases on - j,
    {
        let (k, _w) = other.entries[j];
        proof {
            lemma_lookup_found(m2, k, j as int);
            lemma_lookup_none(m2.subrange(0, j as int), k);
            assert(m2.subrange(0, j as int + 1) =~= m2.subrange(0, j as int).push(m2[j as int]));
        }
        let ghost out_before = out@;
        let present = this.contains_key(&k);
        if !present {
            match &bot {
                Some(b) => {
                    proof {
                        if lookup(out_before, k) is Some {
                            lemma_lookup_entry(out_before, k);
                        }
                    }
                    out.push((k, *b));
                },
                None => {},
            }
        }
        proof {
            let prefix = m2.subrange(0, j as int);
            let prefix1 = m2.subrange(0, j as int + 1);
            assert forall|k2: K| #[trigger]
                lookup(out@, k2) == (if lookup(m1, k2) is Some {
                    opt_meet(lookup(m1, k2), lookup(m2, k2), bot)
                } else if lookup(prefix1, k2) is Some {
                    opt_meet(lookup(m1, k2), lookup(m2, k2), bot)
                } else {
                    None::<V>
                }) by {
                lemma_lookup_push(prefix, m2[j as int], k2);
                if out@ != out_before {
                    lemma_lookup_push(out_before, out@.last(), k2);
                    assert(out@ == out_before.push(out@.last()));
                }
            }
            assert(unique_keys(out@)) by {
                if out@ != out_before {
                    assert forall|p: int, q: int| 0 <= p < q < out@.len() implies out@[p].0
                        != out@[q].0 by {
                        if q == out@.len() - 1 {
                            if out@[p].0 == k {
                                lemma_lookup_exists(out_before, k, p);
                            }
                        }
                    }
                }
            }
        }
        j += 1;
    }
    proof {
        assert(m2.subrange(0, on as int) =~= m2);
    }
    let changed = !entries_map_eq(&out, &this.entries);
    this.entries = out;
    proof {
        if !changed {
            lemma_lookup_eq_view_eq(*this, *old(this));
        } else {
            let kw = choose|k: K| lookup(this.entries@, k) != lookup(old(this).entries@, k);
            assert(this@.contains_key(kw) != old(this)@.contains_key(kw) || (
            this@.contains_key(kw) && this@[kw] != old(this)@[kw]));
        }
    }
    changed
}

/// A set of items, stored as a vector of pairwise distinct items and
/// viewed as a mathematical `Set`.
#[derive(Clone, Debug, PartialEq, Eq)]
pub struct AssocSet<K> {
    pub items: Vec<K>,
}

impl<K> View for AssocSet<K> {
    type V = Set<K>;

    open spec fn view(&self) -> Set<K> {
        Set::new(|k: K| self.items@.contains(k))
    }
}

impl<K: EqItem> AssocSet<K> {
    pub open spec fn wf(&self) -> bool {
        forall|i: int, j: int| 0 <= i < j < self.items@.len() ==> self.items@[i] != self.items@[j]
    }

    pub fn new() -> (r: Self)
        ensures
            r.wf(),
            r@ == Set::<K>::empty(),
    {
        let r = AssocSet { items: Vec::new() };
        proof {
            assert(r@ =~= Set::<K>::empty());
        }
        r
    }

    pub fn contains(&self, k: &K) -> (r: bool)
        ensures
            r == self@.contains(*k),
    {
        let n = self.items.len();
        let mut i: usize = 0;
        while i < n
            invariant
                n == self.items@.len(),
                i <= n,
                forall|j: int| 0 <= j < i ==> self.items@[j] != *k,
            decreases n - i,
        {
            let hit = K::eq_item(&self.items[i], k);
            if hit {
                return true;
            }
            i += 1;
        }
        false
    }
}

/// Insert every item of `other` into `this`; returns whether anything new
/// was inserted, i.e. whether the set grew.
pub fn set_union<K: EqItem>(this: &mut AssocSet<K>, other: &AssocSet<K>) -> (inserted: bool)
    requires
        old(this).wf(),
        other.wf(),
    ensures
        final(this).wf(),
        final(this)@ == old(this)@.union(other@),
        inserted == (final(this)@ != old(this)@),
{
    let ghost s0 = this@;
    let mut inserted = false;
    let n = other.items.len();
    let mut j: usize = 0;
    while j < n
        invariant
            n == other.items@.len(),
            j <= n,
            this.wf(),
            other.wf(),
            this@ =~= s0.union(Set::new(|k: K| other.items@.subrange(0, j as int).contains(k))),
            inserted ==> exists|k: K| this@.contains(k) && !s0.contains(k),
            !inserted ==> this@ =~= s0,
        decreases n - j,
    {
        let k = other.items[j];
        let present = this.contains(&k);
        let ghost before = this@;
        let ghost items_before = this.items@;
        if !present {
            this.items.push(k);
            inserted = true;
        }
        proof {
            let prefix = other.items@.subrange(0, j as int);
            let prefix1 = other.items@.subrange(0, j as int + 1);
            assert(prefix1 =~= prefix.push(other.items@[j as int]));
            assert forall|x: K| prefix1.contains(x) == (prefix.contains(x) || x == k) by {
                lemma_seq_contains_push(prefix, k, x);
            }
            if !present {
                assert forall|x: K| #[trigger]
                    this.items@.contains(x) == (items_before.contains(x) || x == k) by {
                    lemma_seq_contains_push(items_before, k, x);
                }
                assert(this@ =~= before.insert(k));
                assert(this.wf()) by {
                    assert forall|p: int, q: int|
                        0 <= p < q < this.items@.len() implies this.items@[p]
                        != this.items@[q] by {
                        if q == this.items@.len() - 1 {
                            assert(items_before.contains(items_before[p]));
                        }
                    }
                }
            }
            assert(this@ =~= s0.union(Set::new(|x: K| prefix1.contains(x))));
        }
        j += 1;
    }
    proof {
        assert(other.items@.subrange(0, n as int) =~= other.items@);
        assert(this@ =~= s0.union(other@));
        if inserted {
            let kw = choose|k: K| this@.contains(k) && !s0.contains(k);
            assert(this@ != s0);
        }
    }
    inserted
}

} // verus!
