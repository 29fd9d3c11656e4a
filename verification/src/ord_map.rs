//! An ordered map.
//!
//! Entries are kept sorted by key, so a lookup is a binary search and a walk
//! over the entries always visits the keys in the same order.

use crate::cells::{cell_before, IVec3};
use vstd::prelude::*;

verus! {

/// A key with a strict total order.
pub trait OrdKey: Copy {
    spec fn precedes(self, other: Self) -> bool;

    proof fn order_laws(a: Self, b: Self, c: Self)
        ensures
            !a.precedes(a),
            a.precedes(b) && b.precedes(c) ==> a.precedes(c),
            a.precedes(b) || a == b || b.precedes(a),
    ;

    fn is_before(self, other: Self) -> (r: bool)
        ensures
            r == self.precedes(other),
    ;
}

impl OrdKey for IVec3 {
    open spec fn precedes(self, other: Self) -> bool {
        cell_before(self, other)
    }

    proof fn order_laws(a: Self, b: Self, c: Self) {
    }

    fn is_before(self, other: Self) -> (r: bool) {
        self.before(other)
    }
}

impl OrdKey for u32 {
    open spec fn precedes(self, other: Self) -> bool {
        self < other
    }

    proof fn order_laws(a: Self, b: Self, c: Self) {
    }

    fn is_before(self, other: Self) -> (r: bool) {
        self < other
    }
}

impl OrdKey for u64 {
    open spec fn precedes(self, other: Self) -> bool {
        self < other
    }

    proof fn order_laws(a: Self, b: Self, c: Self) {
    }

    fn is_before(self, other: Self) -> (r: bool) {
        self < other
    }
}

pub struct OrdMap<K: OrdKey, V> {
    entries: Vec<(K, V)>,
}

/// A map keyed by cells.
pub type CellMap<V> = OrdMap<IVec3, V>;

proof fn lemma_order<K: OrdKey>()
    ensures
        forall|a: K| !(#[trigger] a.precedes(a)),
        forall|a: K, b: K, c: K|
            #![trigger a.precedes(b), b.precedes(c)]
            a.precedes(b) && b.precedes(c) ==> a.precedes(c),
        forall|a: K, b: K|
            #![trigger a.precedes(b)]
            a.precedes(b) || a == b || b.precedes(a),
{
    assert forall|a: K| !(#[trigger] a.precedes(a)) by {
        K::order_laws(a, a, a);
    }
    assert forall|a: K, b: K, c: K|
        #![trigger a.precedes(b), b.precedes(c)]
        a.precedes(b) && b.precedes(c) implies a.precedes(c) by {
        K::order_laws(a, b, c);
    }
    assert forall|a: K, b: K|
        #![trigger a.precedes(b)]
        a.precedes(b) || a == b || b.precedes(a) by {
        K::order_laws(a, b, a);
    }
}

spec fn sorted<K: OrdKey, V>(s: Seq<(K, V)>) -> bool {
    forall|i: int, j: int|
        #![trigger s[i], s[j]]
        0 <= i < j < s.len() ==> s[i].0.precedes(s[j].0)
}

spec fn holds_at<K: OrdKey, V>(s: Seq<(K, V)>, i: int, c: K) -> bool {
    0 <= i < s.len() && s[i].0 == c
}

spec fn as_map<K: OrdKey, V>(s: Seq<(K, V)>) -> Map<K, V> {
    Map::new(
        |c: K| exists|i: int| holds_at(s, i, c),
        |c: K| s[choose|i: int| holds_at(s, i, c)].1,
    )
}

impl<K: OrdKey, V> View for OrdMap<K, V> {
    type V = Map<K, V>;

    closed spec fn view(&self) -> Map<K, V> {
        as_map(self.entries@)
    }
}

proof fn lemma_at<K: OrdKey, V>(s: Seq<(K, V)>, i: int)
    requires
        sorted(s),
        0 <= i < s.len(),
    ensures
        as_map(s).contains_key(s[i].0),
        as_map(s)[s[i].0] == s[i].1,
{
    lemma_order::<K>();
    assert(holds_at(s, i, s[i].0));
    let k = choose|k: int| holds_at(s, k, s[i].0);
    assert(holds_at(s, k, s[i].0));
    if k < i {
        assert(s[k].0.precedes(s[i].0));
    }
    if i < k {
        assert(s[i].0.precedes(s[k].0));
    }
}

impl<K: OrdKey, V> OrdMap<K, V> {
    #[verifier::type_invariant]
    spec fn well_formed(self) -> bool {
        sorted(self.entries@)
    }

    /// The cells in walking order.
    pub closed spec fn keys(&self) -> Seq<K> {
        Seq::new(self.entries@.len(), |i: int| self.entries@[i].0)
    }

    pub fn new() -> (r: OrdMap<K, V>)
        ensures
            r@ == Map::<K, V>::empty(),
            r.keys().len() == 0,
    {
        let r = OrdMap { entries: Vec::new() };
        assert(r@ =~= Map::<K, V>::empty());
        r
    }

    /// Number of entries. The keys are listed in strictly increasing cell
    /// order and are exactly the cells of the map.
    pub fn len(&self) -> (n: usize)
        ensures
            n == self.keys().len(),
            forall|i: int| 0 <= i < n ==> self@.contains_key(#[trigger] self.keys()[i]),
            forall|c: K| #[trigger] self@.contains_key(c) ==> self.keys().contains(c),
            forall|i: int, j: int|
                #![trigger self.keys()[i], self.keys()[j]]
                0 <= i < j < n ==> self.keys()[i].precedes(self.keys()[j]),
            self.keys().no_duplicates(),
            self@.dom().finite(),
            n == self@.dom().len(),
    {
        proof {
            use_type_invariant(self);
            lemma_order::<K>();
            assert forall|i: int| 0 <= i < self.entries@.len() implies self@.contains_key(
                #[trigger] self.keys()[i],
            ) by {
                lemma_at(self.entries@, i);
            }
            assert forall|c: K| #[trigger] self@.contains_key(c) implies self.keys().contains(
                c,
            ) by {
                let k = choose|k: int| holds_at(self.entries@, k, c);
                assert(holds_at(self.entries@, k, c));
                assert(self.keys()[k] == c);
            }
            self.keys().unique_seq_to_set();
            assert(self.keys().to_set() =~= self@.dom());
        }
        self.entries.len()
    }

    pub fn key_at(&self, i: usize) -> (c: K)
        requires
            i < self.keys().len(),
        ensures
            c == self.keys()[i as int],
            self@.contains_key(c),
    {
        proof {
            use_type_invariant(self);
            lemma_order::<K>();
            lemma_at(self.entries@, i as int);
        }
        self.entries[i].0
    }

    pub fn value_at(&self, i: usize) -> (v: &V)
        requires
            i < self.keys().len(),
        ensures
            self@.contains_key(self.keys()[i as int]),
            *v == self@[self.keys()[i as int]],
    {
        proof {
            use_type_invariant(self);
            lemma_order::<K>();
            lemma_at(self.entries@, i as int);
        }
        &self.entries[i].1
    }

    /// Index of the first entry whose cell is not before `c`.
    fn lower_bound(&self, c: K) -> (r: usize)
        ensures
            r <= self.entries@.len(),
            forall|i: int| 0 <= i < r ==> (#[trigger] self.entries@[i]).0.precedes(c),
            forall|i: int|
                r <= i < self.entries@.len() ==> !(#[trigger] self.entries@[i]).0.precedes(c),
    {
        proof {
            use_type_invariant(self);
            lemma_order::<K>();
        }
        let mut lo: usize = 0;
        let mut hi: usize = self.entries.len();
        while lo < hi
            invariant
                sorted(self.entries@),
                forall|a: K, b: K, c: K|
                    #![trigger a.precedes(b), b.precedes(c)]
                    a.precedes(b) && b.precedes(c) ==> a.precedes(c),
                lo <= hi <= self.entries@.len(),
                forall|i: int| 0 <= i < lo ==> (#[trigger] self.entries@[i]).0.precedes(c),
                forall|i: int|
                    hi <= i < self.entries@.len() ==> !(#[trigger] self.entries@[i]).0.precedes(c),
            decreases hi - lo,
        {
            let mid: usize = lo + (hi - lo) / 2;
            if self.entries[mid].0.is_before(c) {
                assert forall|i: int| 0 <= i < mid + 1 implies (#[trigger] self.entries@[i]).0.precedes(c) by {
                    if i < mid {
                        assert(self.entries@[i].0.precedes(self.entries@[mid as int].0));
                    }
                }
                lo = mid + 1;
            } else {
                assert forall|i: int| mid <= i < self.entries@.len() implies !(#[trigger] self.entries@[i]).0.precedes(c) by {
                    if mid < i {
                        assert(self.entries@[mid as int].0.precedes(self.entries@[i].0));
                    }
                }
                hi = mid;
            }
        }
        lo
    }

    pub fn contains(&self, c: K) -> (r: bool)
        ensures
            r == self@.contains_key(c),
    {
        self.get(c).is_some()
    }

    pub fn get(&self, c: K) -> (r: Option<&V>)
        ensures
            r is Some <==> self@.contains_key(c),
            r matches Some(v) ==> *v == self@[c],
    {
        let at: usize = self.lower_bound(c);
        proof {
            use_type_invariant(self);
            lemma_order::<K>();
        }
        if at < self.entries.len() && !c.is_before(self.entries[at].0) {
            proof {
                lemma_at(self.entries@, at as int);
            }
            return Some(&self.entries[at].1);
        }
        proof {
            if self@.contains_key(c) {
                let k = choose|k: int| holds_at(self.entries@, k, c);
                assert(holds_at(self.entries@, k, c));
                if k > at {
                    assert(self.entries@[at as int].0.precedes(self.entries@[k].0));
                }
                assert(false);
            }
        }
        None
    }

    /// Sets the value of a cell; the value it had before comes back.
    pub fn insert(&mut self, c: K, v: V) -> (r: Option<V>)
        ensures
            final(self)@ == old(self)@.insert(c, v),
            r is Some <==> old(self)@.contains_key(c),
            r matches Some(w) ==> w == old(self)@[c],
    {
        let at: usize = self.lower_bound(c);
        proof {
            use_type_invariant(&*self);
            lemma_order::<K>();
        }
        let mut entries: Vec<(K, V)> = Vec::new();
        std::mem::swap(&mut entries, &mut self.entries);
        let ghost before = entries@;
        let mut replaced: Option<V> = None;
        if at < entries.len() && !c.is_before(entries[at].0) {
            proof {
                lemma_at(before, at as int);
            }
            let (_, w) = entries.remove(at);
            replaced = Some(w);
        } else {
            proof {
                if as_map(before).contains_key(c) {
                    let k = choose|k: int| holds_at(before, k, c);
                    assert(holds_at(before, k, c));
                    if k > at {
                        assert(before[at as int].0.precedes(before[k].0));
                    }
                    assert(false);
                }
            }
        }
        let ghost mid = entries@;
        entries.insert(at, (c, v));
        proof {
            let after = entries@;
            let skip: int = if replaced is Some {
                1
            } else {
                0
            };
            assert(after.len() == before.len() + 1 - skip);
            assert forall|i: int| 0 <= i < at implies after[i] == before[i] by {}
            assert forall|i: int| at < i < after.len() implies after[i] == before[i - 1 + skip] by {}
            assert(sorted(after)) by {
                assert forall|i: int, j: int| 0 <= i < j < after.len() implies after[i].0.precedes(after[j].0) by {
                    if i < at && at < j {
                        assert(before[i].0.precedes(c));
                        assert(!before[j - 1 + skip].0.precedes(c));
                        assert(before[i].0.precedes(before[j - 1 + skip].0));
                    } else if i == at && at < j {
                        assert(!before[j - 1 + skip].0.precedes(c));
                        if skip == 1 {
                            assert(before[at as int].0.precedes(before[j].0));
                        } else if before[j - 1].0 == c {
                            if at < j - 1 {
                                assert(before[at as int].0.precedes(before[j - 1].0));
                            }
                        }
                    } else if j < at {
                        assert(before[i].0.precedes(before[j].0));
                    } else if j == at {
                        assert(before[i].0.precedes(c));
                    } else {
                        assert(before[i - 1 + skip].0.precedes(before[j - 1 + skip].0));
                    }
                }
            }
            assert forall|d: K| as_map(after).contains_key(d) <==> (as_map(before).contains_key(
                d,
            ) || d == c) by {
                if as_map(after).contains_key(d) {
                    let k = choose|k: int| holds_at(after, k, d);
                    assert(holds_at(after, k, d));
                    if k < at {
                        assert(holds_at(before, k, d));
                    } else if k > at {
                        assert(holds_at(before, k - 1 + skip, d));
                    }
                }
                if d == c {
                    assert(holds_at(after, at as int, d));
                } else if as_map(before).contains_key(d) {
                    let k = choose|k: int| holds_at(before, k, d);
                    assert(holds_at(before, k, d));
                    if k < at {
                        assert(holds_at(after, k, d));
                    } else {
                        assert(after[k + 1 - skip] == before[k]);
                        assert(holds_at(after, k + 1 - skip, d));
                    }
                }
            }
            assert forall|d: K| as_map(after).contains_key(d) implies as_map(after)[d]
                == as_map(before).insert(c, v)[d] by {
                let k = choose|k: int| holds_at(after, k, d);
                assert(holds_at(after, k, d));
                lemma_at(after, k);
                if d == c {
                    lemma_at(after, at as int);
                } else {
                    if k < at {
                        lemma_at(before, k);
                    } else if k > at {
                        lemma_at(before, k - 1 + skip);
                    }
                }
            }
            assert(as_map(after) =~= as_map(before).insert(c, v));
        }
        self.entries = entries;
        replaced
    }

    /// Drops the entry of a cell; the value it had comes back.
    pub fn remove(&mut self, c: K) -> (r: Option<V>)
        ensures
            final(self)@ == old(self)@.remove(c),
            r is Some <==> old(self)@.contains_key(c),
            r matches Some(w) ==> w == old(self)@[c],
    {
        if !self.contains(c) {
            assert(self@ =~= old(self)@.remove(c));
            return None;
        }
        let at: usize = self.lower_bound(c);
        proof {
            use_type_invariant(&*self);
            lemma_order::<K>();
        }
        let mut entries: Vec<(K, V)> = Vec::new();
        std::mem::swap(&mut entries, &mut self.entries);
        let ghost before = entries@;
        proof {
            let k = choose|k: int| holds_at(before, k, c);
            assert(holds_at(before, k, c));
            if at < k {
                assert(before[at as int].0.precedes(before[k].0));
            }
            assert(k == at);
            lemma_at(before, k);
        }
        let (_, w) = entries.remove(at);
        proof {
            let after = entries@;
            assert forall|i: int| 0 <= i < at implies after[i] == before[i] by {}
            assert forall|i: int| at <= i < after.len() implies after[i] == before[i + 1] by {}
            assert(sorted(after)) by {
                assert forall|i: int, j: int| 0 <= i < j < after.len() implies after[i].0.precedes(after[j].0) by {
                    let bi = if i < at {
                        i
                    } else {
                        i + 1
                    };
                    let bj = if j < at {
                        j
                    } else {
                        j + 1
                    };
                    assert(before[bi].0.precedes(before[bj].0));
                }
            }
            assert forall|d: K| as_map(after).contains_key(d) <==> (as_map(before).contains_key(
                d,
            ) && d != c) by {
                if as_map(after).contains_key(d) {
                    let k = choose|k: int| holds_at(after, k, d);
                    assert(holds_at(after, k, d));
                    if k < at {
                        assert(holds_at(before, k, d));
                        assert(before[k].0.precedes(before[at as int].0));
                    } else {
                        assert(holds_at(before, k + 1, d));
                        assert(before[at as int].0.precedes(before[k + 1].0));
                    }
                }
                if as_map(before).contains_key(d) && d != c {
                    let k = choose|k: int| holds_at(before, k, d);
                    assert(holds_at(before, k, d));
                    if k < at {
                        assert(holds_at(after, k, d));
                    } else {
                        assert(after[k - 1] == before[k]);
                        assert(holds_at(after, k - 1, d));
                    }
                }
            }
            assert forall|d: K| as_map(after).contains_key(d) implies as_map(after)[d]
                == as_map(before).remove(c)[d] by {
                let k = choose|k: int| holds_at(after, k, d);
                assert(holds_at(after, k, d));
                lemma_at(after, k);
                if k < at {
                    lemma_at(before, k);
                } else {
                    lemma_at(before, k + 1);
                }
            }
            assert(as_map(after) =~= as_map(before).remove(c));
        }
        self.entries = entries;
        Some(w)
    }
}

} // verus!
