//! Counting cells.

use crate::cells::IVec3;
use vstd::prelude::*;

verus! {

/// How many cells of the set satisfy `f`.
pub open spec fn how_many(cells: Set<IVec3>, f: spec_fn(IVec3) -> bool) -> nat {
    cells.filter(f).len()
}

/// How many entries of the list satisfy `f`.
pub open spec fn tally(s: Seq<IVec3>, f: spec_fn(IVec3) -> bool) -> nat
    decreases s.len(),
{
    if s.len() == 0 {
        0
    } else {
        tally(s.drop_last(), f) + if f(s.last()) {
            1nat
        } else {
            0nat
        }
    }
}

pub proof fn lemma_tally_step(s: Seq<IVec3>, i: int, f: spec_fn(IVec3) -> bool)
    requires
        0 <= i < s.len(),
    ensures
        tally(s.take(i + 1), f) == tally(s.take(i), f) + if f(s[i]) {
            1nat
        } else {
            0nat
        },
        tally(s.take(i), f) <= i,
        tally(s.take(i + 1), f) <= i + 1,
    decreases i,
{
    assert(s.take(i + 1).drop_last() =~= s.take(i));
    if i > 0 {
        lemma_tally_step(s, i - 1, f);
    }
}

pub proof fn lemma_tally_set(s: Seq<IVec3>, f: spec_fn(IVec3) -> bool)
    requires
        s.no_duplicates(),
    ensures
        tally(s, f) == how_many(s.to_set(), f),
        how_many(s.to_set(), f) <= s.len(),
    decreases s.len(),
{
    if s.len() == 0 {
        assert(s.to_set().filter(f) =~= Set::empty());
    } else {
        let t = s.drop_last();
        let c = s.last();
        lemma_tally_set(t, f);
        assert(!t.contains(c)) by {
            if t.contains(c) {
                let k = choose|k: int| 0 <= k < t.len() && t[k] == c;
                assert(s[k] == s[s.len() - 1]);
            }
        }
        assert(s =~= t.push(c));
        assert(s.to_set() =~= t.to_set().insert(c)) by {
            assert forall|x: IVec3| s.to_set().contains(x) <==> t.to_set().insert(c).contains(
                x,
            ) by {
                if t.contains(x) {
                    let k = choose|k: int| 0 <= k < t.len() && t[k] == x;
                    assert(s[k] == x);
                }
                if s.contains(x) && x != c {
                    let k = choose|k: int| 0 <= k < s.len() && s[k] == x;
                    assert(t[k] == x);
                }
                assert(s[s.len() - 1] == c);
            }
        }
        assert(t.to_set().finite());
        if f(c) {
            assert(s.to_set().filter(f) =~= t.to_set().filter(f).insert(c));
        } else {
            assert(s.to_set().filter(f) =~= t.to_set().filter(f));
        }
    }
}

pub proof fn lemma_tally_whole(s: Seq<IVec3>, f: spec_fn(IVec3) -> bool)
    requires
        s.no_duplicates(),
    ensures
        tally(s.take(s.len() as int), f) == how_many(s.to_set(), f),
{
    assert(s.take(s.len() as int) =~= s);
    lemma_tally_set(s, f);
}

} // verus!
