//! Sorting by a number, keeping the order of equals.

use vstd::prelude::*;

verus! {

/// Something that is sorted by a number, the lowest first.
pub trait Ranked: Sized {
    spec fn rank(&self) -> int;

    fn rank_value(&self) -> (r: u64)
        ensures
            r == self.rank(),
    ;
}

/// Puts an element behind all that rank no higher.
pub open spec fn placed_by_rank<T: Ranked>(list: Seq<T>, m: T) -> Seq<T>
    decreases list.len(),
{
    if list.len() == 0 || list.last().rank() <= m.rank() {
        list.push(m)
    } else {
        placed_by_rank(list.drop_last(), m).push(list.last())
    }
}

/// The list sorted by rank; equals keep their order.
pub open spec fn sorted_by_rank<T: Ranked>(list: Seq<T>) -> Seq<T>
    decreases list.len(),
{
    if list.len() == 0 {
        list
    } else {
        placed_by_rank(sorted_by_rank(list.drop_last()), list.last())
    }
}

/// No element is followed by one of lower rank.
pub open spec fn in_rank_order<T: Ranked>(list: Seq<T>) -> bool {
    forall|i: int, j: int|
        #![trigger list[i], list[j]]
        0 <= i < j < list.len() ==> list[i].rank() <= list[j].rank()
}

proof fn lemma_placed<T: Ranked>(list: Seq<T>, m: T)
    requires
        in_rank_order(list),
    ensures
        in_rank_order(placed_by_rank(list, m)),
        placed_by_rank(list, m).to_multiset() == list.to_multiset().insert(m),
        placed_by_rank(list, m).len() == list.len() + 1,
        forall|i: int|
            0 <= i < placed_by_rank(list, m).len() ==> (#[trigger] placed_by_rank(list, m)[i]).rank()
                == m.rank() || exists|k: int|
                0 <= k < list.len() && (#[trigger] list[k]) == placed_by_rank(list, m)[i],
    decreases list.len(),
{
    broadcast use vstd::seq_lib::group_to_multiset_ensures;

    let r = placed_by_rank(list, m);
    if list.len() == 0 || list.last().rank() <= m.rank() {
        assert forall|i: int| 0 <= i < r.len() implies (#[trigger] r[i]).rank() == m.rank()
            || exists|k: int| 0 <= k < list.len() && (#[trigger] list[k]) == r[i] by {
            if i < list.len() {
                assert(list[i] == r[i]);
            }
        }
        assert forall|i: int, j: int|
            #![trigger r[i], r[j]]
            0 <= i < j < r.len() implies r[i].rank() <= r[j].rank() by {
            if j == list.len() {
                assert(list[i].rank() <= list[list.len() - 1].rank());
            }
        }
    } else {
        let rest = list.drop_last();
        lemma_placed(rest, m);
        let p = placed_by_rank(rest, m);
        assert(list =~= rest.push(list.last()));
        assert forall|i: int| 0 <= i < r.len() implies (#[trigger] r[i]).rank() == m.rank()
            || exists|k: int| 0 <= k < list.len() && (#[trigger] list[k]) == r[i] by {
            if i < p.len() {
                assert(r[i] == p[i]);
                if p[i].rank() != m.rank() {
                    let k = choose|k: int| 0 <= k < rest.len() && (#[trigger] rest[k]) == p[i];
                    assert(list[k] == r[i]);
                }
            } else {
                assert(list[list.len() - 1] == r[i]);
            }
        }
        assert forall|i: int, j: int|
            #![trigger r[i], r[j]]
            0 <= i < j < r.len() implies r[i].rank() <= r[j].rank() by {
            assert(r[i] == p[i]);
            if j < p.len() {
                assert(r[j] == p[j]);
            } else if p[i].rank() != m.rank() {
                let k = choose|k: int| 0 <= k < rest.len() && (#[trigger] rest[k]) == p[i];
                assert(list[k].rank() <= list[list.len() - 1].rank());
            }
        }
        assert(list.to_multiset() =~= rest.to_multiset().insert(list.last()));
        assert(r.to_multiset() =~= p.to_multiset().insert(list.last()));
        assert(rest.to_multiset().insert(m).insert(list.last()) =~= rest.to_multiset().insert(
            list.last(),
        ).insert(m));
    }
}

/// Sorting loses and invents nothing, and puts the lowest first.
pub proof fn law_sorted_by_rank<T: Ranked>(list: Seq<T>)
    ensures
        in_rank_order(sorted_by_rank(list)),
        sorted_by_rank(list).to_multiset() == list.to_multiset(),
        sorted_by_rank(list).len() == list.len(),
    decreases list.len(),
{
    broadcast use vstd::seq_lib::group_to_multiset_ensures;

    if list.len() > 0 {
        law_sorted_by_rank(list.drop_last());
        lemma_placed(sorted_by_rank(list.drop_last()), list.last());
        assert(list =~= list.drop_last().push(list.last()));
    }
}

fn place_by_rank<T: Ranked>(list: &mut Vec<T>, m: T)
    ensures
        final(list)@ == placed_by_rank(old(list)@, m),
{
    let key: u64 = m.rank_value();
    let mut at: usize = list.len();
    assert(list@.take(list@.len() as int) =~= list@);
    assert(list@.skip(list@.len() as int) =~= Seq::empty());
    assert(placed_by_rank(list@, m) =~= placed_by_rank(list@.take(at as int), m) + list@.skip(
        at as int,
    ));
    while at > 0 && list[at - 1].rank_value() > key
        invariant
            at <= list@.len(),
            list@ == old(list)@,
            key == m.rank(),
            placed_by_rank(list@, m) == placed_by_rank(list@.take(at as int), m) + list@.skip(
                at as int,
            ),
        decreases at,
    {
        assert(list@.take(at as int).drop_last() =~= list@.take(at - 1));
        assert(list@.skip(at - 1) =~= seq![list@[at - 1]] + list@.skip(at as int));
        assert(placed_by_rank(list@.take(at as int), m) == placed_by_rank(
            list@.take(at - 1),
            m,
        ).push(list@[at - 1]));
        at = at - 1;
        assert(placed_by_rank(list@, m) =~= placed_by_rank(list@.take(at as int), m) + list@.skip(
            at as int,
        ));
    }
    assert(placed_by_rank(list@.take(at as int), m) == list@.take(at as int).push(m)) by {
        if at > 0 {
            assert(list@.take(at as int).last() == list@[at - 1]);
        }
    }
    list.insert(at, m);
    assert(list@ =~= placed_by_rank(old(list)@, m));
}

/// Sorts a list by rank; equals keep their order.
pub fn sort_by_rank<T: Ranked>(list: Vec<T>) -> (r: Vec<T>)
    ensures
        r@ == sorted_by_rank(list@),
{
    let mut todo: Vec<T> = list;
    let mut out: Vec<T> = Vec::new();
    let ghost mut done: int = 0;
    assert(list@.take(0) =~= Seq::empty());
    assert(todo@ =~= list@.skip(0));
    while todo.len() > 0
        invariant
            0 <= done <= list@.len(),
            todo@ == list@.skip(done),
            out@ == sorted_by_rank(list@.take(done)),
        decreases todo@.len(),
    {
        let m: T = todo.remove(0);
        proof {
            assert(list@.take(done + 1).drop_last() =~= list@.take(done));
            assert(list@.take(done + 1).last() == m);
            assert(todo@ =~= list@.skip(done + 1));
            done = done + 1;
        }
        place_by_rank(&mut out, m);
    }
    assert(list@.take(done) =~= list@);
    out
}

/// The first `limit` of the list.
pub open spec fn at_most<T>(list: Seq<T>, limit: int) -> Seq<T> {
    if list.len() <= limit {
        list
    } else {
        list.take(limit)
    }
}

/// Sorts a list by rank and keeps the first `limit`.
pub fn nearest_of<T: Ranked>(list: Vec<T>, limit: usize) -> (r: Vec<T>)
    ensures
        r@ == at_most(sorted_by_rank(list@), limit as int),
{
    let mut out: Vec<T> = sort_by_rank(list);
    if out.len() > limit {
        out.truncate(limit);
    }
    out
}

/// What is kept of a list is in order and comes from the list, and what is not
/// kept ranks no lower than anything that is; nothing is left out while there is
/// room.
pub proof fn law_the_lowest_are_kept<T: Ranked>(list: Seq<T>, limit: int, k: int)
    requires
        0 <= limit,
        0 <= k < list.len(),
    ensures
        ({
            let r = at_most(sorted_by_rank(list), limit);
            &&& r.len() == (if list.len() <= limit {
                list.len() as int
            } else {
                limit
            })
            &&& in_rank_order(r)
            &&& forall|i: int| 0 <= i < r.len() ==> list.contains(#[trigger] r[i])
            &&& r.contains(list[k]) || (r.len() == limit && forall|i: int|
                0 <= i < r.len() ==> (#[trigger] r[i]).rank() <= list[k].rank())
        }),
{
    broadcast use vstd::seq_lib::group_to_multiset_ensures;

    law_sorted_by_rank(list);
    let all = sorted_by_rank(list);
    let r = at_most(all, limit);
    assert(all.to_multiset().count(list[k]) > 0) by {
        assert(list.contains(list[k]));
    }
    assert(all.contains(list[k]));
    let p = all.index_of(list[k]);
    assert(all[p] == list[k]);
    if p < r.len() {
        assert(r[p] == list[k]);
    } else {
        assert forall|i: int| 0 <= i < r.len() implies (#[trigger] r[i]).rank() <= list[k].rank() by {
            assert(r[i] == all[i]);
            assert(all[i].rank() <= all[p].rank());
        }
    }
    assert forall|i: int| 0 <= i < r.len() implies list.contains(#[trigger] r[i]) by {
        assert(r[i] == all[i]);
        assert(all.contains(all[i]));
        assert(all.to_multiset().count(all[i]) > 0);
    }
    assert forall|i: int, j: int|
        #![trigger r[i], r[j]]
        0 <= i < j < r.len() implies r[i].rank() <= r[j].rank() by {
        assert(r[i] == all[i] && r[j] == all[j]);
    }
}

/// Ranking at this number.
pub open spec fn ranked_at<T: Ranked>(x: int) -> spec_fn(T) -> bool {
    |t: T| t.rank() == x
}

proof fn lemma_filter_push<T: Ranked>(list: Seq<T>, m: T, x: int)
    ensures
        list.push(m).filter(ranked_at(x)) == (if m.rank() == x {
            list.filter(ranked_at(x)).push(m)
        } else {
            list.filter(ranked_at(x))
        }),
{
    reveal(Seq::filter);
    assert(list.push(m).drop_last() =~= list);
}

proof fn lemma_placed_among_equals<T: Ranked>(list: Seq<T>, m: T, x: int)
    requires
        in_rank_order(list),
    ensures
        placed_by_rank(list, m).filter(ranked_at(x)) == list.push(m).filter(ranked_at(x)),
    decreases list.len(),
{
    if !(list.len() == 0 || list.last().rank() <= m.rank()) {
        let rest = list.drop_last();
        let p = placed_by_rank(rest, m);
        lemma_placed_among_equals(rest, m, x);
        assert(list =~= rest.push(list.last()));
        lemma_filter_push(p, list.last(), x);
        lemma_filter_push(rest, m, x);
        lemma_filter_push(rest, list.last(), x);
        lemma_filter_push(list, m, x);
    }
}

/// Of two that rank alike, the one that came first stays first.
pub proof fn law_equals_keep_their_order<T: Ranked>(list: Seq<T>, x: int)
    ensures
        sorted_by_rank(list).filter(ranked_at(x)) == list.filter(ranked_at(x)),
    decreases list.len(),
{
    if list.len() > 0 {
        let rest = list.drop_last();
        law_equals_keep_their_order(rest, x);
        law_sorted_by_rank(rest);
        let s = sorted_by_rank(rest);
        lemma_placed_among_equals(s, list.last(), x);
        assert(list =~= rest.push(list.last()));
        lemma_filter_push(s, list.last(), x);
        lemma_filter_push(rest, list.last(), x);
    }
}

} // verus!
