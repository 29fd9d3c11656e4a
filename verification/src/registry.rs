//! Lists of definitions, looked up by id.

use vstd::prelude::*;

verus! {

/// Something with an id.
pub trait Named {
    spec fn name(&self) -> Seq<char>;

    fn is_named(&self, id: &String) -> (r: bool)
        ensures
            r == (self.name() == id@),
    ;
}

/// Position of the first definition with this id, from `i` on.
pub open spec fn position_of<T: Named>(defs: Seq<T>, id: Seq<char>, i: int) -> Option<int>
    decreases defs.len() - i,
{
    if i >= defs.len() {
        None
    } else if defs[i].name() == id {
        Some(i)
    } else {
        position_of(defs, id, i + 1)
    }
}

/// What a found position means.
pub proof fn lemma_position<T: Named>(defs: Seq<T>, id: Seq<char>, i: int)
    requires
        0 <= i,
    ensures
        match position_of(defs, id, i) {
            Some(k) => i <= k < defs.len() && defs[k].name() == id && forall|j: int|
                i <= j < k ==> (#[trigger] defs[j]).name() != id,
            None => forall|j: int| i <= j < defs.len() ==> (#[trigger] defs[j]).name() != id,
        },
    decreases defs.len() - i,
{
    if i < defs.len() && defs[i].name() != id {
        lemma_position(defs, id, i + 1);
    }
}

/// Finds the first definition with this id.
pub fn find_named<T: Named>(defs: &Vec<T>, id: &String) -> (r: Option<usize>)
    ensures
        match r {
            Some(k) => position_of(defs@, id@, 0) == Some(k as int) && k < defs@.len()
                && defs@[k as int].name() == id@,
            None => position_of(defs@, id@, 0) is None,
        },
{
    let mut i: usize = 0;
    while i < defs.len()
        invariant
            i <= defs@.len(),
            position_of(defs@, id@, 0) == position_of(defs@, id@, i as int),
        decreases defs@.len() - i,
    {
        if defs[i].is_named(id) {
            return Some(i);
        }
        i = i + 1;
    }
    None
}

/// An earlier definition has the id of the `k`-th.
pub open spec fn repeated<T: Named>(defs: Seq<T>, k: int) -> bool {
    exists|j: int| 0 <= j < k && (#[trigger] defs[j]).name() == defs[k].name()
}

/// No id occurs twice.
pub open spec fn distinct<T: Named>(defs: Seq<T>) -> bool {
    forall|k: int| 0 <= k < defs.len() ==> !#[trigger] repeated(defs, k)
}

/// Does one of the first `k` definitions have the id of the `k`-th?
pub fn is_repeated<T: Named>(defs: &Vec<T>, k: usize, id: &String) -> (r: bool)
    requires
        k < defs@.len(),
        id@ == defs@[k as int].name(),
    ensures
        r == repeated(defs@, k as int),
{
    let mut j: usize = 0;
    while j < k
        invariant
            j <= k < defs@.len(),
            id@ == defs@[k as int].name(),
            forall|m: int| 0 <= m < j ==> (#[trigger] defs@[m]).name() != id@,
        decreases k - j,
    {
        if defs[j].is_named(id) {
            return true;
        }
        j = j + 1;
    }
    false
}

/// Where no id occurs twice, every definition is found under its id.
pub proof fn law_distinct_ids_are_found<T: Named>(defs: Seq<T>, k: int)
    requires
        distinct(defs),
        0 <= k < defs.len(),
    ensures
        position_of(defs, defs[k].name(), 0) == Some(k),
{
    lemma_position(defs, defs[k].name(), 0);
    match position_of(defs, defs[k].name(), 0) {
        Some(m) => {
            if m < k {
                assert(defs[m].name() == defs[k].name());
                assert(repeated(defs, k));
            } else if m > k {
                assert(defs[k].name() != defs[k].name());
            }
        },
        None => {
            assert(defs[k].name() != defs[k].name());
        },
    }
}

/// Ids are distinct exactly if no two definitions share one.
pub proof fn law_distinct_means_no_pair<T: Named>(defs: Seq<T>)
    ensures
        distinct(defs) <==> forall|i: int, j: int|
            0 <= i < j < defs.len() ==> (#[trigger] defs[i]).name() != (#[trigger] defs[j]).name(),
{
    if distinct(defs) {
        assert forall|i: int, j: int| 0 <= i < j < defs.len() implies (
        #[trigger] defs[i]).name() != (#[trigger] defs[j]).name() by {
            assert(!repeated(defs, j));
        }
    }
    if forall|i: int, j: int|
        0 <= i < j < defs.len() ==> (#[trigger] defs[i]).name() != (#[trigger] defs[j]).name() {
        assert forall|k: int| 0 <= k < defs.len() implies !#[trigger] repeated(defs, k) by {}
    }
}

/// Looking an id up gives the first definition that has it, and nothing
/// exactly if there is none.
pub proof fn law_first_definitions_count<T: Named>(defs: Seq<T>, id: Seq<char>)
    ensures
        position_of(defs, id, 0) is None <==> forall|j: int|
            0 <= j < defs.len() ==> (#[trigger] defs[j]).name() != id,
        position_of(defs, id, 0) is Some ==> {
            let k = position_of(defs, id, 0)->0;
            &&& 0 <= k < defs.len() && defs[k].name() == id
            &&& forall|j: int| 0 <= j < k ==> (#[trigger] defs[j]).name() != id
        },
{
    lemma_position(defs, id, 0);
}

} // verus!
