//! Order on text.

use vstd::prelude::*;
use vstd::string::*;

verus! {

/// Lexicographic order by code point.
pub open spec fn text_before(a: Seq<char>, b: Seq<char>) -> bool
    decreases a.len(),
{
    if b.len() == 0 {
        false
    } else if a.len() == 0 {
        true
    } else if a[0] != b[0] {
        a[0] < b[0]
    } else {
        text_before(a.drop_first(), b.drop_first())
    }
}

pub proof fn lemma_text_irreflexive(a: Seq<char>)
    ensures
        !text_before(a, a),
    decreases a.len(),
{
    if a.len() > 0 {
        lemma_text_irreflexive(a.drop_first());
    }
}

pub proof fn lemma_text_transitive(a: Seq<char>, b: Seq<char>, c: Seq<char>)
    requires
        text_before(a, b),
        text_before(b, c),
    ensures
        text_before(a, c),
    decreases a.len(),
{
    if a.len() > 0 && b.len() > 0 && c.len() > 0 && a[0] == b[0] && b[0] == c[0] {
        lemma_text_transitive(a.drop_first(), b.drop_first(), c.drop_first());
    }
}

pub proof fn lemma_text_total(a: Seq<char>, b: Seq<char>)
    ensures
        text_before(a, b) || a == b || text_before(b, a),
    decreases a.len(),
{
    if a.len() > 0 && b.len() > 0 && a[0] == b[0] {
        lemma_text_total(a.drop_first(), b.drop_first());
        if a.drop_first() == b.drop_first() {
            assert(a =~= seq![a[0]] + a.drop_first());
            assert(b =~= seq![b[0]] + b.drop_first());
        }
    } else if a.len() == 0 && b.len() == 0 {
        assert(a =~= b);
    }
}

/// `a` comes before `b` in lexicographic order.
pub fn comes_before(a: &String, b: &String) -> (r: bool)
    ensures
        r == text_before(a@, b@),
{
    let x: &str = a.as_str();
    let y: &str = b.as_str();
    let n: usize = x.unicode_len();
    let m: usize = y.unicode_len();
    let mut i: usize = 0;
    assert(a@.skip(0) =~= a@);
    assert(b@.skip(0) =~= b@);
    while i < n && i < m
        invariant
            x@ == a@,
            y@ == b@,
            n == a@.len(),
            m == b@.len(),
            i <= n,
            i <= m,
            text_before(a@, b@) == text_before(a@.skip(i as int), b@.skip(i as int)),
        decreases n - i,
    {
        let c: char = x.get_char(i);
        let d: char = y.get_char(i);
        assert(a@.skip(i as int)[0] == c);
        assert(b@.skip(i as int)[0] == d);
        if c != d {
            return c < d;
        }
        assert(a@.skip(i as int).drop_first() =~= a@.skip(i + 1));
        assert(b@.skip(i as int).drop_first() =~= b@.skip(i + 1));
        i = i + 1;
    }
    i < m
}

/// The texts are listed in strictly increasing order.
pub open spec fn texts_sorted(list: Seq<String>) -> bool {
    forall|i: int, j: int|
        #![trigger list[i], list[j]]
        0 <= i < j < list.len() ==> text_before(list[i]@, list[j]@)
}

/// The list holds this text.
pub open spec fn has_text(list: Seq<String>, t: Seq<char>) -> bool {
    exists|i: int| 0 <= i < list.len() && (#[trigger] list[i])@ == t
}

/// Does the list hold this text?
pub fn contains_text(list: &Vec<String>, t: &String) -> (r: bool)
    ensures
        r == has_text(list@, t@),
{
    let mut i: usize = 0;
    while i < list.len()
        invariant
            i <= list@.len(),
            forall|k: int| 0 <= k < i ==> (#[trigger] list@[k])@ != t@,
        decreases list@.len() - i,
    {
        if list[i] == *t {
            return true;
        }
        i = i + 1;
    }
    false
}

/// Adds a text to a sorted list unless it is there already.
pub fn insert_sorted(list: &mut Vec<String>, t: &String)
    requires
        texts_sorted(old(list)@),
    ensures
        texts_sorted(final(list)@),
        forall|s: Seq<char>| #[trigger]
            has_text(final(list)@, s) <==> has_text(old(list)@, s) || s == t@,
{
    let mut at: usize = 0;
    while at < list.len() && comes_before(&list[at], t)
        invariant
            list@ == old(list)@,
            at <= list@.len(),
            texts_sorted(list@),
            forall|k: int| 0 <= k < at ==> text_before((#[trigger] list@[k])@, t@),
        decreases list@.len() - at,
    {
        at = at + 1;
    }
    if at < list.len() && list[at] == *t {
        return;
    }
    let ghost before = list@;
    list.insert(at, t.clone());
    proof {
        let after = list@;
        assert forall|k: int| 0 <= k < at implies after[k] == before[k] by {}
        assert forall|k: int| at < k < after.len() implies after[k] == before[k - 1] by {}
        assert(at < before.len() ==> text_before(t@, before[at as int]@)) by {
            if at < before.len() {
                lemma_text_total(t@, before[at as int]@);
            }
        }
        assert forall|i: int, j: int| 0 <= i < j < after.len() implies text_before(
            after[i]@,
            after[j]@,
        ) by {
            if j < at {
                assert(text_before(before[i]@, before[j]@));
            } else if i > at {
                assert(text_before(before[i - 1]@, before[j - 1]@));
            } else if i < at && j > at {
                assert(text_before(before[i]@, before[j - 1]@));
            } else if i == at && j > at {
                if j - 1 > at {
                    assert(text_before(before[at as int]@, before[j - 1]@));
                    lemma_text_transitive(t@, before[at as int]@, before[j - 1]@);
                }
            } else {
                assert(text_before(before[i]@, t@));
            }
        }
        assert forall|s: Seq<char>| #[trigger] has_text(after, s) <==> (has_text(before, s) || s
            == t@) by {
            if has_text(after, s) {
                let k = choose|k: int| 0 <= k < after.len() && (#[trigger] after[k])@ == s;
                if k < at {
                    assert(before[k]@ == s);
                } else if k > at {
                    assert(before[k - 1]@ == s);
                }
            }
            if has_text(before, s) {
                let k = choose|k: int| 0 <= k < before.len() && (#[trigger] before[k])@ == s;
                if k < at {
                    assert(after[k]@ == s);
                } else {
                    assert(after[k + 1]@ == s);
                }
            }
            assert(after[at as int]@ == t@);
        }
    }
}

/// A sorted list is fixed by the texts in it: two peers that sort the same
/// texts get the same list.
pub proof fn law_sorted_lists_agree(a: Seq<String>, b: Seq<String>)
    requires
        texts_sorted(a),
        texts_sorted(b),
        forall|t: Seq<char>| #[trigger] has_text(a, t) <==> has_text(b, t),
    ensures
        a.len() == b.len(),
        forall|i: int| 0 <= i < a.len() ==> (#[trigger] a[i])@ == b[i]@,
{
    lemma_agree_upto(a, b, if a.len() <= b.len() {
        a.len() as int
    } else {
        b.len() as int
    });
    if a.len() <= b.len() {
        lemma_no_surplus(a, b);
    } else {
        lemma_no_surplus(b, a);
    }
}

/// The first `n` texts of both lists are the same.
proof fn lemma_agree_upto(a: Seq<String>, b: Seq<String>, n: int)
    requires
        texts_sorted(a),
        texts_sorted(b),
        forall|t: Seq<char>| #[trigger] has_text(a, t) <==> has_text(b, t),
        0 <= n <= a.len(),
        n <= b.len(),
    ensures
        forall|i: int| 0 <= i < n ==> (#[trigger] a[i])@ == b[i]@,
    decreases n,
{
    if n > 0 {
        let i = n - 1;
        lemma_agree_upto(a, b, i);
        assert(has_text(a, a[i]@));
        assert(has_text(b, b[i]@));
        assert(has_text(a, b[i]@));
        let j = choose|j: int| 0 <= j < b.len() && (#[trigger] b[j])@ == a[i]@;
        let k = choose|k: int| 0 <= k < a.len() && (#[trigger] a[k])@ == b[i]@;
        if j < i {
            assert(a[j]@ == b[j]@);
            assert(text_before(a[j]@, a[i]@));
            lemma_text_irreflexive(a[i]@);
        }
        if k < i {
            assert(a[k]@ == b[k]@);
            assert(text_before(b[k]@, b[i]@));
            lemma_text_irreflexive(b[i]@);
        }
        if j > i && k > i {
            assert(text_before(b[i]@, b[j]@));
            assert(text_before(a[i]@, a[k]@));
            lemma_text_transitive(a[i]@, b[i]@, a[i]@);
            lemma_text_irreflexive(a[i]@);
        }
    }
}

/// The longer of two agreeing lists cannot hold more.
proof fn lemma_no_surplus(a: Seq<String>, b: Seq<String>)
    requires
        texts_sorted(b),
        forall|t: Seq<char>| #[trigger] has_text(a, t) <==> has_text(b, t),
        a.len() <= b.len(),
        forall|i: int| 0 <= i < a.len() ==> (#[trigger] a[i])@ == b[i]@,
    ensures
        a.len() == b.len(),
{
    if a.len() < b.len() {
        let n = a.len() as int;
        assert(has_text(b, b[n]@));
        assert(has_text(a, b[n]@));
        let k = choose|k: int| 0 <= k < a.len() && (#[trigger] a[k])@ == b[n]@;
        assert(text_before(b[k]@, b[n]@));
        lemma_text_irreflexive(b[n]@);
    }
}

pub fn copy_text(t: &Option<String>) -> (r: Option<String>)
    ensures
        r == *t,
{
    match t {
        Some(s) => Some(s.clone()),
        None => None,
    }
}

/// A text comes before another exactly if it is the beginning of a longer one,
/// or has the smaller character at the first place where the two differ.
pub proof fn law_texts_are_ordered_like_words(a: Seq<char>, b: Seq<char>, k: int)
    requires
        0 <= k <= a.len(),
        k <= b.len(),
        forall|i: int| 0 <= i < k ==> a[i] == b[i],
        k < a.len() && k < b.len() ==> a[k] != b[k],
    ensures
        k < a.len() && k < b.len() ==> (text_before(a, b) <==> a[k] < b[k]),
        k == a.len() ==> (text_before(a, b) <==> k < b.len()),
        k == b.len() ==> !text_before(a, b),
    decreases k,
{
    if k > 0 {
        let (x, y) = (a.drop_first(), b.drop_first());
        assert forall|i: int| 0 <= i < k - 1 implies x[i] == y[i] by {
            assert(a[i + 1] == b[i + 1]);
        }
        law_texts_are_ordered_like_words(x, y, k - 1);
        assert(a[0] == b[0]);
    }
}

} // verus!
