//! Small general lemmas about sequences that several modules share.

use vstd::prelude::*;

verus! {

/// Every element of a filtered sequence comes from the original sequence.
pub proof fn lemma_filter_membership<A>(s: Seq<A>, pred: spec_fn(A) -> bool)
    ensures
        forall|k: int|
            0 <= k < s.filter(pred).len() ==> exists|j: int|
                0 <= j < s.len() && #[trigger] s.filter(pred)[k] == s[j],
    decreases s.len(),
{
    reveal(Seq::filter);
    if s.len() > 0 {
        let sub = s.drop_last();
        lemma_filter_membership(sub, pred);
        assert forall|k: int| 0 <= k < s.filter(pred).len() implies exists|j: int|
            0 <= j < s.len() && #[trigger] s.filter(pred)[k] == s[j] by {
            if pred(s.last()) && k == s.filter(pred).len() - 1 {
                assert(s.filter(pred)[k] == s.last());
                assert(s.filter(pred)[k] == s[s.len() - 1]);
            } else {
                assert(s.filter(pred)[k] == sub.filter(pred)[k]);
                let j = choose|j: int| 0 <= j < sub.len() && sub.filter(pred)[k] == sub[j];
                assert(s.filter(pred)[k] == s[j]);
            }
        }
    }
}

/// Filtering a sequence without duplicate elements yields a sequence
/// without duplicate elements.
pub proof fn lemma_filter_no_duplicates<A>(s: Seq<A>, pred: spec_fn(A) -> bool)
    requires
        s.no_duplicates(),
    ensures
        s.filter(pred).no_duplicates(),
    decreases s.len(),
{
    reveal(Seq::filter);
    if s.len() > 0 {
        let sub = s.drop_last();
        assert(sub.no_duplicates());
        lemma_filter_no_duplicates(sub, pred);
        lemma_filter_membership(sub, pred);
        if pred(s.last()) {
            let f = s.filter(pred);
            assert(f == sub.filter(pred).push(s.last()));
            assert forall|i: int, j: int|
                0 <= i < f.len() && 0 <= j < f.len() && i != j implies f[i] != f[j] by {
                if i < f.len() - 1 && j < f.len() - 1 {
                    assert(f[i] == sub.filter(pred)[i]);
                    assert(f[j] == sub.filter(pred)[j]);
                } else {
                    let (lo, hi) = if i < j {
                        (i, j)
                    } else {
                        (j, i)
                    };
                    assert(f[hi] == s.last());
                    let k = choose|k: int| 0 <= k < sub.len() && sub.filter(pred)[lo] == sub[k];
                    assert(f[lo] == s[k]);
                    assert(s[k] != s[s.len() - 1]);
                }
            }
        }
    }
}

/// Appending one element to a sequence inserts it into the element set.
pub proof fn lemma_push_to_set<A>(s: Seq<A>, x: A)
    ensures
        s.push(x).to_set() =~= s.to_set().insert(x),
{
    assert forall|y: A| #[trigger] s.push(x).contains(y) implies s.to_set().insert(x).contains(
        y,
    ) by {
        let w = choose|w: int| 0 <= w < s.push(x).len() && s.push(x)[w] == y;
        if w < s.len() {
            assert(s[w] == y);
        }
    }
    assert forall|y: A| s.to_set().insert(x).contains(y) implies #[trigger] s.push(x).contains(
        y,
    ) by {
        if y == x {
            assert(s.push(x)[s.len() as int] == y);
        } else {
            let w = choose|w: int| 0 <= w < s.len() && s[w] == y;
            assert(s.push(x)[w] == y);
        }
    }
}

} // verus!
