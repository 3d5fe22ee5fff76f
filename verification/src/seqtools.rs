//! Shared facts about filtered and ordered sequences.

use vstd::prelude::*;

verus! {

/// Strictly ascending: later entries are strictly greater.
pub open spec fn sorted_strict(s: Seq<i64>) -> bool {
    forall|i: int, j: int| 0 <= i < j < s.len() ==> s[i] < s[j]
}

/// One step of filtering a prefix: extending the prefix by one element
/// appends that element to the filtered prefix exactly when it matches.
pub proof fn lemma_filter_take_step<A>(s: Seq<A>, pred: spec_fn(A) -> bool, i: int)
    requires
        0 <= i < s.len(),
    ensures
        s.take(i + 1).filter(pred) == if pred(s[i]) {
            s.take(i).filter(pred).push(s[i])
        } else {
            s.take(i).filter(pred)
        },
{
    reveal(Seq::filter);
    assert(s.take(i + 1).drop_last() =~= s.take(i));
    assert(s.take(i + 1).last() == s[i]);
}

/// Filtering keeps a strictly ascending sequence strictly ascending.
pub proof fn lemma_filter_sorted(s: Seq<i64>, pred: spec_fn(i64) -> bool)
    requires
        sorted_strict(s),
    ensures
        sorted_strict(s.filter(pred)),
    decreases s.len(),
{
    reveal(Seq::filter);
    if s.len() > 0 {
        assert(sorted_strict(s.drop_last()));
        lemma_filter_sorted(s.drop_last(), pred);
        let sub = s.drop_last().filter(pred);
        broadcast use vstd::seq_lib::group_filter_ensures;

        if pred(s.last()) {
            assert forall|i: int, j: int|
                0 <= i < j < sub.push(s.last()).len() implies sub.push(s.last())[i] < sub.push(
                s.last(),
            )[j] by {
                if j == sub.len() {
                    assert(sub[i] == s.drop_last().filter(pred)[i]);
                    let x = sub[i];
                    lemma_filter_member_of(s.drop_last(), pred, i);
                    let w = choose|w: int|
                        0 <= w < s.drop_last().len() && s.drop_last()[w] == x;
                    assert(s[w] == x);
                    assert(s[w] < s.last());
                }
            }
        }
    }
}

/// Every entry of a filtered sequence occurs in the original.
pub proof fn lemma_filter_member_of<A>(s: Seq<A>, pred: spec_fn(A) -> bool, i: int)
    requires
        0 <= i < s.filter(pred).len(),
    ensures
        exists|w: int| 0 <= w < s.len() && s[w] == s.filter(pred)[i],
    decreases s.len(),
{
    reveal(Seq::filter);
    if s.len() > 0 {
        let sub = s.drop_last().filter(pred);
        if i < sub.len() {
            lemma_filter_member_of(s.drop_last(), pred, i);
            let w = choose|w: int| 0 <= w < s.drop_last().len() && s.drop_last()[w] == sub[i];
            assert(s[w] == s.filter(pred)[i]);
        } else {
            assert(s[s.len() - 1] == s.filter(pred)[i]);
        }
    }
}

/// Membership in a filtered sequence: exactly the matching members.
pub proof fn lemma_filter_membership<A>(s: Seq<A>, pred: spec_fn(A) -> bool, x: A)
    ensures
        s.filter(pred).contains(x) <==> s.contains(x) && pred(x),
    decreases s.len(),
{
    reveal(Seq::filter);
    broadcast use vstd::seq_lib::group_filter_ensures;

    if s.len() > 0 {
        lemma_filter_membership(s.drop_last(), pred, x);
        let sub = s.drop_last().filter(pred);
        if s.filter(pred).contains(x) {
            let i = choose|i: int| 0 <= i < s.filter(pred).len() && s.filter(pred)[i] == x;
            if pred(s.last()) && i == s.filter(pred).len() - 1 {
                assert(s.contains(x)) by {
                    assert(s[s.len() - 1] == x);
                }
            } else {
                assert(sub[i] == x);
                assert(sub.contains(x));
                let w = choose|w: int| 0 <= w < s.drop_last().len() && s.drop_last()[w] == x;
                assert(s[w] == x);
            }
        }
        if s.contains(x) && pred(x) {
            let i = choose|i: int| 0 <= i < s.len() && s[i] == x;
            if i == s.len() - 1 {
                if pred(s.last()) {
                    assert(s.filter(pred).last() == x);
                }
            } else {
                assert(s.drop_last()[i] == x);
                assert(s.drop_last().contains(x));
                assert(sub.contains(x));
                let j = choose|j: int| 0 <= j < sub.len() && sub[j] == x;
                assert(s.filter(pred)[j] == x);
            }
        }
    }
}

} // verus!
