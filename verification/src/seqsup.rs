//! Small reusable facts about sequence filtering.

use vstd::prelude::*;

verus! {

/// Filtering commutes with appending one element.
pub proof fn lemma_filter_push<A>(s: Seq<A>, x: A, pred: spec_fn(A) -> bool)
    ensures
        s.push(x).filter(pred) == if pred(x) {
            s.filter(pred).push(x)
        } else {
            s.filter(pred)
        },
{
    reveal_with_fuel(Seq::filter, 2);
    assert(s.push(x).drop_last() =~= s);
    if pred(x) {
        assert(s.push(x).filter(pred) =~= s.filter(pred).push(x));
    } else {
        assert(s.push(x).filter(pred) =~= s.filter(pred));
    }
}

/// Two predicates that agree on every element of `s` filter `s` alike.
pub proof fn lemma_filter_congruence<A>(s: Seq<A>, p: spec_fn(A) -> bool, q: spec_fn(A) -> bool)
    requires
        forall|j: int| 0 <= j < s.len() ==> p(s[j]) == q(s[j]),
    ensures
        s.filter(p) == s.filter(q),
    decreases s.len(),
{
    reveal_with_fuel(Seq::filter, 2);
    if s.len() > 0 {
        lemma_filter_congruence(s.drop_last(), p, q);
    }
    assert(s.filter(p) =~= s.filter(q));
}

/// Filtering twice is filtering by the conjunction.
pub proof fn lemma_filter_filter<A>(s: Seq<A>, p: spec_fn(A) -> bool, q: spec_fn(A) -> bool)
    ensures
        s.filter(p).filter(q) == s.filter(|x: A| p(x) && q(x)),
    decreases s.len(),
{
    reveal_with_fuel(Seq::filter, 2);
    if s.len() == 0 {
        assert(s.filter(p).filter(q) =~= s.filter(|x: A| p(x) && q(x)));
    } else {
        let init = s.drop_last();
        lemma_filter_filter(init, p, q);
        assert(s.filter(p) == if p(s.last()) {
            init.filter(p).push(s.last())
        } else {
            init.filter(p)
        });
        if p(s.last()) {
            lemma_filter_push(init.filter(p), s.last(), q);
        }
        assert(s.filter(p).filter(q) =~= s.filter(|x: A| p(x) && q(x)));
    }
}

/// Two positions of a filtered sequence come from two source positions in
/// the same order.
pub proof fn lemma_filter_index_order<A>(s: Seq<A>, pred: spec_fn(A) -> bool, i: int, j: int)
    requires
        0 <= i < j < s.filter(pred).len(),
    ensures
        exists|a: int|
            0 <= a < s.len() && s[a] == s.filter(pred)[i] && exists|b: int|
                a < b < s.len() && s[b] == s.filter(pred)[j],
    decreases s.len(),
{
    reveal_with_fuel(Seq::filter, 2);
    let init = s.drop_last();
    let f = s.filter(pred);
    if j < init.filter(pred).len() {
        lemma_filter_index_order(init, pred, i, j);
        let a = choose|a: int|
            0 <= a < init.len() && init[a] == init.filter(pred)[i] && exists|b: int|
                a < b < init.len() && init[b] == init.filter(pred)[j];
        let b = choose|b: int| a < b < init.len() && init[b] == init.filter(pred)[j];
        assert(s[a] == f[i] && s[b] == f[j]);
    } else {
        assert(f[j] == s.last());
        lemma_filter_members(init, pred);
        assert(f[i] == init.filter(pred)[i]);
        let a = choose|a: int| 0 <= a < init.len() && init[a] == init.filter(pred)[i];
        assert(s[a] == f[i]);
        assert(s[s.len() - 1] == f[j]);
    }
}

/// Every element of a filtered sequence occurs in the source sequence.
pub proof fn lemma_filter_members<A>(s: Seq<A>, pred: spec_fn(A) -> bool)
    ensures
        forall|k: int|
            0 <= k < s.filter(pred).len() ==> s.contains(#[trigger] s.filter(pred)[k]) && pred(
                s.filter(pred)[k],
            ),
    decreases s.len(),
{
    reveal_with_fuel(Seq::filter, 2);
    if s.len() > 0 {
        let init = s.drop_last();
        lemma_filter_members(init, pred);
        let f = s.filter(pred);
        assert forall|k: int| 0 <= k < f.len() implies s.contains(f[k]) && pred(f[k]) by {
            if k < init.filter(pred).len() {
                assert(f[k] == init.filter(pred)[k]);
                let j = choose|j: int| 0 <= j < init.len() && init[j] == f[k];
                assert(s[j] == f[k]);
            } else {
                assert(f[k] == s.last());
                assert(s[s.len() - 1] == f[k]);
            }
        }
    }
}

} // verus!
