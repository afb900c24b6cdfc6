//! Facts about filtered and strictly increasing sequences.

use vstd::prelude::*;
use vstd::seq_lib::{to_multiset_contains, to_multiset_len, to_multiset_remove};

verus! {

/// `s` lists indices in strictly increasing order.
pub open spec fn increasing(s: Seq<usize>) -> bool {
    forall|a: int, b: int| 0 <= a < b < s.len() ==> s[a] < s[b]
}

/// Filtering keeps exactly the elements that satisfy the predicate.
pub proof fn lemma_filter_members<A>(s: Seq<A>, pred: spec_fn(A) -> bool)
    ensures
        forall|x: A| #[trigger] s.filter(pred).contains(x) <==> s.contains(x) && pred(x),
    decreases s.len(),
{
    if s.len() == 0 {
        reveal(Seq::filter);
        assert(s.filter(pred) =~= s);
    } else {
        let init = s.drop_last();
        let last = s.last();
        lemma_filter_members(init, pred);
        init.lemma_filter_push(last, pred);
        assert(init.push(last) =~= s);
        let out = s.filter(pred);
        assert forall|x: A| #[trigger] out.contains(x) <==> s.contains(x) && pred(x) by {
            if out.contains(x) {
                let j = choose|j: int| 0 <= j < out.len() && out[j] == x;
                if pred(last) && j == out.len() - 1 {
                    assert(s[s.len() - 1] == x);
                } else {
                    assert(init.filter(pred)[j] == x);
                    assert(init.filter(pred).contains(x));
                    let k = choose|k: int| 0 <= k < init.len() && init[k] == x;
                    assert(s[k] == x);
                }
            }
            if s.contains(x) && pred(x) {
                let k = choose|k: int| 0 <= k < s.len() && s[k] == x;
                if k == s.len() - 1 {
                    assert(out[out.len() - 1] == x);
                } else {
                    assert(init[k] == x);
                    assert(init.contains(x));
                    assert(init.filter(pred).contains(x));
                    let j = choose|j: int|
                        0 <= j < init.filter(pred).len() && init.filter(pred)[j] == x;
                    assert(out[j] == x);
                }
            }
        }
    }
}

/// Filtering an increasing sequence leaves an increasing sequence.
pub proof fn lemma_filter_increasing(s: Seq<usize>, pred: spec_fn(usize) -> bool)
    requires
        increasing(s),
    ensures
        increasing(s.filter(pred)),
    decreases s.len(),
{
    if s.len() == 0 {
        reveal(Seq::filter);
        assert(s.filter(pred) =~= s);
    } else {
        let init = s.drop_last();
        let last = s.last();
        lemma_filter_increasing(init, pred);
        lemma_filter_members(init, pred);
        init.lemma_filter_push(last, pred);
        assert(init.push(last) =~= s);
        let out = s.filter(pred);
        assert forall|a: int, b: int| 0 <= a < b < out.len() implies out[a] < out[b] by {
            if pred(last) && b == out.len() - 1 {
                assert(init.filter(pred)[a] == out[a]);
                assert(init.filter(pred).contains(out[a]));
                let k = choose|k: int| 0 <= k < init.len() && init[k] == out[a];
                assert(s[k] < s[s.len() - 1]);
            } else {
                assert(init.filter(pred)[a] < init.filter(pred)[b]);
            }
        }
    }
}

/// Two increasing sequences with the same elements are equal.
pub proof fn lemma_increasing_unique(a: Seq<usize>, b: Seq<usize>)
    requires
        increasing(a),
        increasing(b),
        forall|x: usize| a.contains(x) <==> b.contains(x),
    ensures
        a == b,
    decreases a.len(),
{
    if a.len() == 0 {
        if b.len() > 0 {
            assert(b.contains(b[0]));
        }
        assert(a =~= b);
    } else {
        let x = a.last();
        assert(a.contains(x));
        let kb = choose|k: int| 0 <= k < b.len() && b[k] == x;
        let y = b.last();
        assert(b.contains(y));
        let ka = choose|k: int| 0 <= k < a.len() && a[k] == y;
        if ka < a.len() - 1 {
            assert(a[ka] < a[a.len() - 1]);
        }
        if kb < b.len() - 1 {
            assert(b[kb] < b[b.len() - 1]);
        }
        assert(x == y);
        let a0 = a.drop_last();
        let b0 = b.drop_last();
        assert forall|z: usize| a0.contains(z) <==> b0.contains(z) by {
            if a0.contains(z) {
                let k = choose|k: int| 0 <= k < a0.len() && a0[k] == z;
                assert(a[k] < a[a.len() - 1]);
                assert(a.contains(z));
                let j = choose|j: int| 0 <= j < b.len() && b[j] == z;
                assert(b0[j] == z);
            }
            if b0.contains(z) {
                let k = choose|k: int| 0 <= k < b0.len() && b0[k] == z;
                assert(b[k] < b[b.len() - 1]);
                assert(b.contains(z));
                let j = choose|j: int| 0 <= j < a.len() && a[j] == z;
                assert(a0[j] == z);
            }
        }
        lemma_increasing_unique(a0, b0);
        assert(a =~= a0.push(x));
        assert(b =~= b0.push(y));
    }
}

/// Predicates that agree on every element give the same filtered sequence.
pub proof fn lemma_filter_agree<A>(s: Seq<A>, p: spec_fn(A) -> bool, q: spec_fn(A) -> bool)
    requires
        forall|x: A| s.contains(x) ==> p(x) == q(x),
    ensures
        s.filter(p) == s.filter(q),
    decreases s.len(),
{
    if s.len() == 0 {
        reveal(Seq::filter);
    } else {
        let init = s.drop_last();
        let last = s.last();
        assert forall|x: A| init.contains(x) implies p(x) == q(x) by {
            let k = choose|k: int| 0 <= k < init.len() && init[k] == x;
            assert(s[k] == x);
            assert(s.contains(x));
        }
        lemma_filter_agree(init, p, q);
        init.lemma_filter_push(last, p);
        init.lemma_filter_push(last, q);
        assert(init.push(last) =~= s);
        assert(s[s.len() - 1] == last);
        assert(s.contains(last));
    }
}

/// Filtering after a map is mapping after the filter by the composed predicate.
pub proof fn lemma_filter_map<A, B>(s: Seq<A>, f: spec_fn(A) -> B, p: spec_fn(B) -> bool)
    ensures
        s.map_values(f).filter(p) == s.filter(|x: A| p(f(x))).map_values(f),
    decreases s.len(),
{
    let q = |x: A| p(f(x));
    if s.len() == 0 {
        reveal(Seq::filter);
        assert(s.map_values(f).filter(p) =~= s.filter(q).map_values(f));
    } else {
        let init = s.drop_last();
        let last = s.last();
        lemma_filter_map(init, f, p);
        init.lemma_filter_push(last, q);
        init.map_values(f).lemma_filter_push(f(last), p);
        assert(init.push(last) =~= s);
        assert(init.map_values(f).push(f(last)) =~= s.map_values(f));
        assert(s.map_values(f).filter(p) =~= s.filter(q).map_values(f));
    }
}

/// A predicate and its negation split a sequence into two parts that
/// together are as long as the sequence.
pub proof fn lemma_filter_split_len<A>(s: Seq<A>, p: spec_fn(A) -> bool, q: spec_fn(A) -> bool)
    requires
        forall|x: A| s.contains(x) ==> p(x) == !q(x),
    ensures
        s.filter(p).len() + s.filter(q).len() == s.len(),
    decreases s.len(),
{
    if s.len() == 0 {
        reveal(Seq::filter);
    } else {
        let init = s.drop_last();
        let last = s.last();
        assert forall|x: A| init.contains(x) implies p(x) == !q(x) by {
            let k = choose|k: int| 0 <= k < init.len() && init[k] == x;
            assert(s[k] == x);
            assert(s.contains(x));
        }
        lemma_filter_split_len(init, p, q);
        init.lemma_filter_push(last, p);
        init.lemma_filter_push(last, q);
        assert(init.push(last) =~= s);
        assert(s[s.len() - 1] == last);
        assert(s.contains(last));
    }
}

/// Sequences with the same elements, each as often, still have the same
/// elements after the same function has been applied to every element.
pub proof fn lemma_map_multiset<A, B>(a: Seq<A>, b: Seq<A>, f: spec_fn(A) -> B)
    requires
        a.to_multiset() == b.to_multiset(),
    ensures
        a.map_values(f).to_multiset() == b.map_values(f).to_multiset(),
    decreases a.len(),
{
    broadcast use vstd::multiset::group_multiset_axioms;

    to_multiset_len(a);
    to_multiset_len(b);
    if a.len() == 0 {
        assert(a.map_values(f) =~= b.map_values(f));
    } else {
        let x = a.last();
        let a0 = a.drop_last();
        assert(a[a.len() - 1] == x);
        assert(a.contains(x));
        to_multiset_contains(a, x);
        to_multiset_contains(b, x);
        let j = choose|j: int| 0 <= j < b.len() && b[j] == x;
        let b0 = b.remove(j);
        assert(a0 =~= a.remove(a.len() - 1));
        to_multiset_remove(a, a.len() - 1);
        to_multiset_remove(b, j);
        lemma_map_multiset(a0, b0, f);
        let fa = a.map_values(f);
        let fb = b.map_values(f);
        assert(fa.remove(a.len() - 1) =~= a0.map_values(f));
        assert(fb.remove(j) =~= b0.map_values(f));
        to_multiset_remove(fa, a.len() - 1);
        to_multiset_remove(fb, j);
        to_multiset_contains(fa, f(x));
        to_multiset_contains(fb, f(x));
        assert(fa[a.len() - 1] == f(x));
        assert(fb[j] == f(x));
        assert(fa.contains(f(x)));
        assert(fb.contains(f(x)));
        assert(fa.to_multiset() =~= fa.to_multiset().remove(f(x)).insert(f(x)));
        assert(fb.to_multiset() =~= fb.to_multiset().remove(f(x)).insert(f(x)));
    }
}

} // verus!
