//! What the search engines enumerate: the ways to extend a partial solution
//! by candidates that are pairwise compatible, each way listed once.

use crate::seq_facts::lemma_filter_members;
use vstd::prelude::*;
use vstd::seq_lib::lemma_no_dup_in_concat;

verus! {

/// A candidate as the engines see it: its stable index and its mask.
pub type Word = (usize, u32);

/// Candidate `x` may follow candidate `w` in a solution: its index is
/// higher and its mask shares no bit with the mask of `w`.
pub open spec fn compatible(w: Word, x: Word) -> bool {
    x.0 > w.0 && x.1 & w.1 == 0
}

/// The candidates of `cands` that may follow `w`, in the order of `cands`.
pub open spec fn narrowed(cands: Seq<Word>, w: Word) -> Seq<Word> {
    cands.filter(|x: Word| compatible(w, x))
}

/// Every solution of `size` candidates that starts with `prefix`, takes its
/// next candidate among the first `upto` of `cands`, and every later one
/// among the candidates compatible with all that it chose before; in
/// depth-first order.
pub open spec fn completions(prefix: Seq<Word>, cands: Seq<Word>, upto: nat, size: nat) -> Seq<
    Seq<Word>,
>
    decreases size - prefix.len(), upto,
{
    if prefix.len() >= size {
        seq![prefix]
    } else if upto == 0 || upto > cands.len() {
        Seq::empty()
    } else {
        let w = cands[upto - 1];
        let deeper = narrowed(cands, w);
        completions(prefix, cands, (upto - 1) as nat, size) + completions(
            prefix.push(w),
            deeper,
            deeper.len(),
            size,
        )
    }
}

/// Every choice of `size` pairwise compatible candidates of `cands`, each
/// written in increasing index order.
pub open spec fn combinations(cands: Seq<Word>, size: nat) -> Seq<Seq<Word>> {
    completions(Seq::empty(), cands, cands.len(), size)
}

/// From position `from` on, every candidate of `s` is compatible with all
/// that come after it.
pub open spec fn chain_from(s: Seq<Word>, from: int) -> bool {
    forall|a: int, b: int| from <= a < b < s.len() ==> compatible(s[a], s[b])
}

/// From position `from` on, every candidate of `s` is one of `cands`.
pub open spec fn drawn_from(s: Seq<Word>, from: int, cands: Seq<Word>) -> bool {
    forall|j: int| from <= j < s.len() ==> cands.contains(#[trigger] s[j])
}

/// `s` starts with `prefix`.
pub open spec fn starts_with(s: Seq<Word>, prefix: Seq<Word>) -> bool {
    prefix.len() <= s.len() && forall|j: int| 0 <= j < prefix.len() ==> s[j] == prefix[j]
}

/// `s` is `size` long, starts with `prefix`, and goes on with pairwise
/// compatible candidates of `cands`, the first of them among the first
/// `upto`.
pub open spec fn completes(
    s: Seq<Word>,
    prefix: Seq<Word>,
    cands: Seq<Word>,
    upto: nat,
    size: nat,
) -> bool {
    &&& s.len() == size
    &&& starts_with(s, prefix)
    &&& drawn_from(s, prefix.len() as int, cands)
    &&& chain_from(s, prefix.len() as int)
    &&& prefix.len() < size ==> cands.take(upto as int).contains(s[prefix.len() as int])
}

/// Whatever `completions` lists completes the prefix.
pub proof fn lemma_completions_sound(
    prefix: Seq<Word>,
    cands: Seq<Word>,
    upto: nat,
    size: nat,
    s: Seq<Word>,
)
    requires
        prefix.len() <= size,
        upto <= cands.len(),
        completions(prefix, cands, upto, size).contains(s),
    ensures
        completes(s, prefix, cands, upto, size),
    decreases size - prefix.len(), upto,
{
    if prefix.len() >= size {
        assert(completions(prefix, cands, upto, size)[0] == prefix);
    } else if upto == 0 {
    } else {
        let w = cands[upto - 1];
        let deeper = narrowed(cands, w);
        let first = completions(prefix, cands, (upto - 1) as nat, size);
        let second = completions(prefix.push(w), deeper, deeper.len(), size);
        let plen = prefix.len() as int;
        if first.contains(s) {
            lemma_completions_sound(prefix, cands, (upto - 1) as nat, size, s);
            let fewer = cands.take(upto - 1);
            let k = choose|k: int| 0 <= k < fewer.len() && fewer[k] == s[plen];
            assert(cands.take(upto as int)[k] == s[plen]);
        } else {
            let j = choose|j: int| 0 <= j < (first + second).len() && (first + second)[j] == s;
            assert(second[j - first.len()] == s);
            assert(second.contains(s));
            lemma_completions_sound(prefix.push(w), deeper, deeper.len(), size, s);
            lemma_filter_members(cands, |x: Word| compatible(w, x));
            assert(s[plen] == prefix.push(w)[plen]);
            assert(cands.take(upto as int)[upto - 1] == w);
            assert forall|j: int| plen <= j < s.len() implies cands.contains(#[trigger] s[j]) by {
                if j > plen {
                    assert(deeper.contains(s[j]));
                }
            }
            assert forall|a: int, b: int| plen <= a < b < s.len() implies compatible(
                s[a],
                s[b],
            ) by {
                if a == plen {
                    assert(deeper.contains(s[b]));
                }
            }
            assert forall|j: int| 0 <= j < prefix.len() implies s[j] == prefix[j] by {
                assert(s[j] == prefix.push(w)[j]);
            }
        }
    }
}

/// Whatever completes the prefix is listed by `completions`.
pub proof fn lemma_completions_complete(
    prefix: Seq<Word>,
    cands: Seq<Word>,
    upto: nat,
    size: nat,
    s: Seq<Word>,
)
    requires
        prefix.len() <= size,
        upto <= cands.len(),
        completes(s, prefix, cands, upto, size),
    ensures
        completions(prefix, cands, upto, size).contains(s),
    decreases size - prefix.len(), upto,
{
    if prefix.len() >= size {
        assert(s =~= prefix);
        assert(completions(prefix, cands, upto, size)[0] == s);
    } else {
        let plen = prefix.len() as int;
        let some = cands.take(upto as int);
        let k = choose|k: int| 0 <= k < some.len() && some[k] == s[plen];
        let w = cands[upto - 1];
        let deeper = narrowed(cands, w);
        let first = completions(prefix, cands, (upto - 1) as nat, size);
        let second = completions(prefix.push(w), deeper, deeper.len(), size);
        if k < upto - 1 {
            assert(cands.take(upto - 1)[k] == s[plen]);
            lemma_completions_complete(prefix, cands, (upto - 1) as nat, size, s);
            let j = choose|j: int| 0 <= j < first.len() && first[j] == s;
            assert((first + second)[j] == s);
        } else {
            assert(s[plen] == w);
            lemma_filter_members(cands, |x: Word| compatible(w, x));
            assert forall|j: int| plen + 1 <= j < s.len() implies deeper.contains(
                #[trigger] s[j],
            ) by {
                assert(cands.contains(s[j]));
                assert(compatible(s[plen], s[j]));
            }
            assert(deeper.take(deeper.len() as int) =~= deeper);
            lemma_completions_complete(prefix.push(w), deeper, deeper.len(), size, s);
            let j = choose|j: int| 0 <= j < second.len() && second[j] == s;
            assert((first + second)[first.len() + j] == s);
        }
    }
}

/// Filtering a sequence without duplicates leaves no duplicates.
pub proof fn lemma_filter_no_duplicates<A>(s: Seq<A>, pred: spec_fn(A) -> bool)
    requires
        s.no_duplicates(),
    ensures
        s.filter(pred).no_duplicates(),
    decreases s.len(),
{
    if s.len() == 0 {
        reveal(Seq::filter);
        assert(s.filter(pred) =~= s);
    } else {
        let init = s.drop_last();
        let last = s.last();
        lemma_filter_no_duplicates(init, pred);
        lemma_filter_members(init, pred);
        init.lemma_filter_push(last, pred);
        assert(init.push(last) =~= s);
        let out = s.filter(pred);
        assert forall|a: int, b: int| 0 <= a < out.len() && 0 <= b < out.len() && a != b implies out[a]
            != out[b] by {
            if pred(last) && (a == out.len() - 1 || b == out.len() - 1) {
                let other = if a == out.len() - 1 {
                    b
                } else {
                    a
                };
                assert(init.filter(pred)[other] == out[other]);
                assert(init.filter(pred).contains(out[other]));
                let k = choose|k: int| 0 <= k < init.len() && init[k] == out[other];
                assert(s[k] != s[s.len() - 1]);
            } else {
                assert(init.filter(pred)[a] != init.filter(pred)[b]);
            }
        }
    }
}

/// `completions` lists nothing twice.
pub proof fn lemma_completions_distinct(
    prefix: Seq<Word>,
    cands: Seq<Word>,
    upto: nat,
    size: nat,
)
    requires
        prefix.len() <= size,
        upto <= cands.len(),
        cands.no_duplicates(),
    ensures
        completions(prefix, cands, upto, size).no_duplicates(),
    decreases size - prefix.len(), upto,
{
    if prefix.len() >= size {
    } else if upto == 0 {
    } else {
        let w = cands[upto - 1];
        let deeper = narrowed(cands, w);
        let first = completions(prefix, cands, (upto - 1) as nat, size);
        let second = completions(prefix.push(w), deeper, deeper.len(), size);
        let plen = prefix.len() as int;
        lemma_completions_distinct(prefix, cands, (upto - 1) as nat, size);
        lemma_filter_no_duplicates(cands, |x: Word| compatible(w, x));
        lemma_completions_distinct(prefix.push(w), deeper, deeper.len(), size);
        assert forall|i: int, j: int| 0 <= i < first.len() && 0 <= j < second.len() implies first[i]
            != second[j] by {
            assert(first.contains(first[i]));
            assert(second.contains(second[j]));
            lemma_completions_sound(prefix, cands, (upto - 1) as nat, size, first[i]);
            lemma_completions_sound(prefix.push(w), deeper, deeper.len(), size, second[j]);
            let fewer = cands.take(upto - 1);
            let k = choose|k: int| 0 <= k < fewer.len() && fewer[k] == first[i][plen];
            assert(cands[k] != cands[upto - 1]);
            assert(second[j][plen] == prefix.push(w)[plen]);
        }
        lemma_no_dup_in_concat(first, second);
    }
}

/// `s` chooses `size` candidates of `cands` in increasing index order, with
/// masks that are pairwise disjoint.
pub open spec fn is_combination(s: Seq<Word>, cands: Seq<Word>, size: nat) -> bool {
    &&& s.len() == size
    &&& forall|j: int| 0 <= j < s.len() ==> cands.contains(#[trigger] s[j])
    &&& forall|a: int, b: int| 0 <= a < b < s.len() ==> s[a].0 < s[b].0
    &&& forall|a: int, b: int| 0 <= a < s.len() && 0 <= b < s.len() && a != b ==> s[a].1 & s[b].1 == 0
}

/// The search lists exactly the combinations: every solution it lists
/// chooses candidates in increasing index order with pairwise disjoint
/// masks, so none holds an index twice, and every such choice is listed.
pub proof fn lemma_combinations_exact(cands: Seq<Word>, size: nat, s: Seq<Word>)
    ensures
        combinations(cands, size).contains(s) <==> is_combination(s, cands, size),
{
    let none = Seq::<Word>::empty();
    assert(cands.take(cands.len() as int) =~= cands);
    if combinations(cands, size).contains(s) {
        lemma_completions_sound(none, cands, cands.len(), size, s);
        assert forall|a: int, b: int|
            0 <= a < s.len() && 0 <= b < s.len() && a != b implies s[a].1 & s[b].1 == 0 by {
            let x = s[a].1;
            let y = s[b].1;
            if a < b {
                assert(compatible(s[a], s[b]));
            } else {
                assert(compatible(s[b], s[a]));
            }
            assert(x & y == y & x) by (bit_vector);
        }
        assert forall|a: int, b: int| 0 <= a < b < s.len() implies s[a].0 < s[b].0 by {
            assert(compatible(s[a], s[b]));
        }
    }
    if is_combination(s, cands, size) {
        assert forall|a: int, b: int| 0 <= a < b < s.len() implies compatible(s[a], s[b]) by {
            let x = s[a].1;
            let y = s[b].1;
            assert(x & y == 0);
            assert(x & y == y & x) by (bit_vector);
        }
        if size > 0 {
            assert(cands.contains(s[0]));
        }
        lemma_completions_complete(none, cands, cands.len(), size, s);
    }
}

/// Over candidates that are all different, the search lists no combination
/// twice: each unordered choice appears once, in increasing index order,
/// and never as another permutation.
pub proof fn lemma_combinations_once(cands: Seq<Word>, size: nat)
    requires
        cands.no_duplicates(),
    ensures
        combinations(cands, size).no_duplicates(),
{
    lemma_completions_distinct(Seq::empty(), cands, cands.len(), size);
}

} // verus!
