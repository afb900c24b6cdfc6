//! The fork-join search: every candidate opens a task of its own, which
//! narrows private copies of the candidate sequence level by level; no task
//! shares anything that changes.

use crate::combinations::{combinations, compatible, completions, narrowed, Word};
use crate::global_data::SolutionBits;
use rayon::iter::{IntoParallelRefIterator, ParallelIterator};
use vstd::prelude::*;

verus! {

/// The masks of the candidates of each row.
pub open spec fn mask_rows(rows: Seq<Seq<Word>>) -> Seq<Seq<u32>> {
    rows.map_values(|s: Seq<Word>| s.map_values(|w: Word| w.1))
}

/// The solutions of `found`, each as the sequence of its masks.
pub open spec fn emitted_bits(found: Seq<SolutionBits>) -> Seq<Seq<u32>> {
    found.map_values(|a: SolutionBits| a@)
}

/// What the task of candidate `w` finds among `all`: the solutions that
/// start with `w`.
pub open spec fn task_rows(all: Seq<Word>, w: Word) -> Seq<Seq<u32>> {
    mask_rows(completions(seq![w], narrowed(all, w), narrowed(all, w).len(), 5))
}

/// The task of each candidate of `all`.
pub open spec fn task_of(all: Seq<Word>) -> spec_fn(Word) -> Seq<Seq<u32>> {
    |w: Word| task_rows(all, w)
}

/// Copies into `dest` the candidates of `src` that may follow `word`: those
/// with a higher index and a mask that shares no bit with its mask.
pub fn filter(word: &Word, src: &Vec<Word>, dest: &mut Vec<Word>)
    ensures
        final(dest)@ == narrowed(src@, *word),
{
    dest.clear();
    let ghost fits = |x: Word| compatible(*word, x);
    proof {
        reveal(Seq::filter);
        assert(src@.take(0).filter(fits) =~= Seq::empty());
    }
    for i in 0..src.len()
        invariant
            fits == |x: Word| compatible(*word, x),
            dest@ == src@.take(i as int).filter(fits),
    {
        let x = src[i];
        proof {
            src@.take(i as int).lemma_filter_push(x, fits);
            assert(src@.take(i as int).push(x) =~= src@.take(i + 1));
        }
        if x.0 > word.0 && x.1 & word.1 == 0 {
            dest.push(x);
        }
    }
    proof {
        assert(src@.take(src@.len() as int) =~= src@);
    }
}

/// Extends the partial solution of `depth` masks by every candidate of
/// `cands` in turn, and records each solution that reaches five masks.
fn extend(
    bits: &mut SolutionBits,
    depth: usize,
    cands: &Vec<Word>,
    found: &mut Vec<SolutionBits>,
    Ghost(prefix): Ghost<Seq<Word>>,
)
    requires
        depth < 5,
        prefix.len() == depth,
        forall|j: int| 0 <= j < depth ==> old(bits)@[j] == prefix[j].1,
    ensures
        forall|j: int| 0 <= j < depth ==> final(bits)@[j] == old(bits)@[j],
        emitted_bits(final(found)@) == emitted_bits(old(found)@) + mask_rows(
            completions(prefix, cands@, cands@.len(), 5),
        ),
    decreases 5 - depth,
{
    let ghost found0 = found@;
    proof {
        assert(mask_rows(completions(prefix, cands@, 0, 5)) =~= Seq::empty());
        assert(emitted_bits(found0) + Seq::empty() =~= emitted_bits(found0));
    }
    for i in 0..cands.len()
        invariant
            depth < 5,
            prefix.len() == depth,
            forall|j: int| 0 <= j < depth ==> bits@[j] == prefix[j].1,
            emitted_bits(found@) == emitted_bits(found0) + mask_rows(
                completions(prefix, cands@, i as nat, 5),
            ),
    {
        let w = cands[i];
        let ghost deeper = narrowed(cands@, w);
        let ghost before = emitted_bits(found@);
        let ghost rows = completions(prefix, cands@, i as nat, 5);
        let ghost more = completions(prefix.push(w), deeper, deeper.len(), 5);
        bits[depth] = w.1;
        proof {
            assert(completions(prefix, cands@, (i + 1) as nat, 5) == rows + more);
            assert(mask_rows(rows + more) =~= mask_rows(rows) + mask_rows(more));
        }
        if depth == 4 {
            found.push(*bits);
            proof {
                assert(more =~= seq![prefix.push(w)]);
                assert(bits@ =~= prefix.push(w).map_values(|w: Word| w.1));
                assert(emitted_bits(found@) =~= before + mask_rows(more));
            }
        } else {
            let mut filtered: Vec<Word> = Vec::with_capacity(cands.len());
            filter(&w, cands, &mut filtered);
            extend(bits, depth + 1, &filtered, found, Ghost(prefix.push(w)));
        }
    }
}

/// The task of one candidate: every solution that starts with `word_0`,
/// found by up to four more private filtering scans of `all`.
pub fn solutions_from(word_0: &Word, all: &Vec<Word>) -> (found: Vec<SolutionBits>)
    ensures
        emitted_bits(found@) == task_rows(all@, *word_0),
{
    let mut found: Vec<SolutionBits> = Vec::new();
    let mut bits: SolutionBits = [word_0.1, 0, 0, 0, 0];
    let mut filtered: Vec<Word> = Vec::with_capacity(all.len());
    filter(word_0, all, &mut filtered);
    let ghost start: Seq<Word> = seq![*word_0];
    proof {
        assert(emitted_bits(found@) =~= Seq::empty());
    }
    extend(&mut bits, 1, &filtered, &mut found, Ghost(start));
    proof {
        assert(Seq::<Seq<u32>>::empty() + task_rows(all@, *word_0) =~= task_rows(all@, *word_0));
    }
    found
}

/// rayon's `par_iter`, `flat_map` and `collect` on a vector: the closure
/// runs once for each element, on whichever worker takes it, and the vector
/// that comes back holds every item of every closure result. Nothing is
/// claimed about the order in which the results of different elements
/// stand.
#[verifier::external_body]
fn collect_tasks(all: &Vec<Word>) -> (found: Vec<SolutionBits>)
    ensures
        emitted_bits(found@).to_multiset() == all@.flat_map(task_of(all@)).to_multiset(),
{
    all.par_iter().flat_map(|word_0: &Word| solutions_from(word_0, all)).collect()
}

/// The tasks of the first `upto` candidates find, one after the other, what
/// the depth-first search over those candidates lists.
pub proof fn lemma_tasks_cover(all: Seq<Word>, upto: nat)
    requires
        upto <= all.len(),
    ensures
        all.take(upto as int).flat_map(task_of(all)) == mask_rows(
            completions(Seq::empty(), all, upto, 5),
        ),
    decreases upto,
{
    let none = Seq::<Word>::empty();
    if upto == 0 {
        assert(all.take(0).map_values(task_of(all)) =~= Seq::empty());
        assert(mask_rows(completions(none, all, 0, 5)) =~= Seq::empty());
    } else {
        let w = all[upto - 1];
        let deeper = narrowed(all, w);
        let rows = completions(none, all, (upto - 1) as nat, 5);
        let more = completions(none.push(w), deeper, deeper.len(), 5);
        lemma_tasks_cover(all, (upto - 1) as nat);
        all.lemma_flat_map_take_append(task_of(all), upto - 1);
        assert(none.push(w) =~= seq![w]);
        assert(mask_rows(rows + more) =~= mask_rows(rows) + mask_rows(more));
    }
}

/// Searches `all` with one task per candidate, run in parallel, and hands
/// out every solution, each as often as the depth-first search lists it. The
/// order of the solutions is not part of the contract.
pub fn parallel_search(all: &Vec<Word>) -> (found: Vec<SolutionBits>)
    ensures
        emitted_bits(found@).to_multiset() == mask_rows(combinations(all@, 5)).to_multiset(),
{
    proof {
        lemma_tasks_cover(all@, all@.len());
        assert(all@.take(all@.len() as int) =~= all@);
    }
    collect_tasks(all)
}

} // verus!
