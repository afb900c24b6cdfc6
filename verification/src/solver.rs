//! From a word list to the lines of its solutions: encode the words, search
//! the candidates in parallel, and render what was found.

use crate::combinations::{combinations, lemma_combinations_exact, Word};
use crate::global_data::{candidate_masks, words_with, GlobalData, SolutionBits};
use crate::parallel::{emitted_bits, mask_rows, parallel_search};
use crate::read_words::texts;
use crate::render::{joined, solution_line};
use crate::seq_facts::lemma_map_multiset;
use vstd::prelude::*;
use vstd::seq_lib::to_multiset_contains;

verus! {

/// The candidates over `masks`: every mask with its position as its index.
pub open spec fn indexed(masks: Seq<u32>) -> Seq<Word> {
    Seq::new(masks.len(), |i: int| (i as usize, masks[i]))
}

/// Pairs every mask with its position.
pub fn index_words(word_bits: &Vec<u32>) -> (all: Vec<Word>)
    ensures
        all@ == indexed(word_bits@),
{
    let mut all: Vec<Word> = Vec::with_capacity(word_bits.len());
    for i in 0..word_bits.len()
        invariant
            all@.len() == i,
            forall|j: int| 0 <= j < i ==> all@[j] == (j as usize, word_bits@[j]),
    {
        all.push((i, word_bits[i]));
    }
    proof {
        assert(all@ =~= indexed(word_bits@));
    }
    all
}

/// The line of the solution with the masks `row`, where every mask stands
/// for the first word that `by_bits` holds for it.
pub open spec fn line_by(by_bits: Map<u32, Vec<String>>) -> spec_fn(Seq<u32>) -> Seq<char> {
    |row: Seq<u32>| joined(row.map_values(|m: u32| by_bits[m]@[0]@), 5)
}

/// The line of the solution with the masks `row`, where every mask stands
/// for the first of `words` that has it.
pub open spec fn line_from(words: Seq<String>) -> spec_fn(Seq<u32>) -> Seq<char> {
    |row: Seq<u32>| joined(row.map_values(|m: u32| words_with(words, m)[0]@), 5)
}

/// Every mask of every solution of `found` has a word in `data`.
pub open spec fn all_known(data: &GlobalData, found: Seq<SolutionBits>) -> bool {
    forall|k: int, j: int|
        0 <= k < found.len() && 0 <= j < 5 ==> data.words_by_bits@.contains_key(
            #[trigger] found[k]@[j],
        ) && data.words_by_bits@[found[k]@[j]]@.len() > 0
}

/// One line for each solution of `found`, in order: its five words,
/// separated by spaces.
pub fn solution_lines(data: &GlobalData, found: &Vec<SolutionBits>) -> (lines: Vec<String>)
    requires
        all_known(data, found@),
    ensures
        texts(lines@) == emitted_bits(found@).map_values(line_by(data.words_by_bits@)),
{
    let mut lines: Vec<String> = Vec::new();
    for k in 0..found.len()
        invariant
            all_known(data, found@),
            lines@.len() == k,
            forall|i: int|
                0 <= i < k ==> (#[trigger] lines@[i])@ == line_by(data.words_by_bits@)(found@[i]@),
    {
        let bits = &found[k];
        proof {
            assert forall|j: int| 0 <= j < 5 implies data.words_by_bits@.contains_key(
                #[trigger] bits@[j],
            ) && data.words_by_bits@[bits@[j]]@.len() > 0 by {
                assert(data.words_by_bits@.contains_key(found@[k as int]@[j]));
            }
        }
        let solutions = data.solution_indicies_to_strs(bits);
        let line = solution_line(&solutions[0]);
        proof {
            assert(solutions@[0]@.map_values(|w: &str| w@) =~= bits@.map_values(
                |m: u32| data.words_by_bits@[m]@[0]@,
            ));
        }
        lines.push(line);
    }
    proof {
        assert(texts(lines@) =~= emitted_bits(found@).map_values(line_by(data.words_by_bits@)));
    }
    lines
}

/// The lines of all solutions among `words`: the words whose mask has five
/// letters are the candidates, one per mask; every choice of five
/// candidates with pairwise disjoint masks gives one line, which names for
/// each mask the first word that has it. The order of the lines is not part
/// of the contract.
pub fn solve(words: Vec<String>) -> (lines: Vec<String>)
    ensures
        texts(lines@).to_multiset() == mask_rows(
            combinations(indexed(candidate_masks(words@)), 5),
        ).map_values(line_from(words@)).to_multiset(),
{
    let ghost all = words@;
    let ghost masks = candidate_masks(all);
    let ghost rows = mask_rows(combinations(indexed(masks), 5));
    let data = GlobalData::new(words);
    let candidates = index_words(&data.word_bits);
    let found = parallel_search(&candidates);
    let ghost by_bits = data.words_by_bits@;
    proof {
        lemma_rows_use_masks(masks);
        assert forall|k: int| 0 <= k < found@.len() implies rows.contains(
            #[trigger] emitted_bits(found@)[k],
        ) by {
            let row = emitted_bits(found@)[k];
            assert(emitted_bits(found@).contains(row));
            to_multiset_contains(emitted_bits(found@), row);
            to_multiset_contains(rows, row);
        }
        assert forall|k: int, j: int| 0 <= k < found@.len() && 0 <= j < 5 implies by_bits.contains_key(
            #[trigger] found@[k]@[j],
        ) && by_bits[found@[k]@[j]]@.len() > 0 by {
            assert(rows.contains(emitted_bits(found@)[k]));
            assert(masks.contains(emitted_bits(found@)[k][j]));
        }
    }
    let lines = solution_lines(&data, &found);
    proof {
        lemma_map_multiset(emitted_bits(found@), rows, line_by(by_bits));
        assert forall|k: int| 0 <= k < rows.len() implies line_by(by_bits)(rows[k]) == line_from(
            all,
        )(rows[k]) by {
            let row = rows[k];
            assert(rows.contains(row));
            assert forall|j: int| 0 <= j < row.len() implies by_bits[row[j]]@ == words_with(
                all,
                row[j],
            ) by {
                assert(masks.contains(row[j]));
            }
            assert(row.map_values(|m: u32| by_bits[m]@[0]@) =~= row.map_values(
                |m: u32| words_with(all, m)[0]@,
            ));
        }
        assert(rows.map_values(line_by(by_bits)) =~= rows.map_values(line_from(all)));
    }
    lines
}

/// Every solution over the candidates of `masks` has five masks, each one
/// of `masks`.
pub proof fn lemma_rows_use_masks(masks: Seq<u32>)
    ensures
        forall|row: Seq<u32>| #[trigger]
            mask_rows(combinations(indexed(masks), 5)).contains(row) ==> row.len() == 5 && forall|
                j: int,
            |
                0 <= j < 5 ==> masks.contains(#[trigger] row[j]),
{
    let cands = indexed(masks);
    let combos = combinations(cands, 5);
    let rows = mask_rows(combos);
    assert forall|row: Seq<u32>| #[trigger] rows.contains(row) implies row.len() == 5 && forall|
        j: int,
    |
        0 <= j < 5 ==> masks.contains(#[trigger] row[j]) by {
        let k = choose|k: int| 0 <= k < rows.len() && rows[k] == row;
        let s = combos[k];
        assert(combos.contains(s));
        lemma_combinations_exact(cands, 5, s);
        assert forall|j: int| 0 <= j < 5 implies masks.contains(#[trigger] row[j]) by {
            assert(cands.contains(s[j]));
            let i = choose|i: int| 0 <= i < cands.len() && cands[i] == s[j];
            assert(masks[i] == row[j]);
        }
    }
}

} // verus!
