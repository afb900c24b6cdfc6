//! The backtracking search: depth-first over the present elements of one
//! filterable list, which each level narrows by a filter and restores by an
//! undo.

use crate::combinations::{
    combinations, compatible, completions, is_combination, lemma_combinations_exact,
    lemma_combinations_once, narrowed, Word,
};
use crate::filterable_linked_list::{above_and_disjoint, FilterableLinkedList};
use crate::list_model::{lemma_present_after_filter, lemma_present_facts, ListModel};
use crate::seq_facts::{lemma_filter_agree, lemma_filter_map};
use vstd::prelude::*;

verus! {

/// The number of candidates in a solution.
pub const SOLUTION_SIZE: usize = 5;

/// A completed solution: the indices of its candidates, in increasing order.
pub type SolutionIndices = [usize; 5];

/// The candidate that stands at index `i` of `items`.
pub open spec fn pair_up(items: Seq<u32>) -> spec_fn(usize) -> Word {
    |i: usize| (i, items[i as int])
}

/// The candidates that a list presents, in construction order.
pub open spec fn candidates(m: ListModel) -> Seq<Word> {
    m.present().map_values(pair_up(m.items))
}

/// The candidates that the first `depth` slots of `frame` hold.
pub open spec fn chosen(frame: Seq<usize>, items: Seq<u32>, depth: nat) -> Seq<Word> {
    Seq::new(depth, |j: int| (frame[j], items[frame[j] as int]))
}

/// The indices of the candidates of each row.
pub open spec fn index_rows(rows: Seq<Seq<Word>>) -> Seq<Seq<usize>> {
    rows.map_values(|s: Seq<Word>| s.map_values(|w: Word| w.0))
}

/// The solutions of `found`, each as the sequence of its indices.
pub open spec fn emitted(found: Seq<SolutionIndices>) -> Seq<Seq<usize>> {
    found.map_values(|a: SolutionIndices| a@)
}

/// The state of one search: the list, the partial solution under
/// construction, and the solutions found so far.
pub struct SearchEngine {
    list: FilterableLinkedList,
    frame: SolutionIndices,
    found: Vec<SolutionIndices>,
}

impl SearchEngine {
    /// The list that the search works on.
    pub closed spec fn list(&self) -> FilterableLinkedList {
        self.list
    }

    /// The solutions found so far, in the order of discovery.
    pub closed spec fn found(&self) -> Seq<SolutionIndices> {
        self.found@
    }

    /// The first `depth` slots of the partial solution.
    pub closed spec fn partial(&self, depth: nat) -> Seq<Word> {
        chosen(self.frame@, self.list@.items, depth)
    }

    /// A search over `items` that has found nothing yet.
    pub fn new(items: Vec<u32>) -> (engine: SearchEngine)
        ensures
            engine.list().wf(),
            engine.list()@ == ListModel::fresh(items@),
            engine.found() == Seq::<SolutionIndices>::empty(),
    {
        SearchEngine {
            list: FilterableLinkedList::new(items),
            frame: [0, 0, 0, 0, 0],
            found: Vec::new(),
        }
    }

    /// Extends the partial solution of `depth` candidates by every present
    /// element in turn; a solution that reaches five candidates is recorded,
    /// a shorter one is extended further over the elements that may follow
    /// its newest candidate. The list is left as it was found.
    fn explore(&mut self, depth: usize)
        requires
            old(self).list().wf(),
            depth < SOLUTION_SIZE,
        ensures
            final(self).list().wf(),
            final(self).list()@ == old(self).list()@,
            final(self).partial(depth as nat) == old(self).partial(depth as nat),
            emitted(final(self).found()) == emitted(old(self).found()) + index_rows(
                completions(
                    old(self).partial(depth as nat),
                    candidates(old(self).list()@),
                    candidates(old(self).list()@).len(),
                    SOLUTION_SIZE as nat,
                ),
            ),
        decreases SOLUTION_SIZE - depth,
    {
        let ghost model = self.list@;
        let ghost cands = candidates(model);
        let ghost prefix = self.partial(depth as nat);
        let ghost found0 = self.found@;
        let ghost mut k: int = 0;
        let mut cursor = self.list.first_index();
        proof {
            self.list.lemma_size_bound();
            lemma_present_facts(model);
            assert(index_rows(completions(prefix, cands, 0, SOLUTION_SIZE as nat))
                =~= Seq::empty());
            assert(emitted(found0) + Seq::empty() =~= emitted(found0));
        }
        while cursor.is_some()
            invariant
                self.list.wf(),
                self.list@ == model,
                model.items.len() <= usize::MAX,
                cands == candidates(model),
                depth < SOLUTION_SIZE,
                prefix.len() == depth,
                self.partial(depth as nat) == prefix,
                0 <= k <= cands.len(),
                cursor == model.nth(k),
                emitted(self.found@) == emitted(found0) + index_rows(
                    completions(prefix, cands, k as nat, SOLUTION_SIZE as nat),
                ),
            decreases cands.len() - k,
        {
            let index = cursor.unwrap();
            proof {
                lemma_present_facts(model);
                assert(model.present().contains(index));
            }
            let mask = self.list.get_at_unfiltered_index(index);
            let ghost w: Word = (index, mask);
            let ghost deeper = narrowed(cands, w);
            let ghost before = emitted(self.found@);
            let ghost rows = completions(prefix, cands, k as nat, SOLUTION_SIZE as nat);
            let ghost more = completions(
                prefix.push(w),
                deeper,
                deeper.len(),
                SOLUTION_SIZE as nat,
            );
            self.frame[depth] = index;
            cursor = self.list.next_index(index);
            proof {
                assert(cands[k] == w);
                assert(self.partial((depth + 1) as nat) =~= prefix.push(w));
                assert(self.partial(depth as nat) =~= prefix);
                assert(completions(prefix, cands, (k + 1) as nat, SOLUTION_SIZE as nat) == rows
                    + more);
                assert(index_rows(rows + more) =~= index_rows(rows) + index_rows(more));
            }
            if depth == SOLUTION_SIZE - 1 {
                self.found.push(self.frame);
                proof {
                    assert(more =~= seq![prefix.push(w)]);
                    assert(self.frame@ =~= prefix.push(w).map_values(|w: Word| w.0));
                    assert(emitted(self.found@) =~= before + index_rows(more));
                }
            } else {
                proof {
                    lemma_narrowed_candidates(model, index, mask);
                }
                self.list.filter_bkp(index, mask);
                self.explore(depth + 1);
                proof {
                    let longer = self.partial((depth + 1) as nat);
                    assert(longer == prefix.push(w));
                    assert forall|j: int| 0 <= j < depth implies self.partial(depth as nat)[j]
                        == prefix[j] by {
                        assert(longer[j] == prefix.push(w)[j]);
                    }
                    assert(self.partial(depth as nat) =~= prefix);
                }
                self.list.undo_last_filter();
                proof {
                    lemma_present_after_filter(model, above_and_disjoint(index, mask));
                    assert(self.partial(depth as nat) =~= prefix);
                }
            }
            proof {
                k = k + 1;
            }
        }
        proof {
            assert(k == cands.len());
        }
    }

    /// Runs the search to the end and hands out every solution, in the
    /// order of discovery.
    pub fn run(self) -> (solutions: Vec<SolutionIndices>)
        requires
            self.list().wf(),
        ensures
            emitted(solutions@) == emitted(self.found()) + solutions_of(self.list()@),
    {
        let mut engine = self;
        proof {
            assert(engine.partial(0) =~= Seq::empty());
        }
        engine.explore(0);
        engine.found
    }
}

/// After a backtracking filter at candidate `(index, mask)`, the list
/// presents the candidates that may follow it.
pub proof fn lemma_narrowed_candidates(m: ListModel, index: usize, mask: u32)
    requires
        m.items.len() <= usize::MAX,
    ensures
        candidates(m.filtered(above_and_disjoint(index, mask))) == narrowed(
            candidates(m),
            (index, mask),
        ),
{
    let keep = above_and_disjoint(index, mask);
    let w: Word = (index, mask);
    let f = pair_up(m.items);
    let p = |x: Word| compatible(w, x);
    let q = |i: usize| p(f(i));
    let r = |i: usize| keep(m.items[i as int], i);
    lemma_present_after_filter(m, keep);
    lemma_filter_map(m.present(), f, p);
    lemma_filter_agree(m.present(), q, r);
}

/// `row` names five present elements of `m` in increasing index order,
/// with masks that are pairwise disjoint.
pub open spec fn is_solution(m: ListModel, row: Seq<usize>) -> bool {
    &&& row.len() == SOLUTION_SIZE
    &&& forall|j: int| 0 <= j < row.len() ==> m.is_present(#[trigger] row[j])
    &&& forall|a: int, b: int| 0 <= a < b < row.len() ==> row[a] < row[b]
    &&& forall|a: int, b: int|
        0 <= a < row.len() && 0 <= b < row.len() && a != b ==> m.items[row[a] as int]
            & m.items[row[b] as int] == 0
}

/// What a search over the list state `m` hands out, row by row.
pub open spec fn solutions_of(m: ListModel) -> Seq<Seq<usize>> {
    index_rows(combinations(candidates(m), SOLUTION_SIZE as nat))
}

/// The candidates of a list are exactly its present elements, each with its
/// mask, and none of them twice.
pub proof fn lemma_candidates_facts(m: ListModel)
    requires
        m.items.len() <= usize::MAX,
    ensures
        candidates(m).no_duplicates(),
        forall|w: Word|
            candidates(m).contains(w) <==> m.is_present(w.0) && w.1 == m.items[w.0 as int],
{
    let cands = candidates(m);
    lemma_present_facts(m);
    assert forall|a: int, b: int| 0 <= a < cands.len() && 0 <= b < cands.len() && a != b implies cands[a]
        != cands[b] by {
        if a < b {
            assert(m.present()[a] < m.present()[b]);
        } else {
            assert(m.present()[b] < m.present()[a]);
        }
    }
    assert forall|w: Word| cands.contains(w) <==> m.is_present(w.0) && w.1 == m.items[w.0 as int] by {
        if cands.contains(w) {
            let k = choose|k: int| 0 <= k < cands.len() && cands[k] == w;
            assert(m.present().contains(m.present()[k]));
        }
        if m.is_present(w.0) && w.1 == m.items[w.0 as int] {
            assert(m.present().contains(w.0));
            let k = choose|k: int| 0 <= k < m.present().len() && m.present()[k] == w.0;
            assert(cands[k] == w);
        }
    }
}

/// The search hands out exactly the solutions: every row it emits names
/// five present elements in increasing index order, so none twice, with
/// pairwise disjoint masks; and every such row is emitted.
pub proof fn lemma_solutions_exact(m: ListModel, row: Seq<usize>)
    requires
        m.items.len() <= usize::MAX,
    ensures
        solutions_of(m).contains(row) <==> is_solution(m, row),
{
    let cands = candidates(m);
    let combos = combinations(cands, SOLUTION_SIZE as nat);
    lemma_candidates_facts(m);
    if solutions_of(m).contains(row) {
        let k = choose|k: int| 0 <= k < solutions_of(m).len() && solutions_of(m)[k] == row;
        let s = combos[k];
        assert(combos.contains(s));
        lemma_combinations_exact(cands, SOLUTION_SIZE as nat, s);
        assert forall|j: int| 0 <= j < row.len() implies m.is_present(#[trigger] row[j]) by {
            assert(cands.contains(s[j]));
        }
        assert forall|a: int, b: int|
            0 <= a < row.len() && 0 <= b < row.len() && a != b implies m.items[row[a] as int]
            & m.items[row[b] as int] == 0 by {
            assert(cands.contains(s[a]));
            assert(cands.contains(s[b]));
            assert(s[a].1 & s[b].1 == 0);
        }
        assert forall|a: int, b: int| 0 <= a < b < row.len() implies row[a] < row[b] by {
            assert(s[a].0 < s[b].0);
        }
    }
    if is_solution(m, row) {
        let s = row.map_values(pair_up(m.items));
        assert forall|j: int| 0 <= j < s.len() implies cands.contains(#[trigger] s[j]) by {
            assert(m.is_present(row[j]));
        }
        assert(is_combination(s, cands, SOLUTION_SIZE as nat));
        lemma_combinations_exact(cands, SOLUTION_SIZE as nat, s);
        let k = choose|k: int| 0 <= k < combos.len() && combos[k] == s;
        assert(solutions_of(m)[k] =~= row);
    }
}

/// The search hands out no solution twice: each unordered choice of five
/// elements appears once, in increasing index order, and never again as
/// another permutation.
pub proof fn lemma_solutions_once(m: ListModel)
    requires
        m.items.len() <= usize::MAX,
    ensures
        solutions_of(m).no_duplicates(),
{
    let cands = candidates(m);
    let combos = combinations(cands, SOLUTION_SIZE as nat);
    lemma_candidates_facts(m);
    lemma_combinations_once(cands, SOLUTION_SIZE as nat);
    assert forall|a: int, b: int|
        0 <= a < solutions_of(m).len() && 0 <= b < solutions_of(m).len() && a != b implies solutions_of(
        m,
    )[a] != solutions_of(m)[b] by {
        let s = combos[a];
        let t = combos[b];
        assert(combos.contains(s));
        assert(combos.contains(t));
        lemma_combinations_exact(cands, SOLUTION_SIZE as nat, s);
        lemma_combinations_exact(cands, SOLUTION_SIZE as nat, t);
        if solutions_of(m)[a] == solutions_of(m)[b] {
            assert forall|j: int| 0 <= j < s.len() implies s[j] == t[j] by {
                assert(solutions_of(m)[a][j] == solutions_of(m)[b][j]);
                assert(cands.contains(s[j]));
                assert(cands.contains(t[j]));
            }
            assert(s =~= t);
        }
    }
}

} // verus!
