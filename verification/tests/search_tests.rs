use five_words::combinations::Word;
use five_words::filterable_linked_list::FilterableLinkedList;
use five_words::parallel::{filter, parallel_search, solutions_from};
use five_words::search::SearchEngine;

fn brute_force(masks: &[u32]) -> Vec<[usize; 5]> {
    let n = masks.len();
    let mut out = Vec::new();
    for a in 0..n {
        for b in a + 1..n {
            for c in b + 1..n {
                for d in c + 1..n {
                    for e in d + 1..n {
                        let picked = [a, b, c, d, e];
                        let mut disjoint = true;
                        for i in 0..5 {
                            for j in i + 1..5 {
                                if masks[picked[i]] & masks[picked[j]] != 0 {
                                    disjoint = false;
                                }
                            }
                        }
                        if disjoint {
                            out.push(picked);
                        }
                    }
                }
            }
        }
    }
    out
}

fn synthetic() -> Vec<u32> {
    vec![0b000001, 0b000010, 0b000100, 0b001000, 0b010000, 0b100000, 0b000011, 0b110000]
}

fn indexed(masks: &[u32]) -> Vec<Word> {
    masks.iter().copied().enumerate().collect()
}

#[test]
fn engine_finds_the_one_solution_of_five_single_bits() {
    let found = SearchEngine::new(vec![1, 2, 4, 8, 16]).run();
    assert_eq!(found, vec![[0, 1, 2, 3, 4]]);
}

#[test]
fn engine_finds_nothing_among_too_few_candidates() {
    assert_eq!(SearchEngine::new(vec![1, 2, 4, 8]).run(), Vec::<[usize; 5]>::new());
    assert_eq!(SearchEngine::new(vec![]).run(), Vec::<[usize; 5]>::new());
}

#[test]
fn engine_finds_nothing_when_masks_overlap() {
    assert_eq!(SearchEngine::new(vec![1, 3, 4, 8, 16]).run(), Vec::<[usize; 5]>::new());
}

#[test]
fn engine_emits_each_combination_once_in_depth_first_order() {
    let masks = synthetic();
    let found = SearchEngine::new(masks.clone()).run();
    assert_eq!(found, brute_force(&masks));
    assert_eq!(found.len(), 8);
    let mut sorted = found.clone();
    sorted.sort();
    sorted.dedup();
    assert_eq!(sorted.len(), found.len());
}

#[test]
fn engine_solutions_are_disjoint_and_increasing() {
    let masks = synthetic();
    for solution in SearchEngine::new(masks.clone()).run() {
        for i in 0..5 {
            for j in i + 1..5 {
                assert!(solution[i] < solution[j]);
                assert_eq!(masks[solution[i]] & masks[solution[j]], 0);
            }
        }
    }
}

#[test]
fn engine_takes_six_single_bits_five_at_a_time() {
    let found = SearchEngine::new(vec![1, 2, 4, 8, 16, 32]).run();
    assert_eq!(
        found,
        vec![
            [0, 1, 2, 3, 4],
            [0, 1, 2, 3, 5],
            [0, 1, 2, 4, 5],
            [0, 1, 3, 4, 5],
            [0, 2, 3, 4, 5],
            [1, 2, 3, 4, 5],
        ]
    );
}

#[test]
fn engine_steps_are_filter_and_undo_on_one_list() {
    let masks = synthetic();
    let mut list = FilterableLinkedList::new(masks.clone());
    list.filter_bkp(0, masks[0]);
    assert_eq!(list.len(), 6);
    assert_eq!(list.first_index(), Some(1));
    list.filter_bkp(1, masks[1]);
    assert_eq!(list.len(), 5);
    assert_eq!(list.first_index(), Some(2));
    list.undo_last_filter();
    list.undo_last_filter();
    assert_eq!(list.len(), 8);
    assert_eq!(list.first_index(), Some(0));
}

#[test]
fn engine_skips_candidates_that_share_a_mask_bit() {
    let found = SearchEngine::new(vec![1, 1, 2, 4, 8, 16]).run();
    assert_eq!(found, vec![[0, 2, 3, 4, 5], [1, 2, 3, 4, 5]]);
}

#[test]
fn parallel_filter_keeps_higher_disjoint_words() {
    let src: Vec<Word> = vec![(0, 1), (1, 2), (2, 3), (3, 4), (4, 8)];
    let mut dest: Vec<Word> = vec![(9, 9)];
    filter(&(1, 2), &src, &mut dest);
    assert_eq!(dest, vec![(3, 4), (4, 8)]);
    filter(&(4, 8), &src, &mut dest);
    assert_eq!(dest, Vec::<Word>::new());
}

#[test]
fn parallel_filter_goes_by_index_not_by_position() {
    let src: Vec<Word> = vec![(5, 1), (0, 2), (7, 4)];
    let mut dest: Vec<Word> = Vec::new();
    filter(&(3, 8), &src, &mut dest);
    assert_eq!(dest, vec![(5, 1), (7, 4)]);
}

#[test]
fn task_of_one_candidate_finds_the_solutions_that_start_with_it() {
    let all = indexed(&[1, 2, 4, 8, 16, 32]);
    let found = solutions_from(&all[0], &all);
    assert_eq!(
        found,
        vec![
            [1, 2, 4, 8, 16],
            [1, 2, 4, 8, 32],
            [1, 2, 4, 16, 32],
            [1, 2, 8, 16, 32],
            [1, 4, 8, 16, 32],
        ]
    );
    assert_eq!(solutions_from(&all[1], &all), vec![[2, 4, 8, 16, 32]]);
    assert_eq!(solutions_from(&all[2], &all), Vec::<[u32; 5]>::new());
}

#[test]
fn parallel_search_agrees_with_the_engine() {
    let masks = synthetic();
    let mut expected: Vec<[u32; 5]> = SearchEngine::new(masks.clone())
        .run()
        .iter()
        .map(|s| [masks[s[0]], masks[s[1]], masks[s[2]], masks[s[3]], masks[s[4]]])
        .collect();
    let mut found = parallel_search(&indexed(&masks));
    expected.sort();
    found.sort();
    assert_eq!(found, expected);
    assert_eq!(found.len(), 8);
}

#[test]
fn parallel_search_of_nothing_finds_nothing() {
    assert_eq!(parallel_search(&Vec::new()), Vec::<[u32; 5]>::new());
}

#[test]
fn parallel_search_over_many_candidates() {
    let masks: Vec<u32> = (0..40).map(|i| 1u32 << (i % 7)).collect();
    let mut found = parallel_search(&indexed(&masks));
    let mut expected: Vec<[u32; 5]> = brute_force(&masks)
        .iter()
        .map(|s| [masks[s[0]], masks[s[1]], masks[s[2]], masks[s[3]], masks[s[4]]])
        .collect();
    found.sort();
    expected.sort();
    assert_eq!(found, expected);
}
