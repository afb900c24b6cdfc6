use five_words::global_data::{word_to_bits, GlobalData};
use five_words::read_words::{keep_entries, select_words, upper_case_all};
use five_words::render::solution_line;
use five_words::solver::{index_words, solution_lines, solve};

fn strings(words: &[&str]) -> Vec<String> {
    words.iter().map(|w| w.to_string()).collect()
}

#[test]
fn keep_entries_keeps_five_characters() {
    let kept = keep_entries(strings(&["ABCDE", "ABCD", "", "ABCDEF", "VWXYZ", "ÉCOLE", "ÉTÉ"]));
    assert_eq!(kept, strings(&["ABCDE", "VWXYZ", "ÉCOLE"]));
}

#[test]
fn keep_entries_of_nothing() {
    assert_eq!(keep_entries(Vec::new()), Vec::<String>::new());
}

#[test]
fn upper_case_all_changes_each_line() {
    let upper = upper_case_all(&strings(&["abcde", "MiXed", "", "x1y"]));
    assert_eq!(upper, strings(&["ABCDE", "MIXED", "", "X1Y"]));
}

#[test]
fn select_words_cuts_lines_and_normalizes() {
    let entries = select_words("fjord\nab\nGUCKS\r\nnymph\n\nwaltzes\nvibex");
    assert_eq!(entries, strings(&["FJORD", "GUCKS", "NYMPH", "VIBEX"]));
}

#[test]
fn select_words_of_empty_text() {
    assert_eq!(select_words(""), Vec::<String>::new());
}

#[test]
fn solution_line_puts_single_spaces() {
    let line = solution_line(&["FJORD", "GUCKS", "NYMPH", "VIBEX", "WALTZ"]);
    assert_eq!(line, "FJORD GUCKS NYMPH VIBEX WALTZ");
}

#[test]
fn solution_line_of_empty_words() {
    assert_eq!(solution_line(&["", "", "", "", ""]), "    ");
}

#[test]
fn index_words_numbers_from_zero() {
    assert_eq!(index_words(&vec![7, 9, 7]), vec![(0, 7), (1, 9), (2, 7)]);
    assert_eq!(index_words(&Vec::new()), Vec::<(usize, u32)>::new());
}

#[test]
fn solution_lines_render_each_solution() {
    let data = GlobalData::new(strings(&["ABCDE", "FGHIJ", "KLMNO", "PQRST", "UVWXY", "YXWVU"]));
    let found = vec![[
        word_to_bits("ABCDE"),
        word_to_bits("FGHIJ"),
        word_to_bits("KLMNO"),
        word_to_bits("PQRST"),
        word_to_bits("UVWXY"),
    ]];
    assert_eq!(solution_lines(&data, &found), strings(&["ABCDE FGHIJ KLMNO PQRST UVWXY"]));
    assert_eq!(solution_lines(&data, &Vec::new()), Vec::<String>::new());
}

#[test]
fn solve_finds_the_known_five_words() {
    let words = select_words("fjord\ngucks\nnymph\nvibex\nwaltz\nhello\nvixen\nquick\n");
    assert_eq!(solve(words), strings(&["FJORD GUCKS NYMPH VIBEX WALTZ"]));
}

#[test]
fn solve_names_the_first_word_of_an_anagram_class() {
    let mut lines = solve(strings(&[
        "ABCDE", "EDCBA", "FGHIJ", "KLMNO", "PQRST", "UVWXY", "AFKPU", "ZZZZZ",
    ]));
    lines.sort();
    assert_eq!(lines, strings(&["ABCDE FGHIJ KLMNO PQRST UVWXY"]));
}

#[test]
fn solve_lists_every_combination() {
    let mut lines = solve(strings(&["ABCDE", "FGHIJ", "KLMNO", "PQRST", "UVWXY", "UVWXZ"]));
    lines.sort();
    assert_eq!(
        lines,
        strings(&["ABCDE FGHIJ KLMNO PQRST UVWXY", "ABCDE FGHIJ KLMNO PQRST UVWXZ"])
    );
}

#[test]
fn solve_without_candidates() {
    assert_eq!(solve(Vec::new()), Vec::<String>::new());
    assert_eq!(solve(strings(&["HELLO", "AB", "ABCDE"])), Vec::<String>::new());
}

#[test]
fn solve_drops_entries_with_other_characters() {
    let words = select_words("école\nabcde\nfghij\nklmno\npqrst\nuvwxy\nab de\n");
    assert_eq!(words.len(), 7);
    assert_eq!(solve(words), strings(&["ABCDE FGHIJ KLMNO PQRST UVWXY"]));
}
