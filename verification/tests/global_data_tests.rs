use five_words::global_data::{word_to_bits, GlobalData};

#[test]
fn test_word_to_bits_1() {
    assert_eq!(word_to_bits("A"), 1);
}

#[test]
fn test_word_to_bits_2() {
    assert_eq!(word_to_bits("B"), 2);
}

#[test]
fn test_word_to_bits_3() {
    assert_eq!(word_to_bits("ABCDE"), 31);
}

#[test]
fn word_to_bits_of_last_letter_and_repeats() {
    assert_eq!(word_to_bits("Z"), 1 << 25);
    assert_eq!(word_to_bits("AAZZA"), 1 | (1 << 25));
    assert_eq!(word_to_bits(""), 0);
}

#[test]
fn word_to_bits_skips_what_is_no_capital_letter() {
    assert_eq!(word_to_bits("a"), 0);
    assert_eq!(word_to_bits("A-B"), 3);
    assert_eq!(word_to_bits("@["), 0);
    assert_eq!(word_to_bits("É"), 0);
}

fn strings(words: &[&str]) -> Vec<String> {
    words.iter().map(|w| w.to_string()).collect()
}

#[test]
fn global_data_keeps_five_letter_masks_once() {
    let data = GlobalData::new(strings(&["ABCDE", "AABCD", "EDCBA", "FGHIJ", "ABCDEF", "BACED"]));
    assert_eq!(data.word_bits, vec![31, 0b11111 << 5]);
    assert_eq!(data.words_by_bits.len(), 2);
    assert_eq!(data.words_by_bits[&31], strings(&["ABCDE", "EDCBA", "BACED"]));
    assert_eq!(data.words_by_bits[&(0b11111 << 5)], strings(&["FGHIJ"]));
}

#[test]
fn global_data_of_nothing_is_empty() {
    let data = GlobalData::new(vec![]);
    assert!(data.word_bits.is_empty());
    assert!(data.words_by_bits.is_empty());
}

#[test]
fn solution_words_take_the_first_word_of_each_mask() {
    let data = GlobalData::new(strings(&[
        "ABCDE", "EDCBA", "FGHIJ", "KLMNO", "PQRST", "TSRQP", "UVWXY",
    ]));
    let bits = [
        word_to_bits("ABCDE"),
        word_to_bits("FGHIJ"),
        word_to_bits("KLMNO"),
        word_to_bits("PQRST"),
        word_to_bits("UVWXY"),
    ];
    let solutions = data.solution_indicies_to_strs(&bits);
    assert_eq!(solutions, vec![["ABCDE", "FGHIJ", "KLMNO", "PQRST", "UVWXY"]]);
}
