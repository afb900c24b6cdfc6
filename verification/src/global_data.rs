//! The candidate encoder: words become letter masks, and the masks with
//! exactly five letters become the candidates of the search.

use std::collections::HashMap;
use vstd::prelude::*;
use vstd::utf8::encode_utf8;

verus! {

/// The masks of a completed solution.
pub type SolutionBits = [u32; 5];

/// The words of a completed solution.
pub type Solution<'a> = [&'a str; 5];

/// Bit `i` of `mask` is set.
pub open spec fn has_bit(mask: u32, i: u32) -> bool {
    (mask >> i) & 1 == 1
}

/// The mask of one byte: the bit of its letter for `A` to `Z`, nothing for
/// any other byte.
pub open spec fn letter_bit(byte: u8) -> u32 {
    if 0x41 <= byte <= 0x5a {
        1u32 << ((byte - 0x41) as u32)
    } else {
        0
    }
}

/// The mask of a byte string: the union of the masks of its bytes.
pub open spec fn letters_mask(bytes: Seq<u8>) -> u32
    decreases bytes.len(),
{
    if bytes.len() == 0 {
        0
    } else {
        letters_mask(bytes.drop_last()) | letter_bit(bytes.last())
    }
}

/// The mask of a word: the mask of its UTF-8 bytes.
pub open spec fn word_mask(word: Seq<char>) -> u32 {
    letters_mask(encode_utf8(word))
}

/// Bit `i` of the mask of a byte string is set exactly when `i` numbers one
/// of the 26 letters and the string holds that letter.
pub proof fn lemma_mask_bits(bytes: Seq<u8>, i: u32)
    requires
        i < 32,
    ensures
        has_bit(letters_mask(bytes), i) <==> i < 26 && bytes.contains((0x41 + i) as u8),
    decreases bytes.len(),
{
    if bytes.len() == 0 {
        assert(!has_bit(0, i)) by (bit_vector)
            requires
                i < 32,
        ;
    } else {
        let init = bytes.drop_last();
        let last = bytes.last();
        let a = letters_mask(init);
        let b = letter_bit(last);
        lemma_mask_bits(init, i);
        assert(has_bit(a | b, i) <==> has_bit(a, i) || has_bit(b, i)) by (bit_vector)
            requires
                i < 32,
        ;
        if 0x41 <= last <= 0x5a {
            let k = (last - 0x41) as u32;
            assert(has_bit(1u32 << k, i) <==> k == i) by (bit_vector)
                requires
                    i < 32,
                    k < 32,
            ;
        } else {
            assert(!has_bit(0, i)) by (bit_vector)
                requires
                    i < 32,
            ;
        }
        let letter = (0x41 + i) as u8;
        if init.contains(letter) {
            let j = choose|j: int| 0 <= j < init.len() && init[j] == letter;
            assert(bytes[j] == letter);
        }
        if bytes.contains(letter) {
            let j = choose|j: int| 0 <= j < bytes.len() && bytes[j] == letter;
            if j < init.len() {
                assert(init[j] == letter);
            }
        }
        if last == letter {
            assert(bytes[bytes.len() - 1] == letter);
        }
    }
}

/// The letter mask of `word`: bit `i` stands for the `i`-th letter of `A`
/// to `Z`. Bytes that are no such letter add nothing to the mask.
pub fn word_to_bits(word: &str) -> (bits: u32)
    ensures
        bits == word_mask(word@),
        forall|i: u32|
            i < 32 ==> (#[trigger] has_bit(bits, i) <==> i < 26 && encode_utf8(word@).contains(
                (0x41 + i) as u8,
            )),
{
    let a_byte: u8 = 0x41;
    let mut result: u32 = 0;
    let bytes = word.as_bytes();
    for k in 0..bytes.len()
        invariant
            a_byte == 0x41,
            bytes@ == encode_utf8(word@),
            result == letters_mask(bytes@.take(k as int)),
    {
        let byte = bytes[k];
        proof {
            assert(bytes@.take(k + 1).drop_last() =~= bytes@.take(k as int));
        }
        if byte >= a_byte && byte <= 0x5a {
            let letter_index = byte - a_byte;
            result |= 1u32 << letter_index;
        } else {
            proof {
                let r = result;
                assert(r | 0 == r) by (bit_vector);
            }
        }
    }
    proof {
        assert(bytes@.take(bytes@.len() as int) =~= bytes@);
        assert forall|i: u32| i < 32 implies (#[trigger] has_bit(result, i) <==> i < 26
            && encode_utf8(word@).contains((0x41 + i) as u8)) by {
            lemma_mask_bits(encode_utf8(word@), i);
        }
    }
    result
}

/// The number of set bits among the lowest `k` bits of `mask`.
pub open spec fn bits_below(mask: u32, k: nat) -> nat
    decreases k,
{
    if k == 0 {
        0
    } else {
        bits_below(mask, (k - 1) as nat) + if has_bit(mask, (k - 1) as u32) {
            1nat
        } else {
            0nat
        }
    }
}

/// The number of set bits of `mask`.
pub open spec fn bit_count(mask: u32) -> nat {
    bits_below(mask, 32)
}

/// `u32::count_ones` of std returns the number of ones in the binary
/// representation of its argument.
pub assume_specification[ u32::count_ones ](mask: u32) -> (ones: u32)
    ensures
        ones == bit_count(mask),
;

/// A word is a candidate when its mask has exactly five letters: five
/// different letters of `A` to `Z`.
pub open spec fn is_candidate(word: Seq<char>) -> bool {
    bit_count(word_mask(word)) == 5
}

/// The masks of the candidates among `words`, each once, in the order of
/// first appearance.
pub open spec fn candidate_masks(words: Seq<String>) -> Seq<u32>
    decreases words.len(),
{
    if words.len() == 0 {
        Seq::empty()
    } else {
        let rest = candidate_masks(words.drop_last());
        let mask = word_mask(words.last()@);
        if is_candidate(words.last()@) && !rest.contains(mask) {
            rest.push(mask)
        } else {
            rest
        }
    }
}

/// The words of `words` whose mask is `mask`, in order.
pub open spec fn words_with(words: Seq<String>, mask: u32) -> Seq<String> {
    words.filter(|w: String| word_mask(w@) == mask)
}

/// Every candidate mask has five letters, and every candidate word has its
/// mask listed.
pub proof fn lemma_candidate_masks(words: Seq<String>)
    ensures
        forall|m: u32| candidate_masks(words).contains(m) ==> bit_count(m) == 5,
        forall|j: int|
            0 <= j < words.len() && is_candidate(#[trigger] words[j]@) ==> candidate_masks(
                words,
            ).contains(word_mask(words[j]@)),
        candidate_masks(words).no_duplicates(),
    decreases words.len(),
{
    if words.len() > 0 {
        let init = words.drop_last();
        let rest = candidate_masks(init);
        let all = candidate_masks(words);
        let mask = word_mask(words.last()@);
        lemma_candidate_masks(init);
        assert forall|m: u32| all.contains(m) implies bit_count(m) == 5 by {
            let k = choose|k: int| 0 <= k < all.len() && all[k] == m;
            if k < rest.len() {
                assert(rest[k] == m);
                assert(rest.contains(m));
            }
        }
        assert forall|j: int| 0 <= j < words.len() && is_candidate(#[trigger] words[j]@) implies all.contains(
            word_mask(words[j]@),
        ) by {
            let m = word_mask(words[j]@);
            if j < init.len() {
                assert(init[j] == words[j]);
                assert(rest.contains(m));
            }
            if rest.contains(m) {
                let k = choose|k: int| 0 <= k < rest.len() && rest[k] == m;
                assert(all[k] == m);
            } else {
                assert(all[all.len() - 1] == m);
            }
        }
        assert forall|a: int, b: int| 0 <= a < all.len() && 0 <= b < all.len() && a != b implies all[a]
            != all[b] by {
            if a < rest.len() && b < rest.len() {
                assert(rest[a] != rest[b]);
            } else if a < rest.len() {
                assert(rest.contains(rest[a]));
            } else if b < rest.len() {
                assert(rest.contains(rest[b]));
            }
        }
    }
}

/// The candidates of a word list: the distinct masks in order of first
/// appearance, and for each mask the words that share it.
pub struct GlobalData {
    pub word_bits: Vec<u32>,
    pub words_by_bits: HashMap<u32, Vec<String>>,
}

impl GlobalData {
    /// `word_bits` lists the keys of `words_by_bits`, each once, and every key
    /// has at least one word.
    pub open spec fn wf(&self) -> bool {
        &&& self.word_bits@.no_duplicates()
        &&& forall|m: u32| self.words_by_bits@.contains_key(m) <==> self.word_bits@.contains(m)
        &&& forall|m: u32| #[trigger]
            self.words_by_bits@.contains_key(m) ==> self.words_by_bits@[m]@.len() > 0
    }

    /// Encodes `words` and keeps the candidates: the words whose mask has
    /// exactly five letters. Words with the same mask share one candidate.
    pub fn new(words: Vec<String>) -> (data: GlobalData)
        ensures
            data.wf(),
            data.word_bits@ == candidate_masks(words@),
            forall|m: u32| #[trigger]
                data.words_by_bits@.contains_key(m) ==> data.words_by_bits@[m]@ == words_with(
                    words@,
                    m,
                ),
    {
        broadcast use vstd::std_specs::hash::group_hash_axioms;

        let mut word_bits: Vec<u32> = vec![];
        let mut words_by_bits: HashMap<u32, Vec<String>> = HashMap::new();
        proof {
            assert(words@.take(0) =~= Seq::empty());
            assert forall|m: u32| words_with(words@.take(0), m) =~= Seq::empty() by {
                reveal(Seq::filter);
            }
        }
        let ghost all = words@;
        for word in it: words
            invariant
                it.seq() == all,
                word_bits@ == candidate_masks(all.take(it.index() as int)),
                forall|m: u32| words_by_bits@.contains_key(m) <==> word_bits@.contains(m),
                forall|m: u32| #[trigger]
                    words_by_bits@.contains_key(m) ==> words_by_bits@[m]@ == words_with(
                        all.take(it.index() as int),
                        m,
                    ) && words_by_bits@[m]@.len() > 0,
        {
            let bits = word_to_bits(word.as_str());
            let ghost seen = all.take(it.index() as int);
            let ghost grown = all.take(it.index() + 1);
            let ghost old_map = words_by_bits@;
            let ghost old_bits = word_bits@;
            proof {
                assert(grown.drop_last() =~= seen);
                assert(grown.last() == word);
                assert(seen.push(word) =~= grown);
                lemma_candidate_masks(seen);
                assert forall|m: u32| #[trigger]
                    words_with(grown, m) == if word_mask(word@) == m {
                        words_with(seen, m).push(word)
                    } else {
                        words_with(seen, m)
                    } by {
                    seen.lemma_filter_push(word, |w: String| word_mask(w@) == m);
                }
            }
            if bits.count_ones() == 5 {
                match words_by_bits.remove(&bits) {
                    Some(mut sharing) => {
                        sharing.push(word);
                        words_by_bits.insert(bits, sharing);
                        proof {
                            assert forall|m: u32|
                                words_by_bits@.contains_key(m) <==> word_bits@.contains(m) by {
                                assert(old_map.contains_key(m) <==> old_bits.contains(m));
                            }
                        }
                    },
                    None => {
                        proof {
                            let first_of = |w: String| word_mask(w@) == bits;
                            assert forall|j: int| 0 <= j < seen.len() implies !first_of(
                                #[trigger] seen[j],
                            ) by {
                                if first_of(seen[j]) {
                                    assert(is_candidate(seen[j]@));
                                    assert(old_bits.contains(word_mask(seen[j]@)));
                                }
                            }
                            seen.lemma_all_neg_filter_empty(first_of);
                            assert(words_with(seen, bits) =~= Seq::empty());
                        }
                        word_bits.push(bits);
                        words_by_bits.insert(bits, vec![word]);
                        proof {
                            assert(words_by_bits@[bits]@ =~= Seq::<String>::empty().push(word));
                            assert(word_bits@[word_bits@.len() - 1] == bits);
                            assert forall|m: u32| word_bits@.contains(m) implies old_bits.contains(m)
                                || m == bits by {
                                let k = choose|k: int| 0 <= k < word_bits@.len() && word_bits@[k] == m;
                                if k < old_bits.len() {
                                    assert(old_bits[k] == m);
                                }
                            }
                            assert forall|m: u32| old_bits.contains(m) implies word_bits@.contains(m) by {
                                let k = choose|k: int| 0 <= k < old_bits.len() && old_bits[k] == m;
                                assert(word_bits@[k] == m);
                            }
                            assert forall|m: u32|
                                words_by_bits@.contains_key(m) <==> word_bits@.contains(m) by {
                                assert(old_map.contains_key(m) <==> old_bits.contains(m));
                            }
                        }
                    },
                }
            }
        }
        proof {
            assert(all.take(all.len() as int) =~= all);
            lemma_candidate_masks(all);
        }
        GlobalData { word_bits, words_by_bits }
    }

    /// The first word that was seen with mask `mask`.
    fn first_word(&self, mask: u32) -> (word: &str)
        requires
            self.words_by_bits@.contains_key(mask),
            self.words_by_bits@[mask]@.len() > 0,
        ensures
            word@ == self.words_by_bits@[mask]@[0]@,
    {
        broadcast use vstd::std_specs::hash::group_hash_axioms;

        let sharing = self.words_by_bits.get(&mask).unwrap();
        sharing[0].as_str()
    }

    /// The words of a solution given by its masks: one rendering, which
    /// takes for each mask the first word that was seen with it.
    pub fn solution_indicies_to_strs<'a>(&'a self, bits: &SolutionBits) -> (solutions: Vec<
        Solution<'a>,
    >)
        requires
            forall|j: int|
                0 <= j < 5 ==> self.words_by_bits@.contains_key(#[trigger] bits@[j])
                    && self.words_by_bits@[bits@[j]]@.len() > 0,
        ensures
            solutions@.len() == 1,
            forall|j: int|
                0 <= j < 5 ==> (#[trigger] solutions@[0]@[j])@
                    == self.words_by_bits@[bits@[j]]@[0]@,
    {
        let lone_result: Solution<'a> = [
            self.first_word(bits[0]),
            self.first_word(bits[1]),
            self.first_word(bits[2]),
            self.first_word(bits[3]),
            self.first_word(bits[4]),
        ];
        vec![lone_result]
    }
}

} // verus!
