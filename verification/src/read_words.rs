//! The candidate source: the text of a dictionary becomes the list of its
//! five-letter entries, in upper case.

use vstd::prelude::*;
use vstd::string::StrSliceExecFns;

verus! {

/// The number of characters of a dictionary entry.
pub const WORD_LENGTH: usize = 5;

/// The lines of a text, as `str::lines` of std cuts them.
pub uninterp spec fn lines_of(text: Seq<char>) -> Seq<Seq<char>>;

/// The upper-case form of a text, as `str::to_uppercase` of std gives it.
pub uninterp spec fn uppercase_of(text: Seq<char>) -> Seq<char>;

/// The texts that the strings of `words` hold.
pub open spec fn texts(words: Seq<String>) -> Seq<Seq<char>> {
    words.map_values(|w: String| w@)
}

/// `str::lines` of std, each line copied into a string of its own: the
/// lines of `contents` in order, as the name `lines_of` stands for them.
#[verifier::external_body]
fn split_lines(contents: &str) -> (lines: Vec<String>)
    ensures
        texts(lines@) == lines_of(contents@),
{
    contents.lines().map(|line| line.to_string()).collect()
}

/// `str::to_uppercase` of std: the upper-case form of `line`, as the name
/// `uppercase_of` stands for it.
#[verifier::external_body]
fn upper_case(line: &str) -> (upper: String)
    ensures
        upper@ == uppercase_of(line@),
{
    line.to_uppercase()
}

/// A dictionary entry has exactly five characters.
pub open spec fn is_entry(word: Seq<char>) -> bool {
    word.len() == WORD_LENGTH
}

/// Keeps the words of exactly five characters, in order.
pub fn keep_entries(words: Vec<String>) -> (entries: Vec<String>)
    ensures
        entries@ == words@.filter(|w: String| is_entry(w@)),
{
    let ghost all = words@;
    let ghost fits = |w: String| is_entry(w@);
    let mut entries: Vec<String> = Vec::new();
    proof {
        reveal(Seq::filter);
        assert(all.take(0).filter(fits) =~= Seq::empty());
    }
    for word in it: words
        invariant
            it.seq() == all,
            fits == |w: String| is_entry(w@),
            entries@ == all.take(it.index() as int).filter(fits),
    {
        proof {
            all.take(it.index() as int).lemma_filter_push(word, fits);
            assert(all.take(it.index() as int).push(word) =~= all.take(it.index() + 1));
        }
        if word.as_str().unicode_len() == WORD_LENGTH {
            entries.push(word);
        }
    }
    proof {
        assert(all.take(all.len() as int) =~= all);
    }
    entries
}

/// The upper-case form of every line, in order.
pub fn upper_case_all(lines: &Vec<String>) -> (upper: Vec<String>)
    ensures
        texts(upper@) == texts(lines@).map_values(|line: Seq<char>| uppercase_of(line)),
{
    let mut upper: Vec<String> = Vec::with_capacity(lines.len());
    for i in 0..lines.len()
        invariant
            upper@.len() == i,
            forall|j: int| 0 <= j < i ==> (#[trigger] upper@[j])@ == uppercase_of(lines@[j]@),
    {
        upper.push(upper_case(lines[i].as_str()));
    }
    proof {
        assert(texts(upper@) =~= texts(lines@).map_values(|line: Seq<char>| uppercase_of(line)));
    }
    upper
}

/// The entries of a dictionary text: its lines in upper case, of which
/// those with exactly five characters are kept, in order.
pub fn select_words(contents: &str) -> (entries: Vec<String>)
    ensures
        texts(entries@) == lines_of(contents@).map_values(
            |line: Seq<char>| uppercase_of(line),
        ).filter(|word: Seq<char>| is_entry(word)),
{
    let lines = split_lines(contents);
    let upper = upper_case_all(&lines);
    let ghost all = upper@;
    let entries = keep_entries(upper);
    proof {
        lemma_filter_texts(all);
    }
    entries
}

/// Keeping the entries among strings keeps the entries among their texts.
pub proof fn lemma_filter_texts(words: Seq<String>)
    ensures
        texts(words.filter(|w: String| is_entry(w@))) == texts(words).filter(
            |word: Seq<char>| is_entry(word),
        ),
    decreases words.len(),
{
    let p = |w: String| is_entry(w@);
    let q = |word: Seq<char>| is_entry(word);
    if words.len() == 0 {
        reveal(Seq::filter);
        assert(texts(words.filter(p)) =~= texts(words).filter(q));
    } else {
        let init = words.drop_last();
        let last = words.last();
        lemma_filter_texts(init);
        init.lemma_filter_push(last, p);
        texts(init).lemma_filter_push(last@, q);
        assert(init.push(last) =~= words);
        assert(texts(init).push(last@) =~= texts(words));
        assert(texts(words.filter(p)) =~= texts(words).filter(q));
    }
}

} // verus!
