//! The result sink's text: one solution becomes one line.

use crate::global_data::Solution;
use vstd::prelude::*;
use vstd::string::StringExecFns;

verus! {

/// The first `upto` of `words`, a space between each two.
pub open spec fn joined(words: Seq<Seq<char>>, upto: nat) -> Seq<char>
    decreases upto,
{
    if upto == 0 || upto > words.len() {
        Seq::empty()
    } else if upto == 1 {
        words[0]
    } else {
        joined(words, (upto - 1) as nat) + seq![' '] + words[upto - 1]
    }
}

/// The line of a solution: its five words in order, separated by single
/// spaces, without a line end.
pub fn solution_line(words: &Solution) -> (line: String)
    ensures
        line@ == joined(words@.map_values(|w: &str| w@), 5),
{
    let ghost texts = words@.map_values(|w: &str| w@);
    let mut line = String::new();
    proof {
        reveal_strlit(" ");
        assert(" "@ =~= seq![' ']);
    }
    for i in 0..words.len()
        invariant
            words@.len() == 5,
            texts == words@.map_values(|w: &str| w@),
            " "@ == seq![' '],
            line@ == joined(texts, i as nat),
    {
        if i > 0 {
            line.append(" ");
        }
        line.append(words[i]);
        proof {
            if i == 0 {
                assert(Seq::<char>::empty() + texts[0] =~= texts[0]);
            }
        }
    }
    line
}

} // verus!
