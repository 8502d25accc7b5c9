//! Narrowing a word list to the words that can be played on a board.
use vstd::prelude::*;
use crate::board::{on_board, on_side, shares_side, board_contains, same_side};

verus! {

/// The words of a list, as character sequences.
pub open spec fn words_view(words: Seq<String>) -> Seq<Seq<char>> {
    words.map_values(|w: String| w@)
}

/// Every character of `w` is a letter of the board.
pub open spec fn uses_board_letters(sides: [[char; 3]; 4], w: Seq<char>) -> bool {
    forall|i: int| 0 <= i < w.len() ==> on_board(sides, #[trigger] w[i])
}

/// No two consecutive characters of `w` sit on the same side of the board.
pub open spec fn keeps_sides_apart(sides: [[char; 3]; 4], w: Seq<char>) -> bool {
    forall|i: int| 0 <= i < w.len() - 1 ==> !shares_side(sides, #[trigger] w[i], w[i + 1])
}

/// `w` is not empty and starts with `letter`.
pub open spec fn starts_with(letter: char, w: Seq<char>) -> bool {
    w.len() > 0 && w[0] == letter
}

/// The words of `words` made of board letters only, in their order.
pub open spec fn letter_pass(sides: [[char; 3]; 4], words: Seq<Seq<char>>) -> Seq<Seq<char>> {
    words.filter(|w: Seq<char>| uses_board_letters(sides, w))
}

/// The words of `words` with no two consecutive letters on one side, in their order.
pub open spec fn side_pass(sides: [[char; 3]; 4], words: Seq<Seq<char>>) -> Seq<Seq<char>> {
    words.filter(|w: Seq<char>| keeps_sides_apart(sides, w))
}

/// The words of `words` that start with `letter`, in their order.
pub open spec fn first_letter_pass(letter: char, words: Seq<Seq<char>>) -> Seq<Seq<char>> {
    words.filter(|w: Seq<char>| starts_with(letter, w))
}

/// Whether every character of `word` is a letter of the board.
pub fn only_board_letters(sides: &[[char; 3]; 4], word: &str) -> (r: bool)
    ensures
        r == uses_board_letters(*sides, word@),
{
    let n = word.unicode_len();
    let mut i: usize = 0;
    while i < n
        invariant
            n == word@.len(),
            i <= n,
            forall|k: int| 0 <= k < i ==> on_board(*sides, #[trigger] word@[k]),
        decreases n - i,
    {
        if !board_contains(sides, word.get_char(i)) {
            return false;
        }
        i = i + 1;
    }
    true
}

/// Whether no two consecutive characters of `word` sit on one side of the board.
pub fn sides_kept_apart(sides: &[[char; 3]; 4], word: &str) -> (r: bool)
    ensures
        r == keeps_sides_apart(*sides, word@),
{
    let n = word.unicode_len();
    if n < 2 {
        return true;
    }
    let mut prev = word.get_char(0);
    let mut i: usize = 1;
    while i < n
        invariant
            n == word@.len(),
            1 <= i <= n,
            prev == word@[i - 1],
            forall|k: int| 0 <= k < i - 1 ==> !shares_side(*sides, #[trigger] word@[k], word@[k + 1]),
        decreases n - i,
    {
        let next = word.get_char(i);
        if same_side(sides, prev, next) {
            return false;
        }
        prev = next;
        i = i + 1;
    }
    true
}

/// Keeps the words made of board letters only (blanks are no letters).
pub fn reduce_available_letters(sides: [[char; 3]; 4], valid_words: &Vec<String>) -> (filtered: Vec<String>)
    ensures
        words_view(filtered@) == letter_pass(sides, words_view(valid_words@)),
{
    let mut filtered: Vec<String> = Vec::new();
    let mut i: usize = 0;
    while i < valid_words.len()
        invariant
            i <= valid_words@.len(),
            words_view(filtered@) == letter_pass(sides, words_view(valid_words@.take(i as int))),
        decreases valid_words@.len() - i,
    {
        let word = &valid_words[i];
        let keep = only_board_letters(&sides, word.as_str());
        proof {
            reveal(Seq::filter);
            assert(words_view(valid_words@.take(i + 1)).drop_last() == words_view(valid_words@.take(i as int)));
        }
        if keep {
            filtered.push(word.clone());
            proof {
                assert(words_view(filtered@) == words_view(filtered@.drop_last()).push(word@));
            }
        }
        i = i + 1;
    }
    proof {
        assert(valid_words@.take(i as int) == valid_words@);
    }
    filtered
}

/// Drops every word that has two consecutive letters on one side of the board;
/// words shorter than two characters always stay.
pub fn reduce_on_line(sides: [[char; 3]; 4], valid_words: &Vec<String>) -> (filtered: Vec<String>)
    ensures
        words_view(filtered@) == side_pass(sides, words_view(valid_words@)),
{
    let mut filtered: Vec<String> = Vec::new();
    let mut i: usize = 0;
    while i < valid_words.len()
        invariant
            i <= valid_words@.len(),
            words_view(filtered@) == side_pass(sides, words_view(valid_words@.take(i as int))),
        decreases valid_words@.len() - i,
    {
        let word = &valid_words[i];
        let keep = sides_kept_apart(&sides, word.as_str());
        proof {
            reveal(Seq::filter);
            assert(words_view(valid_words@.take(i + 1)).drop_last() == words_view(valid_words@.take(i as int)));
        }
        if keep {
            filtered.push(word.clone());
            proof {
                assert(words_view(filtered@) == words_view(filtered@.drop_last()).push(word@));
            }
        }
        i = i + 1;
    }
    proof {
        assert(valid_words@.take(i as int) == valid_words@);
    }
    filtered
}

/// Keeps the words that start with `letter`.
pub fn reduce_first_letter(letter: char, valid_words: &Vec<String>) -> (filtered: Vec<String>)
    ensures
        words_view(filtered@) == first_letter_pass(letter, words_view(valid_words@)),
{
    let mut filtered: Vec<String> = Vec::new();
    let mut i: usize = 0;
    while i < valid_words.len()
        invariant
            i <= valid_words@.len(),
            words_view(filtered@) == first_letter_pass(letter, words_view(valid_words@.take(i as int))),
        decreases valid_words@.len() - i,
    {
        let word = &valid_words[i];
        let keep = word.as_str().unicode_len() > 0 && word.as_str().get_char(0) == letter;
        proof {
            reveal(Seq::filter);
            assert(words_view(valid_words@.take(i + 1)).drop_last() == words_view(valid_words@.take(i as int)));
        }
        if keep {
            filtered.push(word.clone());
            proof {
                assert(words_view(filtered@) == words_view(filtered@.drop_last()).push(word@));
            }
        }
        i = i + 1;
    }
    proof {
        assert(valid_words@.take(i as int) == valid_words@);
    }
    filtered
}

/// Filtering a sequence twice by one predicate gives what filtering once gives.
proof fn lemma_filter_twice(s: Seq<Seq<char>>, p: spec_fn(Seq<char>) -> bool)
    ensures
        s.filter(p).filter(p) == s.filter(p),
    decreases s.len(),
{
    reveal(Seq::filter);
    if s.len() > 0 {
        lemma_filter_twice(s.drop_last(), p);
        let f = s.drop_last().filter(p);
        if p(s.last()) {
            assert(f.push(s.last()).drop_last() == f);
        }
    }
}

/// Running the letter pass on its own output changes nothing.
pub proof fn lemma_letter_pass_idempotent(sides: [[char; 3]; 4], words: Seq<Seq<char>>)
    ensures
        letter_pass(sides, letter_pass(sides, words)) == letter_pass(sides, words),
{
    lemma_filter_twice(words, |w: Seq<char>| uses_board_letters(sides, w));
}

/// Running the side pass on its own output changes nothing.
pub proof fn lemma_side_pass_idempotent(sides: [[char; 3]; 4], words: Seq<Seq<char>>)
    ensures
        side_pass(sides, side_pass(sides, words)) == side_pass(sides, words),
{
    lemma_filter_twice(words, |w: Seq<char>| keeps_sides_apart(sides, w));
}

/// Neither pass ever yields more words than it was given.
pub proof fn lemma_passes_shrink(sides: [[char; 3]; 4], words: Seq<Seq<char>>)
    ensures
        letter_pass(sides, words).len() <= words.len(),
        side_pass(sides, words).len() <= words.len(),
{
    words.lemma_filter_len(|w: Seq<char>| uses_board_letters(sides, w));
    words.lemma_filter_len(|w: Seq<char>| keeps_sides_apart(sides, w));
}

/// In every word that the side pass keeps, no side of the board holds both
/// letters of any two consecutive characters.
pub proof fn lemma_side_pass_kept_words_apart(sides: [[char; 3]; 4], words: Seq<Seq<char>>)
    ensures
        ({
            let kept = side_pass(sides, words);
            forall|k: int, i: int, s: int|
                0 <= k < kept.len() && 0 <= i < kept[k].len() - 1 && 0 <= s < 4
                    ==> !(#[trigger] on_side(sides[s], kept[k][i]) && on_side(sides[s], kept[k][i + 1]))
        }),
{
    broadcast use vstd::seq_lib::group_filter_ensures;

    let kept = side_pass(sides, words);
    assert forall|k: int, i: int, s: int|
        0 <= k < kept.len() && 0 <= i < kept[k].len() - 1 && 0 <= s < 4
            implies !(#[trigger] on_side(sides[s], kept[k][i]) && on_side(sides[s], kept[k][i + 1])) by {
        assert(kept.contains(kept[k]));
        assert(keeps_sides_apart(sides, kept[k]));
        assert(!shares_side(sides, kept[k][i], kept[k][i + 1]));
    }
}

} // verus!
