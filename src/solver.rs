//! The greedy chain search: word after word, each starting with the last
//! letter of the one before, until every letter of the board is used.
use vstd::prelude::*;
use vstd::set_lib::lemma_len_subset;
use vstd::seq_lib::seq_to_set_is_finite;
use crate::board::{on_board, board_letters};
use crate::lexicon::words_view;

verus! {

broadcast use vstd::seq_lib::group_seq_properties;

/// The characters of a chain of words, one word after another.
pub open spec fn concat(chain: Seq<Seq<char>>) -> Seq<char>
    decreases chain.len(),
{
    if chain.len() == 0 {
        Seq::empty()
    } else {
        concat(chain.drop_last()) + chain.last()
    }
}

/// Every letter of the board occurs in `text`.
pub open spec fn covers(sides: [[char; 3]; 4], text: Seq<char>) -> bool {
    forall|c: char| on_board(sides, c) ==> text.contains(c)
}

/// `w` may come next after `text`: nothing came before, or `w` starts with
/// the last character of `text`.
pub open spec fn continues(text: Seq<char>, w: Seq<char>) -> bool {
    text.len() == 0 || (w.len() > 0 && w[0] == text.last())
}

/// The distinct letters of `w` that `text` does not hold yet.
pub open spec fn new_letters(text: Seq<char>, w: Seq<char>) -> Set<char> {
    w.to_set().filter(|c: char| !text.contains(c))
}

/// How many letters `w` would add to `text`.
pub open spec fn score(text: Seq<char>, w: Seq<char>) -> nat {
    new_letters(text, w).len()
}

/// Word `k` continues `text`, adds at least one letter, adds as many as any word
/// that continues `text`, and more than every such word before it.
pub open spec fn first_best(words: Seq<Seq<char>>, text: Seq<char>, k: int) -> bool {
    &&& 0 <= k < words.len()
    &&& continues(text, words[k])
    &&& score(text, words[k]) > 0
    &&& forall|j: int|
        0 <= j < words.len() && continues(text, #[trigger] words[j]) ==> score(text, words[j]) <= score(
            text,
            words[k],
        )
    &&& forall|j: int|
        0 <= j < k && continues(text, #[trigger] words[j]) ==> score(text, words[j]) < score(
            text,
            words[k],
        )
}

/// No word that continues `text` adds a letter to it.
pub open spec fn stuck(words: Seq<Seq<char>>, text: Seq<char>) -> bool {
    forall|j: int| 0 <= j < words.len() && continues(text, #[trigger] words[j]) ==> score(text, words[j]) == 0
}

/// `chain` is what the greedy search builds from `words`: each word was chosen
/// while the board was not yet covered, and was the first best word there.
pub open spec fn greedy_chain(sides: [[char; 3]; 4], words: Seq<Seq<char>>, chain: Seq<Seq<char>>) -> bool
    decreases chain.len(),
{
    chain.len() == 0 || {
        let before = concat(chain.drop_last());
        &&& greedy_chain(sides, words, chain.drop_last())
        &&& !covers(sides, before)
        &&& exists|k: int| #[trigger] first_best(words, before, k) && words[k] == chain.last()
    }
}

/// The rows of a table of characters, as sequences.
pub open spec fn rows_view(rows: Seq<Vec<char>>) -> Seq<Seq<char>> {
    rows.map_values(|r: Vec<char>| r@)
}

fn vec_contains(v: &Vec<char>, upto: usize, c: char) -> (r: bool)
    requires
        upto <= v@.len(),
    ensures
        r == v@.take(upto as int).contains(c),
{
    let mut i: usize = 0;
    while i < upto
        invariant
            upto <= v@.len(),
            i <= upto,
            forall|k: int| 0 <= k < i ==> v@[k] != c,
        decreases upto - i,
    {
        if v[i] == c {
            assert(v@.take(upto as int)[i as int] == c);
            return true;
        }
        i = i + 1;
    }
    false
}

/// The number of distinct letters of `w` that `text` does not hold.
pub fn new_letter_count(text: &Vec<char>, w: &Vec<char>) -> (n: usize)
    ensures
        n == score(text@, w@),
{
    let mut n: usize = 0;
    let mut i: usize = 0;
    assert(new_letters(text@, w@.take(0)) =~= Set::<char>::empty());
    while i < w.len()
        invariant
            i <= w@.len(),
            n <= i,
            n == new_letters(text@, w@.take(i as int)).len(),
            new_letters(text@, w@.take(i as int)).finite(),
        decreases w@.len() - i,
    {
        let c = w[i];
        let fresh = !vec_contains(text, text.len(), c) && !vec_contains(w, i, c);
        proof {
            let before = w@.take(i as int);
            assert(w@.take(i + 1) == before + seq![c]);
            Seq::lemma_to_set_insert_commutes(before, c);
            assert(text@.take(text@.len() as int) == text@);
            if fresh {
                assert(new_letters(text@, w@.take(i + 1)) =~= new_letters(text@, before).insert(c));
            } else {
                assert(new_letters(text@, w@.take(i + 1)) =~= new_letters(text@, before));
            }
        }
        if fresh {
            n = n + 1;
        }
        i = i + 1;
    }
    proof {
        assert(w@.take(i as int) == w@);
    }
    n
}

/// Whether `w` may come next after `text`.
pub fn may_follow(text: &Vec<char>, w: &Vec<char>) -> (r: bool)
    ensures
        r == continues(text@, w@),
{
    text.len() == 0 || (w.len() > 0 && w[0] == text[text.len() - 1])
}

/// The index of the first word of `lexicon` that continues `text` and adds the
/// most letters to it, or `None` where no such word adds any.
pub fn best_word(lexicon: &Vec<Vec<char>>, text: &Vec<char>) -> (r: Option<usize>)
    ensures
        match r {
            Some(k) => first_best(rows_view(lexicon@), text@, k as int),
            None => stuck(rows_view(lexicon@), text@),
        },
{
    let ghost words = rows_view(lexicon@);
    let mut best: Option<usize> = None;
    let mut max: usize = 0;
    let mut i: usize = 0;
    while i < lexicon.len()
        invariant
            words == rows_view(lexicon@),
            i <= lexicon@.len(),
            forall|j: int| 0 <= j < i && continues(text@, #[trigger] words[j]) ==> score(text@, words[j]) <= max,
            best is None ==> max == 0,
            best matches Some(k) ==> k < i && continues(text@, words[k as int]) && score(text@, words[k as int])
                == max && max > 0 && forall|j: int|
                0 <= j < k && continues(text@, #[trigger] words[j]) ==> score(text@, words[j]) < max,
        decreases lexicon@.len() - i,
    {
        if may_follow(text, &lexicon[i]) {
            let n = new_letter_count(text, &lexicon[i]);
            if n > max {
                best = Some(i);
                max = n;
            }
        }
        i = i + 1;
    }
    best
}

/// The characters of `word`, one by one.
pub fn chars_of(word: &str) -> (r: Vec<char>)
    ensures
        r@ == word@,
{
    let n = word.unicode_len();
    let mut r: Vec<char> = Vec::new();
    let mut i: usize = 0;
    while i < n
        invariant
            n == word@.len(),
            i <= n,
            r@ == word@.take(i as int),
        decreases n - i,
    {
        r.push(word.get_char(i));
        i = i + 1;
        assert(r@ == word@.take(i as int));
    }
    assert(word@.take(n as int) == word@);
    r
}

/// Each word of `words` as a vector of its characters.
pub fn rows_of(words: &Vec<String>) -> (rows: Vec<Vec<char>>)
    ensures
        rows_view(rows@) == words_view(words@),
{
    let mut rows: Vec<Vec<char>> = Vec::new();
    let mut i: usize = 0;
    while i < words.len()
        invariant
            i <= words@.len(),
            rows_view(rows@) == words_view(words@.take(i as int)),
        decreases words@.len() - i,
    {
        let row = chars_of(words[i].as_str());
        let ghost before = rows@;
        rows.push(row);
        proof {
            assert(rows_view(rows@) =~= rows_view(before).push(words@[i as int]@));
            assert(words_view(words@.take(i + 1)) =~= words_view(words@.take(i as int)).push(
                words@[i as int]@,
            ));
        }
        i = i + 1;
    }
    assert(words@.take(i as int) == words@);
    rows
}

fn str_contains(s: &str, c: char) -> (r: bool)
    ensures
        r == s@.contains(c),
{
    let n = s.unicode_len();
    let mut i: usize = 0;
    while i < n
        invariant
            n == s@.len(),
            i <= n,
            forall|k: int| 0 <= k < i ==> s@[k] != c,
        decreases n - i,
    {
        if s.get_char(i) == c {
            return true;
        }
        i = i + 1;
    }
    false
}

/// Whether every one of `given_letters` occurs in `sol`.
pub fn all_letters_used(sol: &str, given_letters: &[char]) -> (r: bool)
    ensures
        r == forall|i: int| 0 <= i < given_letters@.len() ==> sol@.contains(#[trigger] given_letters@[i]),
{
    let mut i: usize = 0;
    while i < given_letters.len()
        invariant
            i <= given_letters@.len(),
            forall|k: int| 0 <= k < i ==> sol@.contains(#[trigger] given_letters@[k]),
        decreases given_letters@.len() - i,
    {
        if !str_contains(sol, given_letters[i]) {
            return false;
        }
        i = i + 1;
    }
    true
}

/// A chain of words found by [`solve`], with its characters one after another,
/// and whether it uses every letter of the board.
pub struct Chain {
    /// The words in the order they were chosen.
    pub words: Vec<String>,
    /// The words written one after another.
    pub text: String,
    /// Every letter of the board occurs in `text`.
    pub solved: bool,
}

proof fn lemma_concat_push(chain: Seq<Seq<char>>, w: Seq<char>)
    ensures
        concat(chain.push(w)) == concat(chain) + w,
{
    assert(chain.push(w).drop_last() == chain);
}

proof fn lemma_word_in_concat(words: Seq<Seq<char>>, k: int, c: char)
    requires
        0 <= k < words.len(),
        words[k].contains(c),
    ensures
        concat(words).contains(c),
    decreases words.len(),
{
    if k < words.len() - 1 {
        assert(words.drop_last()[k] == words[k]);
        lemma_word_in_concat(words.drop_last(), k, c);
    }
}

/// A word that adds a letter is not empty, and some letter of it is new.
proof fn lemma_scoring_word(text: Seq<char>, w: Seq<char>) -> (c: char)
    requires
        score(text, w) > 0,
    ensures
        w.len() > 0,
        w.contains(c),
        !text.contains(c),
{
    seq_to_set_is_finite(w);
    w.to_set().lemma_len_filter(|c: char| !text.contains(c));
    if w.len() == 0 {
        assert(new_letters(text, w) =~= Set::<char>::empty());
    }
    new_letters(text, w).choose()
}

fn append_chars(text: &mut Vec<char>, w: &Vec<char>)
    ensures
        final(text)@ == old(text)@ + w@,
{
    let mut i: usize = 0;
    while i < w.len()
        invariant
            i <= w@.len(),
            text@ == old(text)@ + w@.take(i as int),
        decreases w@.len() - i,
    {
        text.push(w[i]);
        i = i + 1;
        assert(text@ =~= old(text)@ + w@.take(i as int));
    }
    assert(w@.take(i as int) == w@);
}

/// Builds a chain greedily from `words_filtered`: while some letter of the
/// board is missing, adds the first word that continues the chain and brings
/// the most new letters; stops with a partial chain where no such word brings
/// any.
pub fn solve(words_filtered: &Vec<String>, sides: [[char; 3]; 4]) -> (r: Chain)
    ensures
        greedy_chain(sides, words_view(words_filtered@), words_view(r.words@)),
        r.text@ == concat(words_view(r.words@)),
        r.solved == covers(sides, r.text@),
        !r.solved ==> stuck(words_view(words_filtered@), r.text@),
        forall|k: int| 0 <= k < r.words@.len() ==> (#[trigger] r.words@[k])@.len() > 0,
        forall|k: int|
            0 < k < r.words@.len() ==> (#[trigger] r.words@[k])@[0] == r.words@[k - 1]@.last(),
{
    let target = board_letters(&sides);
    let lexicon = rows_of(words_filtered);
    let ghost words = words_view(words_filtered@);
    let ghost universe = concat(words).to_set();
    let mut chain: Vec<String> = Vec::new();
    let mut text: Vec<char> = Vec::new();
    let mut sol = String::new();
    proof {
        seq_to_set_is_finite(concat(words));
        assert(text@.to_set() =~= Set::<char>::empty());
        assert(words_view(chain@) =~= Seq::<Seq<char>>::empty());
    }
    loop
        invariant
            words == words_view(words_filtered@),
            rows_view(lexicon@) == words,
            universe == concat(words).to_set(),
            universe.finite(),
            forall|c: char| target@.contains(c) <==> on_board(sides, c),
            greedy_chain(sides, words, words_view(chain@)),
            text@ == concat(words_view(chain@)),
            sol@ == text@,
            text@.to_set().subset_of(universe),
            text@.to_set().len() <= universe.len(),
            forall|k: int| 0 <= k < chain@.len() ==> (#[trigger] chain@[k])@.len() > 0,
            forall|k: int| 0 < k < chain@.len() ==> (#[trigger] chain@[k])@[0] == chain@[k - 1]@.last(),
        decreases universe.len() - text@.to_set().len(),
    {
        let done = all_letters_used(sol.as_str(), target.as_slice());
        proof {
            if done {
                assert forall|c: char| on_board(sides, c) implies text@.contains(c) by {
                    assert(target@.contains(c));
                    let i = choose|i: int| 0 <= i < target@.len() && target@[i] == c;
                    assert(sol@.contains(target@[i]));
                }
            } else {
                let i = choose|i: int| 0 <= i < target@.len() && !sol@.contains(#[trigger] target@[i]);
                assert(target@.contains(target@[i]));
                assert(on_board(sides, target@[i]));
            }
        }
        if done {
            return Chain { words: chain, text: sol, solved: true };
        }
        match best_word(&lexicon, &text) {
            None => {
                return Chain { words: chain, text: sol, solved: false };
            },
            Some(k) => {
                let ghost old_chain = words_view(chain@);
                let ghost old_text = text@;
                let ghost w = words[k as int];
                let ghost fresh = lemma_scoring_word(old_text, w);
                let word = words_filtered[k].clone();
                sol.append(word.as_str());
                append_chars(&mut text, &lexicon[k]);
                chain.push(word);
                proof {
                    let new_chain = words_view(chain@);
                    assert(new_chain =~= old_chain.push(w));
                    lemma_concat_push(old_chain, w);
                    assert(new_chain.drop_last() =~= old_chain);
                    assert(first_best(words, old_text, k as int));
                    assert(greedy_chain(sides, words, new_chain));
                    if chain@.len() > 1 {
                        let p = chain@.len() - 2;
                        assert(old_chain =~= old_chain.drop_last().push(old_chain.last()));
                        lemma_concat_push(old_chain.drop_last(), old_chain.last());
                        assert(chain@[p]@ == old_chain.last());
                        assert(old_text.last() == old_chain.last().last());
                    }
                    assert forall|c: char| text@.to_set().contains(c) implies universe.contains(c) by {
                        if !old_text.contains(c) {
                            assert(w.contains(c));
                            lemma_word_in_concat(words, k as int, c);
                        }
                    }
                    seq_to_set_is_finite(old_text);
                    assert(old_text.to_set().insert(fresh).subset_of(text@.to_set()));
                    lemma_len_subset(old_text.to_set().insert(fresh), text@.to_set());
                    lemma_len_subset(text@.to_set(), universe);
                }
            },
        }
    }
}

} // verus!
