use letter_boxed::board::create_side;
use letter_boxed::lexicon::{reduce_available_letters, reduce_on_line};
use letter_boxed::solver::{all_letters_used, best_word, chars_of, may_follow, new_letter_count, solve};

fn words(list: &[&str]) -> Vec<String> {
    list.iter().map(|w| w.to_string()).collect()
}

#[test]
fn scenario_full_board_is_solved() {
    let sides = create_side("abcdefghijkl".to_string());
    let lexicon = words(&["abc", "cdef", "fghij", "jkla"]);
    let available = reduce_available_letters(sides, &lexicon);
    assert_eq!(available, lexicon);
    assert_eq!(reduce_on_line(sides, &available), words(&[]));
    let chain = solve(&available, sides);
    assert!(chain.solved);
    assert_eq!(chain.words, words(&["fghij", "jkla", "abc", "cdef"]));
    assert_eq!(chain.text, "fghijjklaabccdef");
    for c in "abcdefghijkl".chars() {
        assert!(chain.text.contains(c));
    }
}

#[test]
fn chain_words_continue_each_other() {
    let sides = create_side("abcdefghijkl".to_string());
    let lexicon = words(&["abc", "cdef", "fghij", "jkla", "lad", "dga"]);
    let chain = solve(&lexicon, sides);
    for pair in chain.words.windows(2) {
        assert_eq!(pair[1].chars().next(), pair[0].chars().last());
    }
}

#[test]
fn short_input_is_solved_on_its_letters() {
    let sides = create_side("abcde".to_string());
    let lexicon = words(&["adbe", "ec", "cab"]);
    let filtered = reduce_on_line(sides, &reduce_available_letters(sides, &lexicon));
    assert_eq!(filtered, words(&["adbe", "ec"]));
    let chain = solve(&filtered, sides);
    assert!(chain.solved);
    assert_eq!(chain.words, words(&["adbe", "ec"]));
}

#[test]
fn solver_stops_when_no_word_adds_a_letter() {
    let sides = create_side("abcdefghijkl".to_string());
    let lexicon = words(&["adg", "gda", "gad"]);
    let chain = solve(&lexicon, sides);
    assert!(!chain.solved);
    assert_eq!(chain.words, words(&["adg"]));
    assert_eq!(chain.text, "adg");
}

#[test]
fn empty_lexicon_gives_empty_unsolved_chain() {
    let sides = create_side("abcdefghijkl".to_string());
    let chain = solve(&Vec::new(), sides);
    assert!(!chain.solved);
    assert!(chain.words.is_empty());
    assert_eq!(chain.text, "");
}

#[test]
fn empty_board_is_solved_at_once() {
    let sides = create_side(String::new());
    let chain = solve(&words(&["abc"]), sides);
    assert!(chain.solved);
    assert!(chain.words.is_empty());
}

#[test]
fn ties_go_to_the_earlier_word() {
    let sides = create_side("abcdefghijkl".to_string());
    let chain = solve(&words(&["adg", "beh", "cfi"]), sides);
    assert_eq!(chain.words[0], "adg");
}

#[test]
fn score_counts_distinct_new_letters() {
    let text = chars_of("abc");
    assert_eq!(new_letter_count(&text, &chars_of("aadd")), 1);
    assert_eq!(new_letter_count(&text, &chars_of("deed")), 2);
    assert_eq!(new_letter_count(&text, &chars_of("cab")), 0);
    assert_eq!(new_letter_count(&chars_of(""), &chars_of("hello")), 4);
}

#[test]
fn continuation_needs_last_letter() {
    assert!(may_follow(&chars_of(""), &chars_of("xyz")));
    assert!(may_follow(&chars_of("abc"), &chars_of("cde")));
    assert!(!may_follow(&chars_of("abc"), &chars_of("bcd")));
    assert!(!may_follow(&chars_of("abc"), &chars_of("")));
}

#[test]
fn best_word_picks_first_highest() {
    let lexicon = vec![chars_of("cab"), chars_of("dog"), chars_of("cdef"), chars_of("cxyz")];
    assert_eq!(best_word(&lexicon, &chars_of("abc")), Some(2));
    assert_eq!(best_word(&lexicon, &chars_of("abcdefxyz")), None);
}

#[test]
fn all_letters_used_checks_each_letter() {
    assert!(all_letters_used("fghijjkla", &['a', 'f', 'k']));
    assert!(!all_letters_used("fghij", &['a', 'f']));
    assert!(all_letters_used("", &[]));
}
