use letter_boxed::board::{board_contains, board_letters, create_side, same_side, side_contains, BLANK};
use letter_boxed::lexicon::{reduce_available_letters, reduce_first_letter, reduce_on_line};

fn words(list: &[&str]) -> Vec<String> {
    list.iter().map(|w| w.to_string()).collect()
}

fn full_board() -> [[char; 3]; 4] {
    create_side("abcdefghijkl".to_string())
}

#[test]
fn create_side_fills_sides_in_reading_order() {
    let sides = full_board();
    assert_eq!(sides, [['a', 'b', 'c'], ['d', 'e', 'f'], ['g', 'h', 'i'], ['j', 'k', 'l']]);
}

#[test]
fn create_side_leaves_blanks_for_short_input() {
    let sides = create_side("abcde".to_string());
    assert_eq!(sides, [['a', 'b', 'c'], ['d', 'e', BLANK], [BLANK; 3], [BLANK; 3]]);
    let letters = board_letters(&sides);
    assert_eq!(letters, vec!['a', 'b', 'c', 'd', 'e']);
}

#[test]
fn create_side_ignores_letters_past_twelve() {
    let sides = create_side("abcdefghijklmn".to_string());
    assert_eq!(sides[3], ['j', 'k', 'l']);
    assert!(!board_contains(&sides, 'm'));
}

#[test]
fn blank_is_never_on_a_side() {
    let sides = create_side("ab".to_string());
    assert!(side_contains(&sides, 0, 'a'));
    assert!(!side_contains(&sides, 0, BLANK));
    assert!(!side_contains(&sides, 1, BLANK));
    assert!(!board_contains(&sides, BLANK));
    assert!(!same_side(&sides, BLANK, BLANK));
}

#[test]
fn same_side_checks_every_side() {
    let sides = full_board();
    assert!(same_side(&sides, 'a', 'c'));
    assert!(same_side(&sides, 'l', 'j'));
    assert!(!same_side(&sides, 'c', 'd'));
    assert!(!same_side(&sides, 'a', 'z'));
}

#[test]
fn letter_pass_keeps_scenario_words() {
    let sides = full_board();
    let lexicon = words(&["abc", "cdef", "fghij", "jkla"]);
    assert_eq!(reduce_available_letters(sides, &lexicon), lexicon);
}

#[test]
fn letter_pass_drops_foreign_letters_and_blanks() {
    let sides = full_board();
    let lexicon = words(&["abz", "cdef", "a b", "Abc", ""]);
    assert_eq!(reduce_available_letters(sides, &lexicon), words(&["cdef", ""]));
    let short = create_side("abcde".to_string());
    assert_eq!(reduce_available_letters(short, &words(&["bead", "beef", "dab f"])), words(&["bead"]));
}

#[test]
fn side_pass_drops_scenario_words() {
    let sides = full_board();
    let lexicon = words(&["abc", "cdef", "fghij", "jkla"]);
    assert_eq!(reduce_on_line(sides, &lexicon), words(&[]));
    let apart = words(&["adgj", "lidb", "jb"]);
    assert_eq!(reduce_on_line(sides, &apart), apart);
}

#[test]
fn side_pass_drops_same_side_neighbours() {
    let sides = full_board();
    let lexicon = words(&["cab", "adbe", "jkl", "dgj", "lk"]);
    assert_eq!(reduce_on_line(sides, &lexicon), words(&["adbe", "dgj"]));
}

#[test]
fn side_pass_keeps_short_words() {
    let sides = full_board();
    let lexicon = words(&["", "a", "ad"]);
    assert_eq!(reduce_on_line(sides, &lexicon), lexicon);
}

#[test]
fn passes_are_idempotent() {
    let sides = full_board();
    let lexicon = words(&["cab", "adbe", "zoo", "jkla", "fghij", "hello"]);
    let a = reduce_available_letters(sides, &lexicon);
    assert_eq!(reduce_available_letters(sides, &a), a);
    let b = reduce_on_line(sides, &lexicon);
    assert_eq!(reduce_on_line(sides, &b), b);
}

#[test]
fn passes_never_grow() {
    let sides = full_board();
    let lexicon = words(&["cab", "adbe", "zoo", "jkla", "fghij", "hello"]);
    let a = reduce_available_letters(sides, &lexicon);
    assert_eq!(a, words(&["cab", "adbe", "jkla", "fghij"]));
    assert!(a.len() <= lexicon.len());
    let b = reduce_on_line(sides, &a);
    assert_eq!(b, words(&["adbe"]));
    assert!(b.len() <= a.len());
}

#[test]
fn side_pass_output_has_no_same_side_pairs() {
    let sides = full_board();
    let lexicon = words(&["cab", "adbe", "jkla", "fghij", "gh", "ilk", "adgj"]);
    for w in reduce_on_line(sides, &lexicon) {
        let chars: Vec<char> = w.chars().collect();
        for pair in chars.windows(2) {
            for s in 0..4 {
                assert!(!(side_contains(&sides, s, pair[0]) && side_contains(&sides, s, pair[1])));
            }
        }
    }
}

#[test]
fn first_letter_pass_keeps_matching_words() {
    let lexicon = words(&["cab", "", "cdef", "abc", "c"]);
    assert_eq!(reduce_first_letter('c', &lexicon), words(&["cab", "cdef", "c"]));
    assert_eq!(reduce_first_letter('z', &lexicon), words(&[]));
}

#[test]
fn board_letters_skip_blanks_in_reading_order() {
    let sides = create_side("ab d".to_string());
    assert_eq!(board_letters(&sides), vec!['a', 'b', 'd']);
    assert_eq!(board_letters(&full_board()).len(), 12);
}
