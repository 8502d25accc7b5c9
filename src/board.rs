//! The board: four sides of three letters each.
use vstd::prelude::*;

verus! {

/// The letter that stands in a slot that the input did not fill.
pub const BLANK: char = ' ';

/// The character that lands in slot `k` (row-major) when the board is built from `given`.
pub open spec fn cell(given: Seq<char>, k: int) -> char {
    if 0 <= k < given.len() {
        given[k]
    } else {
        BLANK
    }
}

/// `c` is a letter placed on `side` (a blank is never a letter).
pub open spec fn on_side(side: [char; 3], c: char) -> bool {
    c != BLANK && (side[0] == c || side[1] == c || side[2] == c)
}

/// `c` is a letter placed on some side of the board.
pub open spec fn on_board(sides: [[char; 3]; 4], c: char) -> bool {
    exists|s: int| 0 <= s < 4 && on_side(#[trigger] sides[s], c)
}

/// Some one side of the board holds both `a` and `b`.
pub open spec fn shares_side(sides: [[char; 3]; 4], a: char, b: char) -> bool {
    exists|s: int| 0 <= s < 4 && on_side(#[trigger] sides[s], a) && on_side(sides[s], b)
}

/// The twelve slots of the board in reading order, blanks included.
pub open spec fn slots(sides: [[char; 3]; 4]) -> Seq<char> {
    Seq::new(12, |k: int| sides[k / 3][k % 3])
}

/// The letters of the board in reading order, blanks left out.
pub open spec fn letters_in_order(sides: [[char; 3]; 4]) -> Seq<char> {
    slots(sides).filter(|c: char| c != BLANK)
}

/// `c` stands in one of the first `j` slots of `side`.
pub open spec fn placed(side: [char; 3], j: int, c: char) -> bool {
    (j > 0 && side[0] == c) || (j > 1 && side[1] == c) || (j > 2 && side[2] == c)
}

fn slot(given: &str, len: usize, k: usize) -> (c: char)
    requires
        len == given@.len(),
    ensures
        c == cell(given@, k as int),
{
    if k < len {
        given.get_char(k)
    } else {
        BLANK
    }
}

/// Lays out the letters of `given_letters` on the four sides, three per side,
/// in reading order; slots past the end of the input stay blank.
pub fn create_side(given_letters: String) -> (sides: [[char; 3]; 4])
    ensures
        forall|i: int, j: int|
            0 <= i < 4 && 0 <= j < 3 ==> #[trigger] sides[i][j] == cell(given_letters@, 3 * i + j),
{
    let s = given_letters.as_str();
    let len = s.unicode_len();
    [
        [slot(s, len, 0), slot(s, len, 1), slot(s, len, 2)],
        [slot(s, len, 3), slot(s, len, 4), slot(s, len, 5)],
        [slot(s, len, 6), slot(s, len, 7), slot(s, len, 8)],
        [slot(s, len, 9), slot(s, len, 10), slot(s, len, 11)],
    ]
}

/// Whether the side numbered `side_index` holds `letter`; a blank slot matches nothing.
pub fn side_contains(sides: &[[char; 3]; 4], side_index: usize, letter: char) -> (r: bool)
    requires
        side_index < 4,
    ensures
        r == on_side(sides[side_index as int], letter),
{
    let side = sides[side_index];
    letter != BLANK && (side[0] == letter || side[1] == letter || side[2] == letter)
}

/// Whether `letter` is placed on any side of the board.
pub fn board_contains(sides: &[[char; 3]; 4], letter: char) -> (r: bool)
    ensures
        r == on_board(*sides, letter),
{
    let mut s: usize = 0;
    while s < 4
        invariant
            s <= 4,
            forall|t: int| 0 <= t < s ==> !on_side(#[trigger] sides[t], letter),
        decreases 4 - s,
    {
        if side_contains(sides, s, letter) {
            return true;
        }
        s = s + 1;
    }
    false
}

/// Whether one side of the board holds both `a` and `b`.
pub fn same_side(sides: &[[char; 3]; 4], a: char, b: char) -> (r: bool)
    ensures
        r == shares_side(*sides, a, b),
{
    let mut s: usize = 0;
    while s < 4
        invariant
            s <= 4,
            forall|t: int| 0 <= t < s ==> !(on_side(#[trigger] sides[t], a) && on_side(sides[t], b)),
        decreases 4 - s,
    {
        if side_contains(sides, s, a) && side_contains(sides, s, b) {
            return true;
        }
        s = s + 1;
    }
    false
}

/// The letters of the board, blanks left out, side by side in reading order.
pub fn board_letters(sides: &[[char; 3]; 4]) -> (letters: Vec<char>)
    ensures
        letters@ == letters_in_order(*sides),
        forall|c: char| letters@.contains(c) <==> on_board(*sides, c),
        letters@.len() <= 12,
{
    let mut letters: Vec<char> = Vec::new();
    let mut s: usize = 0;
    while s < 4
        invariant
            s <= 4,
            letters@.len() <= 3 * s,
            letters@ == slots(*sides).take(3 * s).filter(|c: char| c != BLANK),
            forall|c: char| letters@.contains(c) <==> exists|t: int| 0 <= t < s && on_side(#[trigger] sides[t], c),
        decreases 4 - s,
    {
        let side = sides[s];
        let mut j: usize = 0;
        while j < 3
            invariant
                s < 4,
                j <= 3,
                side == sides[s as int],
                letters@.len() <= 3 * s + j,
                letters@ == slots(*sides).take(3 * s + j).filter(|c: char| c != BLANK),
                forall|c: char| letters@.contains(c) <==> (
                    (exists|t: int| 0 <= t < s && on_side(#[trigger] sides[t], c))
                    || (c != BLANK && placed(side, j as int, c))),
            decreases 3 - j,
        {
            let ghost before = letters@;
            if side[j] != BLANK {
                letters.push(side[j]);
            }
            proof {
                let x = side[j as int];
                reveal(Seq::filter);
                assert(slots(*sides)[3 * s + j] == x);
                assert(slots(*sides).take(3 * s + j + 1).drop_last() == slots(*sides).take(3 * s + j));
                assert forall|c: char| letters@.contains(c) <==> (before.contains(c) || (c != BLANK
                    && c == x)) by {
                    if x != BLANK {
                        assert(letters@ == before.push(x));
                        if before.contains(c) {
                            let i = choose|i: int| 0 <= i < before.len() && before[i] == c;
                            assert(letters@[i] == c);
                        }
                        if c == x {
                            assert(letters@[before.len() as int] == c);
                        }
                        if letters@.contains(c) {
                            let i = choose|i: int| 0 <= i < letters@.len() && letters@[i] == c;
                            if i < before.len() {
                                assert(before[i] == c);
                            }
                        }
                    }
                }
                assert forall|c: char| letters@.contains(c) <==> (
                    (exists|t: int| 0 <= t < s && on_side(#[trigger] sides[t], c))
                    || (c != BLANK && placed(side, j + 1, c))) by {
                    assert(before.contains(c) <==> (
                        (exists|t: int| 0 <= t < s && on_side(#[trigger] sides[t], c))
                        || (c != BLANK && placed(side, j as int, c))));
                }
            }
            j = j + 1;
        }
        s = s + 1;
    }
    assert(slots(*sides).take(12) == slots(*sides));
    letters
}

} // verus!
