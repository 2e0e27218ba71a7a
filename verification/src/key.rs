//! The keyboard cost model: normalized keys, their positions on a fixed
//! physical layout, and the movement distance between two keys.

use vstd::prelude::*;

verus! {

/// A normalized (case-folded) single-character key.
pub type Key = char;

/// A movement distance between keys, and the total movement cost of a word.
pub type Distance = u64;

/// Position of a key on the layout: `(row, column)`, or `(-1, -1)` for a
/// character that is not a key.
///
/// Rows, bottom to top: `ZXCVBNM`, `ASDFGHJKL`, `QWERTYUIOP`, `1234567890`.
pub open spec fn key_pos(c: char) -> (int, int) {
    match c {
        'Z' => (0, 0),
        'X' => (0, 1),
        'C' => (0, 2),
        'V' => (0, 3),
        'B' => (0, 4),
        'N' => (0, 5),
        'M' => (0, 6),
        'A' => (1, 0),
        'S' => (1, 1),
        'D' => (1, 2),
        'F' => (1, 3),
        'G' => (1, 4),
        'H' => (1, 5),
        'J' => (1, 6),
        'K' => (1, 7),
        'L' => (1, 8),
        'Q' => (2, 0),
        'W' => (2, 1),
        'E' => (2, 2),
        'R' => (2, 3),
        'T' => (2, 4),
        'Y' => (2, 5),
        'U' => (2, 6),
        'I' => (2, 7),
        'O' => (2, 8),
        'P' => (2, 9),
        '1' => (3, 0),
        '2' => (3, 1),
        '3' => (3, 2),
        '4' => (3, 3),
        '5' => (3, 4),
        '6' => (3, 5),
        '7' => (3, 6),
        '8' => (3, 7),
        '9' => (3, 8),
        '0' => (3, 9),
        _ => (-1, -1),
    }
}

/// A character is a key when it sits somewhere on the layout.
pub open spec fn is_key(c: char) -> bool {
    key_pos(c).0 >= 0
}

/// Case folding of a character to its key: lowercase letters map to their
/// uppercase key, everything else is left as it is.
pub open spec fn key_of(c: char) -> char {
    match c {
        'a' => 'A',
        'b' => 'B',
        'c' => 'C',
        'd' => 'D',
        'e' => 'E',
        'f' => 'F',
        'g' => 'G',
        'h' => 'H',
        'i' => 'I',
        'j' => 'J',
        'k' => 'K',
        'l' => 'L',
        'm' => 'M',
        'n' => 'N',
        'o' => 'O',
        'p' => 'P',
        'q' => 'Q',
        'r' => 'R',
        's' => 'S',
        't' => 'T',
        'u' => 'U',
        'v' => 'V',
        'w' => 'W',
        'x' => 'X',
        'y' => 'Y',
        'z' => 'Z',
        _ => c,
    }
}

/// A character can be typed when its normalized key is on the layout.
pub open spec fn is_keyable(c: char) -> bool {
    is_key(key_of(c))
}

/// The movement distance between two keys: the taxicab distance between
/// their positions on the layout.
pub open spec fn dist_spec(k1: char, k2: char) -> int {
    vstd::math::abs(key_pos(k1).0 - key_pos(k2).0) + vstd::math::abs(
        key_pos(k1).1 - key_pos(k2).1,
    ) as int
}

/// The distance between two keys on the layout is at most `3 + 9`.
pub proof fn lemma_dist_bounds(k1: char, k2: char)
    requires
        is_key(k1),
        is_key(k2),
    ensures
        0 <= dist_spec(k1, k2) <= 12,
{
}

/// The distance does not depend on the order of its two keys.
pub proof fn lemma_dist_symmetric(k1: char, k2: char)
    ensures
        dist_spec(k1, k2) == dist_spec(k2, k1),
{
}

/// Character to key.
pub fn to_key(c: char) -> (k: Key)
    ensures
        k == key_of(c),
{
    match c {
        'a' => 'A',
        'b' => 'B',
        'c' => 'C',
        'd' => 'D',
        'e' => 'E',
        'f' => 'F',
        'g' => 'G',
        'h' => 'H',
        'i' => 'I',
        'j' => 'J',
        'k' => 'K',
        'l' => 'L',
        'm' => 'M',
        'n' => 'N',
        'o' => 'O',
        'p' => 'P',
        'q' => 'Q',
        'r' => 'R',
        's' => 'S',
        't' => 'T',
        'u' => 'U',
        'v' => 'V',
        'w' => 'W',
        'x' => 'X',
        'y' => 'Y',
        'z' => 'Z',
        _ => c,
    }
}

/// Returns `(row, rel. position)` of the key `k`.
pub fn position(k: Key) -> (p: (u8, u8))
    requires
        is_key(k),
    ensures
        p.0 as int == key_pos(k).0,
        p.1 as int == key_pos(k).1,
{
    match k {
        'Z' => (0, 0),
        'X' => (0, 1),
        'C' => (0, 2),
        'V' => (0, 3),
        'B' => (0, 4),
        'N' => (0, 5),
        'M' => (0, 6),
        'A' => (1, 0),
        'S' => (1, 1),
        'D' => (1, 2),
        'F' => (1, 3),
        'G' => (1, 4),
        'H' => (1, 5),
        'J' => (1, 6),
        'K' => (1, 7),
        'L' => (1, 8),
        'Q' => (2, 0),
        'W' => (2, 1),
        'E' => (2, 2),
        'R' => (2, 3),
        'T' => (2, 4),
        'Y' => (2, 5),
        'U' => (2, 6),
        'I' => (2, 7),
        'O' => (2, 8),
        'P' => (2, 9),
        '1' => (3, 0),
        '2' => (3, 1),
        '3' => (3, 2),
        '4' => (3, 3),
        '5' => (3, 4),
        '6' => (3, 5),
        '7' => (3, 6),
        '8' => (3, 7),
        '9' => (3, 8),
        '0' => (3, 9),
        _ => (0, 0),
    }
}

/// Returns the distance between `k1` and `k2` keys.
///
/// Note that the distance is taken on the key grid, not on a physical
/// keyboard: the distance from `A` to each of `Q`, `W`, `S`, `Z` is `1`,
/// `2`, `1`, `1`.
pub fn distance(k1: Key, k2: Key) -> (d: Distance)
    requires
        is_key(k1),
        is_key(k2),
    ensures
        d as int == dist_spec(k1, k2),
        d <= 12,
{
    let (r1, p1) = position(k1);
    let (r2, p2) = position(k2);
    let dr: u8 = if r1 >= r2 {
        r1 - r2
    } else {
        r2 - r1
    };
    let dp: u8 = if p1 >= p2 {
        p1 - p2
    } else {
        p2 - p1
    };
    dr as u64 + dp as u64
}

} // verus!
