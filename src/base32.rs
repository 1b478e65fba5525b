//! The base-32 alphabet of geohash strings: digits, then the lower-case
//! letters without a, i, l and o.

use vstd::prelude::*;

verus! {

/// The character of a base-32 digit.
pub open spec fn base32_char_of(d: nat) -> char {
    if d == 0 {
        '0'
    } else if d == 1 {
        '1'
    } else if d == 2 {
        '2'
    } else if d == 3 {
        '3'
    } else if d == 4 {
        '4'
    } else if d == 5 {
        '5'
    } else if d == 6 {
        '6'
    } else if d == 7 {
        '7'
    } else if d == 8 {
        '8'
    } else if d == 9 {
        '9'
    } else if d == 10 {
        'b'
    } else if d == 11 {
        'c'
    } else if d == 12 {
        'd'
    } else if d == 13 {
        'e'
    } else if d == 14 {
        'f'
    } else if d == 15 {
        'g'
    } else if d == 16 {
        'h'
    } else if d == 17 {
        'j'
    } else if d == 18 {
        'k'
    } else if d == 19 {
        'm'
    } else if d == 20 {
        'n'
    } else if d == 21 {
        'p'
    } else if d == 22 {
        'q'
    } else if d == 23 {
        'r'
    } else if d == 24 {
        's'
    } else if d == 25 {
        't'
    } else if d == 26 {
        'u'
    } else if d == 27 {
        'v'
    } else if d == 28 {
        'w'
    } else if d == 29 {
        'x'
    } else if d == 30 {
        'y'
    } else {
        'z'
    }
}

/// The digit of a base-32 character, if it is one.
pub open spec fn base32_value_of(c: char) -> Option<nat> {
    match c {
        '0' => Some(0),
        '1' => Some(1),
        '2' => Some(2),
        '3' => Some(3),
        '4' => Some(4),
        '5' => Some(5),
        '6' => Some(6),
        '7' => Some(7),
        '8' => Some(8),
        '9' => Some(9),
        'b' => Some(10),
        'c' => Some(11),
        'd' => Some(12),
        'e' => Some(13),
        'f' => Some(14),
        'g' => Some(15),
        'h' => Some(16),
        'j' => Some(17),
        'k' => Some(18),
        'm' => Some(19),
        'n' => Some(20),
        'p' => Some(21),
        'q' => Some(22),
        'r' => Some(23),
        's' => Some(24),
        't' => Some(25),
        'u' => Some(26),
        'v' => Some(27),
        'w' => Some(28),
        'x' => Some(29),
        'y' => Some(30),
        'z' => Some(31),
        _ => None,
    }
}

/// Digits and characters correspond one to one.
pub proof fn lemma_base32_inverse()
    ensures
        forall|d: nat| d < 32 ==> base32_value_of(#[trigger] base32_char_of(d)) == Some(d),
        forall|c: char|
            #[trigger] base32_value_of(c) matches Some(d) ==> d < 32 && base32_char_of(d) == c,
{
}

/// The character of a base-32 digit.
pub(crate) fn base32_char(d: u64) -> (c: char)
    requires
        d < 32,
    ensures
        c == base32_char_of(d as nat),
{
    match d {
        0 => '0',
        1 => '1',
        2 => '2',
        3 => '3',
        4 => '4',
        5 => '5',
        6 => '6',
        7 => '7',
        8 => '8',
        9 => '9',
        10 => 'b',
        11 => 'c',
        12 => 'd',
        13 => 'e',
        14 => 'f',
        15 => 'g',
        16 => 'h',
        17 => 'j',
        18 => 'k',
        19 => 'm',
        20 => 'n',
        21 => 'p',
        22 => 'q',
        23 => 'r',
        24 => 's',
        25 => 't',
        26 => 'u',
        27 => 'v',
        28 => 'w',
        29 => 'x',
        30 => 'y',
        _ => 'z',
    }
}

/// The digit of a base-32 character, or `None` for a character outside the
/// alphabet.
pub(crate) fn base32_value(c: char) -> (r: Option<u64>)
    ensures
        r matches Some(v) ==> base32_value_of(c) == Some(v as nat),
        r is None ==> base32_value_of(c) is None,
{
    match c {
        '0' => Some(0),
        '1' => Some(1),
        '2' => Some(2),
        '3' => Some(3),
        '4' => Some(4),
        '5' => Some(5),
        '6' => Some(6),
        '7' => Some(7),
        '8' => Some(8),
        '9' => Some(9),
        'b' => Some(10),
        'c' => Some(11),
        'd' => Some(12),
        'e' => Some(13),
        'f' => Some(14),
        'g' => Some(15),
        'h' => Some(16),
        'j' => Some(17),
        'k' => Some(18),
        'm' => Some(19),
        'n' => Some(20),
        'p' => Some(21),
        'q' => Some(22),
        'r' => Some(23),
        's' => Some(24),
        't' => Some(25),
        'u' => Some(26),
        'v' => Some(27),
        'w' => Some(28),
        'x' => Some(29),
        'y' => Some(30),
        'z' => Some(31),
        _ => None,
    }
}

} // verus!
