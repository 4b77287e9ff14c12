//! Building message text: characters, decimal numbers and tiles.

use vstd::prelude::*;

use vstd::string::StringExecFns;

use crate::tile::{Honor, Suit, Tile};

verus! {

/// Calls `String::push`, which appends one character to the string.
#[verifier::external_body]
pub(crate) fn push_char(s: &mut String, c: char)
    ensures
        final(s)@ == old(s)@.push(c),
{
    s.push(c);
}

/// The character of a decimal digit.
pub open spec fn digit_char(d: int) -> char {
    if d == 0 {
        '0'
    } else if d == 1 {
        '1'
    } else if d == 2 {
        '2'
    } else if d == 3 {
        '3'
    } else if d == 4 {
        '4'
    } else if d == 5 {
        '5'
    } else if d == 6 {
        '6'
    } else if d == 7 {
        '7'
    } else if d == 8 {
        '8'
    } else {
        '9'
    }
}

/// Decimal notation of `n`, most significant digit first, no leading zeros.
pub open spec fn decimal(n: nat) -> Seq<char>
    decreases n,
{
    if n < 10 {
        seq![digit_char(n as int)]
    } else {
        decimal(n / 10).push(digit_char((n % 10) as int))
    }
}

/// The character of a decimal digit.
pub fn digit(d: u8) -> (c: char)
    requires
        d < 10,
    ensures
        c == digit_char(d as int),
{
    if d == 0 {
        '0'
    } else if d == 1 {
        '1'
    } else if d == 2 {
        '2'
    } else if d == 3 {
        '3'
    } else if d == 4 {
        '4'
    } else if d == 5 {
        '5'
    } else if d == 6 {
        '6'
    } else if d == 7 {
        '7'
    } else if d == 8 {
        '8'
    } else {
        '9'
    }
}

/// Append the decimal notation of `n`.
pub fn push_decimal(s: &mut String, n: usize)
    ensures
        final(s)@ == old(s)@ + decimal(n as nat),
    decreases n,
{
    if n >= 10 {
        push_decimal(s, n / 10);
    }
    push_char(s, digit((n % 10) as u8));
    assert(s@ =~= old(s)@ + decimal(n as nat));
}

/// The name of a suit, as its variant is written.
pub open spec fn suit_name(s: Suit) -> Seq<char> {
    match s {
        Suit::Man => "Man"@,
        Suit::Pin => "Pin"@,
        Suit::Sou => "Sou"@,
    }
}

/// The name of an honor, as its variant is written.
pub open spec fn honor_name(h: Honor) -> Seq<char> {
    match h {
        Honor::East => "East"@,
        Honor::South => "South"@,
        Honor::West => "West"@,
        Honor::North => "North"@,
        Honor::White => "White"@,
        Honor::Green => "Green"@,
        Honor::Red => "Red"@,
    }
}

/// A tile written as its derived `Debug` form writes it:
/// `Suited { suit: Man, value: 1 }` or `Honor(East)`.
pub open spec fn tile_debug(t: Tile) -> Seq<char> {
    match t {
        Tile::Suited { suit, value } => "Suited { suit: "@ + suit_name(suit) + ", value: "@
            + decimal(value as nat) + " }"@,
        Tile::Honor(h) => "Honor("@ + honor_name(h) + ")"@,
    }
}

/// Append a tile in its `Debug` form.
pub fn push_tile_debug(s: &mut String, t: Tile)
    ensures
        final(s)@ == old(s)@ + tile_debug(t),
{
    match t {
        Tile::Suited { suit, value } => {
            s.append("Suited { suit: ");
            let name: &str = match suit {
                Suit::Man => "Man",
                Suit::Pin => "Pin",
                Suit::Sou => "Sou",
            };
            assert(name@ == suit_name(suit));
            s.append(name);
            s.append(", value: ");
            push_decimal(s, value as usize);
            s.append(" }");
        },
        Tile::Honor(h) => {
            s.append("Honor(");
            let name: &str = match h {
                Honor::East => "East",
                Honor::South => "South",
                Honor::West => "West",
                Honor::North => "North",
                Honor::White => "White",
                Honor::Green => "Green",
                Honor::Red => "Red",
            };
            assert(name@ == honor_name(h));
            s.append(name);
            s.append(")");
        },
    }
    assert(s@ =~= old(s)@ + tile_debug(t));
}

} // verus!
