//! Tiles and their 34-slot index.
//!
//! Index mapping: 0–8 = 1m–9m, 9–17 = 1p–9p, 18–26 = 1s–9s,
//! 27–33 = East, South, West, North, White, Green, Red.

use vstd::prelude::*;

verus! {

/// The three numbered suits.
#[derive(Debug, Clone, Copy, PartialEq, Eq, Structural, Hash)]
pub enum Suit {
    Man,
    Pin,
    Sou,
}

/// The seven honor tiles: four winds, three dragons.
#[derive(Debug, Clone, Copy, PartialEq, Eq, Structural, Hash)]
pub enum Honor {
    East,
    South,
    West,
    North,
    White,
    Green,
    Red,
}

/// A tile kind: a numbered tile of a suit (value 1–9) or an honor.
#[derive(Debug, Clone, Copy, PartialEq, Eq, Structural, Hash)]
pub enum Tile {
    Suited { suit: Suit, value: u8 },
    Honor(Honor),
}

/// The kind of a kan declaration.
#[derive(Debug, Clone, Copy, PartialEq, Eq, Structural, Hash)]
pub enum KanType {
    /// Daiminkan: called on a discard, three tiles come from the hand.
    Open,
    /// Ankan: all four tiles come from the hand.
    Closed,
    /// Kakan: a fourth tile added to an existing pon.
    Added,
}

/// Number of distinct tile kinds.
pub const NUM_KINDS: usize = 34;

pub open spec fn suit_base(s: Suit) -> int {
    match s {
        Suit::Man => 0,
        Suit::Pin => 9,
        Suit::Sou => 18,
    }
}

pub open spec fn honor_offset(h: Honor) -> int {
    match h {
        Honor::East => 0,
        Honor::South => 1,
        Honor::West => 2,
        Honor::North => 3,
        Honor::White => 4,
        Honor::Green => 5,
        Honor::Red => 6,
    }
}

/// The suit whose block of nine indices holds `i` (for `0 <= i < 27`).
pub open spec fn suit_of_index(i: int) -> Suit {
    if i < 9 {
        Suit::Man
    } else if i < 18 {
        Suit::Pin
    } else {
        Suit::Sou
    }
}

/// The honor at offset `k` past index 27; offsets of 6 or more give Red.
pub open spec fn honor_at(k: int) -> Honor {
    if k == 0 {
        Honor::East
    } else if k == 1 {
        Honor::South
    } else if k == 2 {
        Honor::West
    } else if k == 3 {
        Honor::North
    } else if k == 4 {
        Honor::White
    } else if k == 5 {
        Honor::Green
    } else {
        Honor::Red
    }
}

/// The tile that `index_to_tile` gives for index `i`.
pub open spec fn tile_at(i: int) -> Tile {
    if i < 27 {
        Tile::Suited { suit: suit_of_index(i), value: (i % 9 + 1) as u8 }
    } else {
        Tile::Honor(honor_at(i - 27))
    }
}

impl Tile {
    /// A suited tile has a value from 1 to 9.
    pub open spec fn wf(self) -> bool {
        match self {
            Tile::Suited { value, .. } => 1 <= value <= 9,
            Tile::Honor(_) => true,
        }
    }

    /// The tile's slot in the 34-entry count array.
    pub open spec fn index(self) -> int {
        match self {
            Tile::Suited { suit, value } => suit_base(suit) + value - 1,
            Tile::Honor(h) => 27 + honor_offset(h),
        }
    }

    /// A numbered tile of `suit`.
    pub fn suited(suit: Suit, value: u8) -> (t: Tile)
        requires
            1 <= value <= 9,
        ensures
            t == (Tile::Suited { suit, value }),
            t.wf(),
    {
        Tile::Suited { suit, value }
    }

    /// An honor tile.
    pub fn honor(honor: Honor) -> (t: Tile)
        ensures
            t == Tile::Honor(honor),
            t.wf(),
    {
        Tile::Honor(honor)
    }
}

/// Convert a tile to its array index (0-33).
///
/// Man 1–9 → 0–8, Pin 1–9 → 9–17, Sou 1–9 → 18–26, honors → 27–33.
pub fn tile_to_index(tile: Tile) -> (idx: usize)
    requires
        tile.wf(),
    ensures
        idx == tile.index(),
        idx < 34,
{
    match tile {
        Tile::Suited { suit, value } => {
            let base: usize = match suit {
                Suit::Man => 0,
                Suit::Pin => 9,
                Suit::Sou => 18,
            };
            base + (value as usize - 1)
        },
        Tile::Honor(honor) => {
            let offset: usize = match honor {
                Honor::East => 0,
                Honor::South => 1,
                Honor::West => 2,
                Honor::North => 3,
                Honor::White => 4,
                Honor::Green => 5,
                Honor::Red => 6,
            };
            27 + offset
        },
    }
}

/// Convert an array index back to a tile; indices past 33 give the Red dragon.
pub fn index_to_tile(idx: usize) -> (t: Tile)
    ensures
        t == tile_at(idx as int),
        t.wf(),
        idx < 34 ==> t.index() == idx,
{
    if idx < 27 {
        let suit = if idx / 9 == 0 {
            Suit::Man
        } else if idx / 9 == 1 {
            Suit::Pin
        } else {
            Suit::Sou
        };
        let value: u8 = (idx % 9) as u8 + 1;
        Tile::suited(suit, value)
    } else {
        let honor = match idx - 27 {
            0 => Honor::East,
            1 => Honor::South,
            2 => Honor::West,
            3 => Honor::North,
            4 => Honor::White,
            5 => Honor::Green,
            _ => Honor::Red,
        };
        Tile::honor(honor)
    }
}

/// Index and tile are inverse: every index below 34 names a tile that maps
/// back to it, and every well-formed tile is the tile at its own index.
pub proof fn lemma_index_tile_roundtrip(i: int, t: Tile)
    requires
        0 <= i < 34,
        t.wf(),
    ensures
        tile_at(i).wf(),
        tile_at(i).index() == i,
        0 <= t.index() < 34,
        tile_at(t.index()) == t,
{
}

} // verus!
