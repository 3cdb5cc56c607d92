use vstd::prelude::*;

verus! {

/// Number of copies of a tile in the bag and the points it scores.
#[derive(Debug, Clone, Copy, PartialEq, Eq, Structural)]
pub struct LetterData {
    pub count: u32,
    pub score: u32,
}

pub const BOARD_SIZE: usize = 15;

pub const TOTAL_SIZE: usize = BOARD_SIZE * BOARD_SIZE;

pub const RACK_SIZE: usize = 7;

/// Letters `A`..`Z` plus the blank.
pub const UNIQUE_TILES: usize = 27;

// Premium squares.
pub const NORMAL: u8 = 0;

pub const DOUBLE_LETTER: u8 = 1;

pub const TRIPLE_LETTER: u8 = 2;

pub const DOUBLE_WORD: u8 = 3;

pub const TRIPLE_WORD: u8 = 4;

pub const QUADRUPLE_LETTER: u8 = 5;

pub const QUADRUPLE_WORD: u8 = 6;

/// Premium square of each board cell, row by row.
pub const TILE_BONUSES: [u8; 225] = [
    4, 0, 0, 1, 0, 0, 0, 4, 0, 0, 0, 1, 0, 0, 4, 0, 3, 0, 0, 0, 2, 0, 0, 0, 2, 0, 0, 0, 3, 0, 0, 0,
    3, 0, 0, 0, 1, 0, 1, 0, 0, 0, 3, 0, 0, 1, 0, 0, 3, 0, 0, 0, 1, 0, 0, 0, 3, 0, 0, 1, 0, 0, 0, 0,
    3, 0, 0, 0, 0, 0, 3, 0, 0, 0, 0, 0, 2, 0, 0, 0, 2, 0, 0, 0, 2, 0, 0, 0, 2, 0, 0, 0, 1, 0, 0, 0,
    1, 0, 1, 0, 0, 0, 1, 0, 0, 4, 0, 0, 1, 0, 0, 0, 3, 0, 0, 0, 1, 0, 0, 4, 0, 0, 1, 0, 0, 0, 1, 0,
    1, 0, 0, 0, 1, 0, 0, 0, 2, 0, 0, 0, 2, 0, 0, 0, 2, 0, 0, 0, 2, 0, 0, 0, 0, 0, 3, 0, 0, 0, 0, 0,
    3, 0, 0, 0, 0, 1, 0, 0, 3, 0, 0, 0, 1, 0, 0, 0, 3, 0, 0, 1, 0, 0, 3, 0, 0, 0, 1, 0, 1, 0, 0, 0,
    3, 0, 0, 0, 3, 0, 0, 0, 2, 0, 0, 0, 2, 0, 0, 0, 3, 0, 4, 0, 0, 1, 0, 0, 0, 4, 0, 0, 0, 1, 0, 0,
    4,
];

pub const BINGO_BONUS: u32 = 50;

pub const PIVOT: char = '>';

pub const EMPTY_TILE: char = '.';

pub const BLANK: char = '?';

/// Bit of a node's child mask that stands for the pivot edge.
pub const PIVOT_BIT_IDX: u32 = 27;

pub type BoardPosition = u8;

pub type TileBitboard = u32;

pub const INDEX_TO_CHAR: [char; 27] = [
    'A', 'B', 'C', 'D', 'E', 'F', 'G', 'H', 'I', 'J', 'K', 'L', 'M', 'N', 'O', 'P', 'Q', 'R', 'S',
    'T', 'U', 'V', 'W', 'X', 'Y', 'Z', '?',
];

pub open spec fn is_letter(c: char) -> bool {
    'A' <= c <= 'Z'
}

pub open spec fn is_tile(c: char) -> bool {
    is_letter(c) || c == BLANK
}

pub open spec fn to_upper(c: char) -> char {
    if 'a' <= c <= 'z' {
        ((c as u8) - 32) as u8 as char
    } else {
        c
    }
}

pub open spec fn tile_index(c: char) -> int {
    if c == BLANK {
        26
    } else {
        c as int - 'A' as int
    }
}

/// Index of a tile in the alphabet; lower-case letters count as their upper-case form.
pub fn get_index(letter: char) -> (r: usize)
    requires
        is_tile(to_upper(letter)),
    ensures
        r == tile_index(to_upper(letter)),
        r < UNIQUE_TILES,
{
    let upper = to_ascii_uppercase(letter);
    if upper == BLANK {
        26
    } else {
        (upper as u32 - 'A' as u32) as usize
    }
}

fn to_ascii_uppercase(c: char) -> (r: char)
    ensures
        r == to_upper(c),
{
    if 'a' <= c && c <= 'z' {
        ((c as u8) - 32) as char
    } else {
        c
    }
}

/// Copies of each tile in the bag, by tile index.
pub const TILE_COUNTS: [u32; 27] = [
    9, 2, 2, 4, 12, 2, 3, 2, 9, 1, 1, 4, 2, 6, 8, 2, 1, 6, 4, 6, 4, 2, 2, 1, 2, 1, 2,
];

/// Points of each tile, by tile index.
pub const TILE_SCORES: [u32; 27] = [
    1, 3, 3, 2, 1, 4, 2, 4, 1, 8, 5, 1, 3, 1, 1, 3, 10, 1, 1, 1, 1, 4, 4, 8, 4, 10, 0,
];

/// Bag count and score of a tile, in either case; none for other characters.
pub fn tile_data(letter: char) -> (r: Option<LetterData>)
    ensures
        r is Some <==> is_tile(to_upper(letter)),
        r matches Some(d) ==> d == (LetterData {
            count: TILE_COUNTS[tile_index(to_upper(letter))],
            score: TILE_SCORES[tile_index(to_upper(letter))],
        }),
{
    if !is_tile_exec(to_ascii_uppercase(letter)) {
        return None;
    }
    let idx = get_index(letter);
    Some(LetterData { count: TILE_COUNTS[idx], score: TILE_SCORES[idx] })
}

fn is_tile_exec(c: char) -> (r: bool)
    ensures
        r == is_tile(c),
{
    ('A' <= c && c <= 'Z') || c == BLANK
}

pub fn is_valid_letter(letter: char) -> (r: bool)
    ensures
        r == is_tile(to_upper(letter)),
{
    tile_data(letter).is_some()
}

} // verus!
