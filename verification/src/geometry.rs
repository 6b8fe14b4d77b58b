//! Geometry of the 26-key board: which hand, finger, row and column each
//! position belongs to, and its base cost.
use vstd::prelude::*;

verus! {

/// Number of keys on the board.
pub const NUM_KEYS: usize = 26;

#[derive(Clone, Copy, Debug, PartialEq, Eq, Structural)]
pub enum Hand {
    Left,
    Right,
}

#[derive(Clone, Copy, Debug, PartialEq, Eq, Structural)]
pub enum Finger {
    Pinky,
    Ring,
    Middle,
    Index,
}

#[derive(Clone, Copy, Debug, PartialEq, Eq, Structural)]
pub enum Row {
    Top,
    Home,
    Bottom,
}

/// One key of the board. `column` counts from the outer edge (0) towards the
/// centre; `base_cost_tenths` is the base cost in tenths of a unit.
#[derive(Clone, Copy, Debug, PartialEq, Eq, Structural)]
pub struct Key {
    pub idx: u8,
    pub hand: Hand,
    pub finger: Finger,
    pub row: Row,
    pub column: u8,
    pub base_cost_tenths: u32,
}

/// The key at position `pos` (0..26) of the board.
pub open spec fn spec_key(pos: int) -> Key {
    let (hand, finger, row, column, tenths) = if pos == 0 {
        (Hand::Left, Finger::Pinky, Row::Home, 0u8, 20u32)
    } else if pos == 1 {
        (Hand::Left, Finger::Pinky, Row::Home, 1, 10)
    } else if pos == 2 {
        (Hand::Left, Finger::Ring, Row::Top, 2, 30)
    } else if pos == 3 {
        (Hand::Left, Finger::Middle, Row::Top, 3, 20)
    } else if pos == 4 {
        (Hand::Left, Finger::Index, Row::Top, 4, 15)
    } else if pos == 5 {
        (Hand::Left, Finger::Index, Row::Top, 5, 21)
    } else if pos == 6 {
        (Hand::Left, Finger::Ring, Row::Home, 2, 5)
    } else if pos == 7 {
        (Hand::Left, Finger::Middle, Row::Home, 3, 0)
    } else if pos == 8 {
        (Hand::Left, Finger::Index, Row::Home, 4, 0)
    } else if pos == 9 {
        (Hand::Left, Finger::Index, Row::Home, 5, 15)
    } else if pos == 10 {
        (Hand::Left, Finger::Ring, Row::Bottom, 2, 25)
    } else if pos == 11 {
        (Hand::Left, Finger::Middle, Row::Bottom, 3, 15)
    } else if pos == 12 {
        (Hand::Left, Finger::Index, Row::Bottom, 4, 16)
    } else if pos == 13 {
        (Hand::Right, Finger::Index, Row::Top, 5, 21)
    } else if pos == 14 {
        (Hand::Right, Finger::Index, Row::Top, 4, 15)
    } else if pos == 15 {
        (Hand::Right, Finger::Middle, Row::Top, 3, 20)
    } else if pos == 16 {
        (Hand::Right, Finger::Ring, Row::Top, 2, 30)
    } else if pos == 17 {
        (Hand::Right, Finger::Index, Row::Home, 5, 15)
    } else if pos == 18 {
        (Hand::Right, Finger::Index, Row::Home, 4, 0)
    } else if pos == 19 {
        (Hand::Right, Finger::Middle, Row::Home, 3, 0)
    } else if pos == 20 {
        (Hand::Right, Finger::Ring, Row::Home, 2, 5)
    } else if pos == 21 {
        (Hand::Right, Finger::Index, Row::Bottom, 4, 16)
    } else if pos == 22 {
        (Hand::Right, Finger::Middle, Row::Bottom, 3, 15)
    } else if pos == 23 {
        (Hand::Right, Finger::Ring, Row::Bottom, 2, 25)
    } else if pos == 24 {
        (Hand::Right, Finger::Pinky, Row::Home, 1, 10)
    } else {
        (Hand::Right, Finger::Pinky, Row::Home, 0, 20)
    };
    Key { idx: pos as u8, hand, finger, row, column, base_cost_tenths: tenths }
}

/// The key at position `pos`.
pub fn key_at(pos: usize) -> (k: Key)
    requires
        pos < NUM_KEYS,
    ensures
        k == spec_key(pos as int),
{
    let (hand, finger, row, column, tenths): (Hand, Finger, Row, u8, u32) = match pos {
        0 => (Hand::Left, Finger::Pinky, Row::Home, 0, 20),
        1 => (Hand::Left, Finger::Pinky, Row::Home, 1, 10),
        2 => (Hand::Left, Finger::Ring, Row::Top, 2, 30),
        3 => (Hand::Left, Finger::Middle, Row::Top, 3, 20),
        4 => (Hand::Left, Finger::Index, Row::Top, 4, 15),
        5 => (Hand::Left, Finger::Index, Row::Top, 5, 21),
        6 => (Hand::Left, Finger::Ring, Row::Home, 2, 5),
        7 => (Hand::Left, Finger::Middle, Row::Home, 3, 0),
        8 => (Hand::Left, Finger::Index, Row::Home, 4, 0),
        9 => (Hand::Left, Finger::Index, Row::Home, 5, 15),
        10 => (Hand::Left, Finger::Ring, Row::Bottom, 2, 25),
        11 => (Hand::Left, Finger::Middle, Row::Bottom, 3, 15),
        12 => (Hand::Left, Finger::Index, Row::Bottom, 4, 16),
        13 => (Hand::Right, Finger::Index, Row::Top, 5, 21),
        14 => (Hand::Right, Finger::Index, Row::Top, 4, 15),
        15 => (Hand::Right, Finger::Middle, Row::Top, 3, 20),
        16 => (Hand::Right, Finger::Ring, Row::Top, 2, 30),
        17 => (Hand::Right, Finger::Index, Row::Home, 5, 15),
        18 => (Hand::Right, Finger::Index, Row::Home, 4, 0),
        19 => (Hand::Right, Finger::Middle, Row::Home, 3, 0),
        20 => (Hand::Right, Finger::Ring, Row::Home, 2, 5),
        21 => (Hand::Right, Finger::Index, Row::Bottom, 4, 16),
        22 => (Hand::Right, Finger::Middle, Row::Bottom, 3, 15),
        23 => (Hand::Right, Finger::Ring, Row::Bottom, 2, 25),
        24 => (Hand::Right, Finger::Pinky, Row::Home, 1, 10),
        _ => (Hand::Right, Finger::Pinky, Row::Home, 0, 20),
    };
    Key { idx: pos as u8, hand, finger, row, column, base_cost_tenths: tenths }
}

/// The board's layout of fingers and hands: positions 0 to 12 are the left
/// hand's and 13 to 25 the right hand's; on either hand columns 0 and 1 are
/// the pinky's, column 2 the ring finger's, column 3 the middle finger's and
/// columns 4 and 5 the index finger's.
pub proof fn lemma_fingers_by_column(p: int)
    requires
        0 <= p < NUM_KEYS,
    ensures
        spec_key(p).idx == p,
        spec_key(p).column <= 5,
        (spec_key(p).hand == Hand::Left) == (p < 13),
        spec_key(p).column <= 1 ==> spec_key(p).finger == Finger::Pinky,
        spec_key(p).column == 2 ==> spec_key(p).finger == Finger::Ring,
        spec_key(p).column == 3 ==> spec_key(p).finger == Finger::Middle,
        spec_key(p).column >= 4 ==> spec_key(p).finger == Finger::Index,
{
}

} // verus!
