//! The fixed physical geometry of the target keyboard: positions, the
//! per-key base effort table, the per-layer surcharge, the finger
//! assignment and the left/right hand split.

use vstd::prelude::*;

verus! {

/// Number of physical rows.
pub const ROW_COUNT: usize = 5;

/// Number of addressable layers per key.
pub const LAYER_COUNT: usize = 6;

/// A coordinate into a layout: row, key slot within the row (left to
/// right), and modifier layer. Equality is structural.
#[derive(Clone, Copy, PartialEq, Eq, Structural, Debug, Hash)]
pub struct Position {
    pub row: usize,
    pub slot: usize,
    pub layer: usize,
}

/// One of the ten fingers, or the sentinel for a position outside the
/// finger table.
#[derive(Clone, Copy, PartialEq, Eq, Structural, Debug, Hash)]
pub enum Finger {
    PinkyLeft,
    RingLeft,
    MiddleLeft,
    IndexLeft,
    ThumbLeft,
    ThumbRight,
    IndexRight,
    MiddleRight,
    RingRight,
    PinkyRight,
    Unassigned,
}

/// How many key slots the given row has.
pub open spec fn spec_row_width(row: int) -> int {
    if row <= 2 {
        14
    } else if row == 3 {
        13
    } else {
        8
    }
}

/// A position that the geometry tables cover.
pub open spec fn pos_ok(p: Position) -> bool {
    p.row < ROW_COUNT && p.slot < spec_row_width(p.row as int) && p.layer < LAYER_COUNT
}

/// How many key slots the given row has.
pub fn row_width(row: usize) -> (w: usize)
    requires
        row < ROW_COUNT,
    ensures
        w == spec_row_width(row as int),
{
    if row <= 2 {
        14
    } else if row == 3 {
        13
    } else {
        8
    }
}

/// Base effort of reaching the key at (row, slot): home-row keys under
/// strong fingers score lowest, stretches score highest.
pub open spec fn spec_key_base_cost(row: int, slot: int) -> u8 {
    let table: Seq<Seq<u8>> = seq![
        seq![80u8, 70, 60, 50, 50, 60, 60, 50, 50, 50, 50, 60, 70, 80],
        seq![24u8, 16, 10, 5, 12, 17, 20, 13, 5, 9, 11, 20, 36, 0],
        seq![9u8, 5, 3, 3, 3, 6, 6, 3, 3, 3, 5, 9, 30, 6],
        seq![20u8, 16, 19, 24, 20, 9, 30, 10, 8, 22, 22, 17, 19],
        seq![0u8, 0, 0, 3, 7, 0, 0, 0],
    ];
    table[row][slot]
}

/// Surcharge for addressing the given modifier layer.
pub open spec fn spec_layer_cost(layer: int) -> u8 {
    let table: Seq<u8> = seq![0u8, 20, 9, 16, 29, 25];
    table[layer]
}

/// Effort of one keystroke at `p`: base cost of the key plus the
/// surcharge of its layer.
pub open spec fn spec_position_cost(p: Position) -> int {
    spec_key_base_cost(p.row as int, p.slot as int) + spec_layer_cost(p.layer as int)
}

/// Base effort of reaching the key at (row, slot).
pub fn key_base_cost(row: usize, slot: usize) -> (c: u8)
    requires
        row < ROW_COUNT,
        slot < spec_row_width(row as int),
    ensures
        c == spec_key_base_cost(row as int, slot as int),
        c <= 80,
{
    let costs_0: [u8; 14] = [80, 70, 60, 50, 50, 60, 60, 50, 50, 50, 50, 60, 70, 80];
    let costs_1: [u8; 14] = [24, 16, 10, 5, 12, 17, 20, 13, 5, 9, 11, 20, 36, 0];
    let costs_2: [u8; 14] = [9, 5, 3, 3, 3, 6, 6, 3, 3, 3, 5, 9, 30, 6];
    let costs_3: [u8; 13] = [20, 16, 19, 24, 20, 9, 30, 10, 8, 22, 22, 17, 19];
    let costs_4: [u8; 8] = [0, 0, 0, 3, 7, 0, 0, 0];
    if row == 0 {
        costs_0[slot]
    } else if row == 1 {
        costs_1[slot]
    } else if row == 2 {
        costs_2[slot]
    } else if row == 3 {
        costs_3[slot]
    } else {
        costs_4[slot]
    }
}

/// Surcharge for addressing the given modifier layer.
pub fn layer_cost(layer: usize) -> (c: u8)
    requires
        layer < LAYER_COUNT,
    ensures
        c == spec_layer_cost(layer as int),
        c <= 29,
{
    let costs: [u8; 6] = [0, 20, 9, 16, 29, 25];
    costs[layer]
}

/// The lowest slot index of the given row that the right hand reaches;
/// all lower slots belong to the left hand.
pub open spec fn spec_right_hand_lowest(row: int) -> int {
    let table: Seq<int> = seq![7, 6, 6, 7, 3];
    table[row]
}

/// The lowest slot index of the given row that the right hand reaches.
pub fn right_hand_lowest(row: usize) -> (s: usize)
    requires
        row < ROW_COUNT,
    ensures
        s == spec_right_hand_lowest(row as int),
{
    let table: [usize; 5] = [7, 6, 6, 7, 3];
    table[row]
}

/// Whether a keystroke at `p` is typed with the left hand.
pub open spec fn spec_pos_is_left(p: Position) -> bool {
    (p.slot as int) < spec_right_hand_lowest(p.row as int)
}

/// The finger that by default rests on or reaches (row, slot), looking
/// at the first layer of that key.
pub open spec fn spec_finger_for(row: int, slot: int) -> Finger {
    if !(0 <= row < ROW_COUNT && 0 <= slot < spec_row_width(row)) {
        Finger::Unassigned
    } else if row == 4 {
        if slot <= 1 {
            Finger::PinkyLeft
        } else if slot == 2 {
            Finger::ThumbLeft
        } else if slot <= 4 {
            Finger::ThumbRight
        } else {
            Finger::PinkyRight
        }
    } else if row == 0 || row == 3 {
        if slot <= 2 {
            Finger::PinkyLeft
        } else if slot == 3 {
            Finger::RingLeft
        } else if slot == 4 {
            Finger::MiddleLeft
        } else if slot <= 6 {
            Finger::IndexLeft
        } else if slot <= 8 {
            Finger::IndexRight
        } else if slot == 9 {
            Finger::MiddleRight
        } else if slot == 10 {
            Finger::RingRight
        } else {
            Finger::PinkyRight
        }
    } else {
        if slot <= 1 {
            Finger::PinkyLeft
        } else if slot == 2 {
            Finger::RingLeft
        } else if slot == 3 {
            Finger::MiddleLeft
        } else if slot <= 5 {
            Finger::IndexLeft
        } else if slot <= 7 {
            Finger::IndexRight
        } else if slot == 8 {
            Finger::MiddleRight
        } else if slot == 9 {
            Finger::RingRight
        } else {
            Finger::PinkyRight
        }
    }
}

/// The finger that by default reaches (row, slot).
pub fn finger_for(row: usize, slot: usize) -> (f: Finger)
    requires
        row < ROW_COUNT,
        slot < spec_row_width(row as int),
    ensures
        f == spec_finger_for(row as int, slot as int),
{
    if row == 4 {
        if slot <= 1 {
            Finger::PinkyLeft
        } else if slot == 2 {
            Finger::ThumbLeft
        } else if slot <= 4 {
            Finger::ThumbRight
        } else {
            Finger::PinkyRight
        }
    } else if row == 0 || row == 3 {
        if slot <= 2 {
            Finger::PinkyLeft
        } else if slot == 3 {
            Finger::RingLeft
        } else if slot == 4 {
            Finger::MiddleLeft
        } else if slot <= 6 {
            Finger::IndexLeft
        } else if slot <= 8 {
            Finger::IndexRight
        } else if slot == 9 {
            Finger::MiddleRight
        } else if slot == 10 {
            Finger::RingRight
        } else {
            Finger::PinkyRight
        }
    } else {
        if slot <= 1 {
            Finger::PinkyLeft
        } else if slot == 2 {
            Finger::RingLeft
        } else if slot == 3 {
            Finger::MiddleLeft
        } else if slot <= 5 {
            Finger::IndexLeft
        } else if slot <= 7 {
            Finger::IndexRight
        } else if slot == 8 {
            Finger::MiddleRight
        } else if slot == 9 {
            Finger::RingRight
        } else {
            Finger::PinkyRight
        }
    }
}

/// Whether the finger belongs to the left hand.
pub open spec fn spec_finger_is_left(f: Finger) -> bool {
    f == Finger::PinkyLeft || f == Finger::RingLeft || f == Finger::MiddleLeft || f
        == Finger::IndexLeft || f == Finger::ThumbLeft
}

} // verus!
