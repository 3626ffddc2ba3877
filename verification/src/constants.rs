//! Constants of the Quantik board and of its binary encoding.
use vstd::prelude::*;

verus! {

/// The version of this library.
pub const PACKAGE_VERSION: &'static str = "0.1.0";

/// Version byte of the binary state encoding.
pub const VERSION: u8 = 1;

/// Flag bit that marks an encoded state as canonical.
pub const FLAG_CANON: u8 = 2;

/// Each player owns two pieces of every shape.
pub const MAX_PIECES_PER_SHAPE: u8 = 2;

pub const NUM_SHAPES: usize = 4;

pub const NUM_PLAYERS: usize = 2;

pub const BOARD_SIZE: usize = 16;

/// Two players times four shapes.
pub const NUM_PLANES: usize = 8;

pub const ROW_MASKS: [u16; 4] = [0x000F, 0x00F0, 0x0F00, 0xF000];

pub const COLUMN_MASKS: [u16; 4] = [0x1111, 0x2222, 0x4444, 0x8888];

pub const ZONE_MASKS: [u16; 4] = [0x0033, 0x00CC, 0x3300, 0xCC00];

/// The twelve lines of the board: rows, then columns, then zones.
pub const WIN_MASKS: [u16; 12] = [
    0x000F,
    0x00F0,
    0x0F00,
    0xF000,
    0x1111,
    0x2222,
    0x4444,
    0x8888,
    0x0033,
    0x00CC,
    0x3300,
    0xCC00,
];

/// Letters of the shapes, as player 0 writes them.
pub const SHAPE_LETTERS: [char; 4] = ['A', 'B', 'C', 'D'];

/// The cells of line `k`, as a mask over the sixteen cells.
pub open spec fn line(k: int) -> u16 {
    if k == 0 {
        0x000F
    } else if k == 1 {
        0x00F0
    } else if k == 2 {
        0x0F00
    } else if k == 3 {
        0xF000
    } else if k == 4 {
        0x1111
    } else if k == 5 {
        0x2222
    } else if k == 6 {
        0x4444
    } else if k == 7 {
        0x8888
    } else if k == 8 {
        0x0033
    } else if k == 9 {
        0x00CC
    } else if k == 10 {
        0x3300
    } else {
        0xCC00
    }
}

/// [`WIN_MASKS`] lists the lines in order.
pub proof fn lemma_win_masks()
    ensures
        WIN_MASKS@.len() == 12,
        forall|k: int| 0 <= k < 12 ==> #[trigger] WIN_MASKS@[k] == line(k),
{
}

} // verus!
