//! Winning lines, turns and the end of the game.
use crate::bitboard::{pieces, Bitboard};
use crate::constants::{lemma_win_masks, line, WIN_MASKS};
use vstd::prelude::*;

verus! {

/// The cells that hold a piece of `shape`, whoever owns it.
pub open spec fn shape_union(b: Seq<u16>, shape: int) -> u16 {
    b[shape] | b[shape + 4]
}

/// Whether line `k` holds all four shapes.
pub open spec fn line_complete(b: Seq<u16>, k: int) -> bool {
    forall|s: int| 0 <= s < 4 ==> #[trigger] shape_union(b, s) & line(k) != 0
}

/// Whether some line holds all four shapes.
pub open spec fn won(b: Seq<u16>) -> bool {
    exists|k: int| 0 <= k < 12 && #[trigger] line_complete(b, k)
}

/// The player to move: player 0 first, then in turns. `None` if the piece
/// counts fit no such sequence of turns.
pub open spec fn to_move(b: Seq<u16>) -> Option<u8> {
    if pieces(b, 0) == pieces(b, 1) {
        Some(0u8)
    } else if pieces(b, 0) == pieces(b, 1) + 1 {
        Some(1u8)
    } else {
        None
    }
}

/// The number of pieces on the board.
pub open spec fn total_pieces(b: Seq<u16>) -> int {
    pieces(b, 0) + pieces(b, 1)
}

#[derive(Clone, Copy, Debug, PartialEq, Eq, Structural)]
pub enum WinStatus {
    NoWin,
    Player0Wins,
    Player1Wins,
}

/// Who has won on the planes `b`: the last player to move, which is player 0
/// exactly if player 0 has more pieces on the board.
pub open spec fn win_status(b: Seq<u16>) -> WinStatus {
    if !won(b) {
        WinStatus::NoWin
    } else if pieces(b, 0) > pieces(b, 1) {
        WinStatus::Player0Wins
    } else {
        WinStatus::Player1Wins
    }
}

/// Check whether any line contains all 4 distinct shapes (regardless of color).
pub fn has_winning_line(bb: &Bitboard) -> (r: bool)
    ensures
        r <==> won(bb@),
{
    let a = bb.planes[0] | bb.planes[4];
    let b = bb.planes[1] | bb.planes[5];
    let c = bb.planes[2] | bb.planes[6];
    let d = bb.planes[3] | bb.planes[7];
    let mut k: usize = 0;
    while k < 12
        invariant
            k <= 12,
            a == shape_union(bb@, 0),
            b == shape_union(bb@, 1),
            c == shape_union(bb@, 2),
            d == shape_union(bb@, 3),
            forall|j: int| 0 <= j < k ==> !#[trigger] line_complete(bb@, j),
        decreases 12 - k,
    {
        proof {
            lemma_win_masks();
        }
        let mask = WIN_MASKS[k];
        assert(mask == line(k as int));
        if a & mask != 0 && b & mask != 0 && c & mask != 0 && d & mask != 0 {
            assert(line_complete(bb@, k as int));
            return true;
        }
        assert(!line_complete(bb@, k as int)) by {
            assert(shape_union(bb@, 0) & line(k as int) == 0 || shape_union(bb@, 1) & line(
                k as int,
            ) == 0 || shape_union(bb@, 2) & line(k as int) == 0 || shape_union(bb@, 3) & line(
                k as int,
            ) == 0);
        }
        k = k + 1;
    }
    false
}

/// Determine winner. The last player to move (the one with more pieces on the
/// board) is credited with the win.
pub fn check_winner(bb: &Bitboard) -> (w: WinStatus)
    ensures
        w == win_status(bb@),
{
    if !has_winning_line(bb) {
        return WinStatus::NoWin;
    }
    let p0 = bb.player_piece_count(0);
    let p1 = bb.player_piece_count(1);
    if p0 > p1 {
        WinStatus::Player0Wins
    } else {
        WinStatus::Player1Wins
    }
}

/// Whose turn is it? Player 0 moves first; after that they alternate.
/// Returns `None` if the piece counts are inconsistent.
pub fn current_player(bb: &Bitboard) -> (p: Option<u8>)
    ensures
        p == to_move(bb@),
{
    let p0 = bb.player_piece_count(0);
    let p1 = bb.player_piece_count(1);
    if p0 == p1 {
        Some(0)
    } else if p0 == p1 + 1 {
        Some(1)
    } else {
        None
    }
}

/// Whether a line has been completed.
pub fn is_game_over(bb: &Bitboard) -> (r: bool)
    ensures
        r <==> won(bb@),
{
    check_winner(bb) != WinStatus::NoWin
}

} // verus!
