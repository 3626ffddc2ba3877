//! Positions of an opening book.
use crate::bitboard::{le_bytes, pieces, Bitboard};
use crate::constants::{line, lemma_win_masks, WIN_MASKS};
use crate::game::{current_player, has_winning_line, to_move, won};
use crate::game_value::finished;
use crate::moves::{generate_legal_moves, legal_moves, Move};
use crate::state::{canonical_key_of, State};
use crate::text::{decimal, push_decimal};
use vstd::prelude::*;

verus! {

/// The key of a board in a book: the same for symmetric boards.
pub fn canonical_key(bb: &Bitboard) -> (key: [u8; 18])
    ensures
        key@ == canonical_key_of(bb@),
{
    State::new(*bb).canonical_key()
}

/// The board in a key, whose planes follow two bytes.
pub fn key_to_bb(key: &[u8; 18]) -> (bb: Bitboard)
    ensures
        le_bytes(bb@) == key@.skip(2),
{
    let mut buf: [u8; 16] = [0u8; 16];
    let mut i: usize = 0;
    while i < 16
        invariant
            i <= 16,
            forall|k: int| 0 <= k < i ==> #[trigger] buf@[k] == key@[k + 2],
        decreases 16 - i,
    {
        buf[i] = key[i + 2];
        i = i + 1;
    }
    assert(buf@ =~= key@.skip(2));
    Bitboard::from_le_bytes(&buf)
}

/// A move as a book writes it.
pub open spec fn book_move(m: Move) -> Seq<char> {
    seq!['P'] + decimal(m.player as nat) + seq!['S'] + decimal(m.shape as nat) + seq!['P']
        + decimal(m.position as nat)
}

/// A move as a book writes it: player, shape and position.
pub fn move_to_string(m: &Move) -> (s: String)
    ensures
        s@ == book_move(*m),
{
    let mut s = String::new();
    s.push('P');
    push_decimal(&mut s, m.player as u64);
    s.push('S');
    push_decimal(&mut s, m.shape as u64);
    s.push('P');
    push_decimal(&mut s, m.position as u64);
    assert(s@ =~= book_move(*m));
    s
}

/// Whether nothing can be played any more.
pub fn is_terminal(bb: &Bitboard) -> (r: bool)
    ensures
        r <==> finished(bb@),
{
    has_winning_line(bb) || generate_legal_moves(bb).len() == 0
}

/// The winner of a finished game: with a complete line the player with more pieces
/// on the board, player 1 if there are equally many; else the opponent of the side
/// that cannot move.
pub open spec fn winner_of(b: Seq<u16>) -> Option<u8> {
    if won(b) {
        Some(
            if pieces(b, 0) > pieces(b, 1) {
                0
            } else {
                1
            },
        )
    } else if legal_moves(b).len() == 0 {
        match to_move(b) {
            Some(p) => Some((1 - p) as u8),
            None => None,
        }
    } else {
        None
    }
}

/// The winner of a finished game.
pub fn determine_winner(bb: &Bitboard) -> (w: Option<u8>)
    ensures
        w == winner_of(bb@),
{
    if has_winning_line(bb) {
        if bb.player_piece_count(0) > bb.player_piece_count(1) {
            Some(0)
        } else {
            Some(1)
        }
    } else if generate_legal_moves(bb).len() == 0 {
        match current_player(bb) {
            Some(p) => Some(1 - p),
            None => None,
        }
    } else {
        None
    }
}

/// The score of a finished game for player 0.
pub open spec fn final_score(b: Seq<u16>) -> int {
    if won(b) {
        if pieces(b, 0) > pieces(b, 1) {
            1
        } else {
            -1
        }
    } else {
        match to_move(b) {
            Some(p) => if p == 0 {
                -1
            } else {
                1
            },
            None => 0,
        }
    }
}

/// The score of a finished game for player 0: one for a win and minus one for a
/// loss.
pub fn terminal_score(bb: &Bitboard) -> (s: i8)
    ensures
        s == final_score(bb@),
{
    if has_winning_line(bb) {
        if bb.player_piece_count(0) > bb.player_piece_count(1) {
            1
        } else {
            -1
        }
    } else {
        match current_player(bb) {
            Some(p) => if p == 0 {
                -1
            } else {
                1
            },
            None => 0,
        }
    }
}

/// The score of a finished game is the winner's.
pub proof fn law_score_tells_the_winner(b: Seq<u16>)
    requires
        finished(b),
    ensures
        winner_of(b) == Some(0u8) <==> final_score(b) == 1,
        winner_of(b) == Some(1u8) <==> final_score(b) == -1,
        winner_of(b) is None <==> final_score(b) == 0,
{
}

/// How many shapes a player has on a line, among the first `n`.
pub open spec fn shapes_on(b: Seq<u16>, player: int, k: int, n: int) -> int
    decreases n,
{
    if n <= 0 {
        0
    } else {
        shapes_on(b, player, k, n - 1) + if b[player * 4 + n - 1] & line(k) != 0 {
            1int
        } else {
            0
        }
    }
}

/// What a line is worth to a player who is alone on it, in tenths.
pub open spec fn line_worth(shapes: int) -> int {
    if shapes == 3 {
        3
    } else if shapes == 2 {
        1
    } else {
        0
    }
}

/// What the first `n` lines are worth to player 0, in tenths.
pub open spec fn lines_worth(b: Seq<u16>, n: int) -> int
    decreases n,
{
    if n <= 0 {
        0
    } else {
        let p0 = shapes_on(b, 0, n - 1, 4);
        let p1 = shapes_on(b, 1, n - 1, 4);
        lines_worth(b, n - 1) + (if p1 == 0 {
            line_worth(p0)
        } else {
            0
        }) - (if p0 == 0 {
            line_worth(p1)
        } else {
            0
        })
    }
}

/// The quick evaluation of a position for player 0, in tenths: what its lines are
/// worth, within minus one and one.
pub open spec fn quick_value(b: Seq<u16>) -> int {
    let v = lines_worth(b, 12);
    if v > 10 {
        10
    } else if v < -10 {
        -10
    } else {
        v
    }
}

/// How many shapes a player has on a line.
pub(crate) fn count_shapes(bb: &Bitboard, player: usize, k: usize) -> (n: i32)
    requires
        player < 2,
        k < 12,
    ensures
        n == shapes_on(bb@, player as int, k as int, 4),
        0 <= n <= 4,
{
    proof {
        lemma_win_masks();
    }
    let mask: u16 = WIN_MASKS[k];
    let mut n: i32 = 0;
    let mut s: usize = 0;
    while s < 4
        invariant
            s <= 4,
            player < 2,
            mask == line(k as int),
            0 <= n <= s,
            n == shapes_on(bb@, player as int, k as int, s as int),
        decreases 4 - s,
    {
        if bb.planes[player * 4 + s] & mask != 0 {
            n = n + 1;
        }
        s = s + 1;
    }
    n
}

fn worth(shapes: i32) -> (w: i32)
    ensures
        w == line_worth(shapes as int),
        0 <= w <= 3,
{
    if shapes == 3 {
        3
    } else if shapes == 2 {
        1
    } else {
        0
    }
}

/// The quick evaluation of a position for player 0, in tenths.
pub fn quick_evaluate(bb: &Bitboard) -> (v: i32)
    ensures
        v == quick_value(bb@),
        -10 <= v <= 10,
{
    let mut v: i32 = 0;
    let mut k: usize = 0;
    while k < 12
        invariant
            k <= 12,
            -3 * k <= v <= 3 * k,
            v == lines_worth(bb@, k as int),
        decreases 12 - k,
    {
        let p0: i32 = count_shapes(bb, 0, k);
        let p1: i32 = count_shapes(bb, 1, k);
        if p1 == 0 {
            v = v + worth(p0);
        }
        if p0 == 0 {
            v = v - worth(p1);
        }
        k = k + 1;
    }
    if v > 10 {
        10
    } else if v < -10 {
        -10
    } else {
        v
    }
}

/// The memory that the positions and the frontier of an exploration take, in
/// mebibytes.
pub open spec fn memory_mb(seen: int, frontier: int) -> int {
    (seen * 26 + frontier * 42) / 1_048_576
}

/// An estimate of the memory that an exploration takes, in mebibytes.
pub fn estimate_memory_mb(seen: usize, frontier: usize) -> (mb: usize)
    requires
        seen * 26 + frontier * 42 <= usize::MAX,
    ensures
        mb == memory_mb(seen as int, frontier as int),
{
    (seen * 26 + frontier * 42) / 1_048_576
}

/// The key of a board leads back to its canonical representative.
pub proof fn law_key_holds_canonical_board(b: Seq<u16>)
    requires
        b.len() == 8,
    ensures
        canonical_key_of(b).skip(2) == le_bytes(crate::symmetry::canonical(b)),
{
    assert(canonical_key_of(b).skip(2) =~= le_bytes(crate::symmetry::canonical(b)));
}

} // verus!
