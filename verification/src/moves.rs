//! Legal placements.
use crate::bitboard::{
    bit, lemma_bit_ops, lemma_placed_pieces, lemma_taken, pieces, placed, plane, popcount, taken,
    Bitboard,
};
use crate::constants::{lemma_win_masks, line, MAX_PIECES_PER_SHAPE, WIN_MASKS};
use crate::game::{current_player, to_move, total_pieces};
use vstd::prelude::*;

verus! {

/// A placement: `player` puts a piece of `shape` on `position`.
#[derive(Clone, Copy, Debug, PartialEq, Eq, Hash, Structural)]
pub struct Move {
    pub player: u8,
    pub shape: u8,
    pub position: u8,
}

impl Move {
    /// Whether the move names a player, a shape and a cell.
    pub open spec fn in_range(self) -> bool {
        self.player < 2 && self.shape < 4 && self.position < 16
    }

    pub fn new(player: u8, shape: u8, position: u8) -> (mv: Self)
        requires
            player <= 1,
            shape < 4,
            position < 16,
        ensures
            mv == (Move { player, shape, position }),
    {
        Self { player, shape, position }
    }
}

/// No line through `pos` holds `shape` of `player`'s opponent.
pub open spec fn line_free(b: Seq<u16>, player: int, shape: int, pos: int) -> bool {
    forall|k: int|
        0 <= k < 12 && bit(line(k), pos) ==> plane(b, 1 - player, shape) & #[trigger] line(k) == 0
}

/// Whether `player` may put `shape` on `pos`: the cell is empty, a piece of the
/// shape is left, and no line through the cell holds the opponent's same shape.
pub open spec fn legal(b: Seq<u16>, player: int, shape: int, pos: int) -> bool {
    &&& !bit(taken(b), pos)
    &&& popcount(plane(b, player, shape)) < 2
    &&& line_free(b, player, shape, pos)
}

/// Whether `m` is a legal move on `b` for the player whose turn it is.
pub open spec fn legal_move(b: Seq<u16>, m: Move) -> bool {
    &&& m.in_range()
    &&& to_move(b) == Some(m.player)
    &&& legal(b, m.player as int, m.shape as int, m.position as int)
}

/// The planes after the move `m`.
pub open spec fn applied(b: Seq<u16>, m: Move) -> Seq<u16> {
    placed(b, m.player as int, m.shape as int, m.position as int)
}

/// The move of `player` with action number `a`: shape `a / 16` on cell `a % 16`.
pub open spec fn action_move(player: u8, a: int) -> Move {
    Move { player, shape: (a / 16) as u8, position: (a % 16) as u8 }
}

/// The legal moves of `player` with an action number below `n`, in the order of
/// their action numbers.
pub open spec fn moves_below(b: Seq<u16>, player: u8, n: int) -> Seq<Move>
    decreases n,
{
    if n <= 0 {
        Seq::empty()
    } else {
        let before = moves_below(b, player, n - 1);
        if legal(b, player as int, (n - 1) / 16, (n - 1) % 16) {
            before.push(action_move(player, n - 1))
        } else {
            before
        }
    }
}

/// The legal moves on `b`, by shape and then by position.
pub open spec fn legal_moves(b: Seq<u16>) -> Seq<Move> {
    match to_move(b) {
        Some(p) => moves_below(b, p, 64),
        None => Seq::empty(),
    }
}

/// The action number of a move.
pub open spec fn action_of(m: Move) -> int {
    m.shape * 16 + m.position
}

proof fn lemma_moves_below(b: Seq<u16>, player: u8, n: int)
    requires
        player < 2,
        0 <= n <= 64,
    ensures
        moves_below(b, player, n).len() <= n,
        forall|i: int|
            0 <= i < moves_below(b, player, n).len() ==> {
                let m = #[trigger] moves_below(b, player, n)[i];
                &&& m.player == player
                &&& m.in_range()
                &&& action_of(m) < n
                &&& legal(b, player as int, m.shape as int, m.position as int)
            },
        forall|i: int, j: int|
            0 <= i < j < moves_below(b, player, n).len() ==> action_of(
                #[trigger] moves_below(b, player, n)[i],
            ) < action_of(#[trigger] moves_below(b, player, n)[j]),
        forall|m: Move|
            m.player == player && m.in_range() && action_of(m) < n && legal(
                b,
                player as int,
                m.shape as int,
                m.position as int,
            ) ==> #[trigger] moves_below(b, player, n).contains(m),
    decreases n,
{
    if n > 0 {
        lemma_moves_below(b, player, n - 1);
        let before = moves_below(b, player, n - 1);
        let now = moves_below(b, player, n);
        let last = action_move(player, n - 1);
        assert forall|m: Move|
            m.player == player && m.in_range() && action_of(m) < n && legal(
                b,
                player as int,
                m.shape as int,
                m.position as int,
            ) implies #[trigger] now.contains(m) by {
            if action_of(m) == n - 1 {
                assert(m.shape == (n - 1) / 16 && m.position == (n - 1) % 16);
                assert(m == last);
                assert(now[now.len() - 1] == m);
            } else {
                assert(before.contains(m));
                let i = choose|i: int| 0 <= i < before.len() && before[i] == m;
                assert(now[i] == m);
            }
        }
    }
}

/// The list of legal moves holds exactly the legal moves, each once, in the
/// order of their action numbers; there are at most 64 of them.
pub proof fn lemma_legal_moves(b: Seq<u16>)
    ensures
        legal_moves(b).len() <= 64,
        forall|i: int|
            0 <= i < legal_moves(b).len() ==> legal_move(b, #[trigger] legal_moves(b)[i]),
        forall|i: int, j: int|
            0 <= i < j < legal_moves(b).len() ==> action_of(#[trigger] legal_moves(b)[i])
                < action_of(#[trigger] legal_moves(b)[j]),
        forall|m: Move| legal_moves(b).contains(m) <==> #[trigger] legal_move(b, m),
{
    match to_move(b) {
        Some(p) => {
            lemma_moves_below(b, p, 64);
        },
        None => {},
    }
    assert forall|m: Move| legal_moves(b).contains(m) <==> #[trigger] legal_move(b, m) by {
        if legal_moves(b).contains(m) {
            let i = choose|i: int| 0 <= i < legal_moves(b).len() && legal_moves(b)[i] == m;
            assert(legal_move(b, legal_moves(b)[i]));
        }
    }
}

/// A legal move adds one piece of the mover's and passes the turn.
pub proof fn lemma_legal_move_step(b: Seq<u16>, m: Move)
    requires
        b.len() == 8,
        legal_move(b, m),
    ensures
        applied(b, m).len() == 8,
        pieces(applied(b, m), m.player as int) == pieces(b, m.player as int) + 1,
        pieces(applied(b, m), 1 - m.player) == pieces(b, 1 - m.player),
        total_pieces(applied(b, m)) == total_pieces(b) + 1,
        to_move(applied(b, m)) == Some((1 - m.player) as u8),
{
    let i = m.player * 4 + m.shape;
    lemma_taken(b, m.position as int);
    assert(!bit(b[i], m.position as int));
    lemma_placed_pieces(b, m.player as int, m.shape as int, m.position as int);
}

/// Whether some line through `position` holds one of `opponent_cells`.
fn line_blocked(opponent_cells: u16, position: u8) -> (blocked: bool)
    requires
        position < 16,
    ensures
        blocked <==> exists|k: int|
            0 <= k < 12 && bit(line(k), position as int) && opponent_cells & #[trigger] line(k)
                != 0,
{
    let pos_mask = 1u16 << (position as u16);
    let mut k: usize = 0;
    while k < 12
        invariant
            k <= 12,
            position < 16,
            pos_mask == 1u16 << (position as u16),
            forall|j: int|
                0 <= j < k && bit(line(j), position as int) ==> opponent_cells & #[trigger] line(j)
                    == 0,
        decreases 12 - k,
    {
        proof {
            lemma_win_masks();
            lemma_bit_ops(line(k as int), 0, position as int, position as int);
        }
        let mask = WIN_MASKS[k];
        assert(mask == line(k as int));
        if pos_mask & mask != 0 && opponent_cells & mask != 0 {
            return true;
        }
        k = k + 1;
    }
    false
}

/// Whether `player` may place `shape` at the empty `position`.
///
/// The line rule alone (a shape cannot be placed on a line where the opponent
/// already holds the same shape), without the occupancy check.
pub fn placement_is_legal(bb: &Bitboard, player: u8, shape: u8, position: u8) -> (r: bool)
    requires
        player < 2,
        shape < 4,
        position < 16,
    ensures
        r <==> line_free(bb@, player as int, shape as int, position as int),
{
    let opponent_cells = bb.planes[Bitboard::plane_index(1 - player, shape)];
    assert(opponent_cells == plane(bb@, 1 - player, shape as int));
    !line_blocked(opponent_cells, position)
}

/// Check whether `(player, shape, position)` is legal on `bb`.
pub fn is_move_legal(bb: &Bitboard, player: u8, shape: u8, position: u8) -> (r: bool)
    requires
        player < 2,
        shape < 4,
        position < 16,
    ensures
        r <==> legal(bb@, player as int, shape as int, position as int),
{
    if bb.is_position_occupied(position) {
        return false;
    }
    if bb.shape_piece_count(player, shape) >= MAX_PIECES_PER_SHAPE as u32 {
        return false;
    }
    placement_is_legal(bb, player, shape, position)
}

/// Generate all legal moves for the current player.
pub fn generate_legal_moves(bb: &Bitboard) -> (moves: Vec<Move>)
    ensures
        moves@ == legal_moves(bb@),
{
    let player: u8 = match current_player(bb) {
        Some(p) => p,
        None => return Vec::new(),
    };
    let occupied = bb.occupied();
    let mut moves: Vec<Move> = Vec::new();
    let mut shape: u8 = 0;
    while shape < 4
        invariant
            shape <= 4,
            player < 2,
            occupied == taken(bb@),
            moves@ == moves_below(bb@, player, shape * 16),
        decreases 4 - shape,
    {
        let left = bb.shape_piece_count(player, shape) < MAX_PIECES_PER_SHAPE as u32;
        let mut pos: u8 = 0;
        while pos < 16
            invariant
                pos <= 16,
                shape < 4,
                player < 2,
                occupied == taken(bb@),
                left <==> popcount(plane(bb@, player as int, shape as int)) < 2,
                moves@ == moves_below(bb@, player, shape * 16 + pos),
            decreases 16 - pos,
        {
            proof {
                lemma_bit_ops(occupied, 0, pos as int, pos as int);
                assert((shape * 16 + pos) / 16 == shape as int && (shape * 16 + pos) % 16
                    == pos as int);
            }
            if left && occupied & (1u16 << (pos as u16)) == 0 && placement_is_legal(
                bb,
                player,
                shape,
                pos,
            ) {
                moves.push(Move::new(player, shape, pos));
            }
            pos = pos + 1;
        }
        shape = shape + 1;
    }
    moves
}

/// Apply a move (assumes legality).
#[inline]
pub fn apply_move(bb: &Bitboard, mv: &Move) -> (next: Bitboard)
    requires
        mv.in_range(),
    ensures
        next@ == applied(bb@, *mv),
{
    bb.with_move(mv.player, mv.shape, mv.position)
}

} // verus!
