//! Moves in the order in which a selective search tries them.
use crate::bitboard::{bit, lemma_bit_ops, plane, Bitboard};
use crate::book::positions::{count_shapes, shapes_on};
use crate::constants::{line, lemma_win_masks, WIN_MASKS};
use crate::game::{has_winning_line, won};
use crate::moves::{applied, apply_move, Move};
use crate::sorting::{goes_before, in_order, lemma_same_order, lists_places, sort_places};
use vstd::prelude::*;

verus! {

/// What the first `n` lines through the move's cell add: much where the opponent has
/// three shapes on the line.
pub open spec fn block_bonus(b: Seq<u16>, m: Move, n: int) -> int
    decreases n,
{
    if n <= 0 {
        0
    } else {
        block_bonus(b, m, n - 1) + if bit(line(n - 1), m.position as int) && shapes_on(
            b,
            1 - m.player,
            n - 1,
            4,
        ) >= 3 {
            500int
        } else {
            0
        }
    }
}

/// What the first `n` lines through the move's cell add: something where the shape is
/// new to the line for the player.
pub open spec fn shape_bonus(b: Seq<u16>, m: Move, n: int) -> int
    decreases n,
{
    if n <= 0 {
        0
    } else {
        shape_bonus(b, m, n - 1) + if bit(line(n - 1), m.position as int) && plane(
            b,
            m.player as int,
            m.shape as int,
        ) & line(n - 1) == 0 {
            20int
        } else {
            0
        }
    }
}

/// What a cell adds: the middle most, then the corners.
pub open spec fn cell_bonus(p: int) -> int {
    if p == 5 || p == 6 || p == 9 || p == 10 {
        10
    } else if p == 0 || p == 3 || p == 12 || p == 15 {
        5
    } else {
        0
    }
}

/// How promising a move looks: a win most, else what it blocks, where it stands and
/// what it opens.
pub open spec fn heuristic(b: Seq<u16>, m: Move) -> int {
    if won(applied(b, m)) {
        1000
    } else {
        block_bonus(b, m, 12) + cell_bonus(m.position as int) + shape_bonus(b, m, 12)
    }
}

fn score_move(bb: &Bitboard, m: &Move) -> (h: i32)
    requires
        m.in_range(),
    ensures
        h == heuristic(bb@, *m),
        0 <= h <= 10000,
{
    let child = apply_move(bb, m);
    if has_winning_line(&child) {
        return 1000;
    }
    let opponent: usize = (1 - m.player) as usize;
    let pos_mask: u16 = 1u16 << (m.position as u16);
    let own: u16 = bb.planes[Bitboard::plane_index(m.player, m.shape)];
    let mut blocks: i32 = 0;
    let mut opens: i32 = 0;
    let mut k: usize = 0;
    while k < 12
        invariant
            k <= 12,
            m.in_range(),
            opponent == 1 - m.player,
            pos_mask == 1u16 << (m.position as u16),
            own == plane(bb@, m.player as int, m.shape as int),
            0 <= blocks <= 500 * k,
            0 <= opens <= 20 * k,
            blocks == block_bonus(bb@, *m, k as int),
            opens == shape_bonus(bb@, *m, k as int),
        decreases 12 - k,
    {
        proof {
            lemma_win_masks();
            lemma_bit_ops(line(k as int), 0, m.position as int, m.position as int);
        }
        let mask: u16 = WIN_MASKS[k];
        assert(mask == line(k as int));
        if pos_mask & mask != 0 {
            if count_shapes(bb, opponent, k) >= 3 {
                blocks = blocks + 500;
            }
            if own & mask == 0 {
                opens = opens + 20;
            }
        }
        k = k + 1;
    }
    let p: u8 = m.position;
    let cell: i32 = if p == 5 || p == 6 || p == 9 || p == 10 {
        10
    } else if p == 0 || p == 3 || p == 12 || p == 15 {
        5
    } else {
        0
    };
    blocks + cell + opens
}

/// Whether the move at `i` is at least as promising as the one at `j`.
pub open spec fn ranks(b: Seq<u16>, moves: Seq<Move>) -> spec_fn(int, int) -> bool {
    |i: int, j: int| heuristic(b, moves[i]) >= heuristic(b, moves[j])
}

/// Whether `ranked` lists the moves with their scores, the most promising first and
/// equally promising ones in their order.
pub open spec fn is_ranked(ranked: Seq<(Move, i32)>, b: Seq<u16>, moves: Seq<Move>) -> bool {
    exists|order: Seq<usize>|
        #![trigger lists_places(order, 0, moves.len() as int)]
        {
            &&& lists_places(order, 0, moves.len() as int)
            &&& in_order(order, ranks(b, moves))
            &&& ranked.len() == order.len()
            &&& forall|i: int|
                0 <= i < ranked.len() ==> #[trigger] ranked[i] == (
                    moves[order[i] as int],
                    heuristic(b, moves[order[i] as int]) as i32,
                )
        }
}

/// Rank moves, the most promising first.
pub fn rank_moves(bb: &Bitboard, moves: &Vec<Move>) -> (ranked: Vec<(Move, i32)>)
    requires
        forall|i: int| 0 <= i < moves@.len() ==> (#[trigger] moves@[i]).in_range(),
    ensures
        is_ranked(ranked@, bb@, moves@),
        ranked@.len() == moves@.len(),
{
    let ghost b = bb@;
    let mut scores: Vec<i32> = Vec::new();
    let mut i: usize = 0;
    while i < moves.len()
        invariant
            i <= moves@.len(),
            b == bb@,
            forall|k: int| 0 <= k < moves@.len() ==> (#[trigger] moves@[k]).in_range(),
            scores@.len() == i,
            forall|k: int|
                0 <= k < i ==> #[trigger] scores@[k] == heuristic(b, moves@[k]) && 0 <= scores@[k]
                    <= 10000,
        decreases moves@.len() - i,
    {
        assert(moves@[i as int].in_range());
        scores.push(score_move(bb, &moves[i]));
        i = i + 1;
    }
    let n: usize = moves.len();
    let ghost rel = ranks(b, moves@);
    let le = |x: usize, y: usize| -> (r: bool)
        requires
            x < scores@.len(),
            y < scores@.len(),
        ensures
            r == (scores@[x as int] >= scores@[y as int]),
        { scores[x] >= scores[y] };
    proof {
        assert forall|x: int, y: int| 0 <= x < n && 0 <= y < n implies #[trigger] rel(x, y) || rel(
            y,
            x,
        ) by {
        }
        assert forall|x: usize, y: usize, r: bool|
            x < n && y < n && #[trigger] call_ensures(le, (x, y), r) implies r == rel(
            x as int,
            y as int,
        ) by {
            assert(scores@[x as int] == heuristic(b, moves@[x as int]));
            assert(scores@[y as int] == heuristic(b, moves@[y as int]));
        }
    }
    let order = sort_places(n, &le, Ghost(rel));
    let mut ranked: Vec<(Move, i32)> = Vec::new();
    let mut k: usize = 0;
    while k < order.len()
        invariant
            k <= order@.len(),
            lists_places(order@, 0, moves@.len() as int),
            scores@.len() == moves@.len(),
            forall|j: int|
                0 <= j < scores@.len() ==> #[trigger] scores@[j] == heuristic(b, moves@[j]),
            ranked@.len() == k,
            forall|j: int|
                0 <= j < k ==> #[trigger] ranked@[j] == (
                    moves@[order@[j] as int],
                    heuristic(b, moves@[order@[j] as int]) as i32,
                ),
        decreases order@.len() - k,
    {
        let place: usize = order[k];
        assert(order@[k as int] < moves@.len());
        assert(scores@[place as int] == heuristic(b, moves@[place as int]));
        ranked.push((moves[place], scores[place]));
        k = k + 1;
    }
    ranked
}

/// Ranked moves are listed by their scores, the largest first.
pub proof fn law_ranked_by_score(ranked: Seq<(Move, i32)>, b: Seq<u16>, moves: Seq<Move>)
    requires
        is_ranked(ranked, b, moves),
    ensures
        ranked.len() == moves.len(),
        forall|i: int, j: int|
            0 <= i < j < ranked.len() ==> heuristic(b, (#[trigger] ranked[i]).0) >= heuristic(
                b,
                (#[trigger] ranked[j]).0,
            ),
{
    let order = choose|order: Seq<usize>|
        #![trigger lists_places(order, 0, moves.len() as int)]
        {
            &&& lists_places(order, 0, moves.len() as int)
            &&& in_order(order, ranks(b, moves))
            &&& ranked.len() == order.len()
            &&& forall|i: int|
                0 <= i < ranked.len() ==> #[trigger] ranked[i] == (
                    moves[order[i] as int],
                    heuristic(b, moves[order[i] as int]) as i32,
                )
        };
    assert forall|i: int, j: int| 0 <= i < j < ranked.len() implies heuristic(
        b,
        (#[trigger] ranked[i]).0,
    ) >= heuristic(b, (#[trigger] ranked[j]).0) by {
        assert(goes_before(ranks(b, moves), order[i] as int, order[j] as int));
    }
}

/// Moves are ranked in one way.
pub proof fn lemma_ranked_unique(
    x: Seq<(Move, i32)>,
    y: Seq<(Move, i32)>,
    b: Seq<u16>,
    moves: Seq<Move>,
)
    requires
        moves.len() <= usize::MAX,
        is_ranked(x, b, moves),
        is_ranked(y, b, moves),
    ensures
        x == y,
{
    let n = moves.len() as int;
    let rel = ranks(b, moves);
    let p = choose|order: Seq<usize>|
        #![trigger lists_places(order, 0, moves.len() as int)]
        {
            &&& lists_places(order, 0, moves.len() as int)
            &&& in_order(order, ranks(b, moves))
            &&& x.len() == order.len()
            &&& forall|i: int|
                0 <= i < x.len() ==> #[trigger] x[i] == (
                    moves[order[i] as int],
                    heuristic(b, moves[order[i] as int]) as i32,
                )
        };
    let q = choose|order: Seq<usize>|
        #![trigger lists_places(order, 0, moves.len() as int)]
        {
            &&& lists_places(order, 0, moves.len() as int)
            &&& in_order(order, ranks(b, moves))
            &&& y.len() == order.len()
            &&& forall|i: int|
                0 <= i < y.len() ==> #[trigger] y[i] == (
                    moves[order[i] as int],
                    heuristic(b, moves[order[i] as int]) as i32,
                )
        };
    let before = |i: int, j: int| goes_before(rel, i, j);
    lemma_same_order(p, q, n, before);
    assert(x =~= y);
}

} // verus!
