//! What the scores of a book mean, which moves it tries first and what it finds best.
use crate::bitboard::{bit, plane};
use crate::book::exhaustive::{describes, expansion_of, open_boards, Expansion, NewPosition};
use crate::book::growth::row_describes;
use crate::book::iddfs::NewRow;
use crate::book::positions::{final_score, lines_worth, quick_value, shapes_on, winner_of};
use crate::book::ranking::{block_bonus, heuristic, is_ranked, ranks, shape_bonus};
use crate::book::selective::{
    best_of, best_place, best_tried, board_run, computed, frontier_run, limits_run, moves_run,
    ranking, scores_of, searched, simulated_score, tried, Reply, TTEntry,
};
use crate::constants::line;
use crate::game::{to_move, total_pieces, won};
use crate::game_value::finished;
use crate::invariance::{image_move, law_mobility_invariant, law_move_invariant, law_won_invariant};
use crate::minimax_trace::stepped_by;
use crate::moves::{applied, legal_move, legal_moves, lemma_legal_moves, Move};
use crate::search_telemetry::Ratio;
use crate::sorting::lists_places;
use crate::symmetry::{canonical, image, law_canonical_complete, payload_number, Sym};
use vstd::prelude::*;

verus! {

/// One for true, zero for false.
pub open spec fn one_if(c: bool) -> int {
    if c {
        1
    } else {
        0
    }
}

/// How many shapes a player has on line `k`.
pub open spec fn shapes_of(b: Seq<u16>, player: int, k: int) -> int {
    one_if(b[player * 4] & line(k) != 0) + one_if(b[player * 4 + 1] & line(k) != 0) + one_if(
        b[player * 4 + 2] & line(k) != 0,
    ) + one_if(b[player * 4 + 3] & line(k) != 0)
}

/// Whether a player has two or three shapes on line `k` and the other player none.
pub open spec fn has_alone(b: Seq<u16>, player: int, k: int) -> bool {
    2 <= shapes_of(b, player, k) <= 3 && shapes_of(b, 1 - player, k) == 0
}

proof fn lemma_shapes(b: Seq<u16>, player: int, k: int)
    ensures
        shapes_on(b, player, k, 4) == shapes_of(b, player, k),
{
    reveal_with_fuel(shapes_on, 5);
}

/// The sum of the lines of one player where the other has none to itself.
proof fn lemma_lines_worth(b: Seq<u16>, player: int, n: int)
    requires
        0 <= n <= 12,
        player == 0 || player == 1,
        forall|k: int| 0 <= k < n ==> !#[trigger] has_alone(b, 1 - player, k),
    ensures
        ({
            let v = if player == 0 {
                lines_worth(b, n)
            } else {
                -lines_worth(b, n)
            };
            &&& v >= 0
            &&& v > 0 <==> exists|k: int| 0 <= k < n && #[trigger] has_alone(b, player, k)
        }),
    decreases n,
{
    if n > 0 {
        lemma_lines_worth(b, player, n - 1);
        lemma_shapes(b, 0, n - 1);
        lemma_shapes(b, 1, n - 1);
        assert(!has_alone(b, 1 - player, n - 1));
        if has_alone(b, player, n - 1) {
            assert(0 <= n - 1 < n && has_alone(b, player, n - 1));
        }
        if exists|k: int| 0 <= k < n && #[trigger] has_alone(b, player, k) {
            let k = choose|k: int| 0 <= k < n && #[trigger] has_alone(b, player, k);
            if k < n - 1 {
                assert(has_alone(b, player, k));
            }
        }
    }
}

/// Where only one player has lines with two or three shapes to itself, the quick evaluation,
/// which is that of player 0, is on this player's side; where neither has, it is even.
pub proof fn law_the_quick_evaluation_takes_sides(b: Seq<u16>)
    ensures
        (exists|k: int| 0 <= k < 12 && #[trigger] has_alone(b, 0, k)) && (forall|k: int|
            0 <= k < 12 ==> !#[trigger] has_alone(b, 1, k)) ==> quick_value(b) > 0,
        (exists|k: int| 0 <= k < 12 && #[trigger] has_alone(b, 1, k)) && (forall|k: int|
            0 <= k < 12 ==> !#[trigger] has_alone(b, 0, k)) ==> quick_value(b) < 0,
        (forall|k: int| 0 <= k < 12 ==> !#[trigger] has_alone(b, 0, k)) && (forall|k: int|
            0 <= k < 12 ==> !#[trigger] has_alone(b, 1, k)) ==> quick_value(b) == 0,
        -10 <= quick_value(b) <= 10,
{
    if forall|k: int| 0 <= k < 12 ==> !#[trigger] has_alone(b, 1, k) {
        lemma_lines_worth(b, 0, 12);
    }
    if forall|k: int| 0 <= k < 12 ==> !#[trigger] has_alone(b, 0, k) {
        lemma_lines_worth(b, 1, 12);
    }
}

/// The planes with the players exchanged.
pub open spec fn exchanged(b: Seq<u16>) -> Seq<u16> {
    seq![b[4], b[5], b[6], b[7], b[0], b[1], b[2], b[3]]
}

/// With the players exchanged the quick evaluation turns its sign.
pub proof fn law_the_quick_evaluation_is_fair(b: Seq<u16>)
    requires
        b.len() == 8,
    ensures
        quick_value(exchanged(b)) == -quick_value(b),
{
    lemma_exchanged(b, 12);
}

proof fn lemma_exchanged(b: Seq<u16>, n: int)
    requires
        b.len() == 8,
    ensures
        lines_worth(exchanged(b), n) == -lines_worth(b, n),
    decreases n,
{
    if n > 0 {
        lemma_exchanged(b, n - 1);
        lemma_shapes(b, 0, n - 1);
        lemma_shapes(b, 1, n - 1);
        lemma_shapes(exchanged(b), 0, n - 1);
        lemma_shapes(exchanged(b), 1, n - 1);
    }
}

/// A line with three shapes to oneself counts three tenths and one with two a tenth: a board on
/// which no other line is held alone is worth just that.
pub proof fn law_a_single_line_decides(b: Seq<u16>, k: int)
    requires
        0 <= k < 12,
        forall|j: int| 0 <= j < 12 && j != k ==> !#[trigger] has_alone(b, 0, j),
        forall|j: int| 0 <= j < 12 && j != k ==> !#[trigger] has_alone(b, 1, j),
    ensures
        has_alone(b, 0, k) && shapes_of(b, 0, k) == 3 ==> quick_value(b) == 3,
        has_alone(b, 0, k) && shapes_of(b, 0, k) == 2 ==> quick_value(b) == 1,
        has_alone(b, 1, k) && shapes_of(b, 1, k) == 3 ==> quick_value(b) == -3,
        has_alone(b, 1, k) && shapes_of(b, 1, k) == 2 ==> quick_value(b) == -1,
{
    lemma_single(b, k, 12);
}

proof fn lemma_single(b: Seq<u16>, k: int, n: int)
    requires
        0 <= k < 12,
        0 <= n <= 12,
        forall|j: int| 0 <= j < 12 && j != k ==> !#[trigger] has_alone(b, 0, j),
        forall|j: int| 0 <= j < 12 && j != k ==> !#[trigger] has_alone(b, 1, j),
    ensures
        n <= k ==> lines_worth(b, n) == 0,
        n > k && has_alone(b, 0, k) ==> lines_worth(b, n) == if shapes_of(b, 0, k) == 3 {
            3int
        } else {
            1
        },
        n > k && has_alone(b, 1, k) ==> lines_worth(b, n) == if shapes_of(b, 1, k) == 3 {
            -3int
        } else {
            -1
        },
    decreases n,
{
    if n > 0 {
        lemma_single(b, k, n - 1);
        lemma_shapes(b, 0, n - 1);
        lemma_shapes(b, 1, n - 1);
        if n - 1 != k {
            assert(!has_alone(b, 0, n - 1) && !has_alone(b, 1, n - 1));
        }
    }
}

/// At the horizon a board that the table does not know scores for the player to move: where
/// only one player has lines to itself, more than zero if it is this player's turn and less
/// than zero if it is the other's.
pub proof fn law_the_horizon_is_the_movers(
    b: Seq<u16>,
    player: u8,
    tt: vstd::map::Map<u128, TTEntry>,
    top_k: usize,
    exhaustive_depth: usize,
)
    requires
        !finished(b),
        to_move(b) is Some,
        player < 2,
        !tt.contains_key(payload_number(canonical(b)) as u128),
        exists|k: int| 0 <= k < 12 && #[trigger] has_alone(b, player as int, k),
        forall|k: int| 0 <= k < 12 ==> !#[trigger] has_alone(b, 1 - player, k),
    ensures
        ({
            let run = board_run(b, 0, tt, top_k, exhaustive_depth);
            let entry = run.tt[payload_number(canonical(b)) as u128];
            &&& to_move(b) == Some(player) ==> run.score > 0 && entry.score > 0
            &&& to_move(b) != Some(player) ==> run.score < 0 && entry.score < 0
        }),
{
    law_the_quick_evaluation_takes_sides(b);
}

/// The best of some replies is the largest of their scores with the sign turned, and the place
/// of the best is the first at which it stands.
pub proof fn law_the_best_reply_is_worst_for_the_opponent(scores: Seq<int>)
    requires
        scores.len() > 0,
    ensures
        forall|i: int| 0 <= i < scores.len() ==> best_of(scores) >= -(#[trigger] scores[i]),
        0 <= best_place(scores) < scores.len(),
        best_of(scores) == -scores[best_place(scores)],
        forall|i: int| 0 <= i < best_place(scores) ==> best_of(scores) > -(#[trigger] scores[i]),
    decreases scores.len(),
{
    if scores.len() > 1 {
        let rest = scores.drop_last();
        law_the_best_reply_is_worst_for_the_opponent(rest);
        assert forall|i: int| 0 <= i < scores.len() implies best_of(scores) >= -(
        #[trigger] scores[i]) by {
            if i < rest.len() {
                assert(rest[i] == scores[i]);
                assert(best_of(rest) >= -rest[i]);
            }
        }
        assert forall|i: int| 0 <= i < best_place(scores) implies best_of(scores) > -(
        #[trigger] scores[i]) by {
            assert(rest[i] == scores[i]);
            assert(best_of(rest) >= -rest[i]);
        }
    }
}

/// A board that is not known far enough and on which the game goes on scores the best that a
/// tried move leaves: minus the score of the search of the board after it, one ply less far.
/// The table then names a move that leaves this.
pub proof fn law_a_board_scores_its_best_tried_move(
    b: Seq<u16>,
    remaining: nat,
    tt: vstd::map::Map<u128, TTEntry>,
    top_k: usize,
    exhaustive_depth: usize,
    i: int,
)
    requires
        !finished(b),
        0 < remaining <= i32::MAX,
        ({
            let key = payload_number(canonical(b)) as u128;
            !(tt.contains_key(key) && tt[key].searched_depth >= remaining)
        }),
        0 <= i < tried(b, ranking(b).len() as int, top_k, exhaustive_depth),
    ensures
        ({
            let run = board_run(b, remaining, tt, top_k, exhaustive_depth);
            let entry = run.tt[payload_number(canonical(b)) as u128];
            let before = moves_run(b, remaining, tt, i, top_k, exhaustive_depth).tt;
            let reply = board_run(
                applied(b, ranking(b)[i].0),
                (remaining - 1) as nat,
                before,
                top_k,
                exhaustive_depth,
            );
            &&& run.score >= -reply.score
            &&& entry.best_move == Some(ranking(b)[i].0) && ranking_differs(b)
                ==> run.score == -reply.score
            &&& entry.best_move is Some
            &&& entry.searched_depth == remaining
        }),
{
    let n = tried(b, ranking(b).len() as int, top_k, exhaustive_depth);
    let f = moves_run(b, remaining, tt, n, top_k, exhaustive_depth);
    lemma_reply(b, remaining, tt, n, i, top_k, exhaustive_depth);
    law_the_best_reply_is_worst_for_the_opponent(f.scores);
    let p = best_place(f.scores);
    if ranking(b)[p].0 == ranking(b)[i].0 && ranking_differs(b) {
        assert(p == i);
    }
    assert(best_of(f.scores) >= -f.scores[i]);
}

/// Whether the ranking of the legal moves lists no move twice.
pub open spec fn ranking_differs(b: Seq<u16>) -> bool {
    forall|i: int, j: int|
        0 <= i < ranking(b).len() && 0 <= j < ranking(b).len() && i != j ==> (#[trigger] ranking(
            b,
        )[i]).0 != (#[trigger] ranking(b)[j]).0
}

proof fn lemma_reply(
    b: Seq<u16>,
    remaining: nat,
    tt: vstd::map::Map<u128, TTEntry>,
    n: int,
    i: int,
    top_k: usize,
    exhaustive_depth: usize,
)
    requires
        remaining > 0,
        0 <= i < n,
    ensures
        moves_run(b, remaining, tt, n, top_k, exhaustive_depth).scores.len() == n,
        moves_run(b, remaining, tt, n, top_k, exhaustive_depth).scores[i] == board_run(
            applied(b, ranking(b)[i].0),
            (remaining - 1) as nat,
            moves_run(b, remaining, tt, i, top_k, exhaustive_depth).tt,
            top_k,
            exhaustive_depth,
        ).score,
    decreases n,
{
    lemma_scores_len(b, remaining, tt, n - 1, top_k, exhaustive_depth);
    if i < n - 1 {
        lemma_reply(b, remaining, tt, n - 1, i, top_k, exhaustive_depth);
    }
}

proof fn lemma_scores_len(
    b: Seq<u16>,
    remaining: nat,
    tt: vstd::map::Map<u128, TTEntry>,
    n: int,
    top_k: usize,
    exhaustive_depth: usize,
)
    requires
        remaining > 0,
        n >= 0,
    ensures
        moves_run(b, remaining, tt, n, top_k, exhaustive_depth).scores.len() == n,
    decreases n,
{
    if n > 0 {
        lemma_scores_len(b, remaining, tt, n - 1, top_k, exhaustive_depth);
    }
}

proof fn lemma_finished_alike(b: Seq<u16>, c: Seq<u16>)
    requires
        b.len() == 8,
        c.len() == 8,
        canonical(b) == canonical(c),
    ensures
        finished(b) <==> finished(c),
{
    law_canonical_complete(b, c);
    let g = choose|g: Sym| g.valid() && b == #[trigger] image(c, g);
    law_won_invariant(c, g);
    law_mobility_invariant(c, g);
}

/// A finished game scores ten tenths against the player to move, however it was found.
pub proof fn law_a_finished_game_is_lost(
    b: Seq<u16>,
    e: nat,
    d: int,
    s: int,
    top_k: usize,
    exhaustive_depth: usize,
)
    requires
        b.len() == 8,
        searched(b, e, d, s, top_k, exhaustive_depth),
        finished(b),
    ensures
        s == -10,
{
    let (c, deep, best) = choose|c: Seq<u16>, deep: int, best: Option<Move>|
        deep >= d && c.len() == 8 && canonical(c) == canonical(b) && #[trigger] computed(
            c,
            e,
            deep,
            s,
            best,
            top_k,
            exhaustive_depth,
        );
    lemma_finished_alike(c, b);
}

/// Where all moves are tried, a search that looks at least one ply ahead scores ten tenths for
/// the player to move as soon as one legal move ends the game.
pub proof fn law_a_move_that_ends_the_game_wins(
    b: Seq<u16>,
    e: nat,
    d: int,
    s: int,
    top_k: usize,
    exhaustive_depth: usize,
    m: Move,
)
    requires
        b.len() == 8,
        searched(b, e, d, s, top_k, exhaustive_depth),
        -10 <= s <= 10,
        !finished(b),
        d >= 1,
        legal_moves(b).len() <= top_k,
        legal_move(b, m),
        finished(applied(b, m)),
    ensures
        s == 10,
{
    let (c, deep, best) = choose|c: Seq<u16>, deep: int, best: Option<Move>|
        deep >= d && c.len() == 8 && canonical(c) == canonical(b) && #[trigger] computed(
            c,
            e,
            deep,
            s,
            best,
            top_k,
            exhaustive_depth,
        );
    lemma_finished_alike(c, b);
    law_canonical_complete(c, b);
    let g = choose|g: Sym| g.valid() && c == #[trigger] image(b, g);
    law_move_invariant(b, g, m);
    law_mobility_invariant(b, g);
    let n = image_move(m, g);
    let after = applied(c, n);
    law_won_invariant(applied(b, m), g);
    law_mobility_invariant(applied(b, m), g);
    assert(finished(after));
    let (ranked, replies) = choose|ranked: Seq<(Move, i32)>, replies: Seq<Reply>|
        #![trigger is_ranked(ranked, c, legal_moves(c)), best_of(scores_of(replies))]
        {
            &&& is_ranked(ranked, c, legal_moves(c))
            &&& replies.len() == tried(c, ranked.len() as int, top_k, exhaustive_depth)
            &&& forall|i: int|
                0 <= i < replies.len() ==> {
                    let r = #[trigger] replies[i];
                    &&& r.depth >= deep - 1
                    &&& r.board.len() == 8
                    &&& canonical(r.board) == canonical(applied(c, ranked[i].0))
                    &&& computed(
                        r.board,
                        (e - 1) as nat,
                        r.depth,
                        r.score,
                        r.best,
                        top_k,
                        exhaustive_depth,
                    )
                }
            &&& s == best_of(scores_of(replies))
            &&& best == best_tried(ranked, scores_of(replies))
        };
    lemma_legal_moves(c);
    assert(legal_moves(c).contains(n));
    let p = lemma_has_place(ranked, c, n);
    assert(replies.len() == ranked.len());
    let r = replies[p];
    assert(canonical(r.board) == canonical(applied(c, ranked[p].0)));
    crate::moves::lemma_legal_move_step(c, n);
    lemma_finished_alike(r.board, after);
    let scores = scores_of(replies);
    assert(scores[p] == -10);
    law_the_best_reply_is_worst_for_the_opponent(scores);
    assert(best_of(scores) >= -scores[p]);
}

proof fn lemma_has_place(ranked: Seq<(Move, i32)>, b: Seq<u16>, m: Move) -> (p: int)
    requires
        is_ranked(ranked, b, legal_moves(b)),
        legal_moves(b).contains(m),
    ensures
        0 <= p < ranked.len(),
        ranked[p].0 == m,
        ranked.len() == legal_moves(b).len(),
{
    let moves = legal_moves(b);
    lemma_legal_moves(b);
    let order = choose|order: Seq<usize>|
        #![trigger lists_places(order, 0, moves.len() as int)]
        {
            &&& lists_places(order, 0, moves.len() as int)
            &&& crate::sorting::in_order(order, ranks(b, moves))
            &&& ranked.len() == order.len()
            &&& forall|i: int|
                0 <= i < ranked.len() ==> #[trigger] ranked[i] == (
                    moves[order[i] as int],
                    heuristic(b, moves[order[i] as int]) as i32,
                )
        };
    let k = choose|k: int| 0 <= k < moves.len() && moves[k] == m;
    crate::sorting::lemma_lists_all(order, moves.len() as int);
    assert(order.contains(k as usize));
    let p = choose|p: int| 0 <= p < order.len() && order[p] == k as usize;
    assert(ranked[p] == (moves[order[p] as int], heuristic(b, moves[order[p] as int]) as i32));
    p
}

/// In the exhaustive part of a book every move is tried, below it no more than the limit, and
/// never fewer than there are up to it.
pub proof fn law_the_limit_holds_below_the_exhaustive_part(
    b: Seq<u16>,
    n: int,
    top_k: usize,
    exhaustive_depth: usize,
)
    requires
        n >= 0,
    ensures
        0 <= tried(b, n, top_k, exhaustive_depth) <= n,
        total_pieces(b) <= exhaustive_depth ==> tried(b, n, top_k, exhaustive_depth) == n,
        total_pieces(b) > exhaustive_depth ==> tried(b, n, top_k, exhaustive_depth) <= top_k,
        n <= top_k ==> tried(b, n, top_k, exhaustive_depth) == n,
        n >= top_k ==> tried(b, n, top_k, exhaustive_depth) >= top_k,
{
}

/// The lines through the cell of a move on which the opponent has three shapes or more.
pub open spec fn blocks(b: Seq<u16>, m: Move, n: int) -> int
    decreases n,
{
    if n <= 0 {
        0
    } else {
        blocks(b, m, n - 1) + one_if(
            bit(line(n - 1), m.position as int) && shapes_of(b, 1 - m.player, n - 1) >= 3,
        )
    }
}

/// The lines through the cell of a move on which the player does not have the shape yet.
pub open spec fn opens(b: Seq<u16>, m: Move, n: int) -> int
    decreases n,
{
    if n <= 0 {
        0
    } else {
        opens(b, m, n - 1) + one_if(
            bit(line(n - 1), m.position as int) && plane(b, m.player as int, m.shape as int) & line(
                n - 1,
            ) == 0,
        )
    }
}

proof fn lemma_through(b: Seq<u16>, m: Move, n: int)
    requires
        m.in_range(),
        0 <= n <= 12,
    ensures
        block_bonus(b, m, n) == 500 * blocks(b, m, n),
        shape_bonus(b, m, n) == 20 * opens(b, m, n),
        0 <= blocks(b, m, n) <= cells_lines(m.position as int, n),
        0 <= opens(b, m, n) <= cells_lines(m.position as int, n),
    decreases n,
{
    if n > 0 {
        lemma_through(b, m, n - 1);
        lemma_shapes(b, 1 - m.player, n - 1);
    }
}

/// The lines through a cell among the first `n`.
spec fn cells_lines(p: int, n: int) -> int
    decreases n,
{
    if n <= 0 {
        0
    } else {
        cells_lines(p, n - 1) + one_if(bit(line(n - 1), p))
    }
}

proof fn lemma_three_lines(p: int)
    requires
        0 <= p < 16,
    ensures
        cells_lines(p, 12) == 3,
{
    reveal_with_fuel(cells_lines, 13);
    crate::laws::rules::law_lines_are_rows_columns_and_zones(p, 0);
    crate::laws::rules::law_lines_are_rows_columns_and_zones(p, 1);
    crate::laws::rules::law_lines_are_rows_columns_and_zones(p, 2);
    crate::laws::rules::law_lines_are_rows_columns_and_zones(p, 3);
    crate::laws::rules::law_lines_are_rows_columns_and_zones(p, 4);
    crate::laws::rules::law_lines_are_rows_columns_and_zones(p, 5);
    crate::laws::rules::law_lines_are_rows_columns_and_zones(p, 6);
    crate::laws::rules::law_lines_are_rows_columns_and_zones(p, 7);
    crate::laws::rules::law_lines_are_rows_columns_and_zones(p, 8);
    crate::laws::rules::law_lines_are_rows_columns_and_zones(p, 9);
    crate::laws::rules::law_lines_are_rows_columns_and_zones(p, 10);
    crate::laws::rules::law_lines_are_rows_columns_and_zones(p, 11);
}

/// Whether a cell is one of the four in the middle of the board.
pub open spec fn in_the_middle(p: int) -> bool {
    1 <= p / 4 <= 2 && 1 <= p % 4 <= 2
}

/// Whether a cell is a corner of the board.
pub open spec fn in_a_corner(p: int) -> bool {
    (p / 4 == 0 || p / 4 == 3) && (p % 4 == 0 || p % 4 == 3)
}

/// Of two moves neither of which completes a line the one that stands on more lines on which
/// the opponent has three shapes looks more promising; of equals the one that brings its shape
/// to more lines; and of equals again one in the middle, then one in a corner.
pub proof fn law_promise_goes_by_blocks_then_shapes_then_cells(b: Seq<u16>, m: Move, n: Move)
    requires
        m.in_range(),
        n.in_range(),
        !won(applied(b, m)),
        !won(applied(b, n)),
    ensures
        blocks(b, m, 12) > blocks(b, n, 12) ==> heuristic(b, m) > heuristic(b, n),
        blocks(b, m, 12) == blocks(b, n, 12) && opens(b, m, 12) > opens(b, n, 12) ==> heuristic(
            b,
            m,
        ) > heuristic(b, n),
        blocks(b, m, 12) == blocks(b, n, 12) && opens(b, m, 12) == opens(b, n, 12) ==> {
            let (p, q) = (m.position as int, n.position as int);
            &&& in_the_middle(p) && !in_the_middle(q) ==> heuristic(b, m) > heuristic(b, n)
            &&& in_a_corner(p) && !in_the_middle(q) && !in_a_corner(q) ==> heuristic(b, m)
                > heuristic(b, n)
            &&& in_the_middle(p) == in_the_middle(q) && in_a_corner(p) == in_a_corner(q)
                ==> heuristic(b, m) == heuristic(b, n)
        },
{
    lemma_through(b, m, 12);
    lemma_through(b, n, 12);
    lemma_three_lines(m.position as int);
    lemma_three_lines(n.position as int);
}

/// A move that completes a line looks more promising than any that does not and stands on at
/// most one line on which the opponent has three shapes.
pub proof fn law_a_win_is_promising(b: Seq<u16>, m: Move, n: Move)
    requires
        m.in_range(),
        n.in_range(),
        won(applied(b, m)),
        !won(applied(b, n)),
        blocks(b, n, 12) <= 1,
    ensures
        heuristic(b, m) > heuristic(b, n),
{
    lemma_through(b, n, 12);
    lemma_three_lines(n.position as int);
}

/// The winner that a book names for a finished game is the player who is not to move.
pub proof fn law_the_winner_is_not_to_move(b: Seq<u16>, player: u8)
    requires
        finished(b),
        to_move(b) == Some(player),
        player < 2,
    ensures
        winner_of(b) == Some((1 - player) as u8),
        final_score(b) == if player == 1 {
            1int
        } else {
            -1
        },
{
}

/// The score of a position after its simulations goes up with the win rate: from minus one
/// where none was won, over zero at one half, to one where all were.
pub proof fn law_simulated_scores_follow_the_win_rate(x: Ratio, y: Ratio, p: Ratio, q: Ratio)
    requires
        0 <= x.num <= x.den,
        0 <= y.num <= y.den,
        0 < x.den <= u32::MAX,
        0 < y.den <= u32::MAX,
        call_ensures(simulated_score, (x,), p),
        call_ensures(simulated_score, (y,), q),
    ensures
        x.num * y.den < y.num * x.den ==> p.num * q.den < q.num * p.den,
        x.num == 0 ==> p.num == -(p.den as int),
        x.num == x.den ==> p.num == p.den,
        2 * x.num == x.den ==> p.num == 0,
        p.den > 0,
{
    let (a, b, c, d) = (x.num as int, x.den as int, y.num as int, y.den as int);
    assert((2 * a - b) * d - (2 * c - d) * b == 2 * (a * d - c * b)) by (nonlinear_arith);
}

/// A search is made for each limit below the exhaustive part of a book, one ply after the
/// other; without such a limit nothing is searched.
pub proof fn law_every_limit_is_searched(
    frontier: Seq<(crate::bitboard::Bitboard, usize)>,
    exhaustive_depth: usize,
    depth_limit: int,
    tt: vstd::map::Map<u128, TTEntry>,
    top_k: usize,
)
    ensures
        limits_run(frontier, exhaustive_depth, depth_limit, tt, top_k).1.len() == if depth_limit
            > exhaustive_depth {
            depth_limit - exhaustive_depth
        } else {
            0
        },
        depth_limit <= exhaustive_depth ==> limits_run(
            frontier,
            exhaustive_depth,
            depth_limit,
            tt,
            top_k,
        ).0 == tt,
    decreases depth_limit - exhaustive_depth,
{
    if depth_limit > exhaustive_depth {
        law_every_limit_is_searched(frontier, exhaustive_depth, depth_limit - 1, tt, top_k);
    }
}

/// A new position of a book is marked as over exactly where the game is; then the player who is
/// not to move has won and the score is this player's, else there is neither winner nor score.
pub proof fn law_new_positions_name_the_winner(p: NewPosition, b: Seq<u16>, depth: usize, player: u8)
    requires
        describes(p, b, depth),
        to_move(b) == Some(player),
        player < 2,
    ensures
        p.terminal <==> finished(b),
        finished(b) ==> p.winner == Some((1 - player) as u8),
        finished(b) && player == 1 ==> p.score == Some(1i8),
        finished(b) && player == 0 ==> p.score == Some(-1i8),
        !finished(b) ==> p.winner is None && p.score is None,
        p.depth == depth,
{
}

/// A row of an explored book says the same of its board.
pub proof fn law_rows_name_the_winner(r: NewRow, b: Seq<u16>, depth: int, player: u8)
    requires
        row_describes(r, b, depth),
        to_move(b) == Some(player),
        player < 2,
    ensures
        r.terminal <==> finished(b),
        finished(b) ==> r.winner == Some((1 - player) as u8),
        !finished(b) ==> r.winner is None,
        r.depth == depth,
{
}

/// The limits are searched from the smallest up: the last search is that with the largest limit,
/// with what the searches before it left in the table.
pub proof fn law_limits_go_up(
    frontier: Seq<(crate::bitboard::Bitboard, usize)>,
    exhaustive_depth: usize,
    depth_limit: usize,
    tt: vstd::map::Map<u128, TTEntry>,
    top_k: usize,
)
    requires
        depth_limit > exhaustive_depth,
    ensures
        ({
            let before = limits_run(frontier, exhaustive_depth, depth_limit - 1, tt, top_k);
            let after = limits_run(frontier, exhaustive_depth, depth_limit as int, tt, top_k);
            let last = frontier_run(
                frontier,
                frontier.len() as int,
                depth_limit,
                before.0,
                top_k,
                exhaustive_depth,
            );
            &&& after.0 == last.0
            &&& after.1.drop_last() == before.1
            &&& after.1.last() == stepped_by(0, last.1)
        }),
{
    let before = limits_run(frontier, exhaustive_depth, depth_limit - 1, tt, top_k);
    let after = limits_run(frontier, exhaustive_depth, depth_limit as int, tt, top_k);
    assert(after.1.drop_last() =~= before.1);
}

/// The edges of an expanded position are its legal moves, in their order and each with the board
/// to which it leads; a position on which the game is over has none.
pub proof fn law_edges_lead_to_the_boards_after_the_moves(
    e: Expansion,
    seen: Set<u128>,
    depth: usize,
    i: int,
)
    requires
        expansion_of(e, seen, depth),
        0 <= i < e.edges@.len(),
    ensures
        !finished(e.parent@),
        legal_move(e.parent@, e.edges@[i].0),
        e.edges@[i].1@ == applied(e.parent@, e.edges@[i].0),
        !e.dropout ==> e.edges@.len() == legal_moves(e.parent@).len(),
        forall|j: int| 0 <= j < i ==> (#[trigger] e.edges@[j]).0 != e.edges@[i].0,
{
    let b = e.parent@;
    lemma_legal_moves(b);
    assert(e.edges@[i].0 == legal_moves(b)[i]);
    assert forall|j: int| 0 <= j < i implies (#[trigger] e.edges@[j]).0 != e.edges@[i].0 by {
        assert(e.edges@[j].0 == legal_moves(b)[j]);
        assert(crate::moves::action_of(legal_moves(b)[j]) < crate::moves::action_of(
            legal_moves(b)[i],
        ));
    }
}

/// The next frontier holds the boards of the new positions on which the game goes on, and no
/// others.
pub proof fn law_the_next_frontier_goes_on(inserted: Seq<NewPosition>, n: int, b: Seq<u16>)
    requires
        0 <= n <= inserted.len(),
        forall|i: int|
            0 <= i < inserted.len() ==> (#[trigger] inserted[i]).terminal == finished(
                inserted[i].bb@,
            ),
    ensures
        open_boards(inserted, n).contains(b) <==> !finished(b) && exists|i: int|
            0 <= i < n && (#[trigger] inserted[i]).bb@ == b,
    decreases n,
{
    if n > 0 {
        law_the_next_frontier_goes_on(inserted, n - 1, b);
        let before = open_boards(inserted, n - 1);
        let now = open_boards(inserted, n);
        let last = inserted[n - 1];
        if last.terminal {
            assert(now == before);
        } else {
            assert(now == before.push(last.bb@));
            if now.contains(b) {
                let k = choose|k: int| 0 <= k < now.len() && now[k] == b;
                if k < before.len() {
                    assert(before[k] == b);
                    assert(before.contains(b));
                }
            }
            if before.contains(b) {
                let k = choose|k: int| 0 <= k < before.len() && before[k] == b;
                assert(now[k] == b);
            }
            assert(now[before.len() as int] == last.bb@);
        }
        if exists|i: int| 0 <= i < n && (#[trigger] inserted[i]).bb@ == b {
            let i = choose|i: int| 0 <= i < n && (#[trigger] inserted[i]).bb@ == b;
            if i < n - 1 {
                assert(inserted[i].bb@ == b);
            }
        }
        if open_boards(inserted, n - 1).contains(b) {
            let i = choose|i: int| 0 <= i < n - 1 && (#[trigger] inserted[i]).bb@ == b;
            assert(0 <= i < n && inserted[i].bb@ == b);
        }
    }
}

} // verus!
