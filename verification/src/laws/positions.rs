//! Which positions a dataset holds, what an exact reference says of one, and what the test
//! before a run complains about.
use crate::bench::correctness::{mover_failure, position_failure, position_failures, repeat_failure};
use crate::bench::dataset::{draw_for, no_pieces, position_of, sample_ok, samples_ok, Sampled};
use crate::bench::fields::{text_or, texts};
use crate::bench::json::JsonView;
use crate::bench::reference::{
    is_optimal, key_of, law_move_key_round_trip, lemma_score_sign, reference_exact,
    reference_score, SolvedReference, IMMEDIATE_WIN,
};
use crate::bitboard::{lemma_popcount, taken};
use crate::game::{total_pieces, won};
use crate::game_value::{
    after_line, empty_cells, exact_best, exact_value, finished, legal_line, lemma_move_fills_cell,
    wins,
};
use crate::laws::mcts::draws_stay_below;
use crate::moves::{
    applied, legal_move, legal_moves, lemma_legal_move_step, lemma_legal_moves, Move,
};
use crate::qfen::{qfen_board, qfen_complaint};
use crate::rng::{after_draw, after_draw_between, drawn, drawn_between};
use crate::symmetry::{canonical, image, law_canonical_invariant, Sym};
use rand::rngs::StdRng;
use vstd::prelude::*;
use vstd::string::*;

verus! {

/// A random position goes on with the legal move at which the draw points.
pub proof fn law_positions_follow_the_draws(b: Seq<u16>, n: nat, rng: StdRng, m: Move)
    requires
        !finished(b),
        n > 0,
        drawn(rng, legal_moves(b).len() as u64) < legal_moves(b).len(),
        legal_moves(b)[drawn(rng, legal_moves(b).len() as u64) as int] == m,
    ensures
        legal_move(b, m),
        position_of(b, n, rng) == position_of(
            applied(b, m),
            (n - 1) as nat,
            after_draw(rng, legal_moves(b).len() as u64),
        ),
{
    lemma_legal_moves(b);
}

/// A random position has one piece for each move that was drawn, and the game goes on there; it
/// is never given where the game is over.
pub proof fn law_random_positions_go_on(b: Seq<u16>, n: nat, rng: StdRng)
    requires
        b.len() == 8,
        draws_stay_below(),
    ensures
        position_of(b, n, rng).0 matches Some(p) ==> p.len() == 8 && !finished(p) && total_pieces(p)
            == total_pieces(b) + n,
        finished(b) ==> position_of(b, n, rng).0 is None,
    decreases n,
{
    if !finished(b) && n > 0 {
        lemma_legal_moves(b);
        let k = legal_moves(b).len() as u64;
        assert(drawn(rng, k) < k);
        let m = legal_moves(b)[drawn(rng, k) as int];
        law_positions_follow_the_draws(b, n, rng, m);
        lemma_legal_move_step(b, m);
        law_random_positions_go_on(applied(b, m), (n - 1) as nat, after_draw(rng, k));
    }
}

/// The smallest and the largest number of moves that is drawn for a phase.
pub open spec fn plies_for(k: int) -> (u32, u32) {
    if k == 0 {
        (0u32, 4u32)
    } else if k == 1 {
        (5u32, 7u32)
    } else if k == 2 {
        (8u32, 11u32)
    } else {
        (12u32, 15u32)
    }
}

/// One more draw for a phase first draws the number of moves, within the phase, and then the
/// moves from the empty board. A position comes with it only if its class of symmetric boards
/// was not seen, and has as many pieces as moves were drawn.
pub proof fn law_one_more_draw(x: Sampled, k: int)
    requires
        0 <= k < 4,
        draws_stay_below(),
    ensures
        ({
            let y = draw_for(x, k);
            let (low, top) = plies_for(k);
            let plies = drawn_between(x.rng, low, top);
            let (p, rng) = position_of(
                no_pieces(),
                plies as nat,
                after_draw_between(x.rng, low, top),
            );
            &&& y.rng == rng
            &&& p is None ==> y.samples == x.samples
            &&& y.samples == x.samples || (y.samples == x.samples.push((p->0, k)) && p is Some)
            &&& y.samples != x.samples ==> total_pieces(p->0) == plies && !finished(p->0)
        }),
{
    crate::bench::dataset::lemma_empty_board();
    let (low, top) = plies_for(k);
    let plies = drawn_between(x.rng, low, top);
    law_random_positions_go_on(no_pieces(), plies as nat, after_draw_between(x.rng, low, top));
    let y = draw_for(x, k);
    if y.samples.len() != x.samples.len() {
        assert(y.samples.len() == x.samples.len() + 1);
    }
}

/// The positions of a dataset are reached by legal moves from the empty board, the game goes on
/// there, they have as many pieces as their phase allows, and none is symmetric to another.
pub proof fn law_samples_are_playable_and_differ(
    list: Seq<(Seq<u16>, int)>,
    i: int,
    j: int,
    g: Sym,
)
    requires
        samples_ok(list),
        0 <= i < list.len(),
        0 <= j < list.len(),
        i != j,
        g.valid(),
        forall|k: int| 0 <= k < list.len() ==> (#[trigger] list[k]).0.len() == 8,
    ensures
        !won(list[i].0) && legal_moves(list[i].0).len() > 0,
        exists|line: Seq<Move>| #[trigger]
            legal_line(no_pieces(), line) && after_line(no_pieces(), line) == list[i].0
                && line.len() == total_pieces(list[i].0),
        list[i].1 == 0 ==> 0 <= total_pieces(list[i].0) <= 4,
        list[i].1 == 1 ==> 5 <= total_pieces(list[i].0) <= 7,
        list[i].1 == 2 ==> 8 <= total_pieces(list[i].0) <= 11,
        list[i].1 == 3 ==> 12 <= total_pieces(list[i].0) <= 16,
        list[i].0 != image(list[j].0, g),
{
    assert(sample_ok(list[i]));
    law_canonical_invariant(list[j].0, g);
    if i < j {
        assert(canonical(list[i].0) != canonical(list[j].0));
    } else {
        assert(canonical(list[j].0) != canonical(list[i].0));
    }
}

/// With more plies than empty cells the side that can force a win is settled.
proof fn lemma_wins_settled(b: Seq<u16>, x: nat, y: nat)
    requires
        b.len() == 8,
        x >= empty_cells(b),
        y >= empty_cells(b),
    ensures
        wins(b, x) <==> wins(b, y),
    decreases x,
{
    lemma_popcount(taken(b), 0);
    if !finished(b) {
        lemma_legal_moves(b);
        let moves = legal_moves(b);
        assert(legal_move(b, moves[0]));
        lemma_move_fills_cell(b, moves[0]);
        assert forall|i: int| 0 <= i < moves.len() implies (wins(
            applied(b, #[trigger] moves[i]),
            (x - 1) as nat,
        ) <==> wins(applied(b, moves[i]), (y - 1) as nat)) by {
            assert(legal_move(b, moves[i]));
            lemma_move_fills_cell(b, moves[i]);
            lemma_wins_settled(applied(b, moves[i]), (x - 1) as nat, (y - 1) as nat);
        }
        if wins(b, x) {
            let i = choose|i: int|
                0 <= i < moves.len() && !wins(applied(b, #[trigger] moves[i]), (x - 1) as nat);
            assert(!wins(applied(b, moves[i]), (y - 1) as nat));
        }
        if wins(b, y) {
            let i = choose|i: int|
                0 <= i < moves.len() && !wins(applied(b, #[trigger] moves[i]), (y - 1) as nat);
            assert(!wins(applied(b, moves[i]), (x - 1) as nat));
        }
    }
}

/// The value of an exact reference is one exactly if the side to move can force a win.
pub proof fn law_references_tell_the_winner(b: Seq<u16>, r: SolvedReference)
    requires
        b.len() == 8,
        !finished(b),
        reference_exact(b, r),
    ensures
        r.value == 1 <==> wins(b, 16),
{
    lemma_popcount(taken(b), 0);
    lemma_wins_settled(b, 16, 17);
    lemma_legal_moves(b);
    let moves = legal_moves(b);
    if r.value == 1 {
        let m = choose|m: Move| #[trigger] legal_move(b, m) && !wins(applied(b, m), 16);
        assert(moves.contains(m));
        let i = choose|i: int| 0 <= i < moves.len() && moves[i] == m;
        assert(!wins(applied(b, moves[i]), 16));
        assert(wins(b, 17));
    }
    if wins(b, 17) {
        let i = choose|i: int| 0 <= i < moves.len() && !wins(applied(b, #[trigger] moves[i]), 16);
        assert(legal_move(b, moves[i]));
    }
}

/// An exact reference lists, where a move ends the game, exactly the moves that do; else, where
/// the side to move can force a win, only moves after which the opponent cannot.
pub proof fn law_references_list_winning_moves(b: Seq<u16>, r: SolvedReference, m: Move, n: Move)
    requires
        b.len() == 8,
        reference_exact(b, r),
        legal_move(b, m),
        legal_move(b, n),
    ensures
        finished(applied(b, m)) ==> texts(r.optimal_moves@).contains(key_of(m)),
        finished(applied(b, m)) && !finished(applied(b, n)) ==> !texts(
            r.optimal_moves@,
        ).contains(key_of(n)),
        !wins(applied(b, m), 16) && texts(r.optimal_moves@).contains(key_of(n)) ==> !wins(
            applied(b, n),
            16,
        ),
{
    lemma_score_sign(b, m);
    lemma_score_sign(b, n);
    assert(is_optimal(b, m) <==> texts(r.optimal_moves@).contains(key_of(m)));
    assert(is_optimal(b, n) <==> texts(r.optimal_moves@).contains(key_of(n)));
    lemma_scores_fit(b, m);
    lemma_scores_fit(b, n);
    if finished(applied(b, m)) {
        assert forall|k: Move| #[trigger] legal_move(b, k) implies reference_score(b, k)
            <= reference_score(b, m) by {
            lemma_scores_fit(b, k);
        }
    }
}

proof fn lemma_scores_fit(b: Seq<u16>, m: Move)
    requires
        b.len() == 8,
        legal_move(b, m),
    ensures
        reference_score(b, m) <= IMMEDIATE_WIN,
        !finished(applied(b, m)) ==> reference_score(b, m) < IMMEDIATE_WIN,
{
    let c = applied(b, m);
    if !finished(c) {
        lemma_legal_moves(c);
        lemma_legal_move_step(b, m);
        lemma_exact_range(c, legal_moves(c), 15, 1);
    }
}

proof fn lemma_exact_range(b: Seq<u16>, moves: Seq<Move>, left: nat, ply: int)
    requires
        moves.len() > 0,
        0 <= ply,
        ply + left <= 100,
    ensures
        -10_000 <= exact_best(b, moves, left, ply, 10_000, 1) <= 10_000,
    decreases left, moves.len(),
{
    let c = applied(b, moves.last());
    let last = exact_value(c, left, ply, 10_000, 1);
    assert(-10_000 <= last <= 10_000) by {
        if finished(c) || left == 0 {
            assert(ply * 1 == ply);
            assert(last == -(10_000 - ply * 1));
        } else {
            let e = (left - 1) as nat;
            lemma_exact_range(c, legal_moves(c), e, ply + 1);
            assert(last == exact_best(c, legal_moves(c), e, ply + 1, 10_000, 1));
        }
    }
    if moves.len() > 1 {
        let rest = moves.drop_last();
        lemma_exact_range(b, rest, left, ply);
        assert(exact_best(b, moves, left, ply, 10_000, 1) == if -last > exact_best(
            b,
            rest,
            left,
            ply,
            10_000,
            1,
        ) {
            -last
        } else {
            exact_best(b, rest, left, ply, 10_000, 1)
        });
    } else {
        assert(exact_best(b, moves, left, ply, 10_000, 1) == -last);
    }
}

/// The test of the positions has nothing to say exactly if every text shows a board and the
/// game goes on on each; there is at most one complaint for each position.
pub proof fn law_bad_positions_are_reported(positions: Seq<JsonView>, n: int)
    requires
        0 <= n <= positions.len(),
    ensures
        position_failures(positions, n).len() <= n,
        position_failures(positions, n).len() == 0 <==> forall|i: int|
            0 <= i < n ==> {
                let qfen = text_or(#[trigger] positions[i], "qfen"@, ""@);
                qfen_complaint(qfen) is None && !finished(qfen_board(qfen))
            },
    decreases n,
{
    if n > 0 {
        law_bad_positions_are_reported(positions, n - 1);
        let p = positions[n - 1];
        assert(position_failure(p) is None <==> {
            let qfen = text_or(p, "qfen"@, ""@);
            qfen_complaint(qfen) is None && !finished(qfen_board(qfen))
        });
    }
}

/// An engine is reported exactly if it moves for the player who is not to move, or chooses
/// otherwise, or fails, when it is asked again.
pub proof fn law_bad_choices_are_reported(
    name: Seq<char>,
    id: Seq<char>,
    side: int,
    mv: Move,
    second: Result<Seq<char>, Seq<char>>,
)
    ensures
        mover_failure(name, id, side, key_of(mv)).len() == 0 <==> mv.player == side,
        repeat_failure(name, id, key_of(mv), second).len() == 0 <==> second == Ok::<
            Seq<char>,
            Seq<char>,
        >(key_of(mv)),
        mover_failure(name, id, side, key_of(mv)).len() + repeat_failure(
            name,
            id,
            key_of(mv),
            second,
        ).len() <= 2,
{
    law_move_key_round_trip(mv);
}

} // verus!
