//! Whose value an answer gives, what a request asks for, and what the exported rows say of the
//! players.
use crate::api::{asked_mcts, limit_nanos, limited, mcts_choice, value_of_rate, SearchConfig};
use crate::beam_search::{BeamSearchConfig, BeamSearchResult};
use crate::beam_trace::best_leaf_gives;
use crate::bench::adapters::{mcts_reports, random_outcome, MCTSAdapter, RawMetrics};
use crate::bench::export::{
    lemma_projected_fields, lemma_result_fields, mass_of, projected_observation, projected_result,
    result_complaint, row_action, score_or_zero, value_of,
};
use crate::bench::fields::{at, text_at};
use crate::bench::json::JsonView;
use crate::game::to_move;
use crate::laws::mcts::law_the_most_visited_move_is_chosen;
use crate::mcts::RootChild;
use crate::mcts_trace::{chooses, root_moves_of, GrownTree};
use crate::moves::{legal_moves, lemma_legal_moves, Move};
use crate::qfen::qfen_board;
use crate::rng::{drawn, seeded, starts_from};
use crate::search_telemetry::{Ratio, RootMoveStat};
use rand::rngs::StdRng;
use vstd::prelude::*;
use vstd::string::*;

verus! {

/// The value of a Monte Carlo answer is what the player to move won less what it did not win,
/// of the visits of the move that was chosen.
pub proof fn law_answers_count_the_movers_wins<F: Fn(u32, u32, u32) -> i64>(
    priority: F,
    b: Seq<u16>,
    input: SearchConfig,
    mv: Move,
    value: Ratio,
)
    requires
        mcts_choice(priority, b, input, mv, value),
        to_move(b) is Some,
    ensures
        exists|c: RootChild|
            {
                &&& #[trigger] is_visited(c, mv, value.den)
                &&& to_move(b) == Some(0u8) ==> value.num == c.wins_p0 - (value.den - c.wins_p0)
                &&& to_move(b) == Some(1u8) ==> value.num == c.wins_p1 - (value.den - c.wins_p1)
            },
{
    let (rng, n, t, wins) = choose|rng: StdRng, n: u32, t: GrownTree, wins: int| #[trigger]
        chooses(priority, asked_mcts(input), b, rng, n, t, mv, wins, value.den as int) && value.num
            == 2 * wins - value.den && starts_from(input.seed, rng);
    let k = choose|k: int| #[trigger]
        crate::mcts::first_most_visited(root_moves_of(t), k) && {
            let c = root_moves_of(t)[k];
            &&& mv == c.mv
            &&& wins == crate::mcts::child_wins(c, crate::game_value::side_to_move(b))
            &&& value.den == c.visits
        };
    law_the_most_visited_move_is_chosen(
        priority,
        asked_mcts(input),
        b,
        rng,
        n,
        t,
        mv,
        wins,
        value.den as int,
        k,
    );
    assert(is_visited(root_moves_of(t)[k], mv, value.den));
}

/// Whether a root move was visited so often.
pub open spec fn is_visited(c: RootChild, mv: Move, visits: u64) -> bool {
    c.mv == mv && c.visits == visits
}

/// The score that an engine reports for a Monte Carlo search is the share of the visits that
/// the player to move won.
pub proof fn law_scores_are_the_movers_share<F: Fn(u32, u32, u32) -> i64>(
    a: MCTSAdapter<F>,
    seed: Option<u64>,
    b: Seq<u16>,
    rng: StdRng,
    t: GrownTree,
    mv: Move,
    m: RawMetrics,
)
    requires
        mcts_reports(a, seed, b, rng, t, mv, m),
        to_move(b) is Some,
    ensures
        exists|c: RootChild|
            {
                &&& #[trigger] is_visited(c, mv, m.score->0.den)
                &&& to_move(b) == Some(0u8) ==> m.score->0.num == c.wins_p0
                &&& to_move(b) == Some(1u8) ==> m.score->0.num == c.wins_p1
            },
        m.nodes == Some(t.nodes.len() as u64),
{
    let q = m.score->0;
    let k = choose|k: int| #[trigger]
        crate::mcts::first_most_visited(root_moves_of(t), k) && {
            let c = root_moves_of(t)[k];
            &&& mv == c.mv
            &&& q.num == crate::mcts::child_wins(c, crate::game_value::side_to_move(b))
            &&& q.den == c.visits
        };
    assert(is_visited(root_moves_of(t)[k], mv, q.den));
}

/// Twice a rate less one goes from minus one over zero to one as the rate goes from zero over
/// one half to one.
pub proof fn law_values_follow_the_rate(x: Ratio, y: Ratio, p: Ratio, q: Ratio)
    requires
        0 <= x.num <= x.den <= u32::MAX,
        0 <= y.num <= y.den <= u32::MAX,
        call_ensures(value_of_rate, (x,), p),
        call_ensures(value_of_rate, (y,), q),
    ensures
        x.num * y.den < y.num * x.den ==> p.num * q.den < q.num * p.den,
        x.num == 0 ==> p.num == -(p.den as int),
        x.num == x.den ==> p.num == p.den,
        2 * x.num == x.den ==> p.num == 0,
{
    let (a, b, c, d) = (x.num as int, x.den as int, y.num as int, y.den as int);
    assert((2 * a - b) * d - (2 * c - d) * b == 2 * (a * d - c * b)) by (nonlinear_arith);
}

/// The value of a beam search answer is that of the best leaf, which is player 0's, to the
/// player to move, and the move is the first on the way to this leaf.
pub proof fn law_leaf_values_are_turned_to_the_mover(
    res: BeamSearchResult,
    root: Seq<u16>,
    cfg: BeamSearchConfig,
    rng: StdRng,
    mv: Move,
    value: Ratio,
)
    requires
        best_leaf_gives(res, root, cfg, rng, mv, value),
    ensures
        to_move(root) == Some(0u8) ==> value.num == res.best_leaf->0.value.num,
        to_move(root) == Some(1u8) ==> value.num == -(res.best_leaf->0.value.num as int),
        value.den == res.best_leaf->0.value.den,
        res.best_leaf->0.moves@.len() > 0 && mv == res.best_leaf->0.moves@[0],
{
}

/// A limit of a request is taken as it is where it is in range, else the nearer end is taken,
/// and the default where there is none; a larger wish never gives less.
pub proof fn law_limits_are_brought_into_range(x: int, y: int, otherwise: int, lo: int, hi: int)
    requires
        lo <= otherwise <= hi,
        x <= y,
    ensures
        lo <= limited(Some(x), otherwise, lo, hi) <= limited(Some(y), otherwise, lo, hi) <= hi,
        lo <= x <= hi ==> limited(Some(x), otherwise, lo, hi) == x,
        x < lo ==> limited(Some(x), otherwise, lo, hi) == lo,
        y > hi ==> limited(Some(y), otherwise, lo, hi) == hi,
        limited(None, otherwise, lo, hi) == otherwise,
{
}

/// A time limit in milliseconds, up to five minutes, is a million times as many nanoseconds;
/// without one there is none.
pub proof fn law_time_limits_are_in_milliseconds(ms: u64)
    ensures
        limit_nanos(None) is None,
        1 <= ms <= 300_000 ==> limit_nanos(Some(ms)) == Some((ms * 1_000_000) as u64),
        ms > 300_000 ==> limit_nanos(Some(ms)) == Some(300_000_000_000u64),
        ms == 0 ==> limit_nanos(Some(ms)) == Some(1_000_000u64),
{
}

/// Random choice takes the legal move at which the first draw of the seed points: seeds with
/// different draws take different moves.
pub proof fn law_random_choice_follows_the_seed(
    b: Seq<u16>,
    x: u64,
    y: u64,
    p: Result<(Move, RawMetrics), String>,
    q: Result<(Move, RawMetrics), String>,
)
    requires
        random_outcome(Some(x), b, p),
        random_outcome(Some(y), b, q),
        legal_moves(b).len() > 0,
        drawn(seeded(x), legal_moves(b).len() as u64) < legal_moves(b).len(),
        drawn(seeded(y), legal_moves(b).len() as u64) < legal_moves(b).len(),
    ensures
        p->Ok_0.0 == legal_moves(b)[drawn(seeded(x), legal_moves(b).len() as u64) as int],
        p->Ok_0.0 == q->Ok_0.0 <==> drawn(seeded(x), legal_moves(b).len() as u64) == drawn(
            seeded(y),
            legal_moves(b).len() as u64,
        ),
{
    lemma_legal_moves(b);
    let moves = legal_moves(b);
    let i = drawn(seeded(x), moves.len() as u64) as int;
    let j = drawn(seeded(y), moves.len() as u64) as int;
    if i < j {
        assert(crate::moves::action_of(moves[i]) < crate::moves::action_of(moves[j]));
    } else if j < i {
        assert(crate::moves::action_of(moves[j]) < crate::moves::action_of(moves[i]));
    }
}

/// A game result names the mover as the engine of the side to move, the responder as that of
/// the other side, and as the winner the player whose engine the record names.
pub proof fn law_game_results_name_the_winner(
    row_id: u64,
    run_id: Seq<char>,
    started_at: Seq<char>,
    record: JsonView,
    position: JsonView,
)
    requires
        result_complaint(record, position) is None,
        text_at(record, "mover"@) != text_at(record, "responder"@),
        text_at(record, "winner"@) == text_at(record, "mover"@) || text_at(record, "winner"@)
            == text_at(record, "responder"@),
    ensures
        ({
            let j = projected_result(row_id, run_id, started_at, record, position);
            let side = to_move(qfen_board(text_at(position, "qfen"@)->0));
            &&& side == Some(0u8) ==> text_at(j, "p0_engine_kind"@) == text_at(record, "mover"@)
                && text_at(j, "p1_engine_kind"@) == text_at(record, "responder"@)
            &&& side == Some(1u8) ==> text_at(j, "p1_engine_kind"@) == text_at(record, "mover"@)
                && text_at(j, "p0_engine_kind"@) == text_at(record, "responder"@)
            &&& at(j, "winner"@) == JsonView::Unsigned(0) || at(j, "winner"@)
                == JsonView::Unsigned(1)
            &&& at(j, "winner"@) == JsonView::Unsigned(0) ==> text_at(j, "p0_engine_kind"@)
                == text_at(record, "winner"@)
            &&& at(j, "winner"@) == JsonView::Unsigned(1) ==> text_at(j, "p1_engine_kind"@)
                == text_at(record, "winner"@)
            &&& at(j, "plies"@) == at(record, "plies"@)
        }),
{
    lemma_result_fields(row_id, run_id, started_at, record, position);
}

/// An observation gives its one visit, and the score, to the action of the move that was
/// chosen, and the side to move and the number of pieces of the board.
pub proof fn law_observations_mark_the_chosen_action(
    row_id: u64,
    run_id: Seq<char>,
    row: JsonView,
    position: JsonView,
    elapsed_ms: u64,
    a: int,
)
    requires
        0 <= a < 64,
    ensures
        ({
            let j = projected_observation(row_id, run_id, row, position, elapsed_ms);
            let b = qfen_board(text_at(position, "qfen"@)->0);
            let visits = at(j, "policy_visits"@);
            &&& visits is Array && visits->Array_0.len() == 64
            &&& a == row_action(row) ==> visits->Array_0[a] == JsonView::Unsigned(1)
            &&& a != row_action(row) ==> visits->Array_0[a] == JsonView::Unsigned(0)
            &&& at(j, "side_to_move"@) == JsonView::Unsigned(to_move(b)->0 as u64)
            &&& at(j, "ply"@) == JsonView::Unsigned(crate::game::total_pieces(b) as u64)
            &&& at(j, "value"@) == JsonView::Float(score_or_zero(row))
            &&& at(j, "elapsed_ms"@) == JsonView::Unsigned(elapsed_ms)
        }),
{
    lemma_projected_fields(row_id, run_id, row, position, elapsed_ms);
}

/// The masses and values of a search summary are those of the moves: an action has the mass
/// of the move with its number, and nothing where no move has it.
pub proof fn law_summaries_put_masses_at_their_actions(
    stats: Seq<RootMoveStat>,
    n: int,
    k: int,
    a: int,
)
    requires
        0 <= n <= stats.len(),
        0 <= k < n,
        forall|i: int, j: int|
            0 <= i < j < stats.len() ==> (#[trigger] stats[i]).action_index != (
            #[trigger] stats[j]).action_index,
    ensures
        mass_of(stats, n, stats[k].action_index as int) == stats[k].policy_mass,
        value_of(stats, n, stats[k].action_index as int) == stats[k].q,
        (forall|i: int| 0 <= i < n ==> (#[trigger] stats[i]).action_index != a) ==> mass_of(
            stats,
            n,
            a,
        ) == 0 && value_of(stats, n, a) is None,
    decreases n,
{
    lemma_no_move(stats, n, a);
    if k < n - 1 {
        law_summaries_put_masses_at_their_actions(stats, n - 1, k, a);
        assert(stats[k].action_index != stats[n - 1].action_index);
    } else {
        assert forall|i: int| 0 <= i < n - 1 implies (#[trigger] stats[i]).action_index
            != stats[k].action_index by {
            assert(stats[i].action_index != stats[n - 1].action_index);
        }
        lemma_no_move(stats, n - 1, stats[k].action_index as int);
    }
}

proof fn lemma_no_move(stats: Seq<RootMoveStat>, n: int, a: int)
    requires
        0 <= n <= stats.len(),
    ensures
        (forall|i: int| 0 <= i < n ==> (#[trigger] stats[i]).action_index != a) ==> mass_of(
            stats,
            n,
            a,
        ) == 0 && value_of(stats, n, a) is None,
    decreases n,
{
    if n > 0 {
        lemma_no_move(stats, n - 1, a);
        assert(stats[n - 1].action_index == stats[n - 1].action_index);
    }
}

} // verus!
