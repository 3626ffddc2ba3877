//! What a search visits and counts, how far its lines go, and where a report shows what.
use crate::beam_search::{rollouts_at, BeamSearchConfig};
use crate::beam_trace::{
    counts_of, ended_at, frontier_at, moves_from, rollout_of, values_drawn, BeamStep,
};
use crate::bench::adapters::{observation_view, seconds_view, MoveObservation};
use crate::bench::aggregate::{seed_tally, Tally};
use crate::bench::compact::compact_text;
use crate::bench::fields::{at, text_at, text_or};
use crate::bench::json::{lemma_member_at, number_or_null, JsonView};
use crate::bench::report::{
    cells_of, code, headers_of, phase_headers, phase_rows, section_parts, table_rows, table_text,
    text_or_mark, ReportTable,
};
use crate::bitboard::Bitboard;
use crate::book::selective::{board_run, frontier_run, TTEntry};
use crate::evaluation::{
    feature, held, indicator, lemma_eval_bounds, lemma_indicator_sum_bounds, live, threat,
    EvalConfig,
};
use crate::game::{to_move, won};
use crate::game_value::{
    after_line, best_reply, finished, legal_line, lemma_line_prepend, move_value, side_to_move,
    VALUE_BOUND,
};
use crate::invariance::sum;
use crate::laws::minimax::weighed;
use crate::mcts::MCTSConfig;
use crate::mcts_trace::{iterates_by, on_path, visit_of, with_last, GrownTree};
use crate::minimax::{
    deterministic_best, is_first_best, root_order, stepped, MinimaxConfig, INFINITE,
};
use crate::minimax_trace::{
    board_searched, children_searched, completing_first, distinct_moves, moves_completing,
    stepped_by, with_boards, TreeModel,
};
use crate::moves::{applied, legal_move, legal_moves, lemma_legal_moves, Move};
use crate::symmetry::{canonical, payload_number};
use rand::rngs::StdRng;
use vstd::prelude::*;
use vstd::string::*;

verus! {

/// The boards of the game tree below `b`, itself among them, down to `d` plies.
pub open spec fn boards_below(b: Seq<u16>, d: nat) -> int
    decreases d, 1nat, 0int,
{
    if finished(b) || d == 0 {
        1
    } else {
        1 + boards_after(b, legal_moves(b), legal_moves(b).len() as int, d)
    }
}

/// The boards below those after the first `n` of the moves.
pub open spec fn boards_after(b: Seq<u16>, moves: Seq<Move>, n: int, d: nat) -> int
    decreases d, 0nat, n,
{
    if n <= 0 || d == 0 {
        0
    } else {
        boards_after(b, moves, n - 1, d) + boards_below(applied(b, moves[n - 1]), (d - 1) as nat)
    }
}

/// The features that count for the player to move: the lines that both players threaten, and
/// the lines on which no shape stands twice with two taken cells, or with one.
pub proof fn law_shared_lines_count_for_the_mover(b: Seq<u16>, player: u8)
    requires
        to_move(b) == Some(player),
        player < 2,
    ensures
        feature(b, player as int, 2) == sum(
            |k: int| indicator(threat(b, 0, k) && threat(b, 1, k)),
            12,
        ),
        feature(b, player as int, 4) == sum(|k: int| indicator(live(b, k) && held(b, k) == 2), 12),
        feature(b, player as int, 5) == sum(|k: int| indicator(live(b, k) && held(b, k) == 1), 12),
        feature(b, player as int, 2) >= 0 && feature(b, player as int, 4) >= 0 && feature(
            b,
            player as int,
            5,
        ) >= 0,
        feature(b, 1 - player, 2) <= 0 && feature(b, 1 - player, 4) <= 0 && feature(
            b,
            1 - player,
            5,
        ) <= 0,
{
    let f2 = |k: int| indicator(threat(b, 0, k) && threat(b, 1, k));
    let f4 = |k: int| indicator(live(b, k) && held(b, k) == 2);
    let f5 = |k: int| indicator(live(b, k) && held(b, k) == 1);
    lemma_indicator_sum_bounds(f2, 12);
    lemma_indicator_sum_bounds(f4, 12);
    lemma_indicator_sum_bounds(f5, 12);
    assert(1 * sum(f2, 12) == sum(f2, 12) && 1 * sum(f4, 12) == sum(f4, 12) && 1 * sum(f5, 12)
        == sum(f5, 12));
    assert(-1 * sum(f2, 12) == -sum(f2, 12) && -1 * sum(f4, 12) == -sum(f4, 12) && -1 * sum(f5, 12)
        == -sum(f5, 12));
}

/// With the default weights the two players see a board with opposite eyes: what it is worth to
/// one it costs the other. Own threats, shared lines and legal moves speak for a player.
pub proof fn law_the_default_evaluation_is_fair(c: EvalConfig, b: Seq<u16>, player: u8)
    requires
        call_ensures(EvalConfig::default, (), c),
        player < 2,
    ensures
        weighed(b, (1 - player) as u8, c) == -weighed(b, player, c),
        c.weights@[0] > 0 && c.weights@[2] > 0 && c.weights@[3] > 0 && c.weights@[4] > 0,
        c.weights@[0] > c.weights@[2] > c.weights@[3] > c.weights@[4] > c.weights@[5],
        c.win > 64 * c.weights@[0],
{
    crate::laws::minimax::law_features_are_opposite(b, player);
    let p = player as int;
    let other = (1 - player) as u8;
    assert(other as int == 1 - p);
    assert(c.weights@[0] == 100 && c.weights@[1] == -100 && c.weights@[2] == 20 && c.weights@[3]
        == 3 && c.weights@[4] == 2 && c.weights@[5] == 0);
    assert(feature(b, 1 - p, 2) == -feature(b, p, 2));
    assert(feature(b, 1 - p, 3) == -feature(b, p, 3));
    assert(feature(b, 1 - p, 4) == -feature(b, p, 4));
    assert(feature(b, 1 - p, 5) == -feature(b, p, 5));
    assert(feature(b, 1 - p, 5) * 0 == 0 && feature(b, p, 5) * 0 == 0);
    assert(weighed(b, player, c) == feature(b, p, 0) * 100 + feature(b, p, 1) * (-100) + feature(
        b,
        p,
        2,
    ) * 20 + feature(b, p, 3) * 3 + feature(b, p, 4) * 2);
    assert(weighed(b, other, c) == feature(b, 1 - p, 0) * 100 + feature(b, 1 - p, 1) * (-100)
        + feature(b, 1 - p, 2) * 20 + feature(b, 1 - p, 3) * 3 + feature(b, 1 - p, 4) * 2);
}

/// A board that is searched counts as one more node. It counts as over where the game is, and
/// as expanded unless a line is complete there.
pub proof fn law_every_board_is_counted(
    cfg: MinimaxConfig,
    t: TreeModel,
    b: Seq<u16>,
    alpha: int,
    beta: int,
    ply: int,
)
    requires
        t.nodes < u64::MAX,
        t.counters.terminal_hits < u64::MAX,
        t.counters.expanded_nodes < u64::MAX,
    ensures
        ({
            let f = board_searched(cfg, t, b, 0, alpha, beta, ply);
            let (x, y) = (t.counters, f.tree.counters);
            &&& f.tree.nodes == t.nodes + 1
            &&& finished(b) ==> y.terminal_hits == x.terminal_hits + 1
            &&& !finished(b) ==> y.terminal_hits == x.terminal_hits
            &&& won(b) ==> y.expanded_nodes == x.expanded_nodes
            &&& !won(b) ==> y.expanded_nodes == x.expanded_nodes + 1
            &&& y.generated_nodes == x.generated_nodes
            &&& y.transposition_hits == x.transposition_hits
            &&& y.canonical_dedup_hits == x.canonical_dedup_hits
            &&& f.tree.tt == t.tt
        }),
{
}

/// Whether a search looks at every board: it has no table, does not cut and merges no moves.
pub open spec fn is_plain(cfg: MinimaxConfig) -> bool {
    !cfg.use_alpha_beta && !cfg.use_transposition_table && !cfg.dedup_children
}

/// A search that does not cut, has no table and merges no moves visits every board of the game
/// tree down to its depth once for each way to it.
pub proof fn law_a_plain_search_visits_every_board(
    cfg: MinimaxConfig,
    t: TreeModel,
    b: Seq<u16>,
    depth: nat,
    alpha: int,
    beta: int,
    ply: int,
)
    requires
        is_plain(cfg),
    ensures
        board_searched(cfg, t, b, depth, alpha, beta, ply).tree.nodes == stepped_by(
            t.nodes,
            boards_below(b, depth),
        ),
        boards_below(b, depth) >= 1,
    decreases depth, 1nat, 0int,
{
    if !finished(b) && depth > 0 {
        let moves = legal_moves(b);
        let n = moves.len() as int;
        lemma_nothing_repeats(b, moves, n);
        let order = completing_first(b, moves);
        lemma_order(b, moves, depth);
        let t0 = TreeModel { nodes: stepped(t.nodes), ..t };
        let t1 = with_boards(crate::minimax_trace::expanded(t0), b, moves, false);
        lemma_plain_children(
            cfg,
            t1,
            b,
            order,
            0,
            depth,
            alpha,
            beta,
            ply,
            -INFINITE as int,
            Seq::empty(),
        );
        lemma_after_split(b, order, 0, order.len() as int, depth);
        lemma_after_nonneg(b, order, order.len() as int, depth);
        let f = children_searched(
            cfg,
            t1,
            b,
            order,
            0,
            depth,
            alpha,
            beta,
            ply,
            -INFINITE as int,
            Seq::empty(),
        );
        assert(distinct_moves(b, moves, n, cfg.dedup_children) == moves);
        assert(board_searched(cfg, t, b, depth, alpha, beta, ply) == f);
    }
}

proof fn lemma_nothing_repeats(b: Seq<u16>, moves: Seq<Move>, n: int)
    requires
        0 <= n <= moves.len(),
    ensures
        distinct_moves(b, moves, n, false) == moves.take(n),
        n == moves.len() ==> distinct_moves(b, moves, n, false) == moves,
    decreases n,
{
    if n > 0 {
        lemma_nothing_repeats(b, moves, n - 1);
        assert(moves.take(n) =~= moves.take(n - 1).push(moves[n - 1]));
    } else {
        assert(moves.take(0) =~= Seq::empty());
    }
    if n == moves.len() {
        assert(moves.take(n) =~= moves);
    }
}

proof fn lemma_after_nonneg(b: Seq<u16>, moves: Seq<Move>, n: int, d: nat)
    ensures
        boards_after(b, moves, n, d) >= 0,
    decreases d, 0nat, n,
{
    if n > 0 && d > 0 {
        lemma_after_nonneg(b, moves, n - 1, d);
        lemma_below_positive(applied(b, moves[n - 1]), (d - 1) as nat);
    }
}

proof fn lemma_below_positive(b: Seq<u16>, d: nat)
    ensures
        boards_below(b, d) >= 1,
    decreases d, 1nat, 0int,
{
    if !finished(b) && d > 0 {
        lemma_after_nonneg(b, legal_moves(b), legal_moves(b).len() as int, d);
    }
}

/// The boards after the moves from the one at `i` on.
spec fn boards_from(b: Seq<u16>, moves: Seq<Move>, i: int, d: nat) -> int
    decreases moves.len() - i,
{
    if i >= moves.len() || d == 0 {
        0
    } else {
        boards_below(applied(b, moves[i]), (d - 1) as nat) + boards_from(b, moves, i + 1, d)
    }
}

proof fn lemma_after_split(b: Seq<u16>, moves: Seq<Move>, i: int, n: int, d: nat)
    requires
        0 <= i <= n,
        n == moves.len(),
        d > 0,
    ensures
        boards_after(b, moves, n, d) == boards_after(b, moves, i, d) + boards_from(b, moves, i, d),
    decreases n - i,
{
    if i < n {
        lemma_after_split(b, moves, i + 1, n, d);
        assert(boards_after(b, moves, i + 1, d) == boards_after(b, moves, i, d) + boards_below(
            applied(b, moves[i]),
            (d - 1) as nat,
        ));
    }
}

proof fn lemma_completing(b: Seq<u16>, moves: Seq<Move>, n: int, d: nat)
    requires
        0 <= n <= moves.len(),
        d > 0,
    ensures
        boards_after(b, moves, n, d) == boards_after(
            b,
            moves_completing(b, moves, n, true),
            moves_completing(b, moves, n, true).len() as int,
            d,
        ) + boards_after(
            b,
            moves_completing(b, moves, n, false),
            moves_completing(b, moves, n, false).len() as int,
            d,
        ),
    decreases n,
{
    if n > 0 {
        lemma_completing(b, moves, n - 1, d);
        let c = won(applied(b, moves[n - 1]));
        let before = moves_completing(b, moves, n - 1, c);
        let now = moves_completing(b, moves, n, c);
        assert(now == before.push(moves[n - 1]));
        lemma_after_same(b, now, before, before.len() as int, d);
    }
}

proof fn lemma_after_same(b: Seq<u16>, x: Seq<Move>, y: Seq<Move>, n: int, d: nat)
    requires
        n <= x.len(),
        n <= y.len(),
        forall|i: int| 0 <= i < n ==> x[i] == y[i],
    ensures
        boards_after(b, x, n, d) == boards_after(b, y, n, d),
    decreases n,
{
    if n > 0 && d > 0 {
        lemma_after_same(b, x, y, n - 1, d);
    }
}

proof fn lemma_after_joined(b: Seq<u16>, x: Seq<Move>, y: Seq<Move>, n: int, d: nat)
    requires
        0 <= n <= y.len(),
        d > 0,
    ensures
        boards_after(b, x + y, x.len() + n, d) == boards_after(b, x, x.len() as int, d)
            + boards_after(b, y, n, d),
    decreases n,
{
    if n > 0 {
        lemma_after_joined(b, x, y, n - 1, d);
        assert((x + y)[x.len() + n - 1] == y[n - 1]);
    } else {
        lemma_after_same(b, x + y, x, x.len() as int, d);
    }
}

/// The order in which the moves are looked at does not change the boards after them.
proof fn lemma_order(b: Seq<u16>, moves: Seq<Move>, d: nat)
    requires
        d > 0,
    ensures
        boards_after(b, completing_first(b, moves), completing_first(b, moves).len() as int, d)
            == boards_after(b, moves, moves.len() as int, d),
{
    let n = moves.len() as int;
    let x = moves_completing(b, moves, n, true);
    let y = moves_completing(b, moves, n, false);
    lemma_completing(b, moves, n, d);
    lemma_after_joined(b, x, y, y.len() as int, d);
}

proof fn lemma_plain_children(
    cfg: MinimaxConfig,
    t: TreeModel,
    b: Seq<u16>,
    moves: Seq<Move>,
    i: int,
    depth: nat,
    alpha: int,
    beta: int,
    ply: int,
    best: int,
    line: Seq<Move>,
)
    requires
        is_plain(cfg),
        0 <= i <= moves.len(),
        depth > 0,
    ensures
        children_searched(cfg, t, b, moves, i, depth, alpha, beta, ply, best, line).tree.nodes
            == stepped_by(t.nodes, boards_from(b, moves, i, depth)),
        boards_from(b, moves, i, depth) >= 0,
    decreases depth, 0nat, moves.len() - i,
{
    if i < moves.len() {
        let d = (depth - 1) as nat;
        let c = applied(b, moves[i]);
        law_a_plain_search_visits_every_board(cfg, t, c, d, -beta, -alpha, ply + 1);
        let reply = board_searched(cfg, t, c, d, -beta, -alpha, ply + 1);
        let better = -reply.value > best;
        let best1 = if better {
            -reply.value
        } else {
            best
        };
        let line1 = if better {
            seq![moves[i]] + reply.line
        } else {
            line
        };
        lemma_plain_children(
            cfg,
            reply.tree,
            b,
            moves,
            i + 1,
            depth,
            alpha,
            beta,
            ply,
            best1,
            line1,
        );
    }
}

/// Whether a line goes from `b` as far as `depth` plies or to the end of the game.
pub open spec fn goes_to_the_end(b: Seq<u16>, line: Seq<Move>, depth: nat) -> bool {
    &&& legal_line(b, line)
    &&& line.len() <= depth
    &&& line.len() == depth || finished(after_line(b, line))
}

/// The line that a search without a table finds goes as far as the search looks ahead, or to
/// the end of the game.
pub proof fn law_variations_reach_the_horizon(
    cfg: MinimaxConfig,
    t: TreeModel,
    b: Seq<u16>,
    depth: nat,
    alpha: int,
    beta: int,
    ply: int,
)
    requires
        cfg.eval_config.valid(),
        !cfg.use_transposition_table,
        0 <= ply,
        ply + depth <= u32::MAX,
    ensures
        goes_to_the_end(b, board_searched(cfg, t, b, depth, alpha, beta, ply).line, depth),
        -VALUE_BOUND <= board_searched(cfg, t, b, depth, alpha, beta, ply).value <= VALUE_BOUND,
    decreases depth, 1nat, 0int,
{
    let f = board_searched(cfg, t, b, depth, alpha, beta, ply);
    let unit = cfg.eval_config.unit as int;
    assert(0 <= ply * unit <= 0x4000_0000_0000_0000) by (nonlinear_arith)
        requires
            0 <= ply <= 0xFFFF_FFFF,
            1 <= unit <= 0x4000_0000,
    ;
    let none: Seq<Move> = Seq::empty();
    assert(legal_line(b, none) && after_line(b, none) == b);
    if !finished(b) && depth == 0 {
        lemma_eval_bounds(b, side_to_move(b), cfg.eval_config);
    }
    if !finished(b) && depth > 0 {
        let moves = legal_moves(b);
        let n = moves.len() as int;
        lemma_legal_moves(b);
        let kept = distinct_moves(b, moves, n, cfg.dedup_children);
        let order = completing_first(b, kept);
        lemma_kept_legal(b, moves, n, cfg.dedup_children);
        lemma_first_is_kept(b, moves, n, cfg.dedup_children);
        lemma_parts_legal(b, kept, kept.len() as int);
        let t0 = TreeModel { nodes: stepped(t.nodes), ..t };
        let t1 = with_boards(
            crate::minimax_trace::expanded(t0),
            b,
            moves,
            cfg.dedup_children,
        );
        let x = moves_completing(b, kept, kept.len() as int, true);
        let y = moves_completing(b, kept, kept.len() as int, false);
        assert(order =~= x + y);
        assert forall|i: int| 0 <= i < order.len() implies legal_move(b, #[trigger] order[i]) by {
            if i < x.len() {
                assert(order[i] == x[i]);
            } else {
                assert(order[i] == y[i - x.len()]);
            }
        }
        lemma_children_reach(
            cfg,
            t1,
            b,
            order,
            0,
            depth,
            alpha,
            beta,
            ply,
            -INFINITE as int,
            none,
        );
    }
}

proof fn lemma_kept_legal(b: Seq<u16>, moves: Seq<Move>, n: int, dedup: bool)
    requires
        0 <= n <= moves.len(),
        forall|i: int| 0 <= i < moves.len() ==> legal_move(b, #[trigger] moves[i]),
    ensures
        forall|i: int|
            0 <= i < distinct_moves(b, moves, n, dedup).len() ==> legal_move(
                b,
                #[trigger] distinct_moves(b, moves, n, dedup)[i],
            ),
    decreases n,
{
    if n > 0 {
        lemma_kept_legal(b, moves, n - 1, dedup);
        let before = distinct_moves(b, moves, n - 1, dedup);
        let now = distinct_moves(b, moves, n, dedup);
        assert forall|i: int| 0 <= i < now.len() implies legal_move(b, #[trigger] now[i]) by {
            if i < before.len() {
                assert(now[i] == before[i]);
                assert(legal_move(b, before[i]));
            } else {
                assert(legal_move(b, moves[n - 1]));
            }
        }
    }
}

proof fn lemma_first_is_kept(b: Seq<u16>, moves: Seq<Move>, n: int, dedup: bool)
    requires
        0 < n <= moves.len(),
    ensures
        distinct_moves(b, moves, n, dedup).len() > 0,
    decreases n,
{
    if n > 1 {
        lemma_first_is_kept(b, moves, n - 1, dedup);
    } else {
        assert(!crate::minimax_trace::repeats(b, moves, 0));
    }
}

proof fn lemma_parts_legal(b: Seq<u16>, moves: Seq<Move>, n: int)
    requires
        0 <= n <= moves.len(),
        forall|i: int| 0 <= i < moves.len() ==> legal_move(b, #[trigger] moves[i]),
    ensures
        forall|i: int|
            0 <= i < moves_completing(b, moves, n, true).len() ==> legal_move(
                b,
                #[trigger] moves_completing(b, moves, n, true)[i],
            ),
        forall|i: int|
            0 <= i < moves_completing(b, moves, n, false).len() ==> legal_move(
                b,
                #[trigger] moves_completing(b, moves, n, false)[i],
            ),
        moves_completing(b, moves, n, true).len() + moves_completing(b, moves, n, false).len() == n,
    decreases n,
{
    if n > 0 {
        lemma_parts_legal(b, moves, n - 1);
        let c = won(applied(b, moves[n - 1]));
        let before = moves_completing(b, moves, n - 1, c);
        let now = moves_completing(b, moves, n, c);
        assert(now == before.push(moves[n - 1]));
        assert forall|i: int| 0 <= i < now.len() implies legal_move(b, #[trigger] now[i]) by {
            if i < before.len() {
                assert(now[i] == before[i]);
            } else {
                assert(legal_move(b, moves[n - 1]));
            }
        }
        assert(moves_completing(b, moves, n, !c) == moves_completing(b, moves, n - 1, !c));
    }
}

proof fn lemma_children_reach(
    cfg: MinimaxConfig,
    t: TreeModel,
    b: Seq<u16>,
    moves: Seq<Move>,
    i: int,
    depth: nat,
    alpha: int,
    beta: int,
    ply: int,
    best: int,
    line: Seq<Move>,
)
    requires
        cfg.eval_config.valid(),
        !cfg.use_transposition_table,
        0 <= ply,
        ply + depth <= u32::MAX,
        depth > 0,
        0 <= i <= moves.len(),
        moves.len() > 0,
        forall|k: int| 0 <= k < moves.len() ==> legal_move(b, #[trigger] moves[k]),
        i == 0 ==> best == -INFINITE,
        i > 0 ==> -VALUE_BOUND <= best <= VALUE_BOUND && goes_to_the_end(b, line, depth),
    ensures
        ({
            let f = children_searched(cfg, t, b, moves, i, depth, alpha, beta, ply, best, line);
            &&& -VALUE_BOUND <= f.value <= VALUE_BOUND
            &&& goes_to_the_end(b, f.line, depth)
        }),
    decreases depth, 0nat, moves.len() - i,
{
    if i < moves.len() {
        let d = (depth - 1) as nat;
        let m = moves[i];
        let c = applied(b, m);
        law_variations_reach_the_horizon(cfg, t, c, d, -beta, -alpha, ply + 1);
        let reply = board_searched(cfg, t, c, d, -beta, -alpha, ply + 1);
        let better = -reply.value > best;
        let best1 = if better {
            -reply.value
        } else {
            best
        };
        let longer = seq![m] + reply.line;
        let line1 = if better {
            longer
        } else {
            line
        };
        assert(legal_move(b, moves[i]));
        lemma_line_prepend(b, m, reply.line);
        assert(longer.drop_first() =~= reply.line);
        assert(after_line(b, longer) == after_line(c, reply.line));
        let alpha1 = if cfg.use_alpha_beta && best1 > alpha {
            best1
        } else {
            alpha
        };
        if !(cfg.use_alpha_beta && alpha1 >= beta) {
            lemma_children_reach(
                cfg,
                reply.tree,
                b,
                moves,
                i + 1,
                depth,
                alpha1,
                beta,
                ply,
                best1,
                line1,
            );
        }
    }
}

/// A search without a generator keeps to its move: where the best move of an iteration is among
/// the best of the next, the next one settles on it again.
pub proof fn law_a_best_move_is_kept(b: Seq<u16>, d: nat, cfg: EvalConfig)
    requires
        d >= 1,
        legal_moves(b).contains(deterministic_best(b, d, cfg)),
        move_value(b, deterministic_best(b, d, cfg), d, 1, cfg) == best_reply(
            b,
            root_order(legal_moves(b), Some(deterministic_best(b, d, cfg))),
            d,
            1,
            cfg,
        ),
    ensures
        deterministic_best(b, d + 1, cfg) == deterministic_best(b, d, cfg),
{
    let h = deterministic_best(b, d, cfg);
    let order = root_order(legal_moves(b), Some(h));
    assert((d + 1 - 1) as nat == d);
    assert(order[0] == h);
    assert(is_first_best(b, order, d, cfg, h)) by {
        assert(move_value(b, order[0], d, 1, cfg) == best_reply(b, order, d, 1, cfg));
    }
    let n = deterministic_best(b, d + 1, cfg);
    assert(is_first_best(b, order, d, cfg, n));
    let i = choose|i: int|
        0 <= i < order.len() && order[i] == n && #[trigger] move_value(b, order[i], d, 1, cfg)
            == best_reply(b, order, d, 1, cfg) && forall|j: int|
            0 <= j < i ==> #[trigger] move_value(b, order[j], d, 1, cfg) < best_reply(
                b,
                order,
                d,
                1,
                cfg,
            );
    if i > 0 {
        assert(move_value(b, order[0], d, 1, cfg) < best_reply(b, order, d, 1, cfg));
    }
}

/// An iteration of a tree search counts one visit at each node on the way down and at the node
/// that was added, and none elsewhere; with it a win of player 0 where the game that was played
/// out from there has the value one, and of player 1 where it has the value minus one.
pub proof fn law_an_iteration_counts_along_the_way<F: Fn(u32, u32, u32) -> i64>(
    priority: F,
    cfg: MCTSConfig,
    x: GrownTree,
    path: Seq<usize>,
    y: GrownTree,
    r: usize,
    z: GrownTree,
    i: int,
)
    requires
        iterates_by(priority, cfg, x, path, y, r, z),
        0 <= i < y.nodes.len() <= usize::MAX,
        y.nodes[i].visits < u32::MAX,
        y.nodes[i].wins_p0 <= y.nodes[i].visits,
        y.nodes[i].wins_p1 <= y.nodes[i].visits,
    ensures
        z.nodes.len() == y.nodes.len(),
        ({
            let v = visit_of(y.nodes[r as int].board, cfg.max_depth, y.rng).0;
            let passed = path.contains(i as usize) || i == r;
            &&& z.nodes[i].board == y.nodes[i].board
            &&& passed ==> z.nodes[i].visits == y.nodes[i].visits + 1
            &&& !passed ==> z.nodes[i] == y.nodes[i]
            &&& passed && v > 0 ==> z.nodes[i].wins_p0 == y.nodes[i].wins_p0 + 1
                && z.nodes[i].wins_p1 == y.nodes[i].wins_p1
            &&& passed && v < 0 ==> z.nodes[i].wins_p1 == y.nodes[i].wins_p1 + 1
                && z.nodes[i].wins_p0 == y.nodes[i].wins_p0
            &&& passed && v == 0 ==> z.nodes[i].wins_p1 == y.nodes[i].wins_p1 && z.nodes[i].wins_p0
                == y.nodes[i].wins_p0
        }),
{
    let way = with_last(path, r);
    if path.contains(i as usize) {
        let k = choose|k: int| 0 <= k < path.len() && path[k] == i as usize;
        assert(way[k] == path[k]);
        assert(on_path(way, i));
    }
    if i == r {
        assert(way[way.len() - 1] == r);
        assert(on_path(way, i));
    }
    if on_path(way, i) {
        let k = choose|k: int| 0 <= k < way.len() && #[trigger] way[k] == i;
        if k < path.len() {
            assert(path[k] == way[k]);
            assert(path.contains(i as usize));
        }
    }
}

/// The boards of a level are valued one after the other: the games of a board are played with
/// the generator after those of the boards before it.
pub proof fn law_boards_are_valued_in_turn(
    boards: Seq<Seq<u16>>,
    rollouts: nat,
    n: int,
    rng: StdRng,
    k: int,
)
    requires
        0 <= k < n,
    ensures
        values_drawn(boards, rollouts, n, rng).0.len() == n,
        values_drawn(boards, rollouts, n, rng).0[k] == rollout_of(
            boards[k],
            rollouts,
            values_drawn(boards, rollouts, k, rng).1,
        ).0,
        values_drawn(boards, rollouts, k + 1, rng).1 == rollout_of(
            boards[k],
            rollouts,
            values_drawn(boards, rollouts, k, rng).1,
        ).1,
        values_drawn(boards, rollouts, 0, rng).1 == rng,
    decreases n,
{
    lemma_values_len(boards, rollouts, n - 1, rng);
    if k < n - 1 {
        law_boards_are_valued_in_turn(boards, rollouts, n - 1, rng, k);
    }
}

proof fn lemma_values_len(boards: Seq<Seq<u16>>, rollouts: nat, n: int, rng: StdRng)
    requires
        n >= 0,
    ensures
        values_drawn(boards, rollouts, n, rng).0.len() == n,
    decreases n,
{
    if n > 0 {
        lemma_values_len(boards, rollouts, n - 1, rng);
    }
}

/// What one more level adds to the counts of a beam search: each legal move of the frontier
/// generates a candidate; of these some end the game, some are open, and the rest was merged;
/// each open one is valued by as many games as the level plays, and is kept or pruned.
pub proof fn law_one_more_level(
    root: Seq<u16>,
    cfg: BeamSearchConfig,
    t: Seq<BeamStep>,
    n: int,
)
    requires
        0 <= n < t.len(),
    ensures
        ({
            let x = counts_of(root, cfg, false, t, n);
            let y = counts_of(root, cfg, false, t, n + 1);
            let from = frontier_at(cfg, t, n);
            let kept = frontier_at(cfg, t, n + 1).len();
            let ended = t[n].ended.len() - ended_at(t, n).len();
            &&& y.generated - x.generated == moves_from(root, from, from.len() as int)
            &&& y.evaluations - x.evaluations == t[n].open.len()
            &&& y.ended - x.ended == ended
            &&& (y.generated - x.generated) == (y.deduped - x.deduped) + (y.ended - x.ended) + (
            y.evaluations - x.evaluations)
            &&& (y.evaluations - x.evaluations) == kept + (y.pruned - x.pruned)
            &&& y.inserted - x.inserted == kept + ended
            &&& y.rollouts - x.rollouts == t[n].open.len() * rollouts_at(cfg, n + 1)
            &&& counts_of(root, cfg, true, t, n + 1).rollouts == counts_of(
                root,
                cfg,
                true,
                t,
                n,
            ).rollouts
        }),
{
}

/// A board that the table knows far enough is not searched again: the search visits this board
/// only, gives what is known and leaves the table as it is.
pub proof fn law_known_boards_are_not_searched_again(
    b: Seq<u16>,
    remaining: nat,
    tt: vstd::map::Map<u128, TTEntry>,
    top_k: usize,
    exhaustive_depth: usize,
)
    requires
        tt.contains_key(payload_number(canonical(b)) as u128),
        tt[payload_number(canonical(b)) as u128].searched_depth >= remaining,
    ensures
        ({
            let run = board_run(b, remaining, tt, top_k, exhaustive_depth);
            &&& run.score == tt[payload_number(canonical(b)) as u128].score
            &&& run.visits == 1
            &&& run.tt == tt
        }),
{
}

/// A position of a frontier is searched as many plies ahead as it is above the limit, after the
/// positions before it; one at the limit or below is left alone.
pub proof fn law_the_frontier_is_searched_down_to_the_limit(
    frontier: Seq<(Bitboard, usize)>,
    i: int,
    limit: usize,
    tt: vstd::map::Map<u128, TTEntry>,
    top_k: usize,
    exhaustive_depth: usize,
)
    requires
        0 <= i < frontier.len(),
    ensures
        ({
            let before = frontier_run(frontier, i, limit, tt, top_k, exhaustive_depth);
            let after = frontier_run(frontier, i + 1, limit, tt, top_k, exhaustive_depth);
            &&& frontier[i].1 >= limit ==> after == before
            &&& frontier[i].1 < limit ==> {
                let run = board_run(
                    frontier[i].0@,
                    (limit - frontier[i].1) as nat,
                    before.0,
                    top_k,
                    exhaustive_depth,
                );
                after.0 == run.tt && after.1 == before.1 + run.visits
            }
        }),
{
}

/// What one more row adds to the agreement of a seed: it counts where it has a reference and is
/// of the engine, the configuration and the seed, and as a hit where the move is optimal.
pub proof fn law_one_more_row_of_a_seed(
    rows: Seq<JsonView>,
    row: JsonView,
    key: Seq<Seq<char>>,
    seed: u64,
)
    ensures
        ({
            let n = rows.len() as int;
            let more = rows.push(row);
            let ours = seq![text_or(row, "engine"@, ""@), text_or(row, "config_label"@, ""@)] == key
                && at(row, "seed"@) == JsonView::Unsigned(seed);
            &&& seed_tally(Tally::Solved, more, n + 1, key, Some(seed)) == seed_tally(
                Tally::Solved,
                rows,
                n,
                key,
                Some(seed),
            ) + if ours && !(at(row, "hit"@) is Null) {
                1int
            } else {
                0
            }
            &&& seed_tally(Tally::Hits, more, n + 1, key, Some(seed)) == seed_tally(
                Tally::Hits,
                rows,
                n,
                key,
                Some(seed),
            ) + if ours && at(row, "hit"@) == JsonView::Bool(true) {
                1int
            } else {
                0
            }
        }),
{
    let n = rows.len() as int;
    lemma_seed_same(Tally::Solved, rows, rows.push(row), n, key, Some(seed));
    lemma_seed_same(Tally::Hits, rows, rows.push(row), n, key, Some(seed));
    assert(rows.push(row)[n] == row);
}

proof fn lemma_seed_same(
    t: Tally,
    x: Seq<JsonView>,
    y: Seq<JsonView>,
    n: int,
    key: Seq<Seq<char>>,
    seed: Option<u64>,
)
    requires
        0 <= n <= x.len() <= y.len(),
        forall|i: int| 0 <= i < x.len() ==> x[i] == y[i],
    ensures
        seed_tally(t, x, n, key, seed) == seed_tally(t, y, n, key, seed),
    decreases n,
{
    if n > 0 {
        lemma_seed_same(t, x, y, n - 1, key, seed);
    }
}

/// Whether the column with this header shows this text.
pub open spec fn shows_under(
    headers: Seq<Seq<char>>,
    cells: Seq<Seq<char>>,
    header: Seq<char>,
    cell: Seq<char>,
) -> bool {
    exists|i: int|
        0 <= i < headers.len() && i < cells.len() && #[trigger] headers[i] == header && cells[i]
            == cell
}

/// A report shows each number of the games between two engines under the header that names it.
pub proof fn law_games_stand_under_their_headers(row: JsonView)
    ensures
        ({
            let h = headers_of(ReportTable::Games);
            let c = cells_of(ReportTable::Games, row);
            &&& h.len() == c.len()
            &&& shows_under(h, c, "Engine A"@, text_or_mark(row, "engine_a"@))
            &&& shows_under(h, c, "Engine B"@, text_or_mark(row, "engine_b"@))
            &&& shows_under(h, c, "Paired positions"@, compact_text(at(row, "paired_positions"@)))
            &&& shows_under(h, c, "Games"@, compact_text(at(row, "games"@)))
            &&& shows_under(h, c, "A wins"@, compact_text(at(row, "a_wins"@)))
            &&& shows_under(h, c, "B wins"@, compact_text(at(row, "b_wins"@)))
            &&& shows_under(h, c, "Draws"@, compact_text(at(row, "draws"@)))
            &&& shows_under(h, c, "A wins as mover"@, compact_text(at(row, "a_wins_as_mover"@)))
            &&& shows_under(h, c, "B wins as mover"@, compact_text(at(row, "b_wins_as_mover"@)))
        }),
{
    let h = headers_of(ReportTable::Games);
    assert(h[0] == "Engine A"@ && h[1] == "Engine B"@ && h[2] == "Paired positions"@);
    assert(h[3] == "Games"@ && h[4] == "A wins"@ && h[5] == "B wins"@ && h[6] == "Draws"@);
    assert(h[8] == "A wins as mover"@ && h[9] == "B wins as mover"@);
}

/// A report shows the agreement, the cost and the steadiness of an engine under the headers
/// that name them, one line for each item.
pub proof fn law_rows_stand_under_their_headers(row: JsonView, list: JsonView)
    ensures
        ({
            let h = headers_of(ReportTable::Agreement);
            let c = cells_of(ReportTable::Agreement, row);
            &&& h.len() == c.len()
            &&& shows_under(h, c, "Engine"@, text_or_mark(row, "engine"@))
            &&& shows_under(h, c, "Configuration"@, code(text_or_mark(row, "config_label"@)))
            &&& shows_under(h, c, "Phase"@, text_or_mark(row, "phase"@))
            &&& shows_under(h, c, "Runs"@, compact_text(at(row, "n"@)))
            &&& shows_under(h, c, "Optimal selected"@, compact_text(at(row, "hits"@)))
        }),
        ({
            let h = headers_of(ReportTable::Cost);
            let c = cells_of(ReportTable::Cost, row);
            &&& h.len() == c.len()
            &&& shows_under(h, c, "Engine"@, text_or_mark(row, "engine"@))
            &&& shows_under(h, c, "Moves"@, compact_text(at(row, "n"@)))
            &&& shows_under(
                h,
                c,
                "Median time (s)"@,
                crate::bench::compact::decimals_text(at(row, "median_time_s"@), 4),
            )
            &&& shows_under(
                h,
                c,
                "p95 time (s)"@,
                crate::bench::compact::decimals_text(at(row, "p95_time_s"@), 4),
            )
            &&& shows_under(
                h,
                c,
                "Median nodes"@,
                crate::bench::compact::int_text(at(row, "median_nodes"@)),
            )
        }),
        ({
            let h = headers_of(ReportTable::Stability);
            let c = cells_of(ReportTable::Stability, row);
            &&& h.len() == c.len()
            &&& shows_under(h, c, "Seeds"@, compact_text(at(row, "seeds"@)))
            &&& shows_under(
                h,
                c,
                "Move consistency"@,
                crate::bench::compact::decimals_text(at(row, "move_consistency"@), 3),
            )
            &&& shows_under(
                h,
                c,
                "Agreement mean"@,
                crate::bench::compact::decimals_text(at(row, "agreement_mean"@), 3),
            )
            &&& shows_under(
                h,
                c,
                "Agreement std"@,
                crate::bench::compact::decimals_text(at(row, "agreement_std"@), 3),
            )
        }),
        list is Array ==> table_rows(ReportTable::Games, list).len() == list->Array_0.len(),
{
    let a = headers_of(ReportTable::Agreement);
    assert(a[0] == "Engine"@ && a[1] == "Configuration"@ && a[2] == "Phase"@ && a[3] == "Runs"@);
    assert(a[4] == "Optimal selected"@);
    let b = headers_of(ReportTable::Cost);
    assert(b[0] == "Engine"@ && b[2] == "Moves"@ && b[3] == "Median time (s)"@);
    assert(b[4] == "p95 time (s)"@ && b[5] == "Median nodes"@);
    let c = headers_of(ReportTable::Stability);
    assert(c[2] == "Seeds"@ && c[3] == "Move consistency"@ && c[4] == "Agreement mean"@);
    assert(c[5] == "Agreement std"@);
}

/// A report shows the games of a phase under the headers that name them.
pub proof fn law_phases_stand_under_their_headers(
    row: JsonView,
    members: Seq<(Seq<char>, JsonView)>,
    order: Seq<int>,
    n: int,
    k: int,
)
    requires
        0 <= k < n,
    ensures
        phase_rows(row, members, order, n).len() == n,
        ({
            let h = phase_headers();
            let c = phase_rows(row, members, order, n)[k];
            let split = members[order[k]];
            &&& h.len() == c.len()
            &&& shows_under(h, c, "Engine A"@, text_or_mark(row, "engine_a"@))
            &&& shows_under(h, c, "Engine B"@, text_or_mark(row, "engine_b"@))
            &&& shows_under(h, c, "Phase"@, split.0)
            &&& shows_under(h, c, "Games"@, compact_text(at(split.1, "games"@)))
            &&& shows_under(h, c, "A wins"@, compact_text(at(split.1, "a_wins"@)))
            &&& shows_under(h, c, "B wins"@, compact_text(at(split.1, "b_wins"@)))
        }),
    decreases n,
{
    lemma_phase_count(row, members, order, n - 1);
    if k < n - 1 {
        law_phases_stand_under_their_headers(row, members, order, n - 1, k);
    } else {
        let h = phase_headers();
        assert(h[0] == "Engine A"@ && h[1] == "Engine B"@ && h[2] == "Phase"@ && h[3] == "Games"@);
        assert(h[4] == "A wins"@ && h[5] == "B wins"@);
    }
}

proof fn lemma_phase_count(
    row: JsonView,
    members: Seq<(Seq<char>, JsonView)>,
    order: Seq<int>,
    n: int,
)
    requires
        n >= 0,
    ensures
        phase_rows(row, members, order, n).len() == n,
    decreases n,
{
    if n > 0 {
        lemma_phase_count(row, members, order, n - 1);
    }
}

/// A row of a run shows the wall-clock time and the processor time of a choice under their
/// names, with its move, nodes, seed and whether its score is exact.
pub proof fn law_rows_show_the_times(o: MoveObservation, score: JsonView)
    ensures
        ({
            let j = observation_view(o, score);
            &&& at(j, "wall_time_s"@) == seconds_view(o.wall_nanos)
            &&& at(j, "cpu_time_s"@) == seconds_view(o.cpu_nanos)
            &&& text_at(j, "move"@) == Some(o.mv@)
            &&& text_at(j, "engine"@) == Some(o.engine@)
            &&& at(j, "nodes"@) == number_or_null(o.nodes)
            &&& at(j, "iterations"@) == number_or_null(o.iterations)
            &&& at(j, "seed"@) == number_or_null(o.seed)
            &&& at(j, "exact"@) == JsonView::Bool(o.exact)
            &&& at(j, "score"@) == score
        }),
{
    reveal_strlit("config_label");
    reveal_strlit("cpu_time_s");
    reveal_strlit("depth_reached");
    reveal_strlit("engine");
    reveal_strlit("exact");
    reveal_strlit("extra");
    reveal_strlit("iterations");
    reveal_strlit("move");
    reveal_strlit("nodes");
    reveal_strlit("peak_memory_bytes");
    reveal_strlit("position_id");
    reveal_strlit("root_legal_moves");
    reveal_strlit("score");
    reveal_strlit("seed");
    reveal_strlit("wall_time_s");
    assert("config_label"@.len() == 12 && "cpu_time_s"@.len() == 10 && "depth_reached"@.len() == 13);
    assert("engine"@.len() == 6 && "exact"@.len() == 5 && "extra"@.len() == 5);
    assert("iterations"@.len() == 10 && "move"@.len() == 4 && "nodes"@.len() == 5);
    assert("peak_memory_bytes"@.len() == 17 && "position_id"@.len() == 11);
    assert("root_legal_moves"@.len() == 16 && "score"@.len() == 5 && "seed"@.len() == 4);
    assert("wall_time_s"@.len() == 11);
    assert("exact"@[0] == 'e' && "nodes"@[0] == 'n' && "score"@[0] == 's' && "extra"@[0] == 'e');
    assert("seed"@[0] == 's' && "move"@[0] == 'm' && "cpu_time_s"@[0] == 'c');
    assert("iterations"@[0] == 'i' && "wall_time_s"@[0] == 'w' && "position_id"@[0] == 'p');
    let o = observation_view(o, score)->Object_0;
    lemma_member_at(o, "cpu_time_s"@, 1);
    lemma_member_at(o, "engine"@, 3);
    lemma_member_at(o, "exact"@, 4);
    lemma_member_at(o, "iterations"@, 6);
    lemma_member_at(o, "move"@, 7);
    lemma_member_at(o, "nodes"@, 8);
    lemma_member_at(o, "score"@, 12);
    lemma_member_at(o, "seed"@, 13);
    lemma_member_at(o, "wall_time_s"@, 14);
}

/// Whether the parts of a report hold a section with this title and this table, four parts
/// further on.
pub open spec fn has_section(
    parts: Seq<Seq<char>>,
    title: Seq<char>,
    text: Seq<char>,
    gap: int,
) -> bool {
    exists|i: int|
        0 <= i && i + gap < parts.len() && #[trigger] parts[i] == title && parts[i + gap] == text
}

/// Each section of a report shows the sums that its title names.
pub proof fn law_sections_show_what_they_name(bundle: JsonView)
    ensures
        ({
            let parts = section_parts(bundle);
            let sums = at(bundle, "aggregates"@);
            let games = at(at(bundle, "head_to_head"@), "aggregates"@);
            &&& has_section(
                parts,
                "## Exact move agreement"@,
                table_text(
                    headers_of(ReportTable::Agreement),
                    table_rows(ReportTable::Agreement, at(sums, "agreement"@)),
                ),
                4,
            )
            &&& has_section(
                parts,
                "## Computational cost"@,
                table_text(
                    headers_of(ReportTable::Cost),
                    table_rows(ReportTable::Cost, at(sums, "cost"@)),
                ),
                4,
            )
            &&& has_section(
                parts,
                "## Head-to-head (paired, side-balanced)"@,
                table_text(
                    headers_of(ReportTable::Games),
                    table_rows(ReportTable::Games, games),
                ),
                4,
            )
            &&& has_section(
                parts,
                "## Stability across seeds"@,
                table_text(
                    headers_of(ReportTable::Stability),
                    table_rows(ReportTable::Stability, at(sums, "stability"@)),
                ),
                4,
            )
        }),
{
    let parts = section_parts(bundle);
    assert(parts.len() == 28);
    assert(parts[1] == "## Exact move agreement"@);
    assert(parts[7] == "## Computational cost"@);
    assert(parts[13] == "## Head-to-head (paired, side-balanced)"@);
    assert(parts[23] == "## Stability across seeds"@);
}

} // verus!
