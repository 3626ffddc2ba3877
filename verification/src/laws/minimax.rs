//! Whose side a minimax score is on, and which moves it prefers.
use crate::bitboard::{lemma_popcount, taken};
use crate::evaluation::{
    eval_value, feature, held, indicator, lemma_indicator_sum_bounds, live, threat, turn_sign,
    EvalConfig,
};
use crate::game::to_move;
use crate::game_value::{
    best_reply, empty_cells, finished, lemma_best_reply, lemma_move_fills_cell, move_value,
    root_value, value,
};
use crate::invariance::sum;
use crate::minimax::{
    deterministic_best, is_first_best, lemma_no_duplicates, lemma_root_order, q_of_score,
    result_ok, root_order, MinimaxConfig, MinimaxResult,
};
use crate::minimax_trace::{best_places, distinct_moves, iterated, Deepened};
use crate::moves::{
    action_of, applied, legal_move, legal_moves, lemma_legal_move_step, lemma_legal_moves, Move,
};
use crate::rng::drawn;
use rand::rngs::StdRng;
use vstd::prelude::*;

verus! {

/// The weighted sum of the features of a board as `player` sees them.
pub open spec fn weighed(b: Seq<u16>, player: u8, cfg: EvalConfig) -> int {
    let p = player as int;
    feature(b, p, 0) * cfg.weights@[0] + feature(b, p, 1) * cfg.weights@[1] + feature(b, p, 2)
        * cfg.weights@[2] + feature(b, p, 3) * cfg.weights@[3] + feature(b, p, 4) * cfg.weights@[4]
        + feature(b, p, 5) * cfg.weights@[5]
}

/// The two players see a board with opposite eyes: what one counts for itself the other counts
/// against itself, and the threats of the one are the threats that the other faces.
pub proof fn law_features_are_opposite(b: Seq<u16>, player: u8)
    requires
        player < 2,
    ensures
        feature(b, 1 - player, 0) == feature(b, player as int, 1),
        feature(b, 1 - player, 1) == feature(b, player as int, 0),
        forall|i: int| 2 <= i < 6 ==> #[trigger] feature(b, 1 - player, i) == -feature(
            b,
            player as int,
            i,
        ),
{
    let p = player as int;
    assert(1 - (1 - p) == p);
    assert forall|i: int| 2 <= i < 6 implies #[trigger] feature(b, 1 - p, i) == -feature(
        b,
        p,
        i,
    ) by {
        let t = turn_sign(b, p);
        let u = turn_sign(b, 1 - p);
        assert(u == -t);
        let x = if i == 2 {
            sum(
                |k: int|
                    indicator(
                        threat(b, 0, k) && threat(b, 1, k),
                    ),
                12,
            )
        } else if i == 4 {
            sum(
                |k: int|
                    indicator(
                        live(b, k) && held(b, k) == 2,
                    ),
                12,
            )
        } else {
            sum(
                |k: int|
                    indicator(
                        live(b, k) && held(b, k) == 1,
                    ),
                12,
            )
        };
        assert(u * x == -(t * x)) by (nonlinear_arith)
            requires
                u == -t,
        ;
    }
}

/// The player to move counts each legal move for itself.
pub proof fn law_mobility_counts_the_legal_moves(b: Seq<u16>, player: u8)
    requires
        to_move(b) == Some(player),
    ensures
        feature(b, player as int, 3) == legal_moves(b).len(),
        feature(b, 1 - player, 3) == -(legal_moves(b).len() as int),
{
}

/// Where the game goes on and no ply is looked ahead, a board is worth to the player to move
/// what this player sees on it.
pub proof fn law_horizon_is_seen_by_the_mover(b: Seq<u16>, player: u8, ply: int, cfg: EvalConfig)
    requires
        !finished(b),
        to_move(b) == Some(player),
    ensures
        value(b, 0, ply, cfg) == weighed(b, player, cfg),
{
    reveal(eval_value);
}

/// What a move that is not looked past is worth to the player who makes it: the win if it ends
/// the game, else the loss of what the opponent, who is then to move, sees.
pub open spec fn at_once(b: Seq<u16>, m: Move, cfg: EvalConfig) -> int {
    if finished(applied(b, m)) {
        cfg.win - cfg.unit
    } else {
        -weighed(applied(b, m), (1 - m.player) as u8, cfg)
    }
}

/// A one-ply score is the best that a legal move gives at once.
pub proof fn law_one_ply_score(b: Seq<u16>, cfg: EvalConfig)
    requires
        b.len() == 8,
        legal_moves(b).len() > 0,
    ensures
        forall|m: Move| #[trigger] legal_move(b, m) ==> at_once(b, m, cfg) <= root_value(b, 1, cfg),
        exists|m: Move| #[trigger] legal_move(b, m) && at_once(b, m, cfg) == root_value(b, 1, cfg),
{
    let moves = legal_moves(b);
    lemma_legal_moves(b);
    lemma_best_reply(b, moves, 0, 1, cfg);
    assert forall|m: Move| #[trigger] legal_move(b, m) implies at_once(b, m, cfg) == move_value(
        b,
        m,
        0,
        1,
        cfg,
    ) by {
        lemma_legal_move_step(b, m);
        if !finished(applied(b, m)) {
            law_horizon_is_seen_by_the_mover(applied(b, m), (1 - m.player) as u8, 1, cfg);
        }
    }
    assert forall|m: Move| #[trigger] legal_move(b, m) implies at_once(b, m, cfg) <= root_value(
        b,
        1,
        cfg,
    ) by {
        assert(moves.contains(m));
        let i = choose|i: int| 0 <= i < moves.len() && moves[i] == m;
        assert(move_value(b, moves[i], 0, 1, cfg) <= root_value(b, 1, cfg));
    }
    let i = choose|i: int|
        0 <= i < moves.len() && #[trigger] move_value(b, moves[i], 0, 1, cfg) == root_value(
            b,
            1,
            cfg,
        );
    assert(legal_move(b, moves[i]));
}

/// Whether only the number of legal moves counts, and counts for who has them.
pub open spec fn only_mobility(cfg: EvalConfig) -> bool {
    &&& cfg.weights@[3] > 0
    &&& cfg.weights@[0] == 0 && cfg.weights@[1] == 0 && cfg.weights@[2] == 0
    &&& cfg.weights@[4] == 0 && cfg.weights@[5] == 0
}

/// Where only the number of legal moves counts, of two moves neither of which ends the game
/// the one that leaves the opponent fewer replies scores higher.
pub proof fn law_fewer_replies_score_higher(b: Seq<u16>, m: Move, n: Move, cfg: EvalConfig)
    requires
        b.len() == 8,
        legal_move(b, m),
        legal_move(b, n),
        !finished(applied(b, m)),
        !finished(applied(b, n)),
        only_mobility(cfg),
        legal_moves(applied(b, m)).len() < legal_moves(applied(b, n)).len(),
    ensures
        move_value(b, m, 0, 1, cfg) > move_value(b, n, 0, 1, cfg),
        0 > move_value(b, m, 0, 1, cfg),
{
    lemma_legal_move_step(b, m);
    lemma_legal_move_step(b, n);
    let other = (1 - m.player) as u8;
    law_horizon_is_seen_by_the_mover(applied(b, m), other, 1, cfg);
    law_horizon_is_seen_by_the_mover(applied(b, n), other, 1, cfg);
    law_mobility_counts_the_legal_moves(applied(b, m), other);
    law_mobility_counts_the_legal_moves(applied(b, n), other);
    let w = cfg.weights@[3] as int;
    let x = legal_moves(applied(b, m)).len() as int;
    let y = legal_moves(applied(b, n)).len() as int;
    lemma_only_mobility(applied(b, m), other, cfg);
    lemma_only_mobility(applied(b, n), other, cfg);
    assert(x * w < y * w && x * w > 0) by (nonlinear_arith)
        requires
            0 < x < y,
            w > 0,
    ;
}

proof fn lemma_only_mobility(b: Seq<u16>, player: u8, cfg: EvalConfig)
    requires
        only_mobility(cfg),
    ensures
        weighed(b, player, cfg) == feature(b, player as int, 3) * cfg.weights@[3],
{
    let p = player as int;
    lemma_times_zero(feature(b, p, 0));
    lemma_times_zero(feature(b, p, 1));
    lemma_times_zero(feature(b, p, 2));
    lemma_times_zero(feature(b, p, 4));
    lemma_times_zero(feature(b, p, 5));
}

proof fn lemma_times_zero(x: int)
    ensures
        x * 0 == 0,
{
}

/// A board on which the game goes on is worth, with more plies ahead, the best that a legal
/// move leaves: no legal move leaves the opponent less, and one leaves exactly that.
pub proof fn law_value_is_the_best_reply(b: Seq<u16>, d: nat, ply: int, cfg: EvalConfig)
    requires
        !finished(b),
    ensures
        forall|m: Move| #[trigger]
            legal_move(b, m) ==> value(b, d + 1, ply, cfg) >= -value(applied(b, m), d, ply + 1, cfg),
        exists|m: Move| #[trigger]
            legal_move(b, m) && value(b, d + 1, ply, cfg) == -value(applied(b, m), d, ply + 1, cfg),
{
    let moves = legal_moves(b);
    lemma_legal_moves(b);
    lemma_best_reply(b, moves, d, ply + 1, cfg);
    assert((d + 1 - 1) as nat == d);
    assert forall|m: Move| #[trigger] legal_move(b, m) implies value(b, d + 1, ply, cfg) >= -value(
        applied(b, m),
        d,
        ply + 1,
        cfg,
    ) by {
        assert(moves.contains(m));
        let i = choose|i: int| 0 <= i < moves.len() && moves[i] == m;
        assert(move_value(b, moves[i], d, ply + 1, cfg) <= value(b, d + 1, ply, cfg));
    }
    let i = choose|i: int|
        0 <= i < moves.len() && #[trigger] move_value(b, moves[i], d, ply + 1, cfg) == value(
            b,
            d + 1,
            ply,
            cfg,
        );
    assert(legal_move(b, moves[i]));
}

/// The move that a search reports leaves the opponent no more than any other legal move, at the
/// depth that was reached, and the score is what it leaves with the sign turned.
pub proof fn law_the_chosen_move_leaves_the_least(
    r: MinimaxResult,
    b: Seq<u16>,
    m: Move,
    cfg: EvalConfig,
)
    requires
        result_ok(r, b, cfg),
        legal_move(b, m),
    ensures
        r.score == -value(applied(b, r.best_move), (r.depth_reached - 1) as nat, 1, cfg),
        value(applied(b, r.best_move), (r.depth_reached - 1) as nat, 1, cfg) <= value(
            applied(b, m),
            (r.depth_reached - 1) as nat,
            1,
            cfg,
        ),
{
    let moves = legal_moves(b);
    lemma_legal_moves(b);
    let d = (r.depth_reached - 1) as nat;
    assert(moves.contains(m));
    lemma_best_reply(b, moves, d, 1, cfg);
    let i = choose|i: int| 0 <= i < moves.len() && moves[i] == m;
    assert(move_value(b, moves[i], d, 1, cfg) <= root_value(b, r.depth_reached as nat, cfg));
}

/// A finished game is lost for the player to move, and the sooner it ends the worse.
pub proof fn law_sooner_is_worse(
    b: Seq<u16>,
    c: Seq<u16>,
    d: nat,
    e: nat,
    early: int,
    late: int,
    cfg: EvalConfig,
)
    requires
        finished(b),
        finished(c),
        0 <= early < late,
        cfg.unit > 0,
        cfg.win > late * cfg.unit,
    ensures
        value(b, d, early, cfg) < value(c, e, late, cfg) < 0,
{
    assert(early * cfg.unit < late * cfg.unit) by (nonlinear_arith)
        requires
            early < late,
            cfg.unit > 0,
    ;
}

/// The value that stands for a score has its sign, keeps the order of scores, and turns its sign
/// with the score; a score within sixteen units of the win stands for a sure win.
pub proof fn law_q_keeps_the_order(x: int, y: int, win: int, unit: int)
    requires
        unit >= 1,
        win > 16 * unit,
        x <= y,
    ensures
        ({
            let (p, q) = q_of_score(x, win, unit);
            let (s, t) = q_of_score(y, win, unit);
            &&& q > 0 && t > 0
            &&& -q <= p <= q
            &&& p * t <= s * q
            &&& (p > 0 <==> x > 0) && (p < 0 <==> x < 0)
            &&& x < y < win - 16 * unit && x > -(win - 16 * unit) ==> p * t < s * q
            &&& q_of_score(-x, win, unit) == (-p, q)
            &&& y >= win - 16 * unit <==> s == t
        }),
{
    let (p, q) = q_of_score(x, win, unit);
    let (s, t) = q_of_score(y, win, unit);
    assert(p * t <= s * q) by (nonlinear_arith)
        requires
            (p == 1 && q == 1 && s == 1 && t == 1) || (p == -1 && q == 1 && -t <= s <= t && t > 0)
                || (s == 1 && t == 1 && -q <= p <= q && q > 0) || (p == x && s == y && q == unit + (
            if x >= 0 {
                x
            } else {
                -x
            }) && t == unit + (if y >= 0 {
                y
            } else {
                -y
            })),
            x <= y,
            unit >= 1,
    ;
    if x < y < win - 16 * unit && x > -(win - 16 * unit) {
        assert(p * t < s * q) by (nonlinear_arith)
            requires
                p == x && s == y && q == unit + (if x >= 0 {
                    x
                } else {
                    -x
                }) && t == unit + (if y >= 0 {
                    y
                } else {
                    -y
                }),
                x < y,
                unit >= 1,
        ;
    }
}

/// Whether no evaluation reaches a win that is at most seventeen plies away.
pub open spec fn wins_outweigh(cfg: EvalConfig) -> bool {
    &&& cfg.unit > 0
    &&& forall|b: Seq<u16>, p: u8|
        p < 2 ==> -(cfg.win - 18 * cfg.unit) < #[trigger] weighed(b, p, cfg) < cfg.win - 18
            * cfg.unit
}

proof fn lemma_value_range(b: Seq<u16>, d: nat, ply: int, cfg: EvalConfig)
    requires
        b.len() == 8,
        to_move(b) is Some,
        wins_outweigh(cfg),
        1 <= ply,
        ply + empty_cells(b) <= 17,
    ensures
        -(cfg.win - ply * cfg.unit) <= value(b, d, ply, cfg) < cfg.win - ply * cfg.unit,
        !finished(b) ==> -(cfg.win - ply * cfg.unit) < value(b, d, ply, cfg),
    decreases d,
{
    let u = cfg.unit as int;
    let player = to_move(b)->0;
    lemma_popcount(taken(b), 0);
    assert(ply * u <= 17 * u) by (nonlinear_arith)
        requires
            ply <= 17,
            u > 0,
    ;
    assert((ply + 1) * u == ply * u + u) by (nonlinear_arith);
    assert(-(cfg.win - 18 * u) < weighed(b, player, cfg) < cfg.win - 18 * u);
    if finished(b) {
    } else if d == 0 {
        law_horizon_is_seen_by_the_mover(b, player, ply, cfg);
    } else {
        let e = (d - 1) as nat;
        assert(e + 1 == d);
        law_value_is_the_best_reply(b, e, ply, cfg);
        let m = choose|m: Move| #[trigger]
            legal_move(b, m) && value(b, e + 1, ply, cfg) == -value(
                applied(b, m),
                e,
                ply + 1,
                cfg,
            );
        lemma_move_fills_cell(b, m);
        lemma_legal_move_step(b, m);
        lemma_value_range(applied(b, m), e, ply + 1, cfg);
    }
}

/// Where no evaluation reaches a win, a search to any depth plays a move that ends the game
/// whenever there is one, and gives it the highest score that there is.
pub proof fn law_a_win_at_once_is_taken(r: MinimaxResult, b: Seq<u16>, m: Move, cfg: EvalConfig)
    requires
        b.len() == 8,
        wins_outweigh(cfg),
        result_ok(r, b, cfg),
        legal_move(b, m),
        finished(applied(b, m)),
    ensures
        finished(applied(b, r.best_move)),
        r.score == cfg.win - cfg.unit,
{
    law_the_chosen_move_leaves_the_least(r, b, m, cfg);
    let c = applied(b, r.best_move);
    lemma_legal_move_step(b, r.best_move);
    lemma_move_fills_cell(b, r.best_move);
    lemma_popcount(taken(b), 0);
    lemma_value_range(c, (r.depth_reached - 1) as nat, 1, cfg);
    lemma_popcount(taken(c), 0);
}

/// With the default weights no evaluation reaches a win.
pub proof fn law_default_wins_outweigh(cfg: EvalConfig)
    requires
        cfg.weights@ == seq![100i64, -100i64, 20i64, 3i64, 2i64, 0i64],
        cfg.win == 10_000,
        cfg.unit == 1,
    ensures
        wins_outweigh(cfg),
{
    assert forall|b: Seq<u16>, p: u8| p < 2 implies -(cfg.win - 18 * cfg.unit)
        < #[trigger] weighed(b, p, cfg) < cfg.win - 18 * cfg.unit by {
        let q = p as int;
        lemma_legal_moves(b);
        let f0 = |k: int| indicator(threat(b, q, k));
        let f1 = |k: int| indicator(threat(b, 1 - q, k));
        let f2 = |k: int| indicator(threat(b, 0, k) && threat(b, 1, k));
        let f4 = |k: int| indicator(live(b, k) && held(b, k) == 2);
        lemma_indicator_sum_bounds(f0, 12);
        lemma_indicator_sum_bounds(f1, 12);
        lemma_indicator_sum_bounds(f2, 12);
        lemma_indicator_sum_bounds(f4, 12);
        let t = turn_sign(b, q);
        assert(t * sum(f2, 12) == sum(f2, 12) || t * sum(f2, 12) == -sum(f2, 12)) by {
            assert(t == 1 || t == -1);
        }
        assert(t * sum(f4, 12) == sum(f4, 12) || t * sum(f4, 12) == -sum(f4, 12)) by {
            assert(t == 1 || t == -1);
        }
        lemma_times_zero(feature(b, q, 5));
        assert(cfg.weights@[0] == 100 && cfg.weights@[1] == -100 && cfg.weights@[2] == 20
            && cfg.weights@[3] == 3 && cfg.weights@[4] == 2 && cfg.weights@[5] == 0);
    }
}

/// The root moves that an iteration tries, after an iteration that found `best`.
pub open spec fn tried(cfg: MinimaxConfig, b: Seq<u16>, best: Option<Move>) -> Seq<Move> {
    let order = root_order(legal_moves(b), best);
    distinct_moves(b, order, order.len() as int, cfg.dedup_children)
}

/// Of several moves that are worth most a search with a generator takes the one that the draw
/// points at: two generators with different draws take different moves.
pub proof fn law_draws_choose_among_the_best(
    cfg: MinimaxConfig,
    b: Seq<u16>,
    x: Deepened,
    r: StdRng,
    s: StdRng,
    depth: nat,
)
    requires
        ({
            let moves = tried(cfg, b, x.best);
            let n = best_places(b, moves, moves.len() as int, depth, cfg).len();
            &&& drawn(r, n as u64) < n
            &&& drawn(s, n as u64) < n
            &&& drawn(r, n as u64) != drawn(s, n as u64)
        }),
    ensures
        iterated(cfg, b, Deepened { rng: Some(r), ..x }, depth).best != iterated(
            cfg,
            b,
            Deepened { rng: Some(s), ..x },
            depth,
        ).best,
{
    let order = root_order(legal_moves(b), x.best);
    let moves = tried(cfg, b, x.best);
    lemma_no_duplicates(b);
    lemma_root_order(legal_moves(b), x.best);
    lemma_distinct(b, order, order.len() as int, cfg.dedup_children);
    lemma_places_grow(b, moves, moves.len() as int, depth, cfg);
}

proof fn lemma_distinct(b: Seq<u16>, moves: Seq<Move>, n: int, dedup: bool)
    requires
        0 <= n <= moves.len(),
        moves.no_duplicates(),
    ensures
        distinct_moves(b, moves, n, dedup).no_duplicates(),
        forall|m: Move| #[trigger]
            distinct_moves(b, moves, n, dedup).contains(m) ==> moves.take(n).contains(m),
    decreases n,
{
    let kept = distinct_moves(b, moves, n, dedup);
    if n > 0 {
        lemma_distinct(b, moves, n - 1, dedup);
        let before = distinct_moves(b, moves, n - 1, dedup);
        let m = moves[n - 1];
        assert(!before.contains(m)) by {
            if before.contains(m) {
                let head = moves.take(n - 1);
                let i = choose|i: int| 0 <= i < head.len() && head[i] == m;
                assert(moves[i] == moves[n - 1]);
            }
        }
        assert forall|x: Move| #[trigger] kept.contains(x) implies moves.take(n).contains(x) by {
            let k = choose|k: int| 0 <= k < kept.len() && kept[k] == x;
            if k < before.len() {
                assert(before[k] == x);
                assert(before.contains(x));
                let head = moves.take(n - 1);
                let i = choose|i: int| 0 <= i < head.len() && head[i] == x;
                assert(moves.take(n)[i] == x);
            } else {
                assert(moves.take(n)[n - 1] == x);
            }
        }
        assert forall|i: int, j: int| 0 <= i < kept.len() && 0 <= j < kept.len() && i
            != j implies kept[i] != kept[j] by {
            if i < before.len() && j < before.len() {
                assert(before[i] != before[j]);
            } else if i < before.len() {
                assert(before.contains(kept[i]));
            } else {
                assert(before.contains(kept[j]));
            }
        }
    }
}

/// Without a generator the first iteration takes, of the moves that are worth most, the one
/// with the lowest action number.
pub proof fn law_ties_go_to_the_lowest_action(b: Seq<u16>, m: Move, cfg: EvalConfig)
    requires
        b.len() == 8,
        legal_move(b, m),
        at_once(b, m, cfg) == root_value(b, 1, cfg),
    ensures
        legal_move(b, deterministic_best(b, 1, cfg)),
        at_once(b, deterministic_best(b, 1, cfg), cfg) == root_value(b, 1, cfg),
        action_of(deterministic_best(b, 1, cfg)) <= action_of(m),
{
    let moves = legal_moves(b);
    lemma_legal_moves(b);
    assert(moves.contains(m));
    lemma_best_reply(b, moves, 0, 1, cfg);
    let k = choose|k: int|
        0 <= k < moves.len() && #[trigger] move_value(b, moves[k], 0, 1, cfg) == root_value(
            b,
            1,
            cfg,
        );
    lemma_first_exists(b, moves, cfg, k);
    let best = deterministic_best(b, 1, cfg);
    assert(root_order(moves, None) == moves);
    assert(is_first_best(b, moves, 0, cfg, best));
    let i = choose|i: int|
        0 <= i < moves.len() && moves[i] == best && #[trigger] move_value(b, moves[i], 0, 1, cfg)
            == root_value(b, 1, cfg) && forall|j: int|
            0 <= j < i ==> #[trigger] move_value(b, moves[j], 0, 1, cfg) < root_value(b, 1, cfg);
    let p = choose|p: int| 0 <= p < moves.len() && moves[p] == m;
    lemma_at_once(b, m, cfg);
    assert(legal_move(b, moves[i]));
    lemma_at_once(b, best, cfg);
    if p < i {
        assert(move_value(b, moves[p], 0, 1, cfg) < root_value(b, 1, cfg));
    } else if i < p {
        assert(action_of(moves[i]) < action_of(moves[p]));
    }
}

proof fn lemma_first_exists(b: Seq<u16>, moves: Seq<Move>, cfg: EvalConfig, k: int)
    requires
        0 <= k < moves.len(),
        move_value(b, moves[k], 0, 1, cfg) == best_reply(b, moves, 0, 1, cfg),
    ensures
        exists|m: Move| #[trigger] is_first_best(b, moves, 0, cfg, m),
    decreases k,
{
    lemma_best_reply(b, moves, 0, 1, cfg);
    if exists|j: int|
        0 <= j < k && #[trigger] move_value(b, moves[j], 0, 1, cfg) == best_reply(
            b,
            moves,
            0,
            1,
            cfg,
        ) {
        let j = choose|j: int|
            0 <= j < k && #[trigger] move_value(b, moves[j], 0, 1, cfg) == best_reply(
                b,
                moves,
                0,
                1,
                cfg,
            );
        lemma_first_exists(b, moves, cfg, j);
    } else {
        assert(is_first_best(b, moves, 0, cfg, moves[k]));
    }
}

proof fn lemma_at_once(b: Seq<u16>, m: Move, cfg: EvalConfig)
    requires
        b.len() == 8,
        legal_move(b, m),
    ensures
        at_once(b, m, cfg) == move_value(b, m, 0, 1, cfg),
{
    lemma_legal_move_step(b, m);
    if !finished(applied(b, m)) {
        law_horizon_is_seen_by_the_mover(applied(b, m), (1 - m.player) as u8, 1, cfg);
    }
}

proof fn lemma_places_grow(b: Seq<u16>, kept: Seq<Move>, n: int, depth: nat, cfg: MinimaxConfig)
    requires
        0 <= n <= kept.len(),
    ensures
        forall|i: int|
            0 <= i < best_places(b, kept, n, depth, cfg).len() ==> 0 <= #[trigger] best_places(
                b,
                kept,
                n,
                depth,
                cfg,
            )[i] < n,
        forall|i: int, j: int|
            0 <= i < j < best_places(b, kept, n, depth, cfg).len() ==> #[trigger] best_places(
                b,
                kept,
                n,
                depth,
                cfg,
            )[i] < #[trigger] best_places(b, kept, n, depth, cfg)[j],
    decreases n,
{
    if n > 0 {
        lemma_places_grow(b, kept, n - 1, depth, cfg);
        let before = best_places(b, kept, n - 1, depth, cfg);
        let now = best_places(b, kept, n, depth, cfg);
        assert forall|i: int| 0 <= i < now.len() implies 0 <= #[trigger] now[i] < n by {
            if i < before.len() {
                assert(0 <= before[i] < n - 1);
            }
        }
        assert forall|i: int, j: int| 0 <= i < j < now.len() implies #[trigger] now[i]
            < #[trigger] now[j] by {
            assert(0 <= before[i] < n - 1);
            if j < before.len() {
                assert(before[i] < before[j]);
            }
        }
    }
}

} // verus!
