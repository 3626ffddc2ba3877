//! What a beam keeps and prunes, and for whom its leaves are ranked.
use crate::beam_search::{
    aggregates, beam_result_ok, goes_through, group_count, group_multiplicity, group_value,
    is_ranking, leaf_ok, leaf_units, ranked_move, rollouts_at, total_multiplicity, width_at,
    BeamLeaf, BeamSearchConfig, BeamSearchResult, RankedRootMove,
};
use crate::beam_trace::{
    best_leaf_gives, clamped, frontier_at, next_level, node_key, rollout_of, step_ok, steps_ok,
    with_child, with_children, BeamLevel, BeamNode, BeamStep, EVALUATOR_UNIT,
};
use crate::game::to_move;
use crate::game_value::{after_line, finished, legal_line, lemma_line_push};
use crate::laws::mcts::{draws_stay_below, law_playouts_tell_who_lost};
use crate::laws::rules::law_the_player_to_move_has_lost;
use crate::mcts::playout_of;
use crate::moves::{
    applied, legal_move, legal_moves, lemma_legal_move_step, lemma_legal_moves, Move,
};
use crate::search_telemetry::Ratio;
use rand::rngs::StdRng;
use vstd::prelude::*;

verus! {

/// Whether the moves of the nodes are lines of `d` legal moves.
pub open spec fn lines_of(root: Seq<u16>, nodes: Seq<BeamNode>, d: int) -> bool {
    forall|i: int|
        0 <= i < nodes.len() ==> legal_line(root, (#[trigger] nodes[i]).moves)
            && nodes[i].moves.len() == d
}

/// Whether no two nodes stand for symmetric boards.
pub open spec fn all_differ(root: Seq<u16>, nodes: Seq<BeamNode>) -> bool {
    forall|i: int, j: int|
        0 <= i < j < nodes.len() ==> node_key(root, #[trigger] nodes[i]) != node_key(
            root,
            #[trigger] nodes[j],
        )
}

/// Whether a node stands for the board, or one that is symmetric to it.
pub open spec fn is_found(root: Seq<u16>, nodes: Seq<BeamNode>, moves: Seq<Move>) -> bool {
    exists|i: int|
        0 <= i < nodes.len() && node_key(root, #[trigger] nodes[i]) == node_key(
            root,
            BeamNode { moves, multiplicity: 0 },
        )
}

/// Whether the game goes on on the board of each node.
pub open spec fn all_open(root: Seq<u16>, nodes: Seq<BeamNode>) -> bool {
    forall|i: int|
        0 <= i < nodes.len() ==> !finished(after_line(root, (#[trigger] nodes[i]).moves))
}

/// Whether the nodes that were found before are still found.
pub open spec fn still_found(root: Seq<u16>, before: Seq<BeamNode>, now: Seq<BeamNode>) -> bool {
    forall|moves: Seq<Move>| #[trigger] is_found(root, before, moves) ==> is_found(root, now, moves)
}

proof fn lemma_child(root: Seq<u16>, level: BeamLevel, e: BeamNode, m: Move, d: int)
    requires
        lines_of(root, level.open, d + 1),
        all_differ(root, level.open),
        all_open(root, level.open),
        legal_line(root, e.moves),
        e.moves.len() == d,
        legal_move(after_line(root, e.moves), m),
    ensures
        ({
            let next = with_child(root, level, e, m);
            &&& lines_of(root, next.open, d + 1)
            &&& all_differ(root, next.open)
            &&& all_open(root, next.open)
            &&& still_found(root, level.open, next.open)
            &&& finished(after_line(root, e.moves.push(m))) || is_found(
                root,
                next.open,
                e.moves.push(m),
            )
        }),
{
    let next = with_child(root, level, e, m);
    let child = crate::beam_trace::child_node(e, m);
    lemma_line_push(root, e.moves, m);
    if !finished(after_line(root, child.moves)) {
        if exists|i: int| #[trigger] crate::beam_trace::merges_at(root, level.open, child, i) {
            let i = choose|i: int| #[trigger]
                crate::beam_trace::merges_at(root, level.open, child, i);
            assert(node_key(root, next.open[i]) == node_key(root, level.open[i]));
            assert forall|j: int| 0 <= j < next.open.len() implies #[trigger] next.open[j].moves
                == level.open[j].moves by {
            }
            assert forall|moves: Seq<Move>| #[trigger]
                is_found(root, level.open, moves) implies is_found(root, next.open, moves) by {
                let j = choose|j: int|
                    0 <= j < level.open.len() && node_key(root, #[trigger] level.open[j])
                        == node_key(root, BeamNode { moves, multiplicity: 0 });
                assert(next.open[j].moves == level.open[j].moves);
                assert(node_key(root, next.open[j]) == node_key(
                    root,
                    BeamNode { moves, multiplicity: 0 },
                ));
            }
            assert forall|j: int, k: int| 0 <= j < k < next.open.len() implies node_key(
                root,
                #[trigger] next.open[j],
            ) != node_key(root, #[trigger] next.open[k]) by {
                assert(next.open[j].moves == level.open[j].moves);
                assert(next.open[k].moves == level.open[k].moves);
                assert(node_key(root, level.open[j]) != node_key(root, level.open[k]));
            }
            assert forall|j: int| 0 <= j < next.open.len() implies legal_line(
                root,
                (#[trigger] next.open[j]).moves,
            ) && next.open[j].moves.len() == d + 1 by {
                assert(next.open[j].moves == level.open[j].moves);
                assert(legal_line(root, level.open[j].moves));
            }
            assert forall|j: int| 0 <= j < next.open.len() implies !finished(
                after_line(root, (#[trigger] next.open[j]).moves),
            ) by {
                assert(next.open[j].moves == level.open[j].moves);
                assert(!finished(after_line(root, level.open[j].moves)));
            }
        } else {
            let last = level.open.len() as int;
            assert(next.open[last] == child);
            assert forall|j: int| 0 <= j < last implies node_key(root, #[trigger] level.open[j])
                != node_key(root, child) by {
                assert(!crate::beam_trace::merges_at(root, level.open, child, j));
            }
            assert forall|moves: Seq<Move>| #[trigger]
                is_found(root, level.open, moves) implies is_found(root, next.open, moves) by {
                let j = choose|j: int|
                    0 <= j < level.open.len() && node_key(root, #[trigger] level.open[j])
                        == node_key(root, BeamNode { moves, multiplicity: 0 });
                assert(next.open[j] == level.open[j]);
            }
            assert(node_key(root, next.open[last]) == node_key(
                root,
                BeamNode { moves: e.moves.push(m), multiplicity: 0 },
            ));
        }
    }
}

proof fn lemma_children(
    root: Seq<u16>,
    level: BeamLevel,
    e: BeamNode,
    moves: Seq<Move>,
    n: int,
    d: int,
)
    requires
        lines_of(root, level.open, d + 1),
        all_differ(root, level.open),
        all_open(root, level.open),
        legal_line(root, e.moves),
        e.moves.len() == d,
        0 <= n <= moves.len(),
        forall|i: int|
            0 <= i < moves.len() ==> legal_move(after_line(root, e.moves), #[trigger] moves[i]),
    ensures
        ({
            let next = with_children(root, level, e, moves, n);
            &&& lines_of(root, next.open, d + 1)
            &&& all_differ(root, next.open)
            &&& all_open(root, next.open)
            &&& still_found(root, level.open, next.open)
            &&& forall|i: int|
                0 <= i < n ==> finished(
                    after_line(root, e.moves.push(#[trigger] moves[i])),
                ) || is_found(root, next.open, e.moves.push(moves[i]))
        }),
    decreases n,
{
    if n > 0 {
        lemma_children(root, level, e, moves, n - 1, d);
        let before = with_children(root, level, e, moves, n - 1);
        lemma_child(root, before, e, moves[n - 1], d);
    }
}

proof fn lemma_level(
    root: Seq<u16>,
    ended: Seq<BeamNode>,
    frontier: Seq<BeamNode>,
    n: int,
    d: int,
)
    requires
        lines_of(root, frontier, d),
        0 <= n <= frontier.len(),
    ensures
        ({
            let next = next_level(root, ended, frontier, n);
            &&& lines_of(root, next.open, d + 1)
            &&& all_differ(root, next.open)
            &&& all_open(root, next.open)
            &&& forall|k: int, m: Move|
                0 <= k < n && #[trigger] legal_move(after_line(root, frontier[k].moves), m)
                    ==> finished(after_line(root, frontier[k].moves.push(m))) || is_found(
                    root,
                    next.open,
                    frontier[k].moves.push(m),
                )
        }),
    decreases n,
{
    if n > 0 {
        lemma_level(root, ended, frontier, n - 1, d);
        let before = next_level(root, ended, frontier, n - 1);
        let e = frontier[n - 1];
        let moves = legal_moves(after_line(root, e.moves));
        lemma_legal_moves(after_line(root, e.moves));
        lemma_children(root, before, e, moves, moves.len() as int, d);
        let next = next_level(root, ended, frontier, n);
        assert forall|k: int, m: Move|
            0 <= k < n && #[trigger] legal_move(
                after_line(root, frontier[k].moves),
                m,
            ) implies finished(after_line(root, frontier[k].moves.push(m))) || is_found(
            root,
            next.open,
            frontier[k].moves.push(m),
        ) by {
            if k == n - 1 {
                assert(moves.contains(m));
                let i = choose|i: int| 0 <= i < moves.len() && moves[i] == m;
                assert(finished(after_line(root, e.moves.push(moves[i]))) || is_found(
                    root,
                    next.open,
                    e.moves.push(moves[i]),
                ));
            }
        }
    }
}

proof fn lemma_frontier_lines(root: Seq<u16>, cfg: BeamSearchConfig, t: Seq<BeamStep>, d: int)
    requires
        steps_ok(root, cfg, t),
        0 <= d <= t.len(),
    ensures
        lines_of(root, frontier_at(cfg, t, d), d),
        d > 0 ==> lines_of(root, t[d - 1].open, d) && all_differ(root, t[d - 1].open) && all_open(
            root,
            t[d - 1].open,
        ),
    decreases d,
{
    if d > 0 {
        lemma_frontier_lines(root, cfg, t, d - 1);
        assert(step_ok(root, cfg, t, d - 1));
        let before = frontier_at(cfg, t, d - 1);
        lemma_level(
            root,
            crate::beam_trace::ended_at(t, d - 1),
            before,
            before.len() as int,
            d - 1,
        );
        let step = t[d - 1];
        let kept = frontier_at(cfg, t, d);
        assert forall|i: int| 0 <= i < kept.len() implies legal_line(
            root,
            (#[trigger] kept[i]).moves,
        ) && kept[i].moves.len() == d by {
            assert(step.order[i] < step.open.len());
            assert(legal_line(root, step.open[step.order[i] as int].moves));
        }
    } else {
        assert(frontier_at(cfg, t, d)[0].moves.len() == 0);
    }
}

proof fn lemma_last_mover(root: Seq<u16>, moves: Seq<Move>)
    requires
        root.len() == 8,
        legal_line(root, moves),
    ensures
        after_line(root, moves).len() == 8,
        moves.len() > 0 ==> moves.last().player < 2 && to_move(after_line(root, moves)) == Some(
            (1 - moves.last().player) as u8,
        ),
    decreases moves.len(),
{
    if moves.len() > 0 {
        lemma_legal_move_step(root, moves[0]);
        lemma_last_mover(applied(root, moves[0]), moves.drop_first());
        if moves.len() == 1 {
            assert(moves.drop_first().len() == 0);
            assert(after_line(root, moves) == applied(root, moves[0]));
        } else {
            assert(moves.drop_first().last() == moves.last());
        }
    }
}

/// Whether the beam keeps the board at place `a` of a level.
pub open spec fn is_kept(step: BeamStep, width: usize, a: int) -> bool {
    exists|i: int| 0 <= i < width && i < step.order.len() && #[trigger] step.order[i] == a
}

/// A beam keeps what is best for the player who moved to a level. Values are those of player 0:
/// where it is player 0's turn, so that player 1 has moved, no pruned board has a smaller value
/// than a kept one, and where it is player 1's turn none has a larger one.
pub proof fn law_the_beam_keeps_the_movers_best(
    root: Seq<u16>,
    cfg: BeamSearchConfig,
    t: Seq<BeamStep>,
    d: int,
    a: int,
    c: int,
)
    requires
        root.len() == 8,
        steps_ok(root, cfg, t),
        0 <= d < t.len(),
        0 <= a < t[d].open.len(),
        0 <= c < t[d].open.len(),
        is_kept(t[d], width_at(cfg, d + 1), a),
        !is_kept(t[d], width_at(cfg, d + 1), c),
    ensures
        to_move(after_line(root, t[d].open[a].moves)) == to_move(
            after_line(root, t[d].open[c].moves),
        ),
        to_move(after_line(root, t[d].open[a].moves)) == Some(0u8) ==> t[d].values[a]
            <= t[d].values[c],
        to_move(after_line(root, t[d].open[a].moves)) == Some(1u8) ==> t[d].values[a]
            >= t[d].values[c],
{
    let step = t[d];
    let width = width_at(cfg, d + 1);
    assert(step_ok(root, cfg, t, d));
    lemma_frontier_lines(root, cfg, t, d + 1);
    lemma_last_mover(root, step.open[a].moves);
    lemma_last_mover(root, step.open[c].moves);
    lemma_same_turn(root, step.open[a].moves, step.open[c].moves);
    let i = choose|i: int| 0 <= i < width && i < step.order.len() && #[trigger] step.order[i] == a;
    crate::sorting::lemma_lists_all(step.order, step.open.len() as int);
    assert(step.order.contains(c as usize));
    let j = choose|j: int| 0 <= j < step.order.len() && step.order[j] == c as usize;
    assert(j >= width) by {
        if j < width {
            assert(is_kept(step, width, c));
        }
    }
    assert(i < j);
    assert(crate::beam_trace::outranks(
        step.open,
        step.values,
        step.order[i] as int,
        step.order[j] as int,
    ));
}

proof fn lemma_same_turn(root: Seq<u16>, x: Seq<Move>, y: Seq<Move>)
    requires
        root.len() == 8,
        legal_line(root, x),
        legal_line(root, y),
        x.len() == y.len(),
    ensures
        to_move(after_line(root, x)) == to_move(after_line(root, y)),
{
    lemma_turn_after(root, x);
    lemma_turn_after(root, y);
}

proof fn lemma_turn_after(root: Seq<u16>, moves: Seq<Move>)
    requires
        root.len() == 8,
        legal_line(root, moves),
    ensures
        moves.len() % 2 == 0 ==> to_move(after_line(root, moves)) == to_move(root),
        moves.len() % 2 == 1 ==> to_move(root) is Some && to_move(root)->0 < 2 && to_move(
            after_line(root, moves),
        ) == Some((1 - to_move(root)->0) as u8),
    decreases moves.len(),
{
    if moves.len() > 0 {
        lemma_legal_move_step(root, moves[0]);
        lemma_turn_after(applied(root, moves[0]), moves.drop_first());
    }
}

/// As many boards of a level are kept as its width, or all of them if there are fewer.
pub proof fn law_the_beam_is_as_wide_as_asked(
    root: Seq<u16>,
    cfg: BeamSearchConfig,
    t: Seq<BeamStep>,
    d: int,
)
    requires
        steps_ok(root, cfg, t),
        0 <= d < t.len(),
    ensures
        frontier_at(cfg, t, d + 1).len() <= width_at(cfg, d + 1),
        t[d].open.len() >= width_at(cfg, d + 1) ==> frontier_at(cfg, t, d + 1).len() == width_at(
            cfg,
            d + 1,
        ),
        t[d].open.len() <= width_at(cfg, d + 1) ==> frontier_at(cfg, t, d + 1).len()
            == t[d].open.len(),
{
}

/// A level finds every board that a legal move leads to from a board of the frontier: those on
/// which the game is over apart, and of the others one for each class of symmetric boards.
pub proof fn law_a_level_finds_every_board_once(
    root: Seq<u16>,
    cfg: BeamSearchConfig,
    t: Seq<BeamStep>,
    d: int,
    k: int,
    m: Move,
)
    requires
        steps_ok(root, cfg, t),
        0 <= d < t.len(),
        0 <= k < frontier_at(cfg, t, d).len(),
        legal_move(after_line(root, frontier_at(cfg, t, d)[k].moves), m),
    ensures
        !finished(after_line(root, frontier_at(cfg, t, d)[k].moves.push(m))) ==> is_found(
            root,
            t[d].open,
            frontier_at(cfg, t, d)[k].moves.push(m),
        ),
        all_differ(root, t[d].open),
        all_open(root, t[d].open),
        lines_of(root, t[d].open, d + 1),
{
    assert(step_ok(root, cfg, t, d));
    lemma_frontier_lines(root, cfg, t, d);
    let frontier = frontier_at(cfg, t, d);
    lemma_level(
        root,
        crate::beam_trace::ended_at(t, d),
        frontier,
        frontier.len() as int,
        d,
    );
}

/// The first entry of a schedule holds for the first level, and the last for all levels beyond
/// its end: a schedule with its last entry written twice means the same, and one with an entry
/// put in front means the same one level later.
pub proof fn law_schedules_go_level_by_level(
    c: BeamSearchConfig,
    longer: BeamSearchConfig,
    later: BeamSearchConfig,
    d: int,
)
    requires
        c.beam_schedule is Some && longer.beam_schedule is Some && later.beam_schedule is Some,
        c.rollout_schedule is Some && longer.rollout_schedule is Some
            && later.rollout_schedule is Some,
        c.beam_schedule->0@.len() > 0,
        c.rollout_schedule->0@.len() > 0,
        longer.beam_schedule->0@ == c.beam_schedule->0@.push(c.beam_schedule->0@.last()),
        longer.rollout_schedule->0@ == c.rollout_schedule->0@.push(c.rollout_schedule->0@.last()),
        later.beam_schedule->0@.len() == c.beam_schedule->0@.len() + 1,
        later.beam_schedule->0@.drop_first() == c.beam_schedule->0@,
        later.rollout_schedule->0@.len() == c.rollout_schedule->0@.len() + 1,
        later.rollout_schedule->0@.drop_first() == c.rollout_schedule->0@,
        d >= 1,
    ensures
        width_at(c, 1) == c.beam_schedule->0@[0],
        rollouts_at(c, 1) == c.rollout_schedule->0@[0],
        width_at(longer, d) == width_at(c, d),
        rollouts_at(longer, d) == rollouts_at(c, d),
        width_at(later, d + 1) == width_at(c, d),
        rollouts_at(later, d + 1) == rollouts_at(c, d),
{
    let s = c.beam_schedule->0@;
    let r = c.rollout_schedule->0@;
    if d - 1 < s.len() {
        assert(later.beam_schedule->0@.drop_first()[d - 1] == later.beam_schedule->0@[d]);
    }
    if d - 1 < r.len() {
        assert(later.rollout_schedule->0@.drop_first()[d - 1] == later.rollout_schedule->0@[d]);
    }
    assert(later.beam_schedule->0@.drop_first().last() == later.beam_schedule->0@.last());
    assert(later.rollout_schedule->0@.drop_first().last() == later.rollout_schedule->0@.last());
}

/// Values of an evaluator that are in range stay as they are, others come to the nearer end,
/// and the order of values is kept.
pub proof fn law_values_are_brought_into_range(x: int, y: int)
    requires
        x <= y,
    ensures
        -EVALUATOR_UNIT <= clamped(x) <= clamped(y) <= EVALUATOR_UNIT,
        -EVALUATOR_UNIT <= x <= EVALUATOR_UNIT ==> clamped(x) == x,
        clamped(-x) == -clamped(x),
{
}

/// The value of a board after one more random game is the value before and the outcome of that
/// game, which goes on with the generator after the games before; it stays within the number of
/// games.
pub proof fn law_random_games_add_up(b: Seq<u16>, n: nat, rng: StdRng)
    requires
        b.len() == 8,
        to_move(b) is Some,
        draws_stay_below(),
    ensures
        rollout_of(b, 0, rng) == (0int, rng),
        rollout_of(b, n + 1, rng).0 == rollout_of(b, n, rng).0 + playout_of(
            b,
            17,
            rollout_of(b, n, rng).1,
        ).0,
        rollout_of(b, n + 1, rng).1 == playout_of(b, 17, rollout_of(b, n, rng).1).1,
        -n <= rollout_of(b, n, rng).0 <= n,
        (rollout_of(b, n, rng).0 + n) % 2 == 0,
    decreases n,
{
    assert((n + 1 - 1) as nat == n);
    if n > 0 {
        law_random_games_add_up(b, (n - 1) as nat, rng);
        law_playouts_tell_who_lost(b, 17, rollout_of(b, (n - 1) as nat, rng).1);
        crate::bitboard::lemma_popcount(crate::bitboard::taken(b), 0);
    }
}

/// Whether the value of `x` for `player` is at least that of `y`. Values are those of player 0.
pub open spec fn no_worse_for(player: u8, x: Ratio, y: Ratio) -> bool {
    if player == 0 {
        x.num * y.den >= y.num * x.den
    } else {
        x.num * y.den <= y.num * x.den
    }
}

/// A terminal leaf is worth one where player 1 is to move at its end, and minus one where
/// player 0 is: the player to move has lost.
pub proof fn law_terminal_leaves_tell_the_winner(root: Seq<u16>, leaf: BeamLeaf)
    requires
        root.len() == 8,
        leaf_ok(root, leaf),
        leaf.is_terminal,
        leaf.moves@.len() > 0,
    ensures
        leaf.value.den == 1,
        to_move(after_line(root, leaf.moves@)) == Some(0u8) ==> leaf.value.num == -1,
        to_move(after_line(root, leaf.moves@)) == Some(1u8) ==> leaf.value.num == 1,
        to_move(after_line(root, leaf.moves@)) is Some,
{
    lemma_last_mover(root, leaf.moves@);
    law_the_player_to_move_has_lost(
        after_line(root, leaf.moves@),
        to_move(after_line(root, leaf.moves@))->0,
    );
}

/// No leaf of a search is better for the player to move at the root than the best leaf, and no
/// terminal is better than one that stands before it.
pub proof fn law_the_best_leaf_is_best_for_the_root_player(
    res: BeamSearchResult,
    root: Seq<u16>,
    cfg: BeamSearchConfig,
    i: int,
)
    requires
        beam_result_ok(res, root, cfg),
    ensures
        Some(res.root_player) == to_move(root),
        0 <= i < res.terminal_leaves@.len() ==> no_worse_for(
            res.root_player,
            res.best_leaf->0.value,
            res.terminal_leaves@[i].value,
        ),
        0 <= i < res.frontier_leaves@.len() ==> no_worse_for(
            res.root_player,
            res.best_leaf->0.value,
            res.frontier_leaves@[i].value,
        ),
        forall|j: int|
            0 <= j < i < res.terminal_leaves@.len() ==> no_worse_for(
                res.root_player,
                (#[trigger] res.terminal_leaves@[j]).value,
                res.terminal_leaves@[i].value,
            ),
{
    let best = res.best_leaf->0;
    let scale = res.scale;
    lemma_best_is_a_leaf(res, root, cfg);
    if 0 <= i < res.terminal_leaves@.len() {
        let leaf = res.terminal_leaves@[i];
        assert(leaf_ok(root, leaf));
        assert(leaf_units(leaf, res.root_player, scale) <= leaf_units(best, res.root_player, scale));
        lemma_units(best, leaf, res.root_player, scale);
        assert forall|j: int| 0 <= j < i implies no_worse_for(
            res.root_player,
            (#[trigger] res.terminal_leaves@[j]).value,
            leaf.value,
        ) by {
            let before = res.terminal_leaves@[j];
            assert(leaf_ok(root, before));
            lemma_units(before, leaf, res.root_player, scale);
        }
    }
    if 0 <= i < res.frontier_leaves@.len() {
        let leaf = res.frontier_leaves@[i];
        assert(leaf_ok(root, leaf));
        assert(leaf_units(leaf, res.root_player, scale) <= leaf_units(best, res.root_player, scale));
        lemma_units(best, leaf, res.root_player, scale);
    }
}

proof fn lemma_best_is_a_leaf(res: BeamSearchResult, root: Seq<u16>, cfg: BeamSearchConfig)
    requires
        beam_result_ok(res, root, cfg),
    ensures
        ({
            let best = res.best_leaf->0;
            &&& best.is_terminal ==> best.value.den == 1
            &&& !best.is_terminal ==> best.value.den == res.scale
            &&& -(best.value.den as int) <= best.value.num <= best.value.den
        }),
{
    let best = res.best_leaf->0;
    if exists|i: int|
        0 <= i < res.terminal_leaves@.len() && crate::beam_search::same_leaf(
            best,
            #[trigger] res.terminal_leaves@[i],
        ) {
        let i = choose|i: int|
            0 <= i < res.terminal_leaves@.len() && crate::beam_search::same_leaf(
                best,
                #[trigger] res.terminal_leaves@[i],
            );
        assert(leaf_ok(root, res.terminal_leaves@[i]));
    } else {
        let i = choose|i: int|
            0 <= i < res.frontier_leaves@.len() && crate::beam_search::same_leaf(
                best,
                #[trigger] res.frontier_leaves@[i],
            );
        assert(leaf_ok(root, res.frontier_leaves@[i]));
    }
}

proof fn lemma_units(x: BeamLeaf, y: BeamLeaf, player: u8, scale: u64)
    requires
        scale > 0,
        x.is_terminal ==> x.value.den == 1,
        !x.is_terminal ==> x.value.den == scale,
        y.is_terminal ==> y.value.den == 1,
        !y.is_terminal ==> y.value.den == scale,
    ensures
        leaf_units(x, player, scale) >= leaf_units(y, player, scale) <==> no_worse_for(
            player,
            x.value,
            y.value,
        ),
{
    let (a, b) = (x.value.num as int, y.value.num as int);
    let s = scale as int;
    assert(a * s >= b * s <==> a >= b) by (nonlinear_arith)
        requires
            s > 0,
    ;
    assert(a * s <= b * s <==> a <= b) by (nonlinear_arith)
        requires
            s > 0,
    ;
    assert(a * 1 == a && b * 1 == b);
}

/// Where a terminal is won by the player to move at the root, the best leaf is worth a win to
/// this player.
pub proof fn law_a_found_win_is_best(
    res: BeamSearchResult,
    root: Seq<u16>,
    cfg: BeamSearchConfig,
    i: int,
)
    requires
        root.len() == 8,
        beam_result_ok(res, root, cfg),
        0 <= i < res.terminal_leaves@.len(),
        res.terminal_leaves@[i].moves@.len() > 0,
        to_move(after_line(root, res.terminal_leaves@[i].moves@)) != to_move(root),
    ensures
        res.root_player == 0 ==> res.best_leaf->0.value.num == res.best_leaf->0.value.den,
        res.root_player != 0 ==> res.best_leaf->0.value.num == -(
        res.best_leaf->0.value.den as int),
{
    let leaf = res.terminal_leaves@[i];
    assert(leaf_ok(root, leaf));
    lemma_last_mover(root, leaf.moves@);
    law_terminal_leaves_tell_the_winner(root, leaf);
    law_the_best_leaf_is_best_for_the_root_player(res, root, cfg, i);
    lemma_best_is_a_leaf(res, root, cfg);
    let best = res.best_leaf->0.value;
    assert(best.num * 1 == best.num && 1 * best.den == best.den && -1 * best.den == -best.den);
}

/// The value that is reported for a move is that of the best leaf to the player to move: one
/// where a terminal is won by this player.
pub proof fn law_a_found_win_is_reported(
    res: BeamSearchResult,
    root: Seq<u16>,
    cfg: BeamSearchConfig,
    rng: StdRng,
    mv: Move,
    value: Ratio,
    i: int,
)
    requires
        root.len() == 8,
        best_leaf_gives(res, root, cfg, rng, mv, value),
        0 <= i < res.terminal_leaves@.len(),
        res.terminal_leaves@[i].moves@.len() > 0,
        to_move(after_line(root, res.terminal_leaves@[i].moves@)) != to_move(root),
    ensures
        value.num == value.den,
{
    law_a_found_win_is_best(res, root, cfg, i);
}

/// A ranking puts the moves with the better best leaf first, and of equals those with the
/// better mean.
pub proof fn law_rankings_go_by_value(
    ranking: Seq<RankedRootMove>,
    leaves: Seq<BeamLeaf>,
    root_player: u8,
    scale: u64,
    i: int,
    j: int,
)
    requires
        is_ranking(ranking, leaves, root_player, scale),
        0 <= i < j < ranking.len(),
    ensures
        ranking[i].best_value >= ranking[j].best_value,
        ranking[i].best_value == ranking[j].best_value ==> ranking[i].value_sum
            * ranking[j].total_multiplicity >= ranking[j].value_sum
            * ranking[i].total_multiplicity,
{
    let (x, y) = (ranking[i], ranking[j]);
    let s = scale as int;
    assert(crate::beam_search::ranks_before(x, y, s));
    let (a, b) = (x.value_sum as int, x.total_multiplicity as int);
    let (c, d) = (y.value_sum as int, y.total_multiplicity as int);
    assert((a + s * b) * d - (c + s * d) * b == a * d - c * b) by (nonlinear_arith);
}

/// Where all leaves through a move have one value, the sum of its values is this value times
/// the number of move sequences that they stand for, and it is the best value.
pub proof fn law_sums_weigh_by_multiplicity(
    r: RankedRootMove,
    leaves: Seq<BeamLeaf>,
    root_player: u8,
    scale: u64,
    v: int,
)
    requires
        aggregates(r, leaves, root_player, scale),
        forall|i: int|
            0 <= i < leaves.len() && goes_through(#[trigger] leaves[i], r.mv) ==> leaf_units(
                leaves[i],
                root_player,
                scale,
            ) == v,
    ensures
        r.value_sum == v * r.total_multiplicity,
        r.best_value == v,
{
    lemma_one_value(leaves, r.mv, root_player, scale, v);
}

proof fn lemma_one_value(leaves: Seq<BeamLeaf>, m: Move, root_player: u8, scale: u64, v: int)
    requires
        forall|i: int|
            0 <= i < leaves.len() && goes_through(#[trigger] leaves[i], m) ==> leaf_units(
                leaves[i],
                root_player,
                scale,
            ) == v,
    ensures
        group_value(leaves, m, root_player, scale) == v * group_multiplicity(leaves, m),
    decreases leaves.len(),
{
    if leaves.len() == 0 {
        assert(v * 0 == 0);
    } else {
        let rest = leaves.drop_last();
        assert forall|i: int| 0 <= i < rest.len() && goes_through(#[trigger] rest[i], m) implies
            leaf_units(rest[i], root_player, scale) == v by {
            assert(rest[i] == leaves[i]);
        }
        lemma_one_value(rest, m, root_player, scale, v);
        let last = leaves[leaves.len() - 1];
        let (x, y) = (group_multiplicity(rest, m), last.multiplicity as int);
        assert(v * (x + y) == v * x + v * y) by (nonlinear_arith);
    }
}

/// The moves of a ranking divide the leaves among them: the leaves and the move sequences of
/// the moves add up to all.
pub proof fn law_rankings_count_every_leaf(
    ranking: Seq<RankedRootMove>,
    leaves: Seq<BeamLeaf>,
    root_player: u8,
    scale: u64,
)
    requires
        is_ranking(ranking, leaves, root_player, scale),
        forall|i: int| 0 <= i < leaves.len() ==> (#[trigger] leaves[i]).moves@.len() > 0,
    ensures
        leaves_in(ranking, leaves, ranking.len() as int) == leaves.len(),
        lines_in(ranking, leaves, ranking.len() as int) == total_multiplicity(leaves),
        forall|i: int|
            0 <= i < ranking.len() ==> (#[trigger] ranking[i]).leaf_count == group_count(
                leaves,
                ranking[i].mv,
            ) && ranking[i].total_multiplicity == group_multiplicity(leaves, ranking[i].mv),
{
    lemma_divided(ranking, leaves);
}

/// The leaves through the first `n` moves of a ranking.
pub open spec fn leaves_in(ranking: Seq<RankedRootMove>, leaves: Seq<BeamLeaf>, n: int) -> int
    decreases n,
{
    if n <= 0 {
        0
    } else {
        leaves_in(ranking, leaves, n - 1) + group_count(leaves, ranking[n - 1].mv)
    }
}

/// The move sequences of the leaves through the first `n` moves of a ranking.
pub open spec fn lines_in(ranking: Seq<RankedRootMove>, leaves: Seq<BeamLeaf>, n: int) -> int
    decreases n,
{
    if n <= 0 {
        0
    } else {
        lines_in(ranking, leaves, n - 1) + group_multiplicity(leaves, ranking[n - 1].mv)
    }
}

proof fn lemma_divided(ranking: Seq<RankedRootMove>, leaves: Seq<BeamLeaf>)
    requires
        forall|i: int| 0 <= i < leaves.len() ==> (#[trigger] leaves[i]).moves@.len() > 0,
        forall|i: int| 0 <= i < leaves.len() ==> ranked_move(
            ranking,
            (#[trigger] leaves[i]).moves@[0],
        ),
        forall|i: int, j: int|
            0 <= i < j < ranking.len() ==> (#[trigger] ranking[i]).mv != (#[trigger] ranking[j]).mv,
    ensures
        leaves_in(ranking, leaves, ranking.len() as int) == leaves.len(),
        lines_in(ranking, leaves, ranking.len() as int) == total_multiplicity(leaves),
    decreases leaves.len(),
{
    let n = ranking.len() as int;
    if leaves.len() == 0 {
        lemma_empty_groups(ranking, leaves, n);
    } else {
        let rest = leaves.drop_last();
        let last = leaves[leaves.len() - 1];
        assert forall|i: int| 0 <= i < rest.len() implies (#[trigger] rest[i]).moves@.len() > 0
            && ranked_move(ranking, rest[i].moves@[0]) by {
            assert(rest[i] == leaves[i]);
        }
        lemma_divided(ranking, rest);
        assert(ranked_move(ranking, leaves[leaves.len() - 1].moves@[0]));
        let p = choose|p: int| 0 <= p < ranking.len() && (#[trigger] ranking[p]).mv
            == last.moves@[0];
        lemma_one_more(ranking, leaves, n, p);
    }
}

proof fn lemma_empty_groups(ranking: Seq<RankedRootMove>, leaves: Seq<BeamLeaf>, n: int)
    requires
        leaves.len() == 0,
    ensures
        leaves_in(ranking, leaves, n) == 0,
        lines_in(ranking, leaves, n) == 0,
    decreases n,
{
    if n > 0 {
        lemma_empty_groups(ranking, leaves, n - 1);
    }
}

proof fn lemma_one_more(ranking: Seq<RankedRootMove>, leaves: Seq<BeamLeaf>, n: int, p: int)
    requires
        leaves.len() > 0,
        leaves.last().moves@.len() > 0,
        0 <= n <= ranking.len(),
        0 <= p < ranking.len(),
        ranking[p].mv == leaves.last().moves@[0],
        forall|i: int, j: int|
            0 <= i < j < ranking.len() ==> (#[trigger] ranking[i]).mv != (#[trigger] ranking[j]).mv,
    ensures
        leaves_in(ranking, leaves, n) == leaves_in(ranking, leaves.drop_last(), n) + if p < n {
            1int
        } else {
            0
        },
        lines_in(ranking, leaves, n) == lines_in(ranking, leaves.drop_last(), n) + if p < n {
            leaves.last().multiplicity as int
        } else {
            0
        },
    decreases n,
{
    if n > 0 {
        lemma_one_more(ranking, leaves, n - 1, p);
        if n - 1 < p {
            assert(ranking[n - 1].mv != ranking[p].mv);
        } else if n - 1 > p {
            assert(ranking[p].mv != ranking[n - 1].mv);
        }
    }
}

/// A move through which a terminal is won by the player to move at the root is marked, and no
/// move that stands before it has a best value that is less than a win.
pub proof fn law_won_moves_are_marked(
    ranking: Seq<RankedRootMove>,
    leaves: Seq<BeamLeaf>,
    root: Seq<u16>,
    root_player: u8,
    scale: u64,
    i: int,
    k: int,
)
    requires
        root.len() == 8,
        scale > 0,
        to_move(root) == Some(root_player),
        is_ranking(ranking, leaves, root_player, scale),
        0 <= k < leaves.len(),
        leaf_ok(root, leaves[k]),
        leaves[k].is_terminal,
        leaves[k].moves@.len() > 0,
        to_move(after_line(root, leaves[k].moves@)) != to_move(root),
        0 <= i < ranking.len(),
        ranking[i].mv == leaves[k].moves@[0],
    ensures
        ranking[i].has_terminal_win,
        ranking[i].best_value >= scale,
        forall|j: int| 0 <= j < i ==> (#[trigger] ranking[j]).best_value >= scale,
{
    lemma_last_mover(root, leaves[k].moves@);
    law_terminal_leaves_tell_the_winner(root, leaves[k]);
    assert(leaf_units(leaves[k], root_player, scale) == scale) by {
        assert(1 * scale == scale && -1 * scale == -scale);
    }
    assert(goes_through(leaves[k], ranking[i].mv));
    assert(aggregates(ranking[i], leaves, root_player, scale));
    assert forall|j: int| 0 <= j < i implies (#[trigger] ranking[j]).best_value >= scale by {
        law_rankings_go_by_value(ranking, leaves, root_player, scale, j, i);
    }
}

/// Of several best leaves the last is taken, the open ones after the terminals: where the best
/// leaf is a terminal, every open leaf is worse for the player to move at the root.
pub proof fn law_ties_go_to_the_last_leaf(
    res: BeamSearchResult,
    root: Seq<u16>,
    cfg: BeamSearchConfig,
    i: int,
)
    requires
        beam_result_ok(res, root, cfg),
        res.best_leaf->0.is_terminal,
        0 <= i < res.frontier_leaves@.len(),
    ensures
        !no_worse_for(
            res.root_player,
            res.frontier_leaves@[i].value,
            res.best_leaf->0.value,
        ),
{
    let best = res.best_leaf->0;
    lemma_best_is_a_leaf(res, root, cfg);
    let leaf = res.frontier_leaves@[i];
    assert(leaf_ok(root, leaf));
    assert(!leaf.is_terminal);
    assert forall|k: int| 0 <= k < res.frontier_leaves@.len() implies !(
    #[trigger] res.frontier_leaves@[k]).is_terminal by {
        assert(leaf_ok(root, res.frontier_leaves@[k]));
    }
    assert(leaf_units(leaf, res.root_player, res.scale) < leaf_units(
        best,
        res.root_player,
        res.scale,
    ));
    lemma_units(leaf, best, res.root_player, res.scale);
}

} // verus!
