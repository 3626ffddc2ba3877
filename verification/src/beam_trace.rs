//! The levels of a beam search: what is found, what is recorded and what is kept.
use crate::beam_search::{
    beam_result_ok, best_leaf_ok, leaf_ok, leaf_units, rollouts_at, same_leaf, shows, width_at,
    worse_from, BeamCounts, BeamLeaf, BeamSearchConfig, BeamSearchResult,
};
use crate::bitboard::Bitboard;
use crate::game_value::{after_line, finished};
use crate::mcts::{outcome, playout_of, playout_value};
use crate::moves::{legal_moves, Move};
use crate::rng::starts_from;
use crate::search_telemetry::Ratio;
use crate::sorting::{lemma_same_order, lists_places};
use crate::symmetry::{canonical, payload_number};
use rand::rngs::StdRng;
use vstd::prelude::*;

verus! {

/// A board of a search, by the moves that lead to it from the root, and the number of move
/// sequences that it stands for.
pub struct BeamNode {
    pub moves: Seq<Move>,
    pub multiplicity: int,
}

/// What is found on a level: the boards on which the game goes on, no two of them
/// symmetric, and all the boards on which it is over that were found so far.
pub struct BeamLevel {
    pub open: Seq<BeamNode>,
    pub ended: Seq<BeamNode>,
}

/// The number of the board of a node; symmetric boards have the same.
pub open spec fn node_key(root: Seq<u16>, n: BeamNode) -> int {
    payload_number(canonical(after_line(root, n.moves)))
}

/// Whether the node at `i` stands for the same board as `child`.
pub open spec fn merges_at(root: Seq<u16>, open: Seq<BeamNode>, child: BeamNode, i: int) -> bool {
    0 <= i < open.len() && node_key(root, open[i]) == node_key(root, child)
}

/// The node that `m` leads to.
pub open spec fn child_node(e: BeamNode, m: Move) -> BeamNode {
    BeamNode { moves: e.moves.push(m), multiplicity: e.multiplicity }
}

/// The level with the board that `m` leads to: it is recorded where the game is over, it
/// counts for a symmetric board that was found before, or it is a new one.
pub open spec fn with_child(root: Seq<u16>, level: BeamLevel, e: BeamNode, m: Move) -> BeamLevel {
    let child = child_node(e, m);
    if finished(after_line(root, child.moves)) {
        BeamLevel { open: level.open, ended: level.ended.push(child) }
    } else if exists|i: int| #[trigger] merges_at(root, level.open, child, i) {
        let i = choose|i: int| #[trigger] merges_at(root, level.open, child, i);
        BeamLevel {
            open: level.open.update(
                i,
                BeamNode {
                    moves: level.open[i].moves,
                    multiplicity: level.open[i].multiplicity + child.multiplicity,
                },
            ),
            ended: level.ended,
        }
    } else {
        BeamLevel { open: level.open.push(child), ended: level.ended }
    }
}

/// The level with the boards that the first `n` of the moves lead to.
pub open spec fn with_children(
    root: Seq<u16>,
    level: BeamLevel,
    e: BeamNode,
    moves: Seq<Move>,
    n: int,
) -> BeamLevel
    decreases n,
{
    if n <= 0 {
        level
    } else {
        with_child(root, with_children(root, level, e, moves, n - 1), e, moves[n - 1])
    }
}

/// The level with the boards that all moves from the first `n` nodes of a frontier lead to.
pub open spec fn next_level(
    root: Seq<u16>,
    ended: Seq<BeamNode>,
    frontier: Seq<BeamNode>,
    n: int,
) -> BeamLevel
    decreases n,
{
    if n <= 0 {
        BeamLevel { open: Seq::empty(), ended }
    } else {
        let moves = legal_moves(after_line(root, frontier[n - 1].moves));
        with_children(
            root,
            next_level(root, ended, frontier, n - 1),
            frontier[n - 1],
            moves,
            moves.len() as int,
        )
    }
}

/// One level of a search: what was found, the values of its open boards for player 0, the
/// places of these boards, best first for the players who moved to them, and the generator
/// after the level.
pub struct BeamStep {
    pub open: Seq<BeamNode>,
    pub ended: Seq<BeamNode>,
    pub values: Seq<int>,
    pub order: Seq<usize>,
    pub rng: StdRng,
}

/// What a value is worth to the player who moved to the board.
pub open spec fn worth(n: BeamNode, v: int) -> int {
    if n.moves.last().player == 0 {
        v
    } else {
        -v
    }
}

/// Whether place `i` belongs before place `j`: it is worth more, or as much and was found
/// first.
pub open spec fn outranks(open: Seq<BeamNode>, values: Seq<int>, i: int, j: int) -> bool {
    ||| worth(open[i], values[i]) > worth(open[j], values[j])
    ||| worth(open[i], values[i]) == worth(open[j], values[j]) && i < j
}

/// Whether `order` lists the places of the open boards, best first.
pub open spec fn ranked(open: Seq<BeamNode>, values: Seq<int>, order: Seq<usize>) -> bool {
    &&& lists_places(order, 0, open.len() as int)
    &&& forall|i: int, j: int|
        0 <= i < j < order.len() ==> outranks(
            open,
            values,
            #[trigger] order[i] as int,
            #[trigger] order[j] as int,
        )
}

/// The `width` best boards of a level, or all of them if there are fewer.
pub open spec fn kept_nodes(step: BeamStep, width: usize) -> Seq<BeamNode> {
    Seq::new(
        if step.open.len() <= width {
            step.open.len()
        } else {
            width as nat
        },
        |i: int| step.open[step.order[i] as int],
    )
}

/// The frontier from which level `d` is found: at first the root, then what the level
/// before kept.
pub open spec fn frontier_at(cfg: BeamSearchConfig, t: Seq<BeamStep>, d: int) -> Seq<BeamNode> {
    if d <= 0 {
        seq![BeamNode { moves: Seq::empty(), multiplicity: 1 }]
    } else {
        kept_nodes(t[d - 1], width_at(cfg, d))
    }
}

/// The finished boards that were found before level `d`.
pub open spec fn ended_at(t: Seq<BeamStep>, d: int) -> Seq<BeamNode> {
    if d <= 0 {
        Seq::empty()
    } else {
        t[d - 1].ended
    }
}

/// Whether level `d` follows from the one before.
pub open spec fn step_ok(root: Seq<u16>, cfg: BeamSearchConfig, t: Seq<BeamStep>, d: int) -> bool {
    let frontier = frontier_at(cfg, t, d);
    let level = next_level(root, ended_at(t, d), frontier, frontier.len() as int);
    &&& frontier.len() > 0
    &&& t[d].open.len() <= usize::MAX
    &&& t[d].open == level.open
    &&& t[d].ended == level.ended
    &&& t[d].values.len() == t[d].open.len()
    &&& ranked(t[d].open, t[d].values, t[d].order)
}

/// Whether each level follows from the one before.
pub open spec fn steps_ok(root: Seq<u16>, cfg: BeamSearchConfig, t: Seq<BeamStep>) -> bool {
    forall|d: int| 0 <= d < t.len() ==> #[trigger] step_ok(root, cfg, t, d)
}

pub proof fn lemma_steps_push(
    root: Seq<u16>,
    cfg: BeamSearchConfig,
    t: Seq<BeamStep>,
    step: BeamStep,
)
    requires
        steps_ok(root, cfg, t),
        ({
            let frontier = frontier_at(cfg, t, t.len() as int);
            let level = next_level(
                root,
                ended_at(t, t.len() as int),
                frontier,
                frontier.len() as int,
            );
            &&& frontier.len() > 0
            &&& step.open.len() <= usize::MAX
            &&& step.open == level.open
            &&& step.ended == level.ended
            &&& step.values.len() == step.open.len()
            &&& ranked(step.open, step.values, step.order)
        }),
    ensures
        steps_ok(root, cfg, t.push(step)),
        frontier_at(cfg, t.push(step), t.len() as int + 1) == kept_nodes(step, width_at(cfg, t.len() as int + 1)),
        ended_at(t.push(step), t.len() as int + 1) == step.ended,
{
    let after = t.push(step);
    assert forall|d: int| 0 <= d < after.len() implies #[trigger] step_ok(root, cfg, after, d) by {
        assert(frontier_at(cfg, after, d) == frontier_at(cfg, t, d));
        assert(ended_at(after, d) == ended_at(t, d));
        if d < t.len() {
            assert(step_ok(root, cfg, t, d));
        }
    }
}

/// The nodes of leaves.
pub open spec fn leaf_nodes(leaves: Seq<BeamLeaf>) -> Seq<BeamNode> {
    leaves.map_values(
        |l: BeamLeaf| BeamNode { moves: l.moves@, multiplicity: l.multiplicity as int },
    )
}

/// What a finished board is worth to `player`.
pub open spec fn end_worth(root: Seq<u16>, n: BeamNode, player: u8) -> int {
    if player == 0 {
        outcome(after_line(root, n.moves))
    } else {
        -outcome(after_line(root, n.moves))
    }
}

/// Whether the finished board at `i` belongs before the one at `j`: it is worth more to
/// `player`, or as much and was found first.
pub open spec fn ends_before(
    root: Seq<u16>,
    found: Seq<BeamNode>,
    player: u8,
    i: int,
    j: int,
) -> bool {
    ||| end_worth(root, found[i], player) > end_worth(root, found[j], player)
    ||| end_worth(root, found[i], player) == end_worth(root, found[j], player) && i < j
}

/// Whether `order` lists the places of the finished boards, best first for `player`.
pub open spec fn ends_ranked(
    root: Seq<u16>,
    found: Seq<BeamNode>,
    player: u8,
    order: Seq<usize>,
) -> bool {
    &&& lists_places(order, 0, found.len() as int)
    &&& forall|i: int, j: int|
        0 <= i < j < order.len() ==> ends_before(
            root,
            found,
            player,
            #[trigger] order[i] as int,
            #[trigger] order[j] as int,
        )
}

/// Whether `sorted` are the nodes of `found`, best first for `player`.
pub open spec fn reorders(
    root: Seq<u16>,
    sorted: Seq<BeamNode>,
    found: Seq<BeamNode>,
    player: u8,
) -> bool {
    exists|order: Seq<usize>| #[trigger]
        ends_ranked(root, found, player, order) && sorted.len() == found.len() && forall|i: int|
            0 <= i < sorted.len() ==> #[trigger] sorted[i] == found[order[i] as int]
}

/// Whether the result shows the levels of a search: its open leaves are what the last level
/// kept, with their values, and its terminals all the finished boards that were found.
pub open spec fn shows_levels(
    res: BeamSearchResult,
    root: Seq<u16>,
    cfg: BeamSearchConfig,
    t: Seq<BeamStep>,
) -> bool {
    let d = res.max_depth_reached as int;
    &&& t.len() == d
    &&& d > 0
    &&& steps_ok(root, cfg, t)
    &&& leaf_nodes(res.frontier_leaves@) == frontier_at(cfg, t, d)
    &&& forall|i: int|
        0 <= i < res.frontier_leaves@.len() ==> (#[trigger] res.frontier_leaves@[i]).value.num
            == t[d - 1].values[t[d - 1].order[i] as int]
    &&& reorders(root, leaf_nodes(res.terminal_leaves@), ended_at(t, d), res.root_player)
}

/// Whether `v` can be the sum of the outcomes of `n` games that are played from `b` to
/// their ends.
pub open spec fn playout_sum(b: Seq<u16>, n: nat, v: int) -> bool
    decreases n,
{
    if n == 0 {
        v == 0
    } else {
        exists|r: int| #[trigger]
            playout_value(b, 17, r) && r != 0 && playout_sum(b, (n - 1) as nat, v - r)
    }
}

/// From a finished board every game has the outcome of the board.
pub proof fn law_finished_boards_sum(b: Seq<u16>, n: nat, v: int)
    requires
        finished(b),
        playout_sum(b, n, v),
    ensures
        v == n * outcome(b),
    decreases n,
{
    if n > 0 {
        let r = choose|r: int| #[trigger]
            playout_value(b, 17, r) && r != 0 && playout_sum(b, (n - 1) as nat, v - r);
        law_finished_boards_sum(b, (n - 1) as nat, v - r);
        assert(n * outcome(b) == (n - 1) * outcome(b) + outcome(b)) by (nonlinear_arith);
    } else {
        assert(n * outcome(b) == 0) by (nonlinear_arith)
            requires
                n == 0,
        ;
    }
}

/// Whether every value of a level is the sum of the outcomes of as many games as the level
/// plays.
pub open spec fn values_played(
    root: Seq<u16>,
    cfg: BeamSearchConfig,
    t: Seq<BeamStep>,
) -> bool {
    forall|d: int, i: int|
        0 <= d < t.len() && 0 <= i < t[d].values.len() ==> playout_sum(
            after_line(root, t[d].open[i].moves),
            rollouts_at(cfg, d + 1) as nat,
            #[trigger] t[d].values[i],
        )
}

/// The sum of the outcomes of `n` games that a generator plays from `b` to their ends, and the
/// generator after them.
pub open spec fn rollout_of(b: Seq<u16>, n: nat, rng: StdRng) -> (int, StdRng)
    decreases n,
{
    if n == 0 {
        (0, rng)
    } else {
        let before = rollout_of(b, (n - 1) as nat, rng);
        let last = playout_of(b, 17, before.1);
        (before.0 + last.0, last.1)
    }
}

/// The values of the first `n` boards, `rollouts` games each, and the generator after them.
pub open spec fn values_drawn(
    boards: Seq<Seq<u16>>,
    rollouts: nat,
    n: int,
    rng: StdRng,
) -> (Seq<int>, StdRng)
    decreases n,
{
    if n <= 0 {
        (Seq::empty(), rng)
    } else {
        let before = values_drawn(boards, rollouts, n - 1, rng);
        let last = rollout_of(boards[n - 1], rollouts, before.1);
        (before.0.push(last.0), last.1)
    }
}

/// The boards of nodes.
pub open spec fn node_boards(root: Seq<u16>, nodes: Seq<BeamNode>) -> Seq<Seq<u16>> {
    Seq::new(nodes.len(), |i: int| after_line(root, nodes[i].moves))
}

/// The generator before level `d` of a search that began with `rng`.
pub open spec fn generator_at(t: Seq<BeamStep>, rng: StdRng, d: int) -> StdRng {
    if d <= 0 {
        rng
    } else {
        t[d - 1].rng
    }
}

/// Whether the generator gives level `d` its values: those of the games that it plays, one
/// board after the other. A custom evaluator leaves the generator alone.
pub open spec fn level_drawn(
    root: Seq<u16>,
    cfg: BeamSearchConfig,
    custom: bool,
    t: Seq<BeamStep>,
    rng: StdRng,
    d: int,
) -> bool {
    if custom {
        t[d].rng == generator_at(t, rng, d)
    } else {
        (t[d].values, t[d].rng) == values_drawn(
            node_boards(root, t[d].open),
            rollouts_at(cfg, d + 1) as nat,
            t[d].open.len() as int,
            generator_at(t, rng, d),
        )
    }
}

/// Whether the generator gives all levels their values.
pub open spec fn levels_drawn(
    root: Seq<u16>,
    cfg: BeamSearchConfig,
    custom: bool,
    t: Seq<BeamStep>,
    rng: StdRng,
) -> bool {
    forall|d: int| 0 <= d < t.len() ==> #[trigger] level_drawn(root, cfg, custom, t, rng, d)
}

/// The fixed-point unit of a custom evaluator: values count in millionths.
pub const EVALUATOR_UNIT: i64 = 1_000_000;

/// `q` brought into the range from minus one to one, in millionths.
pub open spec fn clamped(q: int) -> int {
    if q > EVALUATOR_UNIT {
        EVALUATOR_UNIT as int
    } else if q < -EVALUATOR_UNIT {
        -EVALUATOR_UNIT
    } else {
        q
    }
}

/// Whether `v` is a value that the evaluator gives the board.
pub open spec fn custom_value<F: Fn(&Bitboard) -> i64>(f: F, b: Seq<u16>, v: int) -> bool {
    exists|bb: Bitboard, q: i64| bb@ == b && #[trigger] call_ensures(f, (&bb,), q) && v == clamped(
        q as int,
    )
}

/// Whether every value is one that the evaluator gives.
pub open spec fn values_given<F: Fn(&Bitboard) -> i64>(
    f: F,
    root: Seq<u16>,
    t: Seq<BeamStep>,
) -> bool {
    forall|d: int, i: int|
        0 <= d < t.len() && 0 <= i < t[d].values.len() ==> custom_value(
            f,
            after_line(root, t[d].open[i].moves),
            #[trigger] t[d].values[i],
        )
}

/// The number of moves from the first `n` nodes of a frontier.
pub open spec fn moves_from(root: Seq<u16>, frontier: Seq<BeamNode>, n: int) -> int
    decreases n,
{
    if n <= 0 {
        0
    } else {
        moves_from(root, frontier, n - 1) + legal_moves(
            after_line(root, frontier[n - 1].moves),
        ).len()
    }
}

/// What the first `n` levels of a search come to: every move generates a candidate, which is
/// merged, ends the game or is evaluated; what survives and what ended the game is inserted,
/// the rest is pruned. A custom evaluator plays no games.
pub open spec fn counts_of(
    root: Seq<u16>,
    cfg: BeamSearchConfig,
    custom: bool,
    t: Seq<BeamStep>,
    n: int,
) -> BeamCounts
    decreases n,
{
    if n <= 0 {
        BeamCounts {
            generated: 0,
            deduped: 0,
            inserted: 0,
            pruned: 0,
            evaluations: 0,
            rollouts: 0,
            ended: 0,
        }
    } else {
        let c = counts_of(root, cfg, custom, t, n - 1);
        let frontier = frontier_at(cfg, t, n - 1);
        let made = moves_from(root, frontier, frontier.len() as int);
        let open = t[n - 1].open.len() as int;
        let over = t[n - 1].ended.len() - ended_at(t, n - 1).len();
        let survive = kept_nodes(t[n - 1], width_at(cfg, n)).len() as int;
        BeamCounts {
            generated: c.generated + made,
            deduped: c.deduped + made - over - open,
            inserted: c.inserted + over + survive,
            pruned: c.pruned + open - survive,
            evaluations: c.evaluations + open,
            rollouts: c.rollouts + if custom {
                0
            } else {
                open * rollouts_at(cfg, n)
            },
            ended: c.ended + over,
        }
    }
}

pub proof fn lemma_counts_push(
    root: Seq<u16>,
    cfg: BeamSearchConfig,
    custom: bool,
    t: Seq<BeamStep>,
    step: BeamStep,
    n: int,
)
    requires
        n <= t.len(),
    ensures
        counts_of(root, cfg, custom, t.push(step), n) == counts_of(root, cfg, custom, t, n),
    decreases n,
{
    if n > 0 {
        lemma_counts_push(root, cfg, custom, t, step, n - 1);
        assert(t.push(step)[n - 1] == t[n - 1]);
        assert(frontier_at(cfg, t.push(step), n - 1) == frontier_at(cfg, t, n - 1));
        assert(ended_at(t.push(step), n - 1) == ended_at(t, n - 1));
    }
}

/// Whether a search of `root` with random games of the generator `rng`, which is `after` in
/// the end, may give the result with the levels `t`.
pub open spec fn played_levels(
    res: BeamSearchResult,
    root: Seq<u16>,
    cfg: BeamSearchConfig,
    rng: StdRng,
    after: StdRng,
    t: Seq<BeamStep>,
) -> bool {
    &&& shows_levels(res, root, cfg, t)
    &&& values_played(root, cfg, t)
    &&& levels_drawn(root, cfg, false, t, rng)
    &&& after == generator_at(t, rng, t.len() as int)
    &&& shows(res.stats, counts_of(root, cfg, false, t, t.len() as int))
}

/// Whether a search of `root` with random games of the generator `rng`, which is `after` in
/// the end, may give the result.
pub open spec fn searched_by_playouts(
    res: BeamSearchResult,
    root: Seq<u16>,
    cfg: BeamSearchConfig,
    rng: StdRng,
    after: StdRng,
) -> bool {
    exists|t: Seq<BeamStep>| #[trigger] played_levels(res, root, cfg, rng, after, t)
}

/// Whether a search of `root` with the evaluator may give the result.
pub open spec fn searched_by_evaluator<F: Fn(&Bitboard) -> i64>(
    f: F,
    res: BeamSearchResult,
    root: Seq<u16>,
    cfg: BeamSearchConfig,
) -> bool {
    exists|t: Seq<BeamStep>| #[trigger]
        shows_levels(res, root, cfg, t) && values_given(f, root, t) && shows(
            res.stats,
            counts_of(root, cfg, true, t, t.len() as int),
        )
}

/// Whether a search of `root` with random games of the generator `rng` may give the result
/// `res`, whose best leaf begins with `mv` and is worth `value` to the player to move.
pub open spec fn best_leaf_gives(
    res: BeamSearchResult,
    root: Seq<u16>,
    cfg: BeamSearchConfig,
    rng: StdRng,
    mv: Move,
    value: Ratio,
) -> bool {
    &&& beam_result_ok(res, root, cfg)
    &&& starts_from(cfg.random_seed, rng)
    &&& exists|after: StdRng| #[trigger] searched_by_playouts(res, root, cfg, rng, after)
    &&& res.scale == rollouts_at(cfg, res.max_depth_reached as int)
    &&& res.best_leaf is Some
    &&& res.best_leaf->0.moves@.len() > 0
    &&& mv == res.best_leaf->0.moves@[0]
    &&& value.den == res.best_leaf->0.value.den
    &&& value.num == if res.root_player == 0 {
        res.best_leaf->0.value.num as int
    } else {
        -(res.best_leaf->0.value.num as int)
    }
}

/// Whether `now` holds all that was recorded before.
spec fn keeps(before: Seq<BeamNode>, now: Seq<BeamNode>) -> bool {
    forall|n: BeamNode| #[trigger] before.contains(n) ==> now.contains(n)
}

proof fn lemma_children_recorded(
    root: Seq<u16>,
    level: BeamLevel,
    e: BeamNode,
    moves: Seq<Move>,
    n: int,
)
    requires
        0 <= n <= moves.len(),
    ensures
        keeps(level.ended, with_children(root, level, e, moves, n).ended),
        forall|i: int|
            #![trigger moves[i]]
            0 <= i < n && finished(after_line(root, child_node(e, moves[i]).moves))
                ==> with_children(root, level, e, moves, n).ended.contains(
                child_node(e, moves[i]),
            ),
    decreases n,
{
    if n > 0 {
        lemma_children_recorded(root, level, e, moves, n - 1);
        let before = with_children(root, level, e, moves, n - 1).ended;
        let now = with_children(root, level, e, moves, n).ended;
        lemma_push_keeps(before, child_node(e, moves[n - 1]));
        assert(keeps(before, now));
        assert forall|i: int|
            #![trigger moves[i]]
            0 <= i < n && finished(
                after_line(root, child_node(e, moves[i]).moves),
            ) implies now.contains(child_node(e, moves[i])) by {
            if i < n - 1 {
                assert(before.contains(child_node(e, moves[i])));
            }
        }
    }
}

proof fn lemma_push_keeps(s: Seq<BeamNode>, x: BeamNode)
    ensures
        keeps(s, s.push(x)),
        s.push(x).contains(x),
{
    assert(s.push(x)[s.len() as int] == x);
    assert forall|n: BeamNode| #[trigger] s.contains(n) implies s.push(x).contains(n) by {
        let i = choose|i: int| 0 <= i < s.len() && s[i] == n;
        assert(s.push(x)[i] == n);
    }
}

proof fn lemma_level_recorded(
    root: Seq<u16>,
    ended: Seq<BeamNode>,
    frontier: Seq<BeamNode>,
    n: int,
    k: int,
    m: Move,
)
    requires
        0 <= n <= frontier.len(),
    ensures
        keeps(ended, next_level(root, ended, frontier, n).ended),
        0 <= k < n && legal_moves(after_line(root, frontier[k].moves)).contains(m) && finished(
            after_line(root, child_node(frontier[k], m).moves),
        ) ==> next_level(root, ended, frontier, n).ended.contains(child_node(frontier[k], m)),
    decreases n,
{
    if n > 0 {
        lemma_level_recorded(root, ended, frontier, n - 1, k, m);
        let level = next_level(root, ended, frontier, n - 1);
        let moves = legal_moves(after_line(root, frontier[n - 1].moves));
        lemma_children_recorded(root, level, frontier[n - 1], moves, moves.len() as int);
        if k == n - 1 && moves.contains(m) {
            let i = choose|i: int| 0 <= i < moves.len() && moves[i] == m;
            assert(moves[i] == m);
        }
    }
}

proof fn lemma_recorded_stays(
    root: Seq<u16>,
    cfg: BeamSearchConfig,
    t: Seq<BeamStep>,
    d: int,
    e: int,
    n: BeamNode,
)
    requires
        steps_ok(root, cfg, t),
        0 <= d <= e <= t.len(),
        ended_at(t, d).contains(n),
    ensures
        ended_at(t, e).contains(n),
    decreases e - d,
{
    if d < e {
        lemma_recorded_stays(root, cfg, t, d, e - 1, n);
        assert(step_ok(root, cfg, t, e - 1));
        let frontier = frontier_at(cfg, t, e - 1);
        lemma_level_recorded(
            root,
            ended_at(t, e - 1),
            frontier,
            frontier.len() as int,
            -1,
            Move { player: 0, shape: 0, position: 0 },
        );
    }
}

/// Whatever the width, every finished board that a legal move from a board of a frontier
/// leads to is among the terminals of the result.
pub proof fn law_every_terminal_is_recorded(
    res: BeamSearchResult,
    root: Seq<u16>,
    cfg: BeamSearchConfig,
    t: Seq<BeamStep>,
    d: int,
    k: int,
    m: Move,
)
    requires
        shows_levels(res, root, cfg, t),
        0 <= d < t.len(),
        0 <= k < frontier_at(cfg, t, d).len(),
        legal_moves(after_line(root, frontier_at(cfg, t, d)[k].moves)).contains(m),
        finished(after_line(root, frontier_at(cfg, t, d)[k].moves.push(m))),
    ensures
        leaf_nodes(res.terminal_leaves@).contains(child_node(frontier_at(cfg, t, d)[k], m)),
{
    let frontier = frontier_at(cfg, t, d);
    let n = child_node(frontier[k], m);
    assert(step_ok(root, cfg, t, d));
    lemma_level_recorded(root, ended_at(t, d), frontier, frontier.len() as int, k, m);
    assert(ended_at(t, d + 1).contains(n));
    lemma_recorded_stays(root, cfg, t, d + 1, t.len() as int, n);
    let found = ended_at(t, t.len() as int);
    let sorted = leaf_nodes(res.terminal_leaves@);
    let order = choose|order: Seq<usize>| #[trigger]
        ends_ranked(root, found, res.root_player, order) && sorted.len() == found.len() && forall|i: int|
            0 <= i < sorted.len() ==> #[trigger] sorted[i] == found[order[i] as int];
    let p = choose|p: int| 0 <= p < found.len() && found[p] == n;
    assert(found.len() <= usize::MAX) by {
        assert(res.terminal_leaves@.len() == res.terminal_leaves.len());
    }
    crate::sorting::lemma_lists_all(order, found.len() as int);
    assert(order.contains(p as usize));
    let i = choose|i: int| 0 <= i < order.len() && order[i] == p as usize;
    assert(sorted[i] == found[order[i] as int]);
}

/// The levels of a search are settled by the settings, the board and the generator.
proof fn lemma_levels_agree(
    root: Seq<u16>,
    cfg: BeamSearchConfig,
    rng: StdRng,
    x: Seq<BeamStep>,
    y: Seq<BeamStep>,
    d: int,
)
    requires
        steps_ok(root, cfg, x),
        steps_ok(root, cfg, y),
        levels_drawn(root, cfg, false, x, rng),
        levels_drawn(root, cfg, false, y, rng),
        0 <= d < x.len(),
        d < y.len(),
    ensures
        x[d] == y[d],
    decreases d,
{
    if d > 0 {
        lemma_levels_agree(root, cfg, rng, x, y, d - 1);
    }
    assert(step_ok(root, cfg, x, d) && step_ok(root, cfg, y, d));
    assert(level_drawn(root, cfg, false, x, rng, d) && level_drawn(root, cfg, false, y, rng, d));
    let (open, values) = (x[d].open, x[d].values);
    let before = |i: int, j: int| outranks(open, values, i, j);
    lemma_same_order(x[d].order, y[d].order, open.len() as int, before);
}

/// Whether two results say the same.
pub open spec fn same_result(x: BeamSearchResult, y: BeamSearchResult) -> bool {
    &&& x.max_depth_reached == y.max_depth_reached
    &&& x.reached_terminal == y.reached_terminal
    &&& x.root_player == y.root_player
    &&& x.scale == y.scale
    &&& x.stats == y.stats
    &&& same_leaves(x.terminal_leaves@, y.terminal_leaves@)
    &&& same_leaves(x.frontier_leaves@, y.frontier_leaves@)
    &&& x.best_leaf is Some && y.best_leaf is Some && same_leaf(x.best_leaf->0, y.best_leaf->0)
}

/// Whether two lists of leaves are the same.
pub open spec fn same_leaves(x: Seq<BeamLeaf>, y: Seq<BeamLeaf>) -> bool {
    x.len() == y.len() && forall|i: int|
        0 <= i < x.len() ==> same_leaf(#[trigger] x[i], #[trigger] y[i])
}

/// Two searches without a time limit, with equal settings, board and generator, give the same
/// result and leave the same generator.
pub proof fn law_beam_searches_agree(
    root: Seq<u16>,
    cfg: BeamSearchConfig,
    rng: StdRng,
    x: BeamSearchResult,
    after_x: StdRng,
    y: BeamSearchResult,
    after_y: StdRng,
)
    requires
        cfg.time_limit_nanos is None,
        beam_result_ok(x, root, cfg),
        beam_result_ok(y, root, cfg),
        x.scale == rollouts_at(cfg, x.max_depth_reached as int),
        y.scale == rollouts_at(cfg, y.max_depth_reached as int),
        searched_by_playouts(x, root, cfg, rng, after_x),
        searched_by_playouts(y, root, cfg, rng, after_y),
    ensures
        same_result(x, y),
        after_x == after_y,
{
    let s = choose|s: Seq<BeamStep>| #[trigger] played_levels(x, root, cfg, rng, after_x, s);
    let t = choose|t: Seq<BeamStep>| #[trigger] played_levels(y, root, cfg, rng, after_y, t);
    let m = if s.len() < t.len() {
        s.len() as int
    } else {
        t.len() as int
    };
    assert forall|d: int| 0 <= d < m implies s[d] == t[d] by {
        lemma_levels_agree(root, cfg, rng, s, t, d);
    }
    assert(frontier_at(cfg, s, m) == frontier_at(cfg, t, m));
    if s.len() < t.len() {
        assert(step_ok(root, cfg, t, m));
        assert(leaf_nodes(x.frontier_leaves@).len() == x.frontier_leaves@.len());
    } else if t.len() < s.len() {
        assert(step_ok(root, cfg, s, m));
        assert(leaf_nodes(y.frontier_leaves@).len() == y.frontier_leaves@.len());
    }
    assert(s =~= t);
    lemma_open_leaves_agree(root, cfg, s, x, y);
    lemma_ended_leaves_agree(root, cfg, s, x, y);
    lemma_best_agrees(x, y);
}

proof fn lemma_open_leaves_agree(
    root: Seq<u16>,
    cfg: BeamSearchConfig,
    t: Seq<BeamStep>,
    x: BeamSearchResult,
    y: BeamSearchResult,
)
    requires
        beam_result_ok(x, root, cfg),
        beam_result_ok(y, root, cfg),
        shows_levels(x, root, cfg, t),
        shows_levels(y, root, cfg, t),
        x.scale == y.scale,
    ensures
        same_leaves(x.frontier_leaves@, y.frontier_leaves@),
{
    let (p, q) = (x.frontier_leaves@, y.frontier_leaves@);
    assert(leaf_nodes(p) == leaf_nodes(q));
    assert(leaf_nodes(p).len() == p.len() && leaf_nodes(q).len() == q.len());
    assert forall|i: int| 0 <= i < p.len() implies same_leaf(#[trigger] p[i], #[trigger] q[i]) by {
        assert(leaf_nodes(p)[i] == leaf_nodes(q)[i]);
        assert(leaf_ok(root, p[i]) && leaf_ok(root, q[i]));
    }
}

proof fn lemma_ended_leaves_agree(
    root: Seq<u16>,
    cfg: BeamSearchConfig,
    t: Seq<BeamStep>,
    x: BeamSearchResult,
    y: BeamSearchResult,
)
    requires
        beam_result_ok(x, root, cfg),
        beam_result_ok(y, root, cfg),
        shows_levels(x, root, cfg, t),
        shows_levels(y, root, cfg, t),
    ensures
        same_leaves(x.terminal_leaves@, y.terminal_leaves@),
{
    let (p, q) = (leaf_nodes(x.terminal_leaves@), leaf_nodes(y.terminal_leaves@));
    let found = ended_at(t, t.len() as int);
    let player = x.root_player;
    let a = choose|order: Seq<usize>| #[trigger]
        ends_ranked(root, found, player, order) && p.len() == found.len() && forall|i: int|
            0 <= i < p.len() ==> #[trigger] p[i] == found[order[i] as int];
    let b = choose|order: Seq<usize>| #[trigger]
        ends_ranked(root, found, player, order) && q.len() == found.len() && forall|i: int|
            0 <= i < q.len() ==> #[trigger] q[i] == found[order[i] as int];
    let before = |i: int, j: int| ends_before(root, found, player, i, j);
    assert(found.len() <= usize::MAX) by {
        assert(x.terminal_leaves@.len() == x.terminal_leaves.len());
    }
    lemma_same_order(a, b, found.len() as int, before);
    let (u, v) = (x.terminal_leaves@, y.terminal_leaves@);
    assert forall|i: int| 0 <= i < u.len() implies same_leaf(#[trigger] u[i], #[trigger] v[i]) by {
        assert(p[i] == q[i]);
        assert(leaf_ok(root, u[i]) && leaf_ok(root, v[i]));
    }
}

/// The best of the same leaves is the same.
proof fn lemma_best_agrees(x: BeamSearchResult, y: BeamSearchResult)
    requires
        x.root_player == y.root_player,
        x.scale == y.scale,
        same_leaves(x.terminal_leaves@, y.terminal_leaves@),
        same_leaves(x.frontier_leaves@, y.frontier_leaves@),
        x.best_leaf is Some,
        y.best_leaf is Some,
        best_leaf_ok(
            x.best_leaf->0,
            x.terminal_leaves@,
            x.frontier_leaves@,
            x.root_player,
            x.scale,
        ),
        best_leaf_ok(
            y.best_leaf->0,
            y.terminal_leaves@,
            y.frontier_leaves@,
            y.root_player,
            y.scale,
        ),
    ensures
        same_leaf(x.best_leaf->0, y.best_leaf->0),
{
    let (a, b) = (x.best_leaf->0, y.best_leaf->0);
    let (player, scale) = (x.root_player, x.scale);
    let (p, q) = (x.frontier_leaves@, y.frontier_leaves@);
    let (u, v) = (x.terminal_leaves@, y.terminal_leaves@);
    if exists|i: int|
        0 <= i < p.len() && same_leaf(a, #[trigger] p[i]) && worse_from(
            p,
            i + 1,
            a,
            player,
            scale,
        ) {
        let i = choose|i: int|
            0 <= i < p.len() && same_leaf(a, #[trigger] p[i]) && worse_from(
                p,
                i + 1,
                a,
                player,
                scale,
            );
        assert(same_leaf(p[i], q[i]));
        assert(leaf_units(q[i], player, scale) <= leaf_units(b, player, scale));
        if exists|j: int|
            0 <= j < q.len() && same_leaf(b, #[trigger] q[j]) && worse_from(
                q,
                j + 1,
                b,
                player,
                scale,
            ) {
            let j = choose|j: int|
                0 <= j < q.len() && same_leaf(b, #[trigger] q[j]) && worse_from(
                    q,
                    j + 1,
                    b,
                    player,
                    scale,
                );
            assert(same_leaf(p[j], q[j]));
            assert(leaf_units(p[j], player, scale) <= leaf_units(a, player, scale));
        } else {
            let j = choose|j: int|
                0 <= j < v.len() && same_leaf(b, #[trigger] v[j]) && worse_from(
                    v,
                    j + 1,
                    b,
                    player,
                    scale,
                ) && worse_from(q, 0, b, player, scale);
            assert(same_leaf(u[j], v[j]));
            assert(leaf_units(u[j], player, scale) <= leaf_units(a, player, scale));
        }
    } else {
        let i = choose|i: int|
            0 <= i < u.len() && same_leaf(a, #[trigger] u[i]) && worse_from(
                u,
                i + 1,
                a,
                player,
                scale,
            ) && worse_from(p, 0, a, player, scale);
        assert(same_leaf(u[i], v[i]));
        assert(leaf_units(v[i], player, scale) <= leaf_units(b, player, scale));
        if exists|j: int|
            0 <= j < q.len() && same_leaf(b, #[trigger] q[j]) && worse_from(
                q,
                j + 1,
                b,
                player,
                scale,
            ) {
            let j = choose|j: int|
                0 <= j < q.len() && same_leaf(b, #[trigger] q[j]) && worse_from(
                    q,
                    j + 1,
                    b,
                    player,
                    scale,
                );
            assert(same_leaf(p[j], q[j]));
            assert(leaf_units(p[j], player, scale) < leaf_units(a, player, scale));
        } else {
            let j = choose|j: int|
                0 <= j < v.len() && same_leaf(b, #[trigger] v[j]) && worse_from(
                    v,
                    j + 1,
                    b,
                    player,
                    scale,
                ) && worse_from(q, 0, b, player, scale);
            assert(same_leaf(u[j], v[j]));
            assert(leaf_units(u[j], player, scale) <= leaf_units(a, player, scale));
        }
    }
}

} // verus!
