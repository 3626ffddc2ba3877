//! Classical alpha-beta minimax (negamax formulation) for Quantik.
//!
//! The search reports the depth-limited minimax value of
//! [`crate::game_value`], whatever combination of alpha-beta pruning,
//! transposition table and sibling dedup is switched on: none of them changes
//! a value. With sixteen plies ([`MinimaxEngine::solve`]) every game is seen to
//! its end, so that the evaluation plays no part.
//!
//! Sibling dedup and the transposition table both go by the canonical payload.
//! Within one iteration of the deepening, boards with the same payload lie at
//! the same distance from the root, because they hold equally many pieces. So a
//! table entry that is deep enough is exactly as deep as needed. Only values
//! and bounds are stored, never moves.
use crate::bitboard::{lemma_popcount, taken, Bitboard};
use crate::clock::{
    clock_answers, deadline_for, deadline_from, limit_kept, nearest_millis, spent_since,
    start_clock, time_is_up, took, Deadline,
};
use crate::evaluation::{evaluate, EvalConfig};
use crate::game::{current_player, has_winning_line, total_pieces, won};
use crate::game_value::{
    best_reply, exact_best, finished, law_value_by_canonical_key, legal_line, lemma_best_reply,
    lemma_exact_best, lemma_line_prepend, lemma_value_bounds, move_value, root_value, value,
    VALUE_BOUND,
};
use crate::minimax_trace::{
    best_places, board_searched, children_searched, completing_first, deepened_to, distinct_moves,
    asked_on_the_way, hit, iterated, moves_completing, number_after, probed, ran_in_time, ran_to,
    repeats, root_searched, stepped_by, tie_breaker, with_boards, Deepened, Found, Probe, TreeModel,
};
use crate::moves::{
    applied, apply_move, generate_legal_moves, legal_move, legal_moves, lemma_legal_move_step,
    lemma_legal_moves, Move,
};
use crate::rng::{after_draw, drawn, pick, seeded_rng};
use crate::search_telemetry::{
    EngineKind, PolicyMassKind, Ratio, RootMoveStat, SearchEventCounters, SearchTelemetry,
};
use crate::state::State;
use crate::symmetry::{canonical, payload_number, SymmetryHandler};
use rand::rngs::StdRng;
use std::collections::HashMap;
use std::collections::HashSet;
use vstd::prelude::*;

verus! {

/// What a stored value says of the true one.
#[derive(Clone, Copy, Debug, PartialEq, Eq, Structural)]
pub enum Bound {
    Exact,
    Lower,
    Upper,
}

/// Configuration for [`MinimaxEngine`].
#[derive(Clone, Copy, Debug)]
pub struct MinimaxConfig {
    pub max_depth: u32,
    /// Optional wall-clock budget in nanoseconds.
    pub time_limit_nanos: Option<u64>,
    pub use_alpha_beta: bool,
    pub use_transposition_table: bool,
    pub dedup_children: bool,
    pub eval_config: EvalConfig,
    pub random_seed: Option<u64>,
}

impl Default for MinimaxConfig {
    fn default() -> (c: Self)
        ensures
            c.max_depth == 16,
            c.time_limit_nanos is None,
            c.use_alpha_beta,
            c.use_transposition_table,
            c.dedup_children,
            c.eval_config.valid(),
            c.eval_config.weights@ == seq![100i64, -100i64, 20i64, 3i64, 2i64, 0i64],
            c.eval_config.win == 10_000,
            c.eval_config.unit == 1,
            c.random_seed is None,
    {
        Self {
            max_depth: 16,
            time_limit_nanos: None,
            use_alpha_beta: true,
            use_transposition_table: true,
            dedup_children: true,
            eval_config: EvalConfig::default(),
            random_seed: None,
        }
    }
}

/// Result of a [`MinimaxEngine::search`] (or `.solve`) call.
#[derive(Clone, Debug)]
pub struct MinimaxResult {
    pub best_move: Move,
    pub score: i64,
    pub depth_reached: u32,
    pub nodes: u64,
    pub pv: Vec<Move>,
    pub elapsed_nanos: u64,
}

/// Signal that the time limit was reached.
pub struct TimeUp;

/// The window ends that no value reaches.
pub const INFINITE: i64 = i64::MAX;

/// Whether `r` is what a fail-soft search with the window from `alpha` to `beta`
/// may return for the true value `v`.
pub open spec fn window_result(v: int, r: int, alpha: int, beta: int) -> bool {
    &&& r <= alpha ==> v <= r
    &&& r >= beta ==> v >= r
    &&& alpha < r < beta ==> v == r
}

/// Whether the stored value `s` says something true of `v`.
pub open spec fn entry_true(v: int, s: int, bound: Bound) -> bool {
    match bound {
        Bound::Exact => v == s,
        Bound::Lower => v >= s,
        Bound::Upper => v <= s,
    }
}

/// Whether the entry of `tt` for the payload `key` is true of every board with
/// that canonical payload: `base` is the number of pieces at the root, and the
/// iteration looks `horizon` plies ahead of it.
pub open spec fn table_entry_ok(
    tt: Map<u128, (u32, i64, Bound)>,
    key: u128,
    b: Seq<u16>,
    cfg: EvalConfig,
    base: int,
    horizon: int,
) -> bool {
    let ply = total_pieces(b) - base;
    &&& tt[key].0 + ply <= horizon
    &&& -VALUE_BOUND <= tt[key].1 <= VALUE_BOUND
    &&& entry_true(value(b, tt[key].0 as nat, ply, cfg), tt[key].1 as int, tt[key].2)
}

/// Whether all entries of the transposition table are true.
#[verifier::opaque]
pub open spec fn table_ok(
    tt: Map<u128, (u32, i64, Bound)>,
    cfg: EvalConfig,
    base: int,
    horizon: int,
) -> bool {
    forall|key: u128, b: Seq<u16>|
        #![trigger tt.contains_key(key), total_pieces(b)]
        tt.contains_key(key) && b.len() == 8 && payload_number(canonical(b)) == key
            ==> table_entry_ok(tt, key, b, cfg, base, horizon)
}

proof fn lemma_table_lookup(
    tt: Map<u128, (u32, i64, Bound)>,
    cfg: EvalConfig,
    base: int,
    horizon: int,
    b: Seq<u16>,
    key: u128,
)
    requires
        table_ok(tt, cfg, base, horizon),
        tt.contains_key(key),
        b.len() == 8,
        payload_number(canonical(b)) == key,
    ensures
        table_entry_ok(tt, key, b, cfg, base, horizon),
{
    reveal(table_ok);
    let total = total_pieces(b);
}

proof fn lemma_table_insert(
    tt: Map<u128, (u32, i64, Bound)>,
    cfg: EvalConfig,
    base: int,
    horizon: int,
    b: Seq<u16>,
    key: u128,
    entry: (u32, i64, Bound),
)
    requires
        table_ok(tt, cfg, base, horizon),
        b.len() == 8,
        payload_number(canonical(b)) == key,
        entry.0 + (total_pieces(b) - base) <= horizon,
        -VALUE_BOUND <= entry.1 <= VALUE_BOUND,
        entry_true(
            value(b, entry.0 as nat, total_pieces(b) - base, cfg),
            entry.1 as int,
            entry.2,
        ),
    ensures
        table_ok(tt.insert(key, entry), cfg, base, horizon),
{
    reveal(table_ok);
    let after = tt.insert(key, entry);
    assert forall|k: u128, a: Seq<u16>|
        #![trigger after.contains_key(k), total_pieces(a)]
        after.contains_key(k) && a.len() == 8 && payload_number(canonical(a))
            == k implies table_entry_ok(after, k, a, cfg, base, horizon) by {
        if k == key {
            law_value_by_canonical_key(a, b, entry.0 as nat, total_pieces(b) - base, cfg);
        } else {
            assert(tt.contains_key(k));
            assert(table_entry_ok(tt, k, a, cfg, base, horizon));
        }
    }
}

proof fn lemma_table_deeper(
    tt: Map<u128, (u32, i64, Bound)>,
    cfg: EvalConfig,
    base: int,
    horizon: int,
    deeper: int,
)
    requires
        table_ok(tt, cfg, base, horizon),
        horizon <= deeper,
    ensures
        table_ok(tt, cfg, base, deeper),
{
    reveal(table_ok);
    assert forall|k: u128, a: Seq<u16>|
        #![trigger tt.contains_key(k), total_pieces(a)]
        tt.contains_key(k) && a.len() == 8 && payload_number(canonical(a))
            == k implies table_entry_ok(tt, k, a, cfg, base, deeper) by {
        assert(table_entry_ok(tt, k, a, cfg, base, horizon));
    }
}

/// A legal move, the board that it leads to, and that board's canonical payload
/// where dedup computed it.
#[derive(Clone, Copy)]
struct Child {
    mv: Move,
    bb: Bitboard,
    key: Option<u128>,
}

/// The moves of children.
spec fn child_moves(children: Seq<Child>) -> Seq<Move> {
    Seq::new(children.len(), |i: int| children[i].mv)
}

/// Whether `a` and `b` have the same canonical payload.
#[verifier::opaque]
pub open spec fn same_orbit(a: Seq<u16>, b: Seq<u16>) -> bool {
    payload_number(canonical(a)) == payload_number(canonical(b))
}

/// Whether every child comes from one of `moves`.
#[verifier::opaque]
spec fn children_sound(b: Seq<u16>, moves: Seq<Move>, children: Seq<Child>) -> bool {
    forall|j: int|
        0 <= j < children.len() ==> {
            let c = #[trigger] children[j];
            &&& moves.contains(c.mv)
            &&& c.bb@ == applied(b, c.mv)
            &&& c.key matches Some(k) ==> k == payload_number(canonical(c.bb@))
        }
}

/// Whether move `m` leads to a board that is symmetric to a child.
spec fn covered(b: Seq<u16>, m: Move, children: Seq<Child>) -> bool {
    exists|j: int|
        0 <= j < children.len() && same_orbit(
            (#[trigger] children[j]).bb@,
            applied(b, m),
        )
}

/// Whether each of `moves` is represented among the children.
#[verifier::opaque]
spec fn children_complete(b: Seq<u16>, moves: Seq<Move>, children: Seq<Child>) -> bool {
    forall|i: int| 0 <= i < moves.len() ==> covered(b, #[trigger] moves[i], children)
}

/// Whether `origin` gives the place in `moves` of each child, in order, and each
/// move is represented by a child that comes no later.
#[verifier::opaque]
spec fn children_ordered(
    b: Seq<u16>,
    moves: Seq<Move>,
    children: Seq<Child>,
    origin: Seq<int>,
) -> bool {
    &&& origin.len() == children.len()
    &&& forall|j: int|
        0 <= j < children.len() ==> 0 <= #[trigger] origin[j] < moves.len() && children[j].mv
            == moves[origin[j]]
    &&& forall|i: int, j: int|
        0 <= i < j < origin.len() ==> #[trigger] origin[i] < #[trigger] origin[j]
    &&& forall|i: int|
        0 <= i < moves.len() ==> represented(b, #[trigger] moves[i], children, origin, i)
}

/// Whether the move `m` leads to a board that is symmetric to a child whose
/// place is at most `i`.
spec fn represented(b: Seq<u16>, m: Move, children: Seq<Child>, origin: Seq<int>, i: int) -> bool {
    exists|j: int| #[trigger] represents(b, m, children, origin, i, j)
}

spec fn represents(
    b: Seq<u16>,
    m: Move,
    children: Seq<Child>,
    origin: Seq<int>,
    i: int,
    j: int,
) -> bool {
    0 <= j < children.len() && origin[j] <= i && same_orbit(children[j].bb@, applied(b, m))
}

proof fn lemma_child(b: Seq<u16>, moves: Seq<Move>, children: Seq<Child>, j: int)
    requires
        children_sound(b, moves, children),
        0 <= j < children.len(),
    ensures
        moves.contains(children[j].mv),
        children[j].bb@ == applied(b, children[j].mv),
        children[j].key matches Some(k) ==> k == payload_number(canonical(children[j].bb@)),
{
    reveal(children_sound);
}

proof fn lemma_cover(b: Seq<u16>, moves: Seq<Move>, children: Seq<Child>, i: int) -> (j: int)
    requires
        children_complete(b, moves, children),
        0 <= i < moves.len(),
    ensures
        0 <= j < children.len(),
        same_orbit(children[j].bb@, applied(b, moves[i])),
{
    reveal(children_complete);
    assert(covered(b, moves[i], children));
    choose|j: int|
        0 <= j < children.len() && same_orbit((#[trigger] children[j]).bb@, applied(b, moves[i]))
}

proof fn lemma_origin(b: Seq<u16>, moves: Seq<Move>, children: Seq<Child>, origin: Seq<int>)
    requires
        children_ordered(b, moves, children, origin),
    ensures
        origin.len() == children.len(),
        forall|j: int|
            0 <= j < children.len() ==> 0 <= #[trigger] origin[j] < moves.len() && children[j].mv
                == moves[origin[j]],
        forall|i: int, j: int|
            0 <= i < j < origin.len() ==> #[trigger] origin[i] < #[trigger] origin[j],
{
    reveal(children_ordered);
}

proof fn lemma_representative(
    b: Seq<u16>,
    moves: Seq<Move>,
    children: Seq<Child>,
    origin: Seq<int>,
    i: int,
) -> (j: int)
    requires
        children_ordered(b, moves, children, origin),
        0 <= i < moves.len(),
    ensures
        0 <= j < children.len(),
        origin[j] <= i,
        same_orbit(children[j].bb@, applied(b, moves[i])),
{
    reveal(children_ordered);
    assert(represented(b, moves[i], children, origin, i));
    choose|j: int| #[trigger] represents(b, moves[i], children, origin, i, j)
}

/// The mover's value of a child.
spec fn child_value(c: Child, d: nat, ply: int, cfg: EvalConfig) -> int {
    -value(c.bb@, d, ply, cfg)
}

/// The best child is as good as the best move.
proof fn lemma_children_best(
    b: Seq<u16>,
    moves: Seq<Move>,
    children: Seq<Child>,
    d: nat,
    ply: int,
    cfg: EvalConfig,
)
    requires
        b.len() == 8,
        moves.len() > 0,
        forall|i: int| 0 <= i < moves.len() ==> legal_move(b, #[trigger] moves[i]),
        children_sound(b, moves, children),
        children_complete(b, moves, children),
    ensures
        children.len() > 0,
        forall|j: int|
            0 <= j < children.len() ==> child_value(#[trigger] children[j], d, ply, cfg)
                <= best_reply(b, moves, d, ply, cfg),
        exists|j: int|
            0 <= j < children.len() && child_value(#[trigger] children[j], d, ply, cfg)
                == best_reply(b, moves, d, ply, cfg),
{
    reveal(same_orbit);
    lemma_best_reply(b, moves, d, ply, cfg);
    assert forall|j: int| 0 <= j < children.len() implies child_value(
        #[trigger] children[j],
        d,
        ply,
        cfg,
    ) <= best_reply(b, moves, d, ply, cfg) by {
        lemma_child(b, moves, children, j);
        let c = children[j];
        let i = choose|i: int| 0 <= i < moves.len() && moves[i] == c.mv;
        assert(move_value(b, moves[i], d, ply, cfg) <= best_reply(b, moves, d, ply, cfg));
    }
    let i = choose|i: int|
        0 <= i < moves.len() && #[trigger] move_value(b, moves[i], d, ply, cfg) == best_reply(
            b,
            moves,
            d,
            ply,
            cfg,
        );
    let j = lemma_cover(b, moves, children, i);
    lemma_child(b, moves, children, j);
    assert(legal_move(b, moves[i]));
    lemma_legal_move_step(b, moves[i]);
    law_value_by_canonical_key(children[j].bb@, applied(b, moves[i]), d, ply, cfg);
    assert(child_value(children[j], d, ply, cfg) == best_reply(b, moves, d, ply, cfg));
}

/// The order in which the root moves are tried: the previous best move first.
pub open spec fn root_order(moves: Seq<Move>, hint: Option<Move>) -> Seq<Move> {
    match hint {
        Some(h) => if moves.contains(h) {
            seq![h] + moves.remove(moves.index_of(h))
        } else {
            moves
        },
        None => moves,
    }
}

/// Whether `m` is the first of the best moves in `order`.
pub open spec fn is_first_best(
    b: Seq<u16>,
    order: Seq<Move>,
    d: nat,
    cfg: EvalConfig,
    m: Move,
) -> bool {
    exists|i: int|
        0 <= i < order.len() && order[i] == m && #[trigger] move_value(b, order[i], d, 1, cfg)
            == best_reply(b, order, d, 1, cfg) && forall|j: int|
            0 <= j < i ==> #[trigger] move_value(b, order[j], d, 1, cfg) < best_reply(
                b,
                order,
                d,
                1,
                cfg,
            )
}

/// The move that a search without random choices settles on after the iteration
/// that looks `d` plies ahead: the first best one, where the best move of the
/// iteration before is tried first.
pub open spec fn deterministic_best(b: Seq<u16>, d: nat, cfg: EvalConfig) -> Move
    decreases d,
{
    let hint = if d <= 1 {
        None
    } else {
        Some(deterministic_best(b, (d - 1) as nat, cfg))
    };
    let order = root_order(legal_moves(b), hint);
    let ahead = (d - 1) as nat;
    choose|m: Move| #[trigger] is_first_best(b, order, ahead, cfg, m)
}

proof fn lemma_first_best_unique(
    b: Seq<u16>,
    order: Seq<Move>,
    d: nat,
    cfg: EvalConfig,
    m: Move,
    n: Move,
)
    requires
        is_first_best(b, order, d, cfg, m),
        is_first_best(b, order, d, cfg, n),
    ensures
        m == n,
{
    let i = choose|i: int|
        0 <= i < order.len() && order[i] == m && #[trigger] move_value(b, order[i], d, 1, cfg)
            == best_reply(b, order, d, 1, cfg) && forall|j: int|
            0 <= j < i ==> #[trigger] move_value(b, order[j], d, 1, cfg) < best_reply(
                b,
                order,
                d,
                1,
                cfg,
            );
    let k = choose|k: int|
        0 <= k < order.len() && order[k] == n && #[trigger] move_value(b, order[k], d, 1, cfg)
            == best_reply(b, order, d, 1, cfg) && forall|j: int|
            0 <= j < k ==> #[trigger] move_value(b, order[j], d, 1, cfg) < best_reply(
                b,
                order,
                d,
                1,
                cfg,
            );
    if i < k {
        assert(move_value(b, order[i], d, 1, cfg) < best_reply(b, order, d, 1, cfg));
    } else if k < i {
        assert(move_value(b, order[k], d, 1, cfg) < best_reply(b, order, d, 1, cfg));
    }
}

/// Floating a move to the front keeps the set of moves.
pub(crate) proof fn lemma_root_order(moves: Seq<Move>, hint: Option<Move>)
    requires
        moves.no_duplicates(),
    ensures
        root_order(moves, hint).len() == moves.len(),
        forall|m: Move| #[trigger] root_order(moves, hint).contains(m) <==> moves.contains(m),
        root_order(moves, hint).no_duplicates(),
{
    let order = root_order(moves, hint);
    match hint {
        Some(h) => {
            if moves.contains(h) {
                let k = moves.index_of(h);
                assert(0 <= k < moves.len() && moves[k] == h);
                let rest = moves.remove(k);
                assert forall|m: Move| #[trigger] order.contains(m) <==> moves.contains(m) by {
                    if moves.contains(m) {
                        let i = choose|i: int| 0 <= i < moves.len() && moves[i] == m;
                        if i == k {
                            assert(order[0] == m);
                        } else if i < k {
                            assert(order[i + 1] == rest[i] && rest[i] == moves[i]);
                        } else {
                            assert(order[i] == rest[i - 1] && rest[i - 1] == moves[i]);
                        }
                    }
                    if order.contains(m) {
                        let i = choose|i: int| 0 <= i < order.len() && order[i] == m;
                        if i == 0 {
                            assert(moves[k] == m);
                        } else if i - 1 < k {
                            assert(order[i] == rest[i - 1] && rest[i - 1] == moves[i - 1]);
                        } else {
                            assert(order[i] == rest[i - 1] && rest[i - 1] == moves[i]);
                        }
                    }
                }
            }
        },
        None => {},
    }
}

/// The best reply does not depend on the order of the moves.
proof fn lemma_best_reply_same_moves(
    b: Seq<u16>,
    x: Seq<Move>,
    y: Seq<Move>,
    d: nat,
    ply: int,
    cfg: EvalConfig,
)
    requires
        x.len() > 0,
        y.len() > 0,
        forall|m: Move| #[trigger] x.contains(m) <==> y.contains(m),
    ensures
        best_reply(b, x, d, ply, cfg) == best_reply(b, y, d, ply, cfg),
{
    lemma_best_reply(b, x, d, ply, cfg);
    lemma_best_reply(b, y, d, ply, cfg);
    let i = choose|i: int|
        0 <= i < x.len() && #[trigger] move_value(b, x[i], d, ply, cfg) == best_reply(
            b,
            x,
            d,
            ply,
            cfg,
        );
    assert(x.contains(x[i]) <==> y.contains(x[i]));
    assert(x.contains(x[i]));
    let j = choose|j: int| 0 <= j < y.len() && y[j] == x[i];
    assert(move_value(b, y[j], d, ply, cfg) <= best_reply(b, y, d, ply, cfg));
    let k = choose|k: int|
        0 <= k < y.len() && #[trigger] move_value(b, y[k], d, ply, cfg) == best_reply(
            b,
            y,
            d,
            ply,
            cfg,
        );
    assert(x.contains(y[k]) <==> y.contains(y[k]));
    assert(y.contains(y[k]));
    let l = choose|l: int| 0 <= l < x.len() && x[l] == y[k];
    assert(move_value(b, x[l], d, ply, cfg) <= best_reply(b, x, d, ply, cfg));
}

/// The part of the engine that changes while a tree is searched.
pub struct SearchTree {
    /// By canonical payload: the depth of the search, its value and what that says.
    pub tt: HashMap<u128, (u32, i64, Bound)>,
    pub nodes: u64,
    pub counters: SearchEventCounters,
}

impl SearchTree {
    /// What the tree remembers and counts.
    pub open spec fn model(&self) -> TreeModel {
        TreeModel { tt: self.tt@, nodes: self.nodes, counters: self.counters }
    }
}

/// A counter after one more event.
pub open spec fn stepped(n: u64) -> u64 {
    if n < u64::MAX {
        (n + 1) as u64
    } else {
        n
    }
}

/// Whether the counters of switched-off features and of tablebases stood still.
pub open spec fn counters_step(
    cfg: MinimaxConfig,
    before: SearchEventCounters,
    after: SearchEventCounters,
) -> bool {
    &&& !cfg.use_transposition_table ==> after.transposition_hits == before.transposition_hits
    &&& !cfg.dedup_children ==> after.canonical_dedup_hits == before.canonical_dedup_hits
    &&& after.tablebase_hits == before.tablebase_hits
    &&& after.expanded_nodes >= before.expanded_nodes
    &&& after.generated_nodes >= before.generated_nodes
    &&& after.terminal_hits >= before.terminal_hits
}

/// Whether the children are those of the first `i` moves without repetitions, and `seen`
/// holds the numbers of the boards after these moves.
#[verifier::opaque]
spec fn distinct_so_far(
    b: Seq<u16>,
    moves: Seq<Move>,
    i: int,
    dedup: bool,
    children: Seq<Child>,
    seen: Set<u128>,
) -> bool {
    &&& child_moves(children) == distinct_moves(b, moves, i, dedup)
    &&& dedup ==> forall|key: u128| #[trigger]
        seen.contains(key) <==> exists|k: int|
            0 <= k < i && number_after(b, #[trigger] moves[k]) == key
}

proof fn lemma_children_done(
    b: Seq<u16>,
    moves: Seq<Move>,
    children: Seq<Child>,
    origin: Seq<int>,
)
    requires
        origin.len() == children.len(),
        forall|j: int|
            0 <= j < children.len() ==> 0 <= #[trigger] origin[j] < moves.len() && children[j].mv
                == moves[origin[j]],
        forall|k: int, j: int|
            0 <= k < j < origin.len() ==> #[trigger] origin[k] < #[trigger] origin[j],
        forall|k: int|
            0 <= k < moves.len() ==> represented(b, #[trigger] moves[k], children, origin, k),
    ensures
        children_complete(b, moves, children),
        children_ordered(b, moves, children, origin),
{
    reveal(children_complete);
    reveal(children_ordered);
    assert forall|k: int| 0 <= k < moves.len() implies covered(b, #[trigger] moves[k], children) by {
        assert(represented(b, moves[k], children, origin, k));
        let j = choose|j: int| #[trigger] represents(b, moves[k], children, origin, k, j);
        assert(same_orbit(children[j].bb@, applied(b, moves[k])));
    }
}

proof fn lemma_distinct_start(
    b: Seq<u16>,
    moves: Seq<Move>,
    dedup: bool,
    children: Seq<Child>,
    seen: Set<u128>,
)
    requires
        children.len() == 0,
        seen == Set::<u128>::empty(),
    ensures
        distinct_so_far(b, moves, 0, dedup, children, seen),
{
    reveal(distinct_so_far);
    assert(child_moves(children) =~= Seq::empty());
}

proof fn lemma_distinct_done(
    b: Seq<u16>,
    moves: Seq<Move>,
    dedup: bool,
    children: Seq<Child>,
    seen: Set<u128>,
)
    requires
        distinct_so_far(b, moves, moves.len() as int, dedup, children, seen),
    ensures
        child_moves(children) == distinct_moves(b, moves, moves.len() as int, dedup),
        distinct_moves(b, moves, moves.len() as int, dedup).len() == children.len(),
{
    reveal(distinct_so_far);
    assert(child_moves(children).len() == children.len());
}

proof fn lemma_distinct_step(
    b: Seq<u16>,
    moves: Seq<Move>,
    i: int,
    dedup: bool,
    children: Seq<Child>,
    seen: Set<u128>,
    after: Set<u128>,
    c: Child,
    fresh: bool,
)
    requires
        0 <= i < moves.len(),
        distinct_so_far(b, moves, i, dedup, children, seen),
        c.mv == moves[i],
        if dedup {
            &&& c.key is Some
            &&& c.key->0 == number_after(b, moves[i])
            &&& after == seen.insert(c.key->0)
            &&& fresh == !seen.contains(c.key->0)
        } else {
            fresh
        },
    ensures
        distinct_so_far(
            b,
            moves,
            i + 1,
            dedup,
            if fresh {
                children.push(c)
            } else {
                children
            },
            after,
        ),
{
    reveal(distinct_so_far);
    assert(child_moves(children.push(c)) =~= child_moves(children).push(c.mv));
    if dedup {
        let number = c.key->0;
        assert(fresh == !repeats(b, moves, i));
        assert forall|key: u128| #[trigger] after.contains(key) <==> exists|k: int|
            0 <= k < i + 1 && number_after(b, #[trigger] moves[k]) == key by {
            if after.contains(key) {
                if key == number {
                    assert(number_after(b, moves[i]) == key);
                } else {
                    let k = choose|k: int|
                        0 <= k < i && number_after(b, #[trigger] moves[k]) == key;
                    assert(number_after(b, moves[k]) == key);
                }
            }
            if exists|k: int| 0 <= k < i + 1 && number_after(b, #[trigger] moves[k]) == key {
                let k = choose|k: int|
                    0 <= k < i + 1 && number_after(b, #[trigger] moves[k]) == key;
                if k < i {
                    assert(seen.contains(key));
                }
            }
        }
    }
}

impl SearchTree {
    /// Apply each of `moves`. With `dedup`, siblings with the same canonical
    /// payload collapse onto the first of them.
    fn children(&mut self, bb: &Bitboard, moves: &Vec<Move>, dedup: bool) -> (r: (
        Vec<Child>,
        Ghost<Seq<int>>,
    ))
        requires
            forall|i: int| 0 <= i < moves@.len() ==> (#[trigger] moves@[i]).in_range(),
        ensures
            final(self).tt == old(self).tt,
            final(self).nodes == old(self).nodes,
            child_moves(r.0@) == distinct_moves(bb@, moves@, moves@.len() as int, dedup),
            final(self).model() == with_boards(old(self).model(), bb@, moves@, dedup),
            r.0@.len() <= moves@.len(),
            children_sound(bb@, moves@, r.0@),
            children_complete(bb@, moves@, r.0@),
            children_ordered(bb@, moves@, r.0@, r.1@),
            !dedup ==> r.0@.len() == moves@.len(),
            !dedup ==> final(self).counters.canonical_dedup_hits == old(
                self,
            ).counters.canonical_dedup_hits,
            final(self).counters.transposition_hits == old(self).counters.transposition_hits,
            final(self).counters.tablebase_hits == old(self).counters.tablebase_hits,
            final(self).counters.expanded_nodes == old(self).counters.expanded_nodes,
            final(self).counters.terminal_hits == old(self).counters.terminal_hits,
            final(self).counters.generated_nodes >= old(self).counters.generated_nodes,
    {
        broadcast use vstd::std_specs::hash::group_hash_axioms;

        self.counters.generated_nodes = self.counters.generated_nodes.saturating_add(
            moves.len() as u64,
        );
        let mut seen: HashSet<u128> = HashSet::new();
        let mut children: Vec<Child> = Vec::new();
        let ghost mut origin: Seq<int> = Seq::empty();
        let ghost counters = self.counters;
        let mut i: usize = 0;
        proof {
            lemma_distinct_start(bb@, moves@, dedup, children@, seen@);
            assert(children_sound(bb@, moves@, children@)) by {
                reveal(children_sound);
            }
        }
        while i < moves.len()
            invariant
                i <= moves@.len(),
                forall|k: int| 0 <= k < moves@.len() ==> (#[trigger] moves@[k]).in_range(),
                distinct_so_far(bb@, moves@, i as int, dedup, children@, seen@),
                self.counters.canonical_dedup_hits == stepped_by(
                    counters.canonical_dedup_hits,
                    i - children@.len(),
                ),
                self.tt == old(self).tt,
                self.nodes == old(self).nodes,
                children@.len() <= i,
                !dedup ==> children@.len() == i,
                children_sound(bb@, moves@, children@),
                origin.len() == children@.len(),
                forall|j: int|
                    0 <= j < children@.len() ==> 0 <= #[trigger] origin[j] < i && children@[j].mv
                        == moves@[origin[j]],
                forall|k: int, j: int|
                    0 <= k < j < origin.len() ==> #[trigger] origin[k] < #[trigger] origin[j],
                forall|k: int|
                    0 <= k < i ==> represented(bb@, #[trigger] moves@[k], children@, origin, k),
                dedup ==> forall|key: u128|
                    #[trigger] seen@.contains(key) ==> exists|j: int|
                        0 <= j < children@.len() && payload_number(
                            canonical((#[trigger] children@[j]).bb@),
                        ) == key,
                !dedup ==> self.counters.canonical_dedup_hits == counters.canonical_dedup_hits,
                self.counters.transposition_hits == counters.transposition_hits,
                self.counters.tablebase_hits == counters.tablebase_hits,
                self.counters.expanded_nodes == counters.expanded_nodes,
                self.counters.terminal_hits == counters.terminal_hits,
                self.counters.generated_nodes == counters.generated_nodes,
            decreases moves@.len() - i,
        {
            let mv = moves[i];
            assert(moves@[i as int].in_range());
            let child_bb = apply_move(bb, &mv);
            let ghost before = children@;
            let ghost before_origin = origin;
            let ghost known = seen@;
            let mut fresh = true;
            let mut key: Option<u128> = None;
            if dedup {
                let number = SymmetryHandler::canonical_number(&child_bb);
                fresh = seen.insert(number);
                key = Some(number);
            }
            proof {
                lemma_distinct_step(
                    bb@,
                    moves@,
                    i as int,
                    dedup,
                    children@,
                    known,
                    seen@,
                    Child { mv, bb: child_bb, key },
                    fresh,
                );
            }
            if fresh {
                children.push(Child { mv, bb: child_bb, key });
                proof {
                    reveal(same_orbit);
                    reveal(children_sound);
                    origin = origin.push(i as int);
                    assert(moves@.contains(mv));
                    assert(children@[before.len() as int].bb@ == applied(bb@, moves@[i as int]));
                    assert(origin[before.len() as int] == i);
                    assert forall|k: int| 0 <= k < i + 1 implies represented(
                        bb@,
                        #[trigger] moves@[k],
                        children@,
                        origin,
                        k,
                    ) by {
                        if k < i {
                            assert(represented(bb@, moves@[k], before, before_origin, k));
                            let j = choose|j: int| #[trigger]
                                represents(bb@, moves@[k], before, before_origin, k, j);
                            assert(represents(bb@, moves@[k], children@, origin, k, j));
                        } else {
                            assert(represents(
                                bb@,
                                moves@[k],
                                children@,
                                origin,
                                k,
                                before.len() as int,
                            ));
                        }
                    }
                    if dedup {
                        assert forall|number: u128| #[trigger]
                            seen@.contains(number) implies exists|j: int|
                            0 <= j < children@.len() && payload_number(
                                canonical((#[trigger] children@[j]).bb@),
                            ) == number by {
                            if number == key->0 {
                                assert(payload_number(
                                    canonical(children@[before.len() as int].bb@),
                                ) == number);
                            } else {
                                let j = choose|j: int|
                                    0 <= j < before.len() && payload_number(
                                        canonical((#[trigger] before[j]).bb@),
                                    ) == number;
                                assert(children@[j] == before[j]);
                            }
                        }
                    }
                }
            } else {
                self.counters.canonical_dedup_hits =
                self.counters.canonical_dedup_hits.saturating_add(1);
                proof {
                    reveal(same_orbit);
                    let j = choose|j: int|
                        0 <= j < children@.len() && payload_number(
                            canonical((#[trigger] children@[j]).bb@),
                        ) == key->0;
                    assert(origin[j] <= i);
                    assert(represents(bb@, moves@[i as int], children@, origin, i as int, j));
                }
            }
            i = i + 1;
        }
        proof {
            lemma_distinct_done(bb@, moves@, dedup, children@, seen@);
            lemma_children_done(bb@, moves@, children@, origin);
        }
        (children, Ghost(origin))
    }
}

/// The first `n` children that complete a line, or those that do not, in order.
spec fn completing(children: Seq<Child>, n: int, completes: bool) -> Seq<Child>
    decreases n,
{
    if n <= 0 {
        Seq::empty()
    } else if won(children[n - 1].bb@) == completes {
        completing(children, n - 1, completes).push(children[n - 1])
    } else {
        completing(children, n - 1, completes)
    }
}

/// The two groups hold the first `n` children and nothing else.
proof fn lemma_completing(children: Seq<Child>, n: int, completes: bool)
    requires
        0 <= n <= children.len(),
    ensures
        forall|j: int|
            0 <= j < completing(children, n, completes).len() ==> children.contains(
                #[trigger] completing(children, n, completes)[j],
            ),
        forall|k: int|
            0 <= k < n && won((#[trigger] children[k]).bb@) == completes ==> completing(
                children,
                n,
                completes,
            ).contains(children[k]),
    decreases n,
{
    if n > 0 {
        lemma_completing(children, n - 1, completes);
        let before = completing(children, n - 1, completes);
        let now = completing(children, n, completes);
        assert(children.contains(children[n - 1]));
        assert forall|j: int| 0 <= j < now.len() implies children.contains(#[trigger] now[j]) by {
            if j < before.len() {
                assert(now[j] == before[j]);
            }
        }
        assert forall|k: int|
            0 <= k < n && won((#[trigger] children[k]).bb@) == completes implies now.contains(
            children[k],
        ) by {
            if k < n - 1 {
                let j = choose|j: int| 0 <= j < before.len() && before[j] == children[k];
                assert(now[j] == children[k]);
            } else {
                assert(now[before.len() as int] == children[k]);
            }
        }
    }
}

/// The groups of children are those of their moves.
proof fn lemma_completing_moves(
    b: Seq<u16>,
    moves: Seq<Move>,
    children: Seq<Child>,
    n: int,
    completes: bool,
)
    requires
        children_sound(b, moves, children),
        0 <= n <= children.len(),
    ensures
        child_moves(completing(children, n, completes)) == moves_completing(
            b,
            child_moves(children),
            n,
            completes,
        ),
    decreases n,
{
    if n > 0 {
        lemma_completing_moves(b, moves, children, n - 1, completes);
        lemma_child(b, moves, children, n - 1);
        let before = completing(children, n - 1, completes);
        assert(child_moves(before.push(children[n - 1])) =~= child_moves(before).push(
            children[n - 1].mv,
        ));
    } else {
        assert(child_moves(completing(children, n, completes)) =~= Seq::empty());
    }
}

/// Children that hold the same boards stand for the same moves.
proof fn lemma_regrouped(b: Seq<u16>, moves: Seq<Move>, children: Seq<Child>, regrouped: Seq<Child>)
    requires
        children_sound(b, moves, children),
        children_complete(b, moves, children),
        forall|j: int| 0 <= j < regrouped.len() ==> children.contains(#[trigger] regrouped[j]),
        forall|k: int| 0 <= k < children.len() ==> regrouped.contains(#[trigger] children[k]),
    ensures
        children_sound(b, moves, regrouped),
        children_complete(b, moves, regrouped),
{
    reveal(children_complete);
    reveal(children_sound);
    assert forall|i: int| 0 <= i < moves.len() implies covered(
        b,
        #[trigger] moves[i],
        regrouped,
    ) by {
        assert(covered(b, moves[i], children));
        let k = choose|k: int|
            0 <= k < children.len() && same_orbit(
                (#[trigger] children[k]).bb@,
                applied(b, moves[i]),
            );
        assert(regrouped.contains(children[k]));
        let j = choose|j: int| 0 <= j < regrouped.len() && regrouped[j] == children[k];
        assert(same_orbit(regrouped[j].bb@, applied(b, moves[i])));
    }
}

/// The children with those that complete a line first, otherwise in order.
fn winners_first(children: Vec<Child>, Ghost(b): Ghost<Seq<u16>>, Ghost(moves): Ghost<Seq<Move>>) -> (r:
    Vec<Child>)
    requires
        children_sound(b, moves, children@),
        children_complete(b, moves, children@),
    ensures
        children_sound(b, moves, r@),
        children_complete(b, moves, r@),
        r@ == completing(children@, children@.len() as int, true) + completing(
            children@,
            children@.len() as int,
            false,
        ),
        child_moves(r@) == completing_first(b, child_moves(children@)),
{
    let mut first: Vec<Child> = Vec::new();
    let mut rest: Vec<Child> = Vec::new();
    let mut i: usize = 0;
    while i < children.len()
        invariant
            i <= children@.len(),
            first@ == completing(children@, i as int, true),
            rest@ == completing(children@, i as int, false),
        decreases children@.len() - i,
    {
        let c = children[i];
        if has_winning_line(&c.bb) {
            first.push(c);
        } else {
            rest.push(c);
        }
        i = i + 1;
    }
    let ghost first1 = first@;
    let ghost rest1 = rest@;
    first.append(&mut rest);
    proof {
        let n = children@.len() as int;
        assert(first@ =~= first1 + rest1);
        lemma_completing(children@, n, true);
        lemma_completing(children@, n, false);
        assert forall|j: int| 0 <= j < first@.len() implies children@.contains(
            #[trigger] first@[j],
        ) by {
            if j < first1.len() {
                assert(first@[j] == first1[j]);
            } else {
                assert(first@[j] == rest1[j - first1.len()]);
            }
        }
        assert forall|k: int| 0 <= k < n implies first@.contains(#[trigger] children@[k]) by {
            if won(children@[k].bb@) {
                let j = choose|j: int| 0 <= j < first1.len() && first1[j] == children@[k];
                assert(first@[j] == children@[k]);
            } else {
                let j = choose|j: int| 0 <= j < rest1.len() && rest1[j] == children@[k];
                assert(first@[first1.len() + j] == children@[k]);
            }
        }
        lemma_regrouped(b, moves, children@, first@);
        lemma_completing_moves(b, moves, children@, n, true);
        lemma_completing_moves(b, moves, children@, n, false);
        assert(child_moves(first@) =~= child_moves(first1) + child_moves(rest1));
    }
    first
}

/// Whether each move of the line is the best for its mover, looking `d` plies ahead at first
/// and one less after each move.
pub open spec fn optimal_line(b: Seq<u16>, line: Seq<Move>, d: nat, ply: int, cfg: EvalConfig) -> bool
    decreases line.len(),
{
    line.len() == 0 || {
        &&& d > 0
        &&& legal_move(b, line[0])
        &&& move_value(b, line[0], (d - 1) as nat, ply + 1, cfg) == best_reply(
            b,
            legal_moves(b),
            (d - 1) as nat,
            ply + 1,
            cfg,
        )
        &&& optimal_line(applied(b, line[0]), line.drop_first(), (d - 1) as nat, ply + 1, cfg)
    }
}

/// Whether bounds from the table never narrow the window of a search: it has no table, or
/// does not cut.
pub open spec fn keeps_windows(cfg: MinimaxConfig) -> bool {
    !(cfg.use_alpha_beta && cfg.use_transposition_table)
}

/// Whether the line begins with a move that is worth `v` to its mover and goes on optimally.
spec fn worth_line(b: Seq<u16>, line: Seq<Move>, d1: nat, p1: int, v: int, cfg: EvalConfig) -> bool {
    &&& line.len() > 0
    &&& legal_move(b, line[0])
    &&& move_value(b, line[0], d1, p1, cfg) == v
    &&& optimal_line(applied(b, line[0]), line.drop_first(), d1, p1, cfg)
}

impl SearchTree {
    /// Look the board with the payload `number` up. Gives a value where the
    /// table settles the question, and the window that is left to search.
    fn probe(
        &mut self,
        cfg: &MinimaxConfig,
        number: u128,
        depth: u32,
        alpha0: i64,
        beta0: i64,
        Ghost(b): Ghost<Seq<u16>>,
        Ghost(ply): Ghost<int>,
    ) -> (r: (Option<i64>, i64, i64))
        requires
            b.len() == 8,
            number == payload_number(canonical(b)),
            alpha0 < beta0,
            table_ok(old(self).tt@, cfg.eval_config, total_pieces(b) - ply, ply + depth),
        ensures
            final(self).tt == old(self).tt,
            final(self).nodes == old(self).nodes,
            final(self).counters == (SearchEventCounters {
                transposition_hits: final(self).counters.transposition_hits,
                ..old(self).counters
            }),
            ({
                let p = probed(
                    *cfg,
                    old(self).model(),
                    number,
                    depth as nat,
                    alpha0 as int,
                    beta0 as int,
                );
                match r.0 {
                    Some(s) => p == Probe::Settled(s as int) && final(self).model() == hit(
                        old(self).model(),
                    ),
                    None => p == Probe::Open(r.1 as int, r.2 as int) && final(self).model() == old(
                        self,
                    ).model(),
                }
            }),
            ({
                let v = value(b, depth as nat, ply, cfg.eval_config);
                match r.0 {
                    Some(s) => window_result(v, s as int, alpha0 as int, beta0 as int)
                        && -VALUE_BOUND <= s <= VALUE_BOUND,
                    None => {
                        &&& alpha0 <= r.1 < r.2 <= beta0
                        &&& r.1 > alpha0 ==> v >= r.1
                        &&& r.2 < beta0 ==> v <= r.2
                        &&& !cfg.use_alpha_beta ==> r.1 == alpha0 && r.2 == beta0
                    },
                }
            }),
    {
        broadcast use vstd::std_specs::hash::group_hash_axioms;

        let mut alpha = alpha0;
        let mut beta = beta0;
        let ghost v = value(b, depth as nat, ply, cfg.eval_config);
        if let Some(entry) = self.tt.get(&number) {
            let (stored_depth, stored, bound): (u32, i64, Bound) = *entry;
            proof {
                assert(self.tt@.contains_key(number));
                lemma_table_lookup(
                    self.tt@,
                    cfg.eval_config,
                    total_pieces(b) - ply,
                    ply + depth,
                    b,
                    number,
                );
            }
            if stored_depth >= depth {
                assert(stored_depth == depth);
                assert(entry_true(v, stored as int, bound));
                if bound == Bound::Exact {
                    self.counters.transposition_hits =
                    self.counters.transposition_hits.saturating_add(1);
                    return (Some(stored), alpha, beta);
                }
                // Bounds only narrow the window when alpha-beta is on: without
                // it the result is exact, and using a bound would prune.
                if cfg.use_alpha_beta {
                    if bound == Bound::Lower {
                        if stored > alpha {
                            alpha = stored;
                        }
                    } else {
                        if stored < beta {
                            beta = stored;
                        }
                    }
                    if alpha >= beta {
                        self.counters.transposition_hits =
                        self.counters.transposition_hits.saturating_add(1);
                        return (Some(stored), alpha, beta);
                    }
                }
            }
        }
        (None, alpha, beta)
    }

    /// The best of `children` for the mover at `bb`, searched with the window
    /// from `alpha1` to `beta`, and the principal variation through it.
    fn best_child(
        &mut self,
        cfg: &MinimaxConfig,
        deadline: &Option<Deadline>,
        bb: &Bitboard,
        children: &Vec<Child>,
        depth: u32,
        alpha1: i64,
        beta: i64,
        ply: u32,
    ) -> (r: Result<(i64, Vec<Move>), TimeUp>)
        requires
            cfg.eval_config.valid(),
            depth >= 1,
            ply + depth <= u32::MAX,
            -INFINITE <= alpha1 < beta <= INFINITE,
            !cfg.use_alpha_beta ==> alpha1 == -INFINITE && beta == INFINITE,
            legal_moves(bb@).len() > 0,
            children_sound(bb@, legal_moves(bb@), children@),
            children_complete(bb@, legal_moves(bb@), children@),
            table_ok(old(self).tt@, cfg.eval_config, total_pieces(bb@) - ply, ply + depth),
        ensures
            table_ok(final(self).tt@, cfg.eval_config, total_pieces(bb@) - ply, ply + depth),
            deadline is None ==> r is Ok,
            r is Err ==> clock_answers(*deadline, true),
            r is Ok ==> asked_on_the_way(*deadline, old(self).nodes, final(self).nodes),
            final(self).nodes >= old(self).nodes,
            counters_step(*cfg, old(self).counters, final(self).counters),
            r matches Ok((v, pv)) ==> {
                &&& window_result(
                    best_reply(
                        bb@,
                        legal_moves(bb@),
                        (depth - 1) as nat,
                        ply + 1,
                        cfg.eval_config,
                    ),
                    v as int,
                    alpha1 as int,
                    beta as int,
                )
                &&& -VALUE_BOUND <= v <= VALUE_BOUND
                &&& (Found { tree: final(self).model(), value: v as int, line: pv@ })
                    == children_searched(
                    *cfg,
                    old(self).model(),
                    bb@,
                    child_moves(children@),
                    0,
                    depth as nat,
                    alpha1 as int,
                    beta as int,
                    ply as int,
                    -INFINITE,
                    Seq::empty(),
                )
                &&& legal_line(bb@, pv@)
                &&& pv@.len() <= depth
                &&& keeps_windows(*cfg) && alpha1 < best_reply(
                    bb@,
                    legal_moves(bb@),
                    (depth - 1) as nat,
                    ply + 1,
                    cfg.eval_config,
                ) < beta ==> optimal_line(
                    bb@,
                    pv@,
                    depth as nat,
                    ply as int,
                    cfg.eval_config,
                )
            },
        decreases depth, 0nat,
    {
        let ghost b = bb@;
        let ghost ec = cfg.eval_config;
        let ghost base = total_pieces(b) - ply;
        let ghost horizon: int = ply + depth;
        let ghost d1 = (depth - 1) as nat;
        let ghost p1: int = ply + 1;
        let ghost moves = legal_moves(b);
        let ghost v = best_reply(b, moves, d1, p1, ec);
        proof {
            lemma_legal_moves(b);
            lemma_children_best(b, moves, children@, d1, p1, ec);
        }
        let mut alpha = alpha1;
        let mut best: i64 = -INFINITE;
        let mut pv: Vec<Move> = Vec::new();
        let mut i: usize = 0;
        let mut cut = false;
        let ghost order = child_moves(children@);
        let ghost run = children_searched(
            *cfg,
            self.model(),
            b,
            order,
            0,
            depth as nat,
            alpha1 as int,
            beta as int,
            ply as int,
            -INFINITE,
            Seq::empty(),
        );
        assert(pv@ =~= Seq::empty());
        while i < children.len() && !cut
            invariant
                order == child_moves(children@),
                cut ==> run == (Found { tree: self.model(), value: best as int, line: pv@ }),
                !cut ==> run == children_searched(
                    *cfg,
                    self.model(),
                    b,
                    order,
                    i as int,
                    depth as nat,
                    alpha as int,
                    beta as int,
                    ply as int,
                    best as int,
                    pv@,
                ),
                i <= children@.len(),
                children@.len() > 0,
                b == bb@,
                b.len() == 8,
                ec == cfg.eval_config,
                ec.valid(),
                depth >= 1,
                d1 == (depth - 1) as nat,
                p1 == ply + 1,
                ply + depth <= u32::MAX,
                base == total_pieces(b) - ply,
                horizon == ply + depth,
                moves == legal_moves(b),
                forall|m: Move| #[trigger] moves.contains(m) ==> legal_move(b, m),
                children_sound(b, moves, children@),
                forall|j: int|
                    0 <= j < children@.len() ==> child_value(#[trigger] children@[j], d1, p1, ec)
                        <= v,
                table_ok(self.tt@, ec, base, horizon),
                counters_step(*cfg, old(self).counters, self.counters),
                self.nodes >= old(self).nodes,
                asked_on_the_way(*deadline, old(self).nodes, self.nodes),
                -INFINITE <= alpha1 <= alpha,
                beta <= INFINITE,
                !cut ==> alpha < beta,
                !cfg.use_alpha_beta ==> alpha == alpha1 && alpha1 == -INFINITE && beta == INFINITE
                    && !cut,
                cfg.use_alpha_beta ==> (alpha == if best > alpha1 {
                    best
                } else {
                    alpha1
                }),
                i == 0 ==> best == -INFINITE && !cut,
                i > 0 ==> -VALUE_BOUND <= best <= VALUE_BOUND,
                cut ==> best >= beta && v >= best,
                !cut ==> forall|j: int|
                    0 <= j < i ==> child_value(#[trigger] children@[j], d1, p1, ec) <= best,
                best > alpha1 && i > 0 ==> v >= best,
                legal_line(b, pv@),
                pv@.len() <= depth,
                keeps_windows(*cfg) && i > 0 && alpha1 < best < beta ==> worth_line(
                    b,
                    pv@,
                    d1,
                    p1,
                    best as int,
                    ec,
                ),
            decreases children@.len() - i,
        {
            let c = children[i];
            proof {
                assert(children@[i as int] == c);
                lemma_child(b, moves, children@, i as int);
                lemma_legal_move_step(b, c.mv);
                assert(total_pieces(c.bb@) - (ply + 1) == base);
            }
            let ghost w = child_value(c, d1, p1, ec);
            let ghost alpha_now: int = alpha as int;
            let result = self.negamax(
                cfg,
                deadline,
                &c.bb,
                depth - 1,
                -beta,
                -alpha,
                ply + 1,
                c.key,
            );
            match result {
                Err(TimeUp) => {
                    return Err(TimeUp);
                },
                Ok((reply, reply_pv)) => {
                    let found: i64 = -reply;
                    assert(order[i as int] == c.mv);
                    assert(window_result(-w, reply as int, -beta as int, -alpha as int));
                    assert(window_result(w, found as int, alpha_now, beta as int));
                    assert(w <= v);
                    if found > best {
                        best = found;
                        let ghost line = reply_pv@;
                        pv = vec![c.mv];
                        let mut tail = reply_pv;
                        pv.append(&mut tail);
                        proof {
                            assert(pv@ =~= seq![c.mv] + line);
                            lemma_line_prepend(b, c.mv, line);
                            assert(pv@.drop_first() =~= line);
                            if keeps_windows(*cfg) && alpha1 < best < beta {
                                assert(alpha_now < found);
                                assert(w == found);
                                assert(optimal_line(c.bb@, line, d1, p1, ec));
                                assert(worth_line(b, pv@, d1, p1, best as int, ec));
                            }
                        }
                    }
                    if cfg.use_alpha_beta {
                        if best > alpha {
                            alpha = best;
                        }
                        if alpha >= beta {
                            cut = true;
                        }
                    }
                },
            }
            i = i + 1;
        }
        proof {
            if !cut {
                let j = choose|j: int|
                    0 <= j < children@.len() && child_value(#[trigger] children@[j], d1, p1, ec)
                        == v;
                assert(child_value(children@[j], d1, p1, ec) <= best);
            }
            if keeps_windows(*cfg) && alpha1 < v < beta {
                assert(best == v);
                assert(worth_line(b, pv@, d1, p1, best as int, ec));
                assert(optimal_line(b, pv@, depth as nat, ply as int, ec));
            }
        }
        Ok((best, pv))
    }

    /// The value of `bb` for the side to move, searched with the window from
    /// `alpha0` to `beta0`, and the principal variation below it. `key` is the
    /// canonical payload of `bb` where it is known already.
    pub fn negamax(
        &mut self,
        cfg: &MinimaxConfig,
        deadline: &Option<Deadline>,
        bb: &Bitboard,
        depth: u32,
        alpha0: i64,
        beta0: i64,
        ply: u32,
        key: Option<u128>,
    ) -> (r: Result<(i64, Vec<Move>), TimeUp>)
        requires
            cfg.eval_config.valid(),
            ply + depth <= u32::MAX,
            -INFINITE <= alpha0 < beta0 <= INFINITE,
            !cfg.use_alpha_beta ==> alpha0 == -INFINITE && beta0 == INFINITE,
            key matches Some(k) ==> k == payload_number(canonical(bb@)),
            table_ok(old(self).tt@, cfg.eval_config, total_pieces(bb@) - ply, ply + depth),
        ensures
            table_ok(final(self).tt@, cfg.eval_config, total_pieces(bb@) - ply, ply + depth),
            deadline is None ==> r is Ok,
            r is Err ==> clock_answers(*deadline, true),
            r is Ok ==> asked_on_the_way(*deadline, old(self).nodes, final(self).nodes),
            final(self).nodes > old(self).nodes || final(self).nodes == u64::MAX,
            depth == 0 ==> final(self).nodes == (if old(self).nodes < u64::MAX {
                old(self).nodes + 1
            } else {
                old(self).nodes as int
            }) && (r is Err ==> final(self).nodes % 1024 == 0),
            counters_step(*cfg, old(self).counters, final(self).counters),
            // A board without a legal move is expanded and over, both.
            !won(bb@) && legal_moves(bb@).len() == 0 && r is Ok
                ==> final(self).counters == (SearchEventCounters {
                expanded_nodes: stepped(old(self).counters.expanded_nodes),
                terminal_hits: stepped(old(self).counters.terminal_hits),
                ..old(self).counters
            }),
            r matches Ok((v, pv)) ==> {
                &&& window_result(
                    value(bb@, depth as nat, ply as int, cfg.eval_config),
                    v as int,
                    alpha0 as int,
                    beta0 as int,
                )
                &&& -VALUE_BOUND <= v <= VALUE_BOUND
                &&& (Found { tree: final(self).model(), value: v as int, line: pv@ })
                    == board_searched(
                    *cfg,
                    old(self).model(),
                    bb@,
                    depth as nat,
                    alpha0 as int,
                    beta0 as int,
                    ply as int,
                )
                &&& legal_line(bb@, pv@)
                &&& pv@.len() <= depth
                &&& keeps_windows(*cfg) && alpha0 < value(
                    bb@,
                    depth as nat,
                    ply as int,
                    cfg.eval_config,
                ) < beta0 ==> optimal_line(
                    bb@,
                    pv@,
                    depth as nat,
                    ply as int,
                    cfg.eval_config,
                )
            },
        decreases depth, 1nat,
    {
        broadcast use vstd::std_specs::hash::group_hash_axioms;

        let ghost b = bb@;
        let ghost ec = cfg.eval_config;
        let ghost base = total_pieces(b) - ply;
        let ghost horizon: int = ply + depth;
        let ghost v = value(b, depth as nat, ply as int, ec);
        proof {
            lemma_value_bounds(b, depth as nat, ply as int, ec);
            lemma_legal_moves(b);
        }
        self.nodes = self.nodes.saturating_add(1);
        if self.nodes % 1024 == 0 && time_is_up(deadline) {
            return Err(TimeUp);
        }
        let win: i64 = cfg.eval_config.win;
        let unit: i64 = cfg.eval_config.unit;
        assert(0 <= ply * unit <= 0x4000_0000_0000_0000) by (nonlinear_arith)
            requires
                0 <= ply <= 0xFFFF_FFFF,
                1 <= unit <= 0x4000_0000,
        ;
        let lost: i64 = -(win - ply as i64 * unit);
        if has_winning_line(bb) {
            // The previous mover completed a line: the side to move here has
            // just lost, the more so the sooner it happened.
            self.counters.terminal_hits = self.counters.terminal_hits.saturating_add(1);
            return Ok((lost, Vec::new()));
        }
        let moves = generate_legal_moves(bb);
        self.counters.expanded_nodes = self.counters.expanded_nodes.saturating_add(1);
        if moves.len() == 0 {
            self.counters.terminal_hits = self.counters.terminal_hits.saturating_add(1);
            return Ok((lost, Vec::new()));
        }
        assert(!finished(b));
        if depth == 0 {
            let side: u8 = match current_player(bb) {
                Some(p) => p,
                None => 0,
            };
            return Ok((evaluate(bb, side, &cfg.eval_config), Vec::new()));
        }
        let mut alpha = alpha0;
        let mut beta = beta0;
        let mut tt_key: Option<u128> = None;
        if cfg.use_transposition_table {
            let number: u128 = match key {
                Some(k) => k,
                None => SymmetryHandler::canonical_number(bb),
            };
            tt_key = Some(number);
            let (settled, low, high) = self.probe(
                cfg,
                number,
                depth,
                alpha0,
                beta0,
                Ghost(b),
                Ghost(ply as int),
            );
            if let Some(stored) = settled {
                return Ok((stored, Vec::new()));
            }
            alpha = low;
            beta = high;
        }
        assert forall|i: int| 0 <= i < moves@.len() implies (#[trigger] moves@[i]).in_range() by {
            assert(legal_move(b, moves@[i]));
        }
        let (unsorted, _origin) = self.children(bb, &moves, cfg.dedup_children);
        let children = winners_first(unsorted, Ghost(b), Ghost(moves@));
        let (best, pv): (i64, Vec<Move>) = match self.best_child(
            cfg,
            deadline,
            bb,
            &children,
            depth,
            alpha,
            beta,
            ply,
        ) {
            Ok(found) => found,
            Err(TimeUp) => {
                return Err(TimeUp);
            },
        };
        assert(v == best_reply(b, legal_moves(b), (depth - 1) as nat, ply + 1, ec));
        assert(window_result(v, best as int, alpha0 as int, beta0 as int));
        if let Some(number) = tt_key {
            // The bound is judged by the window that the caller asked for, not
            // by the one that the table narrowed.
            let bound: Bound = if best <= alpha0 {
                Bound::Upper
            } else if cfg.use_alpha_beta && best >= beta0 {
                Bound::Lower
            } else {
                Bound::Exact
            };
            let ghost before = self.tt@;
            self.tt.insert(number, (depth, best, bound));
            proof {
                lemma_table_insert(before, ec, base, horizon, b, number, (depth, best, bound));
            }
        }
        Ok((best, pv))
    }
}

/// The value that a root score stands for. Proven results (mate scores) map to
/// exactly one or minus one; heuristic scores squash smoothly in between.
pub open spec fn q_of_score(score: int, win: int, unit: int) -> (int, int) {
    if score >= win - 16 * unit {
        (1, 1)
    } else if score <= -(win - 16 * unit) {
        (-1, 1)
    } else if score >= 0 {
        (score, unit + score)
    } else {
        (score, unit - score)
    }
}

/// Map a root-perspective minimax score onto the telemetry value scale.
pub fn minimax_q_from_score(score: i64, win: i64, unit: i64) -> (q: Ratio)
    requires
        -VALUE_BOUND <= score <= VALUE_BOUND,
        -crate::evaluation::MAX_WIN <= win <= crate::evaluation::MAX_WIN,
        1 <= unit <= crate::evaluation::MAX_UNIT,
    ensures
        (q.num as int, q.den as int) == q_of_score(score as int, win as int, unit as int),
        q.wf(),
        q.in_unit_range(),
{
    if score >= win - 16 * unit {
        Ratio { num: 1, den: 1 }
    } else if score <= -(win - 16 * unit) {
        Ratio { num: -1, den: 1 }
    } else if score >= 0 {
        Ratio { num: score, den: (unit + score) as u64 }
    } else {
        Ratio { num: score, den: (unit - score) as u64 }
    }
}

/// Whether `scored` lists root moves with their exact values such that each
/// legal move has a symmetric one in the list; without dedup it lists them all.
pub open spec fn root_scores_ok(
    scored: Seq<(Move, i64)>,
    b: Seq<u16>,
    d: nat,
    cfg: EvalConfig,
    dedup: bool,
) -> bool {
    &&& scored.len() > 0
    &&& forall|j: int|
        0 <= j < scored.len() ==> legal_move(b, (#[trigger] scored[j]).0) && scored[j].1
            == move_value(b, scored[j].0, (d - 1) as nat, 1, cfg)
    &&& forall|m: Move| legal_move(b, m) ==> #[trigger] scored_orbit(scored, b, m)
    &&& !dedup ==> scored.len() == legal_moves(b).len()
    &&& !dedup ==> forall|j: int|
        0 <= j < scored.len() ==> legal_moves(b).contains((#[trigger] scored[j]).0)
    &&& forall|i: int, j: int|
        0 <= i < j < scored.len() ==> (#[trigger] scored[i]).0 != (#[trigger] scored[j]).0
}

/// Whether a scored move leads to a board that is symmetric to the one after `m`.
pub open spec fn scored_orbit(scored: Seq<(Move, i64)>, b: Seq<u16>, m: Move) -> bool {
    exists|j: int|
        0 <= j < scored.len() && same_orbit(applied(b, (#[trigger] scored[j]).0), applied(b, m))
}

/// Whether `r` is what a search of `b` may report: the exact value at the depth
/// that was reached, a move that is worth it, and a line that begins with it.
pub open spec fn result_ok(r: MinimaxResult, b: Seq<u16>, cfg: EvalConfig) -> bool {
    &&& r.depth_reached >= 1
    &&& r.score == root_value(b, r.depth_reached as nat, cfg)
    &&& legal_move(b, r.best_move)
    &&& move_value(b, r.best_move, (r.depth_reached - 1) as nat, 1, cfg) == r.score
    &&& r.pv@.len() > 0
    &&& r.pv@[0] == r.best_move
    &&& legal_line(b, r.pv@)
    &&& r.pv@.len() <= r.depth_reached
}

/// Pruning, the table and the merging of symmetric moves do not change the outcome: two
/// searches of a board that reach the same depth with the same evaluation report the same
/// score, and moves that are worth it.
pub proof fn law_settings_do_not_change_the_score(
    x: MinimaxResult,
    y: MinimaxResult,
    b: Seq<u16>,
    cfg: EvalConfig,
)
    requires
        result_ok(x, b, cfg),
        result_ok(y, b, cfg),
        x.depth_reached == y.depth_reached,
    ensures
        x.score == y.score,
        move_value(b, x.best_move, (x.depth_reached - 1) as nat, 1, cfg) == move_value(
            b,
            y.best_move,
            (y.depth_reached - 1) as nat,
            1,
            cfg,
        ),
{
}

/// Alpha-beta negamax search engine over the exact Quantik game tree.
pub struct MinimaxEngine {
    config: MinimaxConfig,
    tree: SearchTree,
    deadline: Option<Deadline>,
    rng: Option<StdRng>,
    hint: Option<Move>,
    last_root_scored: Vec<(Move, i64)>,
    last_pv: Vec<Move>,
    last_elapsed_ms: u64,
    last_depth: u32,
    last_root_value: i64,
}

impl MinimaxEngine {
    /// The configuration of the engine.
    pub closed spec fn settings(&self) -> MinimaxConfig {
        self.config
    }

    /// The generator that breaks ties between root moves, if there is one.
    pub closed spec fn generator(&self) -> Option<StdRng> {
        self.rng
    }

    /// Whether ties between root moves are broken at random.
    pub closed spec fn seeded(&self) -> bool {
        self.rng is Some
    }

    /// The root moves of the last search with their scores.
    pub closed spec fn scored(&self) -> Seq<(Move, i64)> {
        self.last_root_scored@
    }

    /// The principal variation of the last search.
    pub closed spec fn variation(&self) -> Seq<Move> {
        self.last_pv@
    }

    /// The depth that the last search reached.
    pub closed spec fn depth(&self) -> u32 {
        self.last_depth
    }

    /// The score of the last search.
    pub closed spec fn root_score(&self) -> i64 {
        self.last_root_value
    }

    /// The event counters of the last search.
    pub closed spec fn events(&self) -> SearchEventCounters {
        self.tree.counters
    }

    /// The duration of the last search in milliseconds.
    pub closed spec fn elapsed(&self) -> u64 {
        self.last_elapsed_ms
    }

    /// The invariant of the engine: what it remembers can be reported.
    pub closed spec fn wf(&self) -> bool {
        &&& forall|j: int|
            0 <= j < self.last_root_scored@.len() ==> (#[trigger] self.last_root_scored@[j]).0.in_range()
                && -VALUE_BOUND <= self.last_root_scored@[j].1 <= VALUE_BOUND
        &&& -VALUE_BOUND <= self.last_root_value <= VALUE_BOUND
    }

    pub fn new(config: MinimaxConfig) -> (e: Self)
        ensures
            e.settings() == config,
            e.seeded() <==> config.random_seed is Some,
            e.generator() == tie_breaker(config.random_seed),
            e.scored().len() == 0,
            e.wf(),
    {
        let rng = match config.random_seed {
            Some(seed) => Some(seeded_rng(seed)),
            None => None,
        };
        Self {
            config,
            tree: SearchTree {
                tt: HashMap::new(),
                nodes: 0,
                counters: SearchEventCounters::default(),
            },
            deadline: None,
            rng,
            hint: None,
            last_root_scored: Vec::new(),
            last_pv: Vec::new(),
            last_elapsed_ms: 0,
            last_depth: 0,
            last_root_value: 0,
        }
    }

    /// Exact solve: [`Self::search`] with sixteen plies and no time limit.
    ///
    /// No game lasts longer, so that the search only ever stops at games that
    /// are over.
    pub fn solve(&mut self, state: &State) -> (r: Result<MinimaxResult, String>)
        requires
            old(self).wf(),
            old(self).settings().eval_config.valid(),
        ensures
            final(self).wf(),
            final(self).settings() == old(self).settings(),
            final(self).seeded() <==> old(self).seeded(),
            r is Ok <==> legal_moves(state.bb@).len() > 0,
            r matches Err(e) ==> e@ == "Cannot search from a state with no legal moves."@,
            r matches Ok(res) ==> {
                let b = state.bb@;
                let ec = old(self).settings().eval_config;
                &&& result_ok(res, b, ec)
                &&& res.depth_reached == 16
                &&& keeps_windows(old(self).settings()) ==> optimal_line(b, res.pv@, 16, 0, ec)
                &&& res.score == exact_best(
                    b,
                    legal_moves(b),
                    15,
                    1,
                    ec.win as int,
                    ec.unit as int,
                )
                &&& !old(self).seeded() ==> res.best_move == deterministic_best(b, 16, ec)
                &&& ran_to(
                    res,
                    MinimaxConfig { max_depth: 16, time_limit_nanos: None, ..old(self).settings() },
                    b,
                    old(self).generator(),
                )
                &&& took(res.elapsed_nanos)
            },
    {
        let original: MinimaxConfig = self.config;
        self.config = MinimaxConfig { max_depth: 16, time_limit_nanos: None, ..original };
        let result = self.search(state);
        self.config = original;
        proof {
            let b = state.bb@;
            lemma_legal_moves(b);
            lemma_popcount(taken(b), 0);
            if legal_moves(b).len() > 0 {
                lemma_exact_best(b, legal_moves(b), 15, 15, 1, original.eval_config);
            }
        }
        result
    }

    /// Iterative-deepening alpha-beta negamax search from `state`.
    ///
    /// Deepens from one ply to the configured depth, or until the time limit
    /// has passed, and tries the best move of each iteration first in the next.
    /// Returns the deepest iteration that was completed; the first one always
    /// is.
    pub fn search(&mut self, state: &State) -> (r: Result<MinimaxResult, String>)
        requires
            old(self).settings().eval_config.valid(),
            old(self).settings().max_depth >= 1,
        ensures
            final(self).wf(),
            final(self).settings() == old(self).settings(),
            final(self).seeded() <==> old(self).seeded(),
            r is Ok <==> legal_moves(state.bb@).len() > 0,
            r matches Err(e) ==> e@ == "Cannot search from a state with no legal moves."@
                && final(self).scored().len() == 0 && final(self).generator() == old(
                self,
            ).generator(),
            r matches Ok(res) ==> {
                let b = state.bb@;
                let cfg = old(self).settings();
                &&& result_ok(res, b, cfg.eval_config)
                &&& res.depth_reached <= cfg.max_depth
                &&& cfg.time_limit_nanos is None ==> res.depth_reached == cfg.max_depth
                &&& !old(self).seeded() ==> res.best_move == deterministic_best(
                    b,
                    res.depth_reached as nat,
                    cfg.eval_config,
                )
                &&& root_scores_ok(
                    final(self).scored(),
                    b,
                    res.depth_reached as nat,
                    cfg.eval_config,
                    cfg.dedup_children,
                )
                &&& keeps_windows(cfg) ==> optimal_line(
                    b,
                    res.pv@,
                    res.depth_reached as nat,
                    0,
                    cfg.eval_config,
                )
                &&& res.nodes >= res.depth_reached
                &&& ran_to(res, cfg, b, old(self).generator())
                &&& ran_in_time(res, cfg)
                &&& final(self).generator() == deepened_to(
                    cfg,
                    b,
                    old(self).generator(),
                    res.depth_reached as nat,
                ).rng
                &&& cfg.time_limit_nanos is None ==> final(self).events() == deepened_to(
                    cfg,
                    b,
                    old(self).generator(),
                    res.depth_reached as nat,
                ).tree.counters
                &&& final(self).variation() == res.pv@
                &&& final(self).depth() == res.depth_reached
                &&& final(self).root_score() == res.score
                &&& final(self).elapsed() == (res.elapsed_nanos + 500_000) / 1_000_000
                &&& !cfg.use_transposition_table ==> final(self).events().transposition_hits == 0
                &&& !cfg.dedup_children ==> final(self).events().canonical_dedup_hits == 0
                &&& final(self).events().tablebase_hits == 0
                &&& final(self).events().expanded_nodes >= 1
            },
    {
        let start = start_clock();
        self.tree = SearchTree {
            tt: HashMap::new(),
            nodes: 0,
            counters: SearchEventCounters::default(),
        };
        self.last_root_scored = Vec::new();
        self.last_pv = Vec::new();
        self.last_elapsed_ms = 0;
        self.last_depth = 0;
        self.last_root_value = 0;
        self.hint = None;
        self.deadline = deadline_from(start, self.config.time_limit_nanos);
        let bb = state.bb;
        let ghost b = bb@;
        let ghost ec = self.config.eval_config;
        let root_moves = generate_legal_moves(&bb);
        if root_moves.len() == 0 {
            return Err("Cannot search from a state with no legal moves.".to_owned());
        }
        // The successors of the root are computed once and used in every
        // iteration, so the root counts once.
        self.tree.counters.expanded_nodes = 1;
        proof {
            reveal(table_ok);
            lemma_legal_moves(b);
        }
        let ghost config0 = self.config;
        let ghost deadline = self.deadline;
        let max_depth: u32 = self.config.max_depth;
        let mut result: Option<MinimaxResult> = None;
        let ghost rng0 = self.rng;
        let ghost mut state_at = deepened_to(config0, b, rng0, 0);
        assert(self.tree.tt@ =~= vstd::map::Map::<u128, (u32, i64, Bound)>::empty());
        assert(self.tree.model() == state_at.tree);
        let mut done: u32 = 0;
        let mut stop = false;
        while done < max_depth && !stop
            invariant
                b == bb@,
                self.config == config0,
                config0 == old(self).config,
                config0.eval_config == ec,
                ec.valid(),
                max_depth == config0.max_depth,
                done <= max_depth,
                max_depth >= 1,
                self.rng is Some <==> old(self).rng is Some,
                self.deadline == deadline,
                deadline_for(config0.time_limit_nanos, deadline),
                stop ==> clock_answers(deadline, true),
                done > 1 || (done == 1 && !stop) ==> clock_answers(deadline, false),
                !stop ==> asked_on_the_way(deadline, 0, self.tree.nodes),
                result matches Some(res) ==> asked_on_the_way(deadline, 0, res.nodes),
                root_moves@ == legal_moves(b),
                root_moves@.len() > 0,
                table_ok(self.tree.tt@, ec, total_pieces(b), done + 1),
                self.tree.nodes >= done,
                done == 0 ==> self.tree.nodes == 0 && self.hint is None && !stop,
                result is Some <==> done > 0,
                stop ==> config0.time_limit_nanos is Some,
                counters_start(config0, self.tree.counters),
                rng0 == old(self).rng,
                self.rng == state_at.rng,
                state_at == deepened_to(config0, b, rng0, done as nat),
                !stop || config0.time_limit_nanos is None ==> self.tree.model() == state_at.tree,
                self.hint == state_at.best,
                self.wf(),
                result matches Some(res) ==> {
                    &&& result_ok(res, b, ec)
                    &&& keeps_windows(config0) ==> optimal_line(b, res.pv@, done as nat, 0, ec)
                    &&& res.depth_reached == done
                    &&& res.nodes >= done
                    &&& ran_to(res, config0, b, rng0)
                    &&& old(self).rng is None ==> res.best_move == deterministic_best(
                        b,
                        done as nat,
                        ec,
                    )
                    &&& self.hint == Some(res.best_move)
                    &&& root_scores_ok(
                        self.last_root_scored@,
                        b,
                        done as nat,
                        ec,
                        config0.dedup_children,
                    )
                    &&& self.last_pv@ == res.pv@
                    &&& self.last_depth == done
                    &&& self.last_root_value == res.score
                },
            decreases (max_depth - done) + (if stop {
                0int
            } else {
                1int
            }),
        {
            let ghost hint0 = self.hint;
            let ghost before = state_at;
            let depth: u32 = done + 1;
            match self.search_root(&bb, &root_moves, depth) {
                Ok((score, best_move, pv)) => {
                    self.hint = Some(best_move);
                    let copy = copy_moves(&pv);
                    self.last_pv = copy;
                    self.last_depth = depth;
                    self.last_root_value = score;
                    result = Some(
                        MinimaxResult {
                            best_move,
                            score,
                            depth_reached: depth,
                            nodes: self.tree.nodes,
                            pv,
                            elapsed_nanos: 0,
                        },
                    );
                    proof {
                        state_at = iterated(config0, b, before, depth as nat);
                        assert(state_at == deepened_to(config0, b, rng0, depth as nat)) by {
                            assert((depth as nat - 1) as nat == done as nat);
                        }
                        lemma_table_deeper(
                            self.tree.tt@,
                            ec,
                            total_pieces(b),
                            depth as int,
                            depth + 1,
                        );
                        if old(self).rng is None {
                            lemma_deterministic(b, depth as nat, ec, hint0, best_move);
                        }
                        assert forall|j: int| 0 <= j < self.last_root_scored@.len() implies (
                        #[trigger] self.last_root_scored@[j]).0.in_range() by {
                            assert(legal_move(b, self.last_root_scored@[j].0));
                        }
                    }
                    done = depth;
                    if time_is_up(&self.deadline) {
                        stop = true;
                    }
                },
                Err(TimeUp) => {
                    stop = true;
                },
            }
        }
        match result {
            Some(mut res) => {
                res.elapsed_nanos = spent_since(&start);
                self.last_elapsed_ms = nearest_millis(res.elapsed_nanos);
                proof {
                    assert(deadline_for(config0.time_limit_nanos, deadline));
                    assert(limit_kept(
                        config0.time_limit_nanos,
                        res.depth_reached > 1 || res.nodes >= 1024,
                        res.depth_reached < config0.max_depth,
                    ));
                }
                Ok(res)
            },
            None => Err("Cannot search from a state with no legal moves.".to_owned()),
        }
    }

    /// Telemetry for the most recent completed search; `None` before the first.
    pub fn telemetry(&self) -> (t: Option<SearchTelemetry>)
        requires
            self.wf(),
            self.settings().eval_config.valid(),
        ensures
            t is None <==> self.scored().len() == 0,
            t matches Some(t) ==> {
                let ec = self.settings().eval_config;
                &&& t.engine_kind == EngineKind::Minimax
                &&& (t.root_value.num as int, t.root_value.den as int) == q_of_score(
                    self.root_score() as int,
                    ec.win as int,
                    ec.unit as int,
                )
                &&& t.policy_mass_kind == PolicyMassKind::NoMass
                &&& t.root_moves@.len() == self.scored().len()
                &&& forall|j: int|
                    0 <= j < t.root_moves@.len() ==> {
                        let stat = #[trigger] t.root_moves@[j];
                        &&& stat.mv == self.scored()[j].0
                        &&& stat.action_index == stat.mv.shape * 16 + stat.mv.position
                        &&& stat.policy_mass == 0
                        &&& stat.q matches Some(q) && (q.num as int, q.den as int) == q_of_score(
                            self.scored()[j].1 as int,
                            ec.win as int,
                            ec.unit as int,
                        )
                    }
                &&& t.root_identity_preserved == !self.settings().dedup_children
                &&& t.principal_variation@ == self.variation()
                &&& t.counters == self.events()
                &&& t.elapsed_ms == self.elapsed()
                &&& t.depth_reached == self.depth()
                &&& t.seed == self.settings().random_seed
            },
    {
        if self.last_root_scored.len() == 0 {
            return None;
        }
        let win: i64 = self.config.eval_config.win;
        let unit: i64 = self.config.eval_config.unit;
        let mut root_moves: Vec<RootMoveStat> = Vec::new();
        let mut i: usize = 0;
        while i < self.last_root_scored.len()
            invariant
                self.wf(),
                i <= self.last_root_scored@.len(),
                root_moves@.len() == i,
                self.config.eval_config.valid(),
                win == self.config.eval_config.win,
                unit == self.config.eval_config.unit,
                forall|j: int|
                    0 <= j < i ==> {
                        let stat = #[trigger] root_moves@[j];
                        &&& stat.mv == self.last_root_scored@[j].0
                        &&& stat.action_index == stat.mv.shape * 16 + stat.mv.position
                        &&& stat.policy_mass == 0
                        &&& stat.q matches Some(q) && (q.num as int, q.den as int) == q_of_score(
                            self.last_root_scored@[j].1 as int,
                            win as int,
                            unit as int,
                        )
                    },
            decreases self.last_root_scored@.len() - i,
        {
            let (mv, score): (Move, i64) = self.last_root_scored[i];
            assert(self.last_root_scored@[i as int].0.in_range());
            root_moves.push(RootMoveStat::new(mv, 0, Some(minimax_q_from_score(score, win, unit))));
            i = i + 1;
        }
        Some(
            SearchTelemetry {
                engine_kind: EngineKind::Minimax,
                root_value: minimax_q_from_score(self.last_root_value, win, unit),
                policy_mass_kind: PolicyMassKind::NoMass,
                root_moves,
                root_identity_preserved: !self.config.dedup_children,
                principal_variation: copy_moves(&self.last_pv),
                counters: self.tree.counters,
                elapsed_ms: self.last_elapsed_ms,
                depth_reached: self.last_depth,
                seed: self.config.random_seed,
            },
        )
    }

    /// Search the boards after the root moves: the best score, the scores and the lines.
    fn score_root(
        &mut self,
        bb: &Bitboard,
        children: &Vec<Child>,
        depth: u32,
        Ghost(ordered): Ghost<Seq<Move>>,
    ) -> (r: Result<(i64, Vec<(Move, i64)>, Vec<Vec<Move>>), TimeUp>)
        requires
            old(self).config.eval_config.valid(),
            depth >= 1,
            children@.len() <= 64,
            forall|m: Move| #[trigger] ordered.contains(m) ==> legal_move(bb@, m),
            children_sound(bb@, ordered, children@),
            table_ok(
                old(self).tree.tt@,
                old(self).config.eval_config,
                total_pieces(bb@),
                depth as int,
            ),
        ensures
            final(self).config == old(self).config,
            final(self).deadline == old(self).deadline,
            final(self).hint == old(self).hint,
            final(self).rng == old(self).rng,
            final(self).last_root_value == old(self).last_root_value,
            final(self).last_root_scored == old(self).last_root_scored,
            final(self).last_pv == old(self).last_pv,
            final(self).last_depth == old(self).last_depth,
            table_ok(
                final(self).tree.tt@,
                old(self).config.eval_config,
                total_pieces(bb@),
                depth as int,
            ),
            counters_step(old(self).config, old(self).tree.counters, final(self).tree.counters),
            old(self).deadline is None ==> r is Ok,
            r is Err ==> clock_answers(old(self).deadline, true),
            r is Ok ==> asked_on_the_way(
                old(self).deadline,
                old(self).tree.nodes,
                final(self).tree.nodes,
            ),
            depth == 1 && old(self).tree.nodes == 0 ==> r is Ok,
            final(self).tree.nodes >= old(self).tree.nodes,
            r is Ok && children@.len() > 0 ==> final(self).tree.nodes > old(self).tree.nodes
                || final(self).tree.nodes == u64::MAX,
            r matches Ok((best, scored, lines)) ==> {
                let ec = old(self).config.eval_config;
                let d1 = (depth - 1) as nat;
                &&& scored@.len() == children@.len()
                &&& lines@.len() == children@.len()
                &&& (final(self).tree.model(), lines_view(lines@)) == root_searched(
                    old(self).config,
                    old(self).tree.model(),
                    bb@,
                    child_moves(children@),
                    children@.len() as int,
                    depth as nat,
                )
                &&& forall|j: int|
                    0 <= j < scored@.len() ==> (#[trigger] scored@[j]).0 == children@[j].mv
                        && scored@[j].1 == child_value(children@[j], d1, 1, ec) && -VALUE_BOUND
                        <= scored@[j].1 <= VALUE_BOUND && scored@[j].1 <= best
                &&& forall|j: int|
                    0 <= j < lines@.len() ==> legal_line(
                        children@[j].bb@,
                        (#[trigger] lines@[j])@,
                    ) && lines@[j]@.len() < depth
                &&& keeps_windows(old(self).config) ==> forall|j: int|
                    0 <= j < lines@.len() ==> optimal_line(
                        children@[j].bb@,
                        (#[trigger] lines@[j])@,
                        d1,
                        1,
                        ec,
                    )
                &&& children@.len() > 0 ==> exists|j: int|
                    0 <= j < scored@.len() && (#[trigger] scored@[j]).1 == best
                &&& children@.len() > 0 ==> -VALUE_BOUND <= best <= VALUE_BOUND
            },
    {
        let ghost b = bb@;
        let ghost ec = self.config.eval_config;
        let ghost d1 = (depth - 1) as nat;
        let cfg: MinimaxConfig = self.config;
        let ghost kept = child_moves(children@);
        let ghost begun = self.tree.model();
        let mut best: i64 = -INFINITE;
        let mut scored: Vec<(Move, i64)> = Vec::new();
        let mut lines: Vec<Vec<Move>> = Vec::new();
        let mut i: usize = 0;
        assert(lines_view(lines@) =~= Seq::empty());
        while i < children.len()
            invariant
                kept == child_moves(children@),
                (self.tree.model(), lines_view(lines@)) == root_searched(
                    cfg,
                    begun,
                    b,
                    kept,
                    i as int,
                    depth as nat,
                ),
                i <= children@.len(),
                children@.len() <= 64,
                b == bb@,
                b.len() == 8,
                cfg == old(self).config,
                ec == cfg.eval_config,
                ec.valid(),
                depth >= 1,
                d1 == (depth - 1) as nat,
                self.config == old(self).config,
                self.deadline == old(self).deadline,
                self.hint == old(self).hint,
                self.rng == old(self).rng,
                self.last_root_value == old(self).last_root_value,
                self.last_root_scored == old(self).last_root_scored,
                self.last_pv == old(self).last_pv,
                self.last_depth == old(self).last_depth,
                forall|m: Move| #[trigger] ordered.contains(m) ==> legal_move(b, m),
                children_sound(b, ordered, children@),
                table_ok(self.tree.tt@, ec, total_pieces(b), depth as int),
                counters_step(cfg, old(self).tree.counters, self.tree.counters),
                depth == 1 && old(self).tree.nodes == 0 ==> self.tree.nodes == i,
                self.tree.nodes >= old(self).tree.nodes,
                asked_on_the_way(self.deadline, old(self).tree.nodes, self.tree.nodes),
                i > 0 ==> self.tree.nodes > old(self).tree.nodes || self.tree.nodes == u64::MAX,
                scored@.len() == i,
                lines@.len() == i,
                forall|j: int|
                    0 <= j < i ==> (#[trigger] scored@[j]).0 == children@[j].mv && scored@[j].1
                        == child_value(children@[j], d1, 1, ec) && -VALUE_BOUND <= scored@[j].1
                        <= VALUE_BOUND && scored@[j].1 <= best,
                forall|j: int|
                    0 <= j < i ==> legal_line(children@[j].bb@, (#[trigger] lines@[j])@)
                        && lines@[j]@.len() < depth,
                keeps_windows(cfg) ==> forall|j: int|
                    0 <= j < i ==> optimal_line(
                        children@[j].bb@,
                        (#[trigger] lines@[j])@,
                        d1,
                        1,
                        ec,
                    ),
                i > 0 ==> exists|j: int| 0 <= j < i && (#[trigger] scored@[j]).1 == best,
                i == 0 ==> best == -INFINITE,
                i > 0 ==> -VALUE_BOUND <= best <= VALUE_BOUND,
            decreases children@.len() - i,
        {
            let c = children[i];
            proof {
                assert(children@[i as int] == c);
                lemma_child(b, ordered, children@, i as int);
                lemma_legal_move_step(b, c.mv);
                assert(total_pieces(c.bb@) - 1 == total_pieces(b));
                lemma_value_bounds(c.bb@, d1, 1, ec);
            }
            let ghost before = scored@;
            let ghost lines0 = lines@;
            let result = self.tree.negamax(
                &cfg,
                &self.deadline,
                &c.bb,
                depth - 1,
                -INFINITE,
                INFINITE,
                1,
                c.key,
            );
            match result {
                Err(TimeUp) => {
                    return Err(TimeUp);
                },
                Ok((reply, line)) => {
                    let found: i64 = -reply;
                    assert(found == child_value(c, d1, 1, ec));
                    if found > best {
                        best = found;
                    }
                    scored.push((c.mv, found));
                    let ghost shown = line@;
                    lines.push(line);
                    proof {
                        assert(kept[i as int] == c.mv);
                        assert(lines_view(lines@) =~= lines_view(lines0).push(shown));
                        assert(scored@[i as int].1 == found);
                        assert forall|j: int| 0 <= j < i + 1 implies (#[trigger] scored@[j]).0
                            == children@[j].mv && scored@[j].1 == child_value(
                            children@[j],
                            d1,
                            1,
                            ec,
                        ) && -VALUE_BOUND <= scored@[j].1 <= VALUE_BOUND && scored@[j].1
                            <= best by {
                            if j < i {
                                assert(scored@[j] == before[j]);
                            }
                        }
                        assert forall|j: int| 0 <= j < i + 1 implies legal_line(
                            children@[j].bb@,
                            (#[trigger] lines@[j])@,
                        ) && lines@[j]@.len() < depth by {
                            if j < i {
                                assert(lines@[j] == lines0[j]);
                            }
                        }
                        if keeps_windows(cfg) {
                            assert forall|j: int| 0 <= j < i + 1 implies optimal_line(
                                children@[j].bb@,
                                (#[trigger] lines@[j])@,
                                d1,
                                1,
                                ec,
                            ) by {
                                if j < i {
                                    assert(lines@[j] == lines0[j]);
                                }
                            }
                        }
                        if i > 0 {
                            if best != found {
                                let k0 = choose|k0: int|
                                    0 <= k0 < i && (#[trigger] before[k0]).1 == best;
                                assert(scored@[k0] == before[k0]);
                            }
                        }
                    }
                },
            }
            i = i + 1;
        }
        let r: Result<(i64, Vec<(Move, i64)>, Vec<Vec<Move>>), TimeUp> = Ok((best, scored, lines));
        proof {
            let (x, y) = (r->Ok_0.1@, r->Ok_0.2@);
            assert(x.len() == children@.len() && y.len() == children@.len());
            assert(begun == old(self).tree.model());
            assert((self.tree.model(), lines_view(y)) == root_searched(
                cfg,
                begun,
                b,
                kept,
                children@.len() as int,
                depth as nat,
            ));
        }
        r
    }

    /// Search the root position to `depth`: score, best move, variation.
    ///
    /// Every root child is searched with the full window, so that its value is
    /// exact and not a bound. A bound could tie with the best value by chance
    /// and be chosen in its place.
    fn search_root(&mut self, bb: &Bitboard, moves: &Vec<Move>, depth: u32) -> (r: Result<
        (i64, Move, Vec<Move>),
        TimeUp,
    >)
        requires
            old(self).config.eval_config.valid(),
            depth >= 1,
            moves@ == legal_moves(bb@),
            moves@.len() > 0,
            table_ok(
                old(self).tree.tt@,
                old(self).config.eval_config,
                total_pieces(bb@),
                depth as int,
            ),
        ensures
            final(self).config == old(self).config,
            final(self).deadline == old(self).deadline,
            final(self).hint == old(self).hint,
            final(self).rng is Some <==> old(self).rng is Some,
            final(self).last_root_value == old(self).last_root_value,
            final(self).last_pv == old(self).last_pv,
            final(self).last_depth == old(self).last_depth,
            table_ok(
                final(self).tree.tt@,
                old(self).config.eval_config,
                total_pieces(bb@),
                depth as int,
            ),
            counters_step(old(self).config, old(self).tree.counters, final(self).tree.counters),
            old(self).deadline is None ==> r is Ok,
            r is Err ==> clock_answers(old(self).deadline, true),
            r is Ok ==> asked_on_the_way(
                old(self).deadline,
                old(self).tree.nodes,
                final(self).tree.nodes,
            ),
            depth == 1 && old(self).tree.nodes == 0 ==> r is Ok,
            final(self).tree.nodes >= old(self).tree.nodes,
            r is Ok ==> final(self).tree.nodes > old(self).tree.nodes || final(self).tree.nodes
                == u64::MAX,
            r is Err ==> final(self).last_root_scored == old(self).last_root_scored,
            r is Err ==> final(self).rng == old(self).rng,
            r matches Ok((score, mv, pv)) ==> {
                let x = Deepened {
                    tree: old(self).tree.model(),
                    best: old(self).hint,
                    line: Seq::empty(),
                    rng: old(self).rng,
                };
                iterated(old(self).config, bb@, x, depth as nat) == (Deepened {
                    tree: final(self).tree.model(),
                    best: Some(mv),
                    line: pv@,
                    rng: final(self).rng,
                })
            },
            r matches Ok((score, mv, pv)) ==> {
                let b = bb@;
                let ec = old(self).config.eval_config;
                &&& score == root_value(b, depth as nat, ec)
                &&& -VALUE_BOUND <= score <= VALUE_BOUND
                &&& legal_move(b, mv)
                &&& move_value(b, mv, (depth - 1) as nat, 1, ec) == score
                &&& pv@.len() > 0
                &&& pv@[0] == mv
                &&& legal_line(b, pv@)
                &&& pv@.len() <= depth
                &&& keeps_windows(old(self).config) ==> optimal_line(b, pv@, depth as nat, 0, ec)
                &&& old(self).rng is None ==> is_first_best(
                    b,
                    root_order(legal_moves(b), old(self).hint),
                    (depth - 1) as nat,
                    ec,
                    mv,
                )
                &&& root_scores_ok(
                    final(self).last_root_scored@,
                    b,
                    depth as nat,
                    ec,
                    old(self).config.dedup_children,
                )
                &&& forall|j: int|
                    0 <= j < final(self).last_root_scored@.len() ==> -VALUE_BOUND
                        <= (#[trigger] final(self).last_root_scored@[j]).1 <= VALUE_BOUND
            },
    {
        let ghost b = bb@;
        let ghost ec = self.config.eval_config;
        let ghost d1 = (depth - 1) as nat;
        let cfg: MinimaxConfig = self.config;
        proof {
            lemma_legal_moves(b);
            lemma_no_duplicates(b);
        }
        let ordered = order_root_moves(moves, self.hint);
        proof {
            lemma_root_order(moves@, self.hint);
            lemma_ordered_legal(b, moves@, ordered@);
        }
        let (children, Ghost(origin)) = self.tree.children(bb, &ordered, cfg.dedup_children);
        let ghost kept = child_moves(children@);
        let (best, scored, lines): (i64, Vec<(Move, i64)>, Vec<Vec<Move>>) = match self.score_root(
            bb,
            &children,
            depth,
            Ghost(ordered@),
        ) {
            Ok(found) => found,
            Err(TimeUp) => {
                return Err(TimeUp);
            },
        };
        proof {
            lemma_root_best(b, moves@, ordered@, children@, scored@, best, depth as nat, ec);
        }
        let candidates = best_candidates(
            &scored,
            best,
            Ghost(b),
            Ghost(kept),
            Ghost(depth as nat),
            Ghost(cfg),
        );
        assert(candidates@.len() > 0) by {
            let j = choose|j: int| 0 <= j < scored@.len() && (#[trigger] scored@[j]).1 == best;
            assert(scored@[j].1 == best);
        }
        let ghost places = places_view(candidates@);
        let ghost rng0 = self.rng;
        assert(places.len() == candidates@.len());
        let chosen: usize = match &mut self.rng {
            Some(rng) => candidates[pick(rng, candidates.len())],
            None => candidates[0],
        };
        let mv: Move = scored[chosen].0;
        let pv = line_from(mv, &lines[chosen]);
        proof {
            let c = children@[chosen as int];
            assert(scored@[chosen as int].0 == c.mv);
            lemma_child(b, ordered@, children@, chosen as int);
            assert(legal_line(c.bb@, lines@[chosen as int]@));
            lemma_line_prepend(b, c.mv, lines@[chosen as int]@);
            assert(move_value(b, mv, d1, 1, ec) == best);
            assert(pv@.drop_first() =~= lines@[chosen as int]@);
            if keeps_windows(cfg) {
                assert(optimal_line(c.bb@, lines@[chosen as int]@, d1, 1, ec));
                assert(optimal_line(b, pv@, depth as nat, 0, ec));
            }
            if old(self).rng is None {
                lemma_first_best(b, ordered@, children@, origin, scored@, best, d1, ec, chosen as int);
            }
            lemma_root_scores(b, moves@, ordered@, children@, origin, scored@, depth as nat, ec, cfg.dedup_children);
            assert(kept.len() == scored@.len());
            assert(match rng0 {
                Some(rng) => chosen == places[drawn(rng, places.len() as u64) as int] && self.rng
                    == Some(after_draw(rng, places.len() as u64)),
                None => chosen == places[0] && self.rng is None,
            });
            assert(kept[chosen as int] == mv);
            assert(lines_view(lines@)[chosen as int] == lines@[chosen as int]@);
        }
        self.last_root_scored = scored;
        Ok((best, mv, pv))
    }
}

/// The move `mv` and then `line`.
fn line_from(mv: Move, line: &Vec<Move>) -> (pv: Vec<Move>)
    ensures
        pv@ == seq![mv] + line@,
{
    let mut pv: Vec<Move> = vec![mv];
    let mut t: usize = 0;
    while t < line.len()
        invariant
            t <= line@.len(),
            pv@ == seq![mv] + line@.take(t as int),
        decreases line@.len() - t,
    {
        pv.push(line[t]);
        assert(line@.take(t + 1) =~= line@.take(t as int).push(line@[t as int]));
        t = t + 1;
    }
    assert(line@.take(t as int) =~= line@);
    pv
}

/// The places of the scored moves that are worth `best`.
fn best_candidates(
    scored: &Vec<(Move, i64)>,
    best: i64,
    Ghost(b): Ghost<Seq<u16>>,
    Ghost(kept): Ghost<Seq<Move>>,
    Ghost(depth): Ghost<nat>,
    Ghost(cfg): Ghost<MinimaxConfig>,
) -> (candidates: Vec<usize>)
    requires
        depth >= 1,
        best == root_value(b, depth, cfg.eval_config),
        forall|j: int|
            0 <= j < scored@.len() ==> (#[trigger] scored@[j]).1 == move_value(
                b,
                kept[j],
                (depth - 1) as nat,
                1,
                cfg.eval_config,
            ),
    ensures
        forall|j: int|
            0 <= j < candidates@.len() ==> (#[trigger] candidates@[j]) < scored@.len()
                && scored@[candidates@[j] as int].1 == best,
        candidates@.len() == 0 ==> forall|k: int|
            0 <= k < scored@.len() ==> (#[trigger] scored@[k]).1 != best,
        candidates@.len() > 0 ==> forall|k: int|
            0 <= k < candidates@[0] ==> (#[trigger] scored@[k]).1 != best,
        places_view(candidates@) == best_places(b, kept, scored@.len() as int, depth, cfg),
{
    let mut candidates: Vec<usize> = Vec::new();
    let mut n: usize = 0;
    assert(places_view(candidates@) =~= Seq::empty());
    while n < scored.len()
        invariant
            n <= scored@.len(),
            depth >= 1,
            best == root_value(b, depth, cfg.eval_config),
            forall|j: int|
                0 <= j < scored@.len() ==> (#[trigger] scored@[j]).1 == move_value(
                    b,
                    kept[j],
                    (depth - 1) as nat,
                    1,
                    cfg.eval_config,
                ),
            places_view(candidates@) == best_places(b, kept, n as int, depth, cfg),
            forall|j: int|
                0 <= j < candidates@.len() ==> (#[trigger] candidates@[j]) < n
                    && scored@[candidates@[j] as int].1 == best,
            candidates@.len() == 0 ==> forall|k: int|
                0 <= k < n ==> (#[trigger] scored@[k]).1 != best,
            candidates@.len() > 0 ==> forall|k: int|
                0 <= k < candidates@[0] ==> (#[trigger] scored@[k]).1 != best,
        decreases scored@.len() - n,
    {
        let ghost before = candidates@;
        if scored[n].1 == best {
            candidates.push(n);
            assert(places_view(candidates@) =~= places_view(before).push(n as int));
            assert(before.len() > 0 ==> candidates@[0] == before[0]);
        }
        n = n + 1;
    }
    candidates
}

/// The best score is the value of the root, and each score that of its move.
proof fn lemma_root_best(
    b: Seq<u16>,
    moves: Seq<Move>,
    ordered: Seq<Move>,
    children: Seq<Child>,
    scored: Seq<(Move, i64)>,
    best: i64,
    depth: nat,
    cfg: EvalConfig,
)
    requires
        b.len() == 8,
        depth >= 1,
        moves == legal_moves(b),
        moves.len() > 0,
        ordered.len() > 0,
        forall|m: Move| #[trigger] ordered.contains(m) <==> moves.contains(m),
        forall|i: int| 0 <= i < ordered.len() ==> legal_move(b, #[trigger] ordered[i]),
        children_sound(b, ordered, children),
        children_complete(b, ordered, children),
        scored.len() == children.len(),
        forall|j: int|
            0 <= j < scored.len() ==> (#[trigger] scored[j]).1 == child_value(
                children[j],
                (depth - 1) as nat,
                1,
                cfg,
            ) && scored[j].1 <= best,
        children.len() > 0 ==> exists|j: int|
            0 <= j < scored.len() && (#[trigger] scored[j]).1 == best,
    ensures
        best == root_value(b, depth, cfg),
        best == best_reply(b, ordered, (depth - 1) as nat, 1, cfg),
        children.len() > 0,
        forall|j: int|
            0 <= j < scored.len() ==> (#[trigger] scored[j]).1 == move_value(
                b,
                child_moves(children)[j],
                (depth - 1) as nat,
                1,
                cfg,
            ),
{
    let d1 = (depth - 1) as nat;
    lemma_children_best(b, ordered, children, d1, 1, cfg);
    lemma_best_reply_same_moves(b, ordered, moves, d1, 1, cfg);
    let k = choose|k: int|
        0 <= k < children.len() && child_value(#[trigger] children[k], d1, 1, cfg) == best_reply(
            b,
            ordered,
            d1,
            1,
            cfg,
        );
    assert(scored[k].1 == best_reply(b, ordered, d1, 1, cfg));
    let j = choose|j: int| 0 <= j < scored.len() && (#[trigger] scored[j]).1 == best;
    assert(child_value(children[j], d1, 1, cfg) <= best_reply(b, ordered, d1, 1, cfg));
    assert forall|j: int| 0 <= j < scored.len() implies (#[trigger] scored[j]).1 == move_value(
        b,
        child_moves(children)[j],
        d1,
        1,
        cfg,
    ) by {
        lemma_child(b, ordered, children, j);
        assert(scored[j].1 == child_value(children[j], d1, 1, cfg));
    }
}

/// What lines say.
spec fn lines_view(lines: Seq<Vec<Move>>) -> Seq<Seq<Move>> {
    Seq::new(lines.len(), |i: int| lines[i]@)
}

/// Places as numbers.
spec fn places_view(places: Seq<usize>) -> Seq<int> {
    Seq::new(places.len(), |i: int| places[i] as int)
}

/// Whether the counters fit a search with this configuration.
spec fn counters_start(cfg: MinimaxConfig, c: SearchEventCounters) -> bool {
    &&& !cfg.use_transposition_table ==> c.transposition_hits == 0
    &&& !cfg.dedup_children ==> c.canonical_dedup_hits == 0
    &&& c.tablebase_hits == 0
    &&& c.expanded_nodes >= 1
}

proof fn lemma_deterministic(
    b: Seq<u16>,
    d: nat,
    cfg: EvalConfig,
    hint: Option<Move>,
    m: Move,
)
    requires
        d >= 1,
        hint == (if d <= 1 {
            None
        } else {
            Some(deterministic_best(b, (d - 1) as nat, cfg))
        }),
        is_first_best(b, root_order(legal_moves(b), hint), (d - 1) as nat, cfg, m),
    ensures
        m == deterministic_best(b, d, cfg),
{
    let order = root_order(legal_moves(b), hint);
    let ahead = (d - 1) as nat;
    assert(is_first_best(b, order, ahead, cfg, m));
    let n = deterministic_best(b, d, cfg);
    assert(is_first_best(b, order, ahead, cfg, n));
    lemma_first_best_unique(b, order, ahead, cfg, m, n);
}

/// A copy of `moves`.
pub fn copy_moves(moves: &Vec<Move>) -> (copy: Vec<Move>)
    ensures
        copy@ == moves@,
{
    let mut copy: Vec<Move> = Vec::new();
    let mut i: usize = 0;
    while i < moves.len()
        invariant
            i <= moves@.len(),
            copy@ == moves@.take(i as int),
        decreases moves@.len() - i,
    {
        copy.push(moves[i]);
        assert(moves@.take(i + 1) =~= moves@.take(i as int).push(moves@[i as int]));
        i = i + 1;
    }
    assert(moves@.take(i as int) =~= moves@);
    copy
}

pub(crate) proof fn lemma_no_duplicates(b: Seq<u16>)
    ensures
        legal_moves(b).no_duplicates(),
{
    lemma_legal_moves(b);
    let moves = legal_moves(b);
    assert forall|i: int, j: int| 0 <= i < moves.len() && 0 <= j < moves.len() && i
        != j implies moves[i] != moves[j] by {
        if i < j {
            assert(crate::moves::action_of(moves[i]) < crate::moves::action_of(moves[j]));
        } else {
            assert(crate::moves::action_of(moves[j]) < crate::moves::action_of(moves[i]));
        }
    }
}

proof fn lemma_ordered_legal(b: Seq<u16>, moves: Seq<Move>, ordered: Seq<Move>)
    requires
        moves == legal_moves(b),
        ordered.len() == moves.len(),
        forall|m: Move| #[trigger] ordered.contains(m) <==> moves.contains(m),
    ensures
        forall|m: Move| #[trigger] ordered.contains(m) ==> legal_move(b, m),
        forall|i: int| 0 <= i < ordered.len() ==> legal_move(b, #[trigger] ordered[i]),
        forall|i: int| 0 <= i < ordered.len() ==> (#[trigger] ordered[i]).in_range(),
        ordered.len() <= 64,
{
    lemma_legal_moves(b);
    assert forall|m: Move| #[trigger] ordered.contains(m) implies legal_move(b, m) by {
        assert(moves.contains(m));
    }
    assert forall|i: int| 0 <= i < ordered.len() implies legal_move(b, #[trigger] ordered[i]) by {
        assert(ordered.contains(ordered[i]));
    }
}

/// The first child with the best value is the first best move of the order.
proof fn lemma_first_best(
    b: Seq<u16>,
    order: Seq<Move>,
    children: Seq<Child>,
    origin: Seq<int>,
    scored: Seq<(Move, i64)>,
    best: i64,
    d: nat,
    cfg: EvalConfig,
    chosen: int,
)
    requires
        b.len() == 8,
        order.len() > 0,
        forall|i: int| 0 <= i < order.len() ==> legal_move(b, #[trigger] order[i]),
        children_sound(b, order, children),
        children_ordered(b, order, children, origin),
        scored.len() == children.len(),
        forall|j: int|
            0 <= j < children.len() ==> (#[trigger] scored[j]).1 == child_value(
                children[j],
                d,
                1,
                cfg,
            ),
        best == best_reply(b, order, d, 1, cfg),
        0 <= chosen < children.len(),
        scored[chosen].1 == best,
        forall|k: int| 0 <= k < chosen ==> (#[trigger] scored[k]).1 != best,
    ensures
        is_first_best(b, order, d, cfg, children[chosen].mv),
{
    reveal(same_orbit);
    lemma_best_reply(b, order, d, 1, cfg);
    lemma_origin(b, order, children, origin);
    lemma_child(b, order, children, chosen);
    let at = origin[chosen];
    assert(order[at] == children[chosen].mv);
    assert(move_value(b, order[at], d, 1, cfg) == best);
    assert forall|j: int| 0 <= j < at implies #[trigger] move_value(b, order[j], d, 1, cfg)
        < best by {
        let k = lemma_representative(b, order, children, origin, j);
        lemma_child(b, order, children, k);
        assert(legal_move(b, order[j]));
        lemma_legal_move_step(b, order[j]);
        law_value_by_canonical_key(children[k].bb@, applied(b, order[j]), d, 1, cfg);
        assert(move_value(b, order[j], d, 1, cfg) == scored[k].1);
        assert(origin[k] < origin[chosen]);
        if k >= chosen {
            assert(origin[chosen] <= origin[k]);
        }
    }
}

proof fn lemma_root_scores(
    b: Seq<u16>,
    moves: Seq<Move>,
    order: Seq<Move>,
    children: Seq<Child>,
    origin: Seq<int>,
    scored: Seq<(Move, i64)>,
    depth: nat,
    cfg: EvalConfig,
    dedup: bool,
)
    requires
        b.len() == 8,
        depth >= 1,
        moves == legal_moves(b),
        moves.len() > 0,
        order.len() == moves.len(),
        order.no_duplicates(),
        forall|m: Move| #[trigger] order.contains(m) <==> moves.contains(m),
        children_sound(b, order, children),
        children_complete(b, order, children),
        children_ordered(b, order, children, origin),
        !dedup ==> children.len() == order.len(),
        scored.len() == children.len(),
        children.len() > 0,
        forall|j: int|
            0 <= j < children.len() ==> (#[trigger] scored[j]).0 == children[j].mv && scored[j].1
                == child_value(children[j], (depth - 1) as nat, 1, cfg),
    ensures
        root_scores_ok(scored, b, depth, cfg, dedup),
{
    lemma_origin(b, order, children, origin);
    lemma_legal_moves(b);
    assert forall|j: int| 0 <= j < scored.len() implies legal_move(b, (#[trigger] scored[j]).0)
        && scored[j].1 == move_value(b, scored[j].0, (depth - 1) as nat, 1, cfg)
        && legal_moves(b).contains(scored[j].0) by {
        lemma_child(b, order, children, j);
        assert(moves.contains(children[j].mv));
    }
    assert forall|m: Move| legal_move(b, m) implies #[trigger] scored_orbit(scored, b, m) by {
        assert(moves.contains(m));
        assert(order.contains(m));
        let i = choose|i: int| 0 <= i < order.len() && order[i] == m;
        let j = lemma_cover(b, order, children, i);
        lemma_child(b, order, children, j);
        assert(scored[j].0 == children[j].mv);
    }
    assert forall|i: int, j: int| 0 <= i < j < scored.len() implies (#[trigger] scored[i]).0
        != (#[trigger] scored[j]).0 by {
        assert(origin[i] < origin[j]);
        assert(order[origin[i]] != order[origin[j]]);
    }
}

/// The legal root moves in the order in which they are tried: by shape and
/// position, with the previous iteration's best move floated to the front.
fn order_root_moves(moves: &Vec<Move>, hint: Option<Move>) -> (ordered: Vec<Move>)
    requires
        moves@.no_duplicates(),
    ensures
        ordered@ == root_order(moves@, hint),
{
    let mut front: Vec<Move> = Vec::new();
    let mut at: usize = moves.len();
    if let Some(h) = hint {
        let mut i: usize = 0;
        while i < moves.len() && at == moves.len()
            invariant
                i <= moves@.len(),
                at <= moves@.len(),
                front@.len() == 0,
                at < moves@.len() ==> moves@[at as int] == h,
                at == moves@.len() ==> forall|k: int| 0 <= k < i ==> moves@[k] != h,
            decreases moves@.len() - i,
        {
            if moves[i] == h {
                at = i;
            }
            i = i + 1;
        }
        if at < moves.len() {
            front.push(h);
            assert(moves@.contains(h));
            assert(moves@.index_of(h) == at);
        } else {
            assert(!moves@.contains(h));
        }
    }
    let ghost head = front@;
    let mut k: usize = 0;
    while k < moves.len()
        invariant
            k <= moves@.len(),
            at <= moves@.len(),
            k <= at ==> front@ == head + moves@.take(k as int),
            k > at ==> front@ == head + moves@.remove(at as int).take(k - 1),
        decreases moves@.len() - k,
    {
        if k != at {
            front.push(moves[k]);
        }
        proof {
            if k < at {
                assert(front@ =~= head + moves@.take(k + 1));
            } else if k == at {
                assert(moves@.take(k as int) =~= moves@.remove(at as int).take(k as int));
            } else {
                assert(moves@.remove(at as int)[k - 1] == moves@[k as int]);
                assert(front@ =~= head + moves@.remove(at as int).take(k as int));
            }
        }
        k = k + 1;
    }
    proof {
        if at < moves@.len() {
            assert(moves@.remove(at as int).take(k - 1) =~= moves@.remove(at as int));
            assert(front@ =~= root_order(moves@, hint));
        } else {
            assert(moves@.take(k as int) =~= moves@);
            assert(front@ =~= moves@);
        }
    }
    front
}

} // verus!
