//! Parametrizable beam search for Quantik.
//!
//! Descends level by level from a root, keeping only the top `beam_width`
//! non-terminal candidates per depth, while every terminal that is met is
//! recorded whatever the width. Symmetric candidates are merged; the
//! multiplicity of a leaf counts the move sequences that it stands for.
use crate::beam_trace::{
    child_node, clamped, counts_of, custom_value, end_worth, ended_at, ends_before, ends_ranked,
    frontier_at, generator_at, kept_nodes, law_finished_boards_sum, leaf_nodes,
    lemma_counts_push, lemma_steps_push, level_drawn, levels_drawn, merges_at, moves_from,
    next_level, node_boards, outranks, played_levels, playout_sum, ranked, reorders, rollout_of,
    searched_by_evaluator, searched_by_playouts, shows_levels, steps_ok, values_drawn,
    values_given, values_played, with_child, with_children, BeamLevel, BeamNode, BeamStep,
};
pub use crate::beam_trace::EVALUATOR_UNIT;
use crate::bitboard::Bitboard;
use crate::clock::{
    clock_answers, deadline_for, deadline_from, limit_kept, start_clock, time_is_up, Deadline,
};
use crate::game::{check_winner, current_player, to_move, won, WinStatus};
use crate::game_value::{after_line, empty_cells, finished, legal_line, lemma_line_push};
use crate::fractions::{fraction_less, fraction_lt, lemma_fraction_transitive};
use crate::invariance::sum;
use crate::lines::{
    law_lines_invariant, lemma_fillings_sixteen, lemma_lines_bounds, lemma_lines_step, lines,
    lines_after,
};
use crate::mcts::{board_outcome, outcome, playout, playout_value};
use crate::minimax::copy_moves;
use crate::moves::{
    applied, apply_move, generate_legal_moves, legal_move, legal_moves, lemma_legal_moves, Move,
};
use crate::rng::{entropy_rng, seeded, seeded_rng};
use crate::search_telemetry::Ratio;
use crate::sorting::{goes_before, is_preorder, lemma_lists_all, lists_places, sort_places};
use crate::symmetry::{
    canonical, image, law_canonical_complete, lemma_canonical, lemma_payload_injective,
    payload_number, Sym, SymmetryHandler,
};
use rand::rngs::StdRng;
use std::collections::HashMap;
use vstd::prelude::*;

verus! {

/// For a number of pieces, how many boards with them can be reached, up to symmetry. A
/// beam schedule with these widths keeps every line of play up to some depth.
pub const UNIQUE_CANONICAL_STATES_PER_DEPTH: [(u32, u64); 8] = [
    (1, 3),
    (2, 51),
    (3, 726),
    (4, 10_946),
    (5, 105_632),
    (6, 901_916),
    (7, 4_658_465),
    (8, 17_900_160),
];

/// Configuration for the beam search algorithm.
#[derive(Clone, Debug)]
pub struct BeamSearchConfig {
    /// Frontier nodes kept per depth, at least one.
    pub beam_width: usize,
    /// Plies from the root, from one to sixteen.
    pub max_depth: u32,
    /// Rollouts per candidate of the built-in evaluator, at least one.
    pub rollouts_per_candidate: u32,
    pub random_seed: Option<u64>,
    /// Width per depth; the last entry extends to all deeper levels.
    pub beam_schedule: Option<Vec<usize>>,
    /// Rollouts per depth of the built-in evaluator, extended likewise.
    pub rollout_schedule: Option<Vec<u32>>,
    /// Optional wall-clock budget in nanoseconds, checked between levels.
    pub time_limit_nanos: Option<u64>,
}

impl Default for BeamSearchConfig {
    fn default() -> (c: Self)
        ensures
            c.beam_width == 64,
            c.max_depth == 16,
            c.rollouts_per_candidate == 8,
            c.random_seed is None,
            c.beam_schedule is None,
            c.rollout_schedule is None,
            c.time_limit_nanos is None,
    {
        Self {
            beam_width: 64,
            max_depth: 16,
            rollouts_per_candidate: 8,
            random_seed: None,
            beam_schedule: None,
            rollout_schedule: None,
            time_limit_nanos: None,
        }
    }
}

/// What is wrong with a configuration: the first of the complaints, in order.
pub open spec fn config_complaint(c: BeamSearchConfig) -> Option<Seq<char>> {
    if c.beam_width < 1 {
        Some("beam_width must be >= 1"@)
    } else if !(1 <= c.max_depth <= 16) {
        Some("max_depth must be between 1 and 16"@)
    } else if c.rollouts_per_candidate < 1 {
        Some("rollouts_per_candidate must be >= 1"@)
    } else if c.beam_schedule is Some && c.beam_schedule->0@.len() == 0 {
        Some("beam_schedule must not be empty"@)
    } else if c.beam_schedule is Some && exists|i: int|
        0 <= i < c.beam_schedule->0@.len() && #[trigger] c.beam_schedule->0@[i] < 1 {
        Some("beam_schedule entries must all be >= 1"@)
    } else if c.rollout_schedule is Some && c.rollout_schedule->0@.len() == 0 {
        Some("rollout_schedule must not be empty"@)
    } else if c.rollout_schedule is Some && exists|i: int|
        0 <= i < c.rollout_schedule->0@.len() && #[trigger] c.rollout_schedule->0@[i] < 1 {
        Some("rollout_schedule entries must all be >= 1"@)
    } else if c.time_limit_nanos == Some(0u64) {
        Some("time_limit must be positive"@)
    } else {
        None
    }
}

/// The width at depth `d`, which counts from one.
pub open spec fn width_at(c: BeamSearchConfig, d: int) -> usize {
    match c.beam_schedule {
        None => c.beam_width,
        Some(s) => if d - 1 < s@.len() {
            s@[d - 1]
        } else {
            s@.last()
        },
    }
}

/// The rollouts per candidate at depth `d`, which counts from one.
pub open spec fn rollouts_at(c: BeamSearchConfig, d: int) -> u32 {
    match c.rollout_schedule {
        None => c.rollouts_per_candidate,
        Some(s) => if d - 1 < s@.len() {
            s@[d - 1]
        } else {
            s@.last()
        },
    }
}

/// A single collected leaf: a principal variation and its value.
#[derive(Debug)]
pub struct BeamLeaf {
    /// Principal variation from the root.
    pub moves: Vec<Move>,
    /// Player 0's perspective; exactly one or minus one for terminal leaves.
    pub value: Ratio,
    pub depth: u32,
    pub is_terminal: bool,
    /// Number of move sequences that this leaf stands for.
    pub multiplicity: u128,
}

/// Search statistics. Counters stop at the largest number that they can hold.
#[derive(Clone, Copy, Debug, PartialEq, Eq, Structural)]
pub struct BeamStats {
    pub candidates_generated: u64,
    pub candidates_deduped: u64,
    pub nodes_inserted: u64,
    pub nodes_pruned: u64,
    pub evaluations: u64,
    pub rollouts: u64,
}

impl Default for BeamStats {
    fn default() -> (s: Self)
        ensures
            s == (BeamStats {
                candidates_generated: 0,
                candidates_deduped: 0,
                nodes_inserted: 0,
                nodes_pruned: 0,
                evaluations: 0,
                rollouts: 0,
            }),
    {
        Self {
            candidates_generated: 0,
            candidates_deduped: 0,
            nodes_inserted: 0,
            nodes_pruned: 0,
            evaluations: 0,
            rollouts: 0,
        }
    }
}

/// Result of a beam search run.
#[derive(Debug)]
pub struct BeamSearchResult {
    /// Best leaf for the player to move at the root.
    pub best_leaf: Option<BeamLeaf>,
    /// All terminals, best first for the root player.
    pub terminal_leaves: Vec<BeamLeaf>,
    pub reached_terminal: bool,
    pub max_depth_reached: u32,
    pub stats: BeamStats,
    /// Player to move at the root.
    pub root_player: u8,
    /// Leaves that are still open at `max_depth_reached`.
    pub frontier_leaves: Vec<BeamLeaf>,
    /// The denominator of the values of the open leaves.
    pub scale: u64,
}

/// A board of the frontier with the way that led to it and the player who made
/// the last move of it.
struct Entry {
    bb: Bitboard,
    moves: Vec<Move>,
    mover: u8,
    multiplicity: u128,
}

/// The events of a search, counted without limit. `ended` counts the boards on which the
/// game is over.
pub struct BeamCounts {
    pub generated: int,
    pub deduped: int,
    pub inserted: int,
    pub pruned: int,
    pub evaluations: int,
    pub rollouts: int,
    pub ended: int,
}

/// `n`, or the largest `u64` if that is less.
pub open spec fn capped(n: int) -> u64 {
    if n < u64::MAX {
        n as u64
    } else {
        u64::MAX
    }
}

/// Whether the statistics show the counts.
pub open spec fn shows(stats: BeamStats, c: BeamCounts) -> bool {
    &&& c.generated >= 0 && stats.candidates_generated == capped(c.generated)
    &&& c.deduped >= 0 && stats.candidates_deduped == capped(c.deduped)
    &&& c.inserted >= 0 && stats.nodes_inserted == capped(c.inserted)
    &&& c.pruned >= 0 && stats.nodes_pruned == capped(c.pruned)
    &&& c.evaluations >= 0 && stats.evaluations == capped(c.evaluations)
    &&& c.rollouts >= 0 && stats.rollouts == capped(c.rollouts)
}

/// How the counts hang together: every generated candidate was merged, ended the
/// game or was evaluated; terminals and survivors were inserted, and what was
/// evaluated survived or was pruned.
pub open spec fn counts_ok(c: BeamCounts, terminals: int) -> bool {
    &&& c.generated == c.deduped + c.ended + c.evaluations
    &&& c.ended == terminals
    &&& c.inserted == terminals + c.evaluations - c.pruned
    &&& 0 <= c.pruned <= c.evaluations
}

/// What a list of boards with multiplicities weighs: each board counts for the
/// ways to go on from it for `r` moves.
spec fn weight(ws: Seq<(Seq<u16>, int)>, r: nat) -> int
    decreases ws.len(),
{
    if ws.len() == 0 {
        0
    } else {
        weight(ws.drop_last(), r) + ws.last().1 * lines(ws.last().0, r)
    }
}

/// The boards and multiplicities of a list of entries.
spec fn entries_view(es: Seq<Entry>) -> Seq<(Seq<u16>, int)> {
    Seq::new(es.len(), |i: int| (es[i].bb@, es[i].multiplicity as int))
}

/// The sum of the multiplicities of leaves.
pub open spec fn total_multiplicity(leaves: Seq<BeamLeaf>) -> int
    decreases leaves.len(),
{
    if leaves.len() == 0 {
        0
    } else {
        total_multiplicity(leaves.drop_last()) + leaves.last().multiplicity
    }
}

/// Whether `e` is an open board that was reached from `root` in `depth` moves.
spec fn entry_ok(root: Seq<u16>, e: Entry, depth: int) -> bool {
    &&& legal_line(root, e.moves@)
    &&& after_line(root, e.moves@) == e.bb@
    &&& e.moves@.len() == depth
    &&& !finished(e.bb@)
    &&& e.multiplicity >= 1
    &&& depth > 0 ==> e.mover == e.moves@.last().player
}

/// Whether `leaf` is a leaf of a search from `root`: its moves can be played,
/// and it is terminal exactly if the game is then over, with the value that the
/// result has.
pub open spec fn leaf_ok(root: Seq<u16>, leaf: BeamLeaf) -> bool {
    &&& legal_line(root, leaf.moves@)
    &&& leaf.moves@.len() == leaf.depth
    &&& leaf.multiplicity >= 1
    &&& leaf.value.wf()
    &&& leaf.value.in_unit_range()
    &&& leaf.is_terminal ==> finished(after_line(root, leaf.moves@)) && leaf.value == (Ratio {
        num: outcome(after_line(root, leaf.moves@)) as i64,
        den: 1,
    })
    &&& !leaf.is_terminal ==> !finished(after_line(root, leaf.moves@))
}

proof fn lemma_weight_push(ws: Seq<(Seq<u16>, int)>, b: Seq<u16>, m: int, r: nat)
    ensures
        weight(ws.push((b, m)), r) == weight(ws, r) + m * lines(b, r),
{
    assert(ws.push((b, m)).drop_last() =~= ws);
}

proof fn lemma_weight_update(ws: Seq<(Seq<u16>, int)>, i: int, m: int, r: nat)
    requires
        0 <= i < ws.len(),
    ensures
        weight(ws.update(i, (ws[i].0, ws[i].1 + m)), r) == weight(ws, r) + m * lines(ws[i].0, r),
    decreases ws.len(),
{
    let after = ws.update(i, (ws[i].0, ws[i].1 + m));
    let l = lines(ws[i].0, r);
    if i == ws.len() - 1 {
        assert(after.drop_last() =~= ws.drop_last());
        assert((ws[i].1 + m) * l == ws[i].1 * l + m * l) by (nonlinear_arith);
    } else {
        assert(after.drop_last() =~= ws.drop_last().update(i, (ws[i].0, ws[i].1 + m)));
        lemma_weight_update(ws.drop_last(), i, m, r);
        assert(after.last() == ws.last());
    }
}

proof fn lemma_weight_nonneg(ws: Seq<(Seq<u16>, int)>, r: nat)
    requires
        forall|i: int| 0 <= i < ws.len() ==> (#[trigger] ws[i]).1 >= 0,
    ensures
        weight(ws, r) >= 0,
        forall|i: int| 0 <= i < ws.len() ==> (#[trigger] ws[i]).1 <= weight(ws, 0),
    decreases ws.len(),
{
    if ws.len() > 0 {
        let rest = ws.drop_last();
        assert forall|i: int| 0 <= i < rest.len() implies (#[trigger] rest[i]).1 >= 0 by {
            assert(rest[i] == ws[i]);
        }
        lemma_weight_nonneg(rest, r);
        lemma_weight_nonneg(rest, 0);
        let m = ws.last().1;
        assert(ws[ws.len() - 1].1 >= 0);
        let l = lines(ws.last().0, r);
        assert(m * l >= 0) by (nonlinear_arith)
            requires
                m >= 0,
                l >= 0,
        ;
        assert(lines(ws.last().0, 0) == 1);
        assert(m * 1 == m);
        assert forall|i: int| 0 <= i < ws.len() implies (#[trigger] ws[i]).1 <= weight(ws, 0) by {
            if i < rest.len() {
                assert(rest[i] == ws[i]);
            }
        }
    }
}

/// The terms of [`weight`].
spec fn weight_term(ws: Seq<(Seq<u16>, int)>, r: nat, i: int) -> int {
    ws[i].1 * lines(ws[i].0, r)
}

proof fn lemma_weight_sum(ws: Seq<(Seq<u16>, int)>, r: nat)
    ensures
        weight(ws, r) == sum(|i: int| weight_term(ws, r, i), ws.len() as int),
    decreases ws.len(),
{
    if ws.len() > 0 {
        let rest = ws.drop_last();
        lemma_weight_sum(rest, r);
        let f = |i: int| weight_term(ws, r, i);
        let f0 = |i: int| weight_term(rest, r, i);
        assert forall|i: int| 0 <= i < rest.len() implies #[trigger] f(i) == f0(i) by {
            assert(rest[i] == ws[i]);
        }
        crate::invariance::lemma_sum_equal(f, f0, rest.len() as int);
    }
}

/// A part of a list in another order weighs no more than the list, and as much
/// if it is the whole of it.
proof fn lemma_weight_selected(
    ws: Seq<(Seq<u16>, int)>,
    kept: Seq<(Seq<u16>, int)>,
    order: Seq<usize>,
    r: nat,
)
    requires
        forall|i: int| 0 <= i < ws.len() ==> (#[trigger] ws[i]).1 >= 0,
        lists_places(order, 0, ws.len() as int),
        ws.len() <= usize::MAX,
        kept.len() <= ws.len(),
        forall|i: int| 0 <= i < kept.len() ==> #[trigger] kept[i] == ws[order[i] as int],
    ensures
        weight(kept, r) <= weight(ws, r),
        kept.len() == ws.len() ==> weight(kept, r) == weight(ws, r),
{
    let n = ws.len() as int;
    lemma_lists_all(order, n);
    let s = |i: int| order[i] as int;
    let t = |x: int| order.index_of(x as usize);
    assert(crate::invariance::inverse_below(s, t, n)) by {
        assert forall|i: int| 0 <= i < n implies 0 <= #[trigger] s(i) < n && t(s(i)) == i by {
            assert(order.contains(order[i]));
            let k = order.index_of(order[i]);
            assert(order[k] == order[i]);
        }
        assert forall|x: int| 0 <= x < n implies 0 <= #[trigger] t(x) < n && s(t(x)) == x by {
            assert(order.contains(x as usize));
        }
    }
    let f = |i: int| weight_term(ws, r, i);
    crate::invariance::lemma_sum_permuted(f, s, t, n);
    lemma_weight_sum(ws, r);
    lemma_weight_sum(kept, r);
    let fs = |i: int| f(s(i));
    let fk = |i: int| weight_term(kept, r, i);
    assert forall|i: int| 0 <= i < kept.len() implies #[trigger] fk(i) == fs(i) by {
        assert(kept[i] == ws[order[i] as int]);
    }
    crate::invariance::lemma_sum_equal(fk, fs, kept.len() as int);
    assert forall|i: int| 0 <= i < n implies #[trigger] fs(i) >= 0 by {
        let x = order[i] as int;
        let m = ws[x].1;
        let l = lines(ws[x].0, r);
        assert(m * l >= 0) by (nonlinear_arith)
            requires
                m >= 0,
                l >= 0,
        ;
    }
    lemma_sum_monotone(fs, kept.len() as int, n);
}

proof fn lemma_sum_monotone(f: spec_fn(int) -> int, k: int, n: int)
    requires
        0 <= k <= n,
        forall|i: int| 0 <= i < n ==> #[trigger] f(i) >= 0,
    ensures
        sum(f, k) <= sum(f, n),
    decreases n - k,
{
    if k < n {
        lemma_sum_monotone(f, k + 1, n);
    }
}

/// The ways to go on from symmetric boards are equally many.
proof fn lemma_lines_by_number(a: Seq<u16>, b: Seq<u16>, r: nat)
    requires
        a.len() == 8,
        b.len() == 8,
        payload_number(canonical(a)) == payload_number(canonical(b)),
    ensures
        lines(a, r) == lines(b, r),
{
    lemma_canonical(a, a);
    lemma_canonical(b, b);
    lemma_payload_injective(canonical(a), canonical(b));
    law_canonical_complete(a, b);
    let g = choose|g: Sym| g.valid() && a == #[trigger] image(b, g);
    law_lines_invariant(b, g, r);
}

proof fn lemma_weight_take(ws: Seq<(Seq<u16>, int)>, k: int, r: nat)
    requires
        0 <= k < ws.len(),
    ensures
        weight(ws.take(k + 1), r) == weight(ws.take(k), r) + ws[k].1 * lines(ws[k].0, r),
{
    assert(ws.take(k + 1).drop_last() =~= ws.take(k));
    assert(ws.take(k + 1).last() == ws[k]);
}

proof fn lemma_weight_prefix(ws: Seq<(Seq<u16>, int)>, k: int, r: nat)
    requires
        0 <= k <= ws.len(),
        forall|i: int| 0 <= i < ws.len() ==> (#[trigger] ws[i]).1 >= 0,
    ensures
        0 <= weight(ws.take(k), r) <= weight(ws, r),
    decreases ws.len() - k,
{
    let part = ws.take(k);
    assert forall|i: int| 0 <= i < part.len() implies (#[trigger] part[i]).1 >= 0 by {
        assert(part[i] == ws[i]);
    }
    lemma_weight_nonneg(part, r);
    if k == ws.len() {
        assert(ws.take(k) =~= ws);
    } else {
        lemma_weight_take(ws, k, r);
        lemma_weight_prefix(ws, k + 1, r);
        let m = ws[k].1;
        let l = lines(ws[k].0, r);
        assert(m * l >= 0) by (nonlinear_arith)
            requires
                m >= 0,
                l >= 0,
        ;
    }
}

proof fn lemma_lines_after_take(b: Seq<u16>, moves: Seq<Move>, k: int, r: nat)
    requires
        0 <= k < moves.len(),
    ensures
        lines_after(b, moves.take(k + 1), r) == lines_after(b, moves.take(k), r) + lines(
            applied(b, moves[k]),
            r,
        ),
{
    assert(moves.take(k + 1).drop_last() =~= moves.take(k));
    assert(moves.take(k + 1).last() == moves[k]);
}

proof fn lemma_lines_after_zero(b: Seq<u16>, moves: Seq<Move>)
    ensures
        lines_after(b, moves, 0) == moves.len(),
    decreases moves.len(),
{
    if moves.len() > 0 {
        lemma_lines_after_zero(b, moves.drop_last());
    }
}

/// Whether the candidates and terminals that were made weigh what the boards
/// weigh that they were made of: the list `done`, and the moves `part` of a
/// board `b` that stands for `m` sequences.
spec fn balanced(
    cands: Seq<(Seq<u16>, int)>,
    terminals: int,
    base: int,
    done: Seq<(Seq<u16>, int)>,
    b: Seq<u16>,
    part: Seq<Move>,
    m: int,
) -> bool {
    forall|r: nat| #[trigger]
        weight(cands, r) + terminals == base + weight(done, r + 1) + m * lines_after(b, part, r)
}

/// The largest sum of multiplicities: that of sixteen moves.
pub const MAX_MULTIPLICITY: u128 = 0x2000_0000_0000_0000_0000;

/// Whether the index names, for each payload, a candidate that has it.
spec fn index_ok(index: Map<u128, usize>, cands: Seq<Entry>) -> bool {
    forall|key: u128| #[trigger]
        index.contains_key(key) ==> index[key] < cands.len() && payload_number(
            canonical(cands[index[key] as int].bb@),
        ) == key
}

/// Whether every candidate is found under the number of its board.
spec fn index_complete(index: Map<u128, usize>, cands: Seq<Entry>) -> bool {
    forall|i: int|
        #![trigger cands[i]]
        0 <= i < cands.len() ==> {
            let key = payload_number(canonical(cands[i].bb@)) as u128;
            &&& key == payload_number(canonical(cands[i].bb@))
            &&& index.contains_key(key)
            &&& index[key] == i
        }
}

/// The node of an entry.
spec fn node_of(e: Entry) -> BeamNode {
    BeamNode { moves: e.moves@, multiplicity: e.multiplicity as int }
}

/// The nodes of entries.
spec fn entry_nodes(es: Seq<Entry>) -> Seq<BeamNode> {
    Seq::new(es.len(), |i: int| node_of(es[i]))
}

/// What candidates and terminals say of a level.
spec fn level_of(cands: Seq<Entry>, terminals: Seq<BeamLeaf>) -> BeamLevel {
    BeamLevel { open: entry_nodes(cands), ended: leaf_nodes(terminals) }
}

spec fn entries_ok(root: Seq<u16>, es: Seq<Entry>, depth: int) -> bool {
    forall|i: int| 0 <= i < es.len() ==> entry_ok(root, #[trigger] es[i], depth)
}

/// Whether all leaves are terminal leaves of a search from `root`.
pub open spec fn terminals_ok(root: Seq<u16>, leaves: Seq<BeamLeaf>) -> bool {
    forall|i: int|
        0 <= i < leaves.len() ==> leaf_ok(root, #[trigger] leaves[i]) && leaves[i].is_terminal
}

proof fn lemma_total_push(leaves: Seq<BeamLeaf>, leaf: BeamLeaf)
    ensures
        total_multiplicity(leaves.push(leaf)) == total_multiplicity(leaves) + leaf.multiplicity,
{
    assert(leaves.push(leaf).drop_last() =~= leaves);
}

/// Add a terminal leaf.
fn push_terminal(
    leaves: &mut Vec<BeamLeaf>,
    moves: Vec<Move>,
    value: i64,
    depth: u32,
    multiplicity: u128,
    Ghost(root): Ghost<Seq<u16>>,
)
    requires
        terminals_ok(root, old(leaves)@),
        legal_line(root, moves@),
        moves@.len() == depth,
        multiplicity >= 1,
        finished(after_line(root, moves@)),
        value == outcome(after_line(root, moves@)),
        -1 <= value <= 1,
    ensures
        terminals_ok(root, final(leaves)@),
        final(leaves)@.len() == old(leaves)@.len() + 1,
        leaf_nodes(final(leaves)@) == leaf_nodes(old(leaves)@).push(
            BeamNode { moves: moves@, multiplicity: multiplicity as int },
        ),
        total_multiplicity(final(leaves)@) == total_multiplicity(old(leaves)@) + multiplicity,
{
    let ghost before = leaves@;
    let ghost line = moves@;
    leaves.push(
        BeamLeaf { moves, value: Ratio { num: value, den: 1 }, depth, is_terminal: true, multiplicity },
    );
    proof {
        lemma_total_push(before, leaves@.last());
        assert(leaf_nodes(leaves@) =~= leaf_nodes(before).push(
            BeamNode { moves: line, multiplicity: multiplicity as int },
        ));
        assert(leaves@ =~= before.push(leaves@.last()));
        assert forall|i: int| 0 <= i < leaves@.len() implies leaf_ok(root, #[trigger] leaves@[i])
            && leaves@[i].is_terminal by {
            if i < before.len() {
                assert(leaves@[i] == before[i]);
            }
        }
    }
}

/// `moves` and one more.
fn extended(moves: &Vec<Move>, mv: Move) -> (longer: Vec<Move>)
    ensures
        longer@ == moves@.push(mv),
{
    let mut longer = copy_moves(moves);
    longer.push(mv);
    longer
}

/// The state of an expansion: what has been made so far, and the counts.
struct Expansion {
    candidates: Vec<Entry>,
    index: HashMap<u128, usize>,
    stats: BeamStats,
    counts: Ghost<BeamCounts>,
}

impl Expansion {
    spec fn wf(&self, root: Seq<u16>, depth: int) -> bool {
        &&& entries_ok(root, self.candidates@, depth)
        &&& index_ok(self.index@, self.candidates@)
        &&& index_complete(self.index@, self.candidates@)
        &&& shows(self.stats, self.counts@)
    }

    /// Take the board `child` up, which is reached by `mv` from the entry `e`:
    /// as a terminal, as one more way to a known candidate, or as a new one.
    fn take_child(
        &mut self,
        e: &Entry,
        mv: Move,
        depth: u32,
        terminals: &mut Vec<BeamLeaf>,
        Ghost(root): Ghost<Seq<u16>>,
    )
        requires
            old(self).wf(root, depth as int),
            terminals_ok(root, old(terminals)@),
            depth >= 1,
            entry_ok(root, *e, depth - 1),
            legal_move(e.bb@, mv),
            weight(entries_view(old(self).candidates@), 0) + e.multiplicity <= u128::MAX,
        ensures
            final(self).wf(root, depth as int),
            terminals_ok(root, final(terminals)@),
            level_of(final(self).candidates@, final(terminals)@) == with_child(
                root,
                level_of(old(self).candidates@, old(terminals)@),
                node_of(*e),
                mv,
            ),
            forall|r: nat| #[trigger]
                weight(entries_view(final(self).candidates@), r) + total_multiplicity(
                    final(terminals)@,
                ) == weight(entries_view(old(self).candidates@), r) + total_multiplicity(
                    old(terminals)@,
                ) + e.multiplicity * lines(applied(e.bb@, mv), r),
            final(self).candidates@.len() >= old(self).candidates@.len(),
            final(terminals)@.len() >= old(terminals)@.len(),
            total_multiplicity(final(terminals)@) >= total_multiplicity(old(terminals)@),
            ({
                let c = old(self).counts@;
                let d = final(self).counts@;
                &&& d.generated == c.generated
                &&& d.pruned == c.pruned
                &&& d.evaluations == c.evaluations
                &&& d.rollouts == c.rollouts
                &&& d.deduped - c.deduped + d.ended - c.ended + final(self).candidates@.len() - old(
                    self,
                ).candidates@.len() == 1
                &&& d.ended - c.ended == final(terminals)@.len() - old(terminals)@.len()
                &&& d.inserted - c.inserted == final(terminals)@.len() - old(terminals)@.len()
            }),
    {
        broadcast use vstd::std_specs::hash::group_hash_axioms;

        let ghost view0 = entries_view(self.candidates@);
        let ghost cands0 = self.candidates@;
        let ghost t0 = total_multiplicity(terminals@);
        let ghost m = e.multiplicity as int;
        let child = apply_move(&e.bb, &mv);
        let ghost b = child@;
        proof {
            lemma_line_push(root, e.moves@, mv);
        }
        let ghost level0 = level_of(cands0, terminals@);
        let ghost node = child_node(node_of(*e), mv);
        let replies = generate_legal_moves(&child);
        let (over, value): (bool, i64) = board_outcome(&child, &replies);
        if over {
            let line = extended(&e.moves, mv);
            push_terminal(terminals, line, value, depth, e.multiplicity, Ghost(root));
            let ghost c0 = self.counts@;
            self.stats.nodes_inserted = self.stats.nodes_inserted.saturating_add(1);
            self.counts = Ghost(
                BeamCounts { inserted: c0.inserted + 1, ended: c0.ended + 1, ..c0 },
            );
            proof {
                assert forall|r: nat| #[trigger]
                    weight(entries_view(self.candidates@), r) + total_multiplicity(terminals@)
                        == weight(view0, r) + t0 + m * lines(b, r) by {
                    assert(lines(b, r) == 1);
                    assert(m * 1 == m);
                }
                assert(level_of(self.candidates@, terminals@) == with_child(
                    root,
                    level0,
                    node_of(*e),
                    mv,
                ));
            }
            return;
        }
        let number = SymmetryHandler::canonical_number(&child);
        if let Some(found) = self.index.get(&number) {
            let existing: usize = *found;
            let ghost c0 = self.counts@;
            proof {
                assert(self.index@.contains_key(number));
                lemma_entries_nonneg(cands0);
                lemma_weight_nonneg(view0, 0);
                assert(view0[existing as int].1 <= weight(view0, 0));
            }
            let sum_of: u128 = self.candidates[existing].multiplicity + e.multiplicity;
            self.candidates[existing].multiplicity = sum_of;
            self.stats.candidates_deduped = self.stats.candidates_deduped.saturating_add(1);
            self.counts = Ghost(BeamCounts { deduped: c0.deduped + 1, ..c0 });
            proof {
                let i = existing as int;
                let view1 = entries_view(self.candidates@);
                assert(view1 =~= view0.update(i, (view0[i].0, view0[i].1 + m)));
                assert forall|r: nat| #[trigger]
                    weight(entries_view(self.candidates@), r) + total_multiplicity(terminals@)
                        == weight(view0, r) + t0 + m * lines(b, r) by {
                    lemma_weight_update(view0, i, m, r);
                    lemma_lines_by_number(cands0[i].bb@, b, r);
                }
                assert forall|k: int| 0 <= k < self.candidates@.len() implies entry_ok(
                    root,
                    #[trigger] self.candidates@[k],
                    depth as int,
                ) by {
                    assert(entry_ok(root, cands0[k], depth as int));
                }
                assert forall|key: u128| #[trigger] self.index@.contains_key(key) implies self.index@[key]
                    < self.candidates@.len() && payload_number(
                    canonical(self.candidates@[self.index@[key] as int].bb@),
                ) == key by {
                    assert(self.candidates@[self.index@[key] as int].bb
                        == cands0[self.index@[key] as int].bb);
                }
                assert forall|k: int| #![trigger self.candidates@[k]]
                    0 <= k < self.candidates@.len() implies {
                    let key = payload_number(canonical(self.candidates@[k].bb@)) as u128;
                    &&& key == payload_number(canonical(self.candidates@[k].bb@))
                    &&& self.index@.contains_key(key)
                    &&& self.index@[key] == k
                } by {
                    assert(self.candidates@[k].bb == cands0[k].bb);
                }
                assert(entry_ok(root, cands0[i], depth as int));
                assert(merges_at(root, level0.open, node, i));
                let j = choose|j: int| #[trigger] merges_at(root, level0.open, node, j);
                assert(entry_ok(root, cands0[j], depth as int));
                assert(payload_number(canonical(cands0[j].bb@)) == number);
                assert(j == i);
                let made = with_child(root, level0, node_of(*e), mv);
                assert(entry_nodes(self.candidates@) =~= made.open);
            }
            return;
        }
        let line = extended(&e.moves, mv);
        let at: usize = self.candidates.len();
        self.index.insert(number, at);
        self.candidates.push(
            Entry { bb: child, moves: line, mover: mv.player, multiplicity: e.multiplicity },
        );
        proof {
            let view1 = entries_view(self.candidates@);
            assert(view1 =~= view0.push((b, m)));
            assert forall|r: nat| #[trigger]
                weight(entries_view(self.candidates@), r) + total_multiplicity(terminals@)
                    == weight(view0, r) + t0 + m * lines(b, r) by {
                lemma_weight_push(view0, b, m, r);
            }
            assert forall|k: int| 0 <= k < self.candidates@.len() implies entry_ok(
                root,
                #[trigger] self.candidates@[k],
                depth as int,
            ) by {
                if k < cands0.len() {
                    assert(self.candidates@[k] == cands0[k]);
                }
            }
            assert forall|key: u128| #[trigger] self.index@.contains_key(key) implies self.index@[key]
                < self.candidates@.len() && payload_number(
                canonical(self.candidates@[self.index@[key] as int].bb@),
            ) == key by {
                if key != number {
                    assert(self.candidates@[self.index@[key] as int]
                        == cands0[self.index@[key] as int]);
                }
            }
            assert forall|k: int| #![trigger self.candidates@[k]]
                0 <= k < self.candidates@.len() implies {
                let key = payload_number(canonical(self.candidates@[k].bb@)) as u128;
                &&& key == payload_number(canonical(self.candidates@[k].bb@))
                &&& self.index@.contains_key(key)
                &&& self.index@[key] == k
            } by {
                if k < cands0.len() {
                    assert(self.candidates@[k] == cands0[k]);
                }
            }
            assert forall|j: int| !#[trigger] merges_at(root, level0.open, node, j) by {
                if merges_at(root, level0.open, node, j) {
                    assert(entry_ok(root, cands0[j], depth as int));
                    assert(payload_number(canonical(cands0[j].bb@)) == number);
                }
            }
            assert(entry_nodes(self.candidates@) =~= level0.open.push(node));
        }
    }
}

proof fn lemma_entries_nonneg(es: Seq<Entry>)
    ensures
        forall|i: int| 0 <= i < entries_view(es).len() ==> (#[trigger] entries_view(es)[i]).1 >= 0,
{
}

/// Expand every frontier entry: terminals are recorded, other boards become
/// candidates.
fn expand_frontier(
    frontier: &Vec<Entry>,
    depth: u32,
    stats: BeamStats,
    Ghost(counts): Ghost<BeamCounts>,
    terminals: &mut Vec<BeamLeaf>,
    Ghost(root): Ghost<Seq<u16>>,
) -> (x: Expansion)
    requires
        depth >= 1,
        entries_ok(root, frontier@, depth - 1),
        terminals_ok(root, old(terminals)@),
        shows(stats, counts),
        weight(entries_view(frontier@), 1) <= MAX_MULTIPLICITY,
    ensures
        x.wf(root, depth as int),
        terminals_ok(root, final(terminals)@),
        level_of(x.candidates@, final(terminals)@) == next_level(
            root,
            leaf_nodes(old(terminals)@),
            entry_nodes(frontier@),
            frontier@.len() as int,
        ),
        forall|r: nat| #[trigger]
            weight(entries_view(x.candidates@), r) + total_multiplicity(final(terminals)@)
                == total_multiplicity(old(terminals)@) + weight(entries_view(frontier@), r + 1),
        final(terminals)@.len() >= old(terminals)@.len(),
        ({
            let c = counts;
            let d = x.counts@;
            &&& d.pruned == c.pruned
            &&& d.evaluations == c.evaluations
            &&& d.rollouts == c.rollouts
            &&& d.generated - c.generated == moves_from(
                root,
                entry_nodes(frontier@),
                frontier@.len() as int,
            )
            &&& d.generated - c.generated == d.deduped - c.deduped + d.ended - c.ended
                + x.candidates@.len()
            &&& d.ended - c.ended == final(terminals)@.len() - old(terminals)@.len()
            &&& d.inserted - c.inserted == final(terminals)@.len() - old(terminals)@.len()
        }),
{
    broadcast use vstd::std_specs::hash::group_hash_axioms;

    let ghost fview = entries_view(frontier@);
    let ghost t0 = total_multiplicity(terminals@);
    let ghost len0 = terminals@.len();
    let ghost ended0 = leaf_nodes(terminals@);
    let ghost nodes = entry_nodes(frontier@);
    let mut x = Expansion {
        candidates: Vec::new(),
        index: HashMap::new(),
        stats,
        counts: Ghost(counts),
    };
    proof {
        lemma_entries_nonneg(frontier@);
        assert(entry_nodes(x.candidates@) =~= Seq::empty());
        assert forall|r: nat| #[trigger] weight(entries_view(x.candidates@), r) + t0 == t0 + weight(
            fview.take(0),
            r + 1,
        ) by {
            assert(weight(fview.take(0), r + 1) == 0);
        }
    }
    let mut e: usize = 0;
    while e < frontier.len()
        invariant
            depth >= 1,
            e <= frontier@.len(),
            entries_ok(root, frontier@, depth - 1),
            fview == entries_view(frontier@),
            weight(fview, 1) <= MAX_MULTIPLICITY,
            forall|i: int| 0 <= i < fview.len() ==> (#[trigger] fview[i]).1 >= 0,
            x.wf(root, depth as int),
            terminals_ok(root, terminals@),
            nodes == entry_nodes(frontier@),
            level_of(x.candidates@, terminals@) == next_level(root, ended0, nodes, e as int),
            t0 <= total_multiplicity(terminals@),
            len0 <= terminals@.len(),
            len0 == old(terminals)@.len(),
            forall|r: nat| #[trigger]
                weight(entries_view(x.candidates@), r) + total_multiplicity(terminals@) == t0
                    + weight(fview.take(e as int), r + 1),
            x.counts@.pruned == counts.pruned,
            x.counts@.evaluations == counts.evaluations,
            x.counts@.rollouts == counts.rollouts,
            x.counts@.generated - counts.generated == moves_from(root, nodes, e as int),
            x.counts@.generated - counts.generated == x.counts@.deduped - counts.deduped
                + x.counts@.ended - counts.ended + x.candidates@.len(),
            x.counts@.ended - counts.ended == terminals@.len() - len0,
            x.counts@.inserted - counts.inserted == terminals@.len() - len0,
        decreases frontier@.len() - e,
    {
        let entry = &frontier[e];
        let ghost b = entry.bb@;
        let ghost m = entry.multiplicity as int;
        proof {
            assert(entry_ok(root, frontier@[e as int], depth - 1));
            assert(fview[e as int] == (b, m));
            lemma_legal_moves(b);
        }
        let moves = generate_legal_moves(&entry.bb);
        let ghost c0 = x.counts@;
        let ghost t1 = total_multiplicity(terminals@);
        let ghost len1 = terminals@.len();
        let ghost view1 = entries_view(x.candidates@);
        let ghost n1 = x.candidates@.len();
        let ghost level1 = level_of(x.candidates@, terminals@);
        assert(nodes[e as int] == node_of(*entry));
        x.stats.candidates_generated = x.stats.candidates_generated.saturating_add(
            moves.len() as u64,
        );
        x.counts = Ghost(BeamCounts { generated: c0.generated + moves@.len(), ..c0 });
        let mut k: usize = 0;
        proof {
            assert(moves@.take(0) =~= Seq::<Move>::empty());
            assert forall|r: nat| #[trigger]
                weight(entries_view(x.candidates@), r) + total_multiplicity(terminals@)
                    == weight(view1, r) + t1 + m * lines_after(b, moves@.take(0), r) by {
                assert(m * 0 == 0);
            }
        }
        while k < moves.len()
            invariant
                depth >= 1,
                e < frontier@.len(),
                k <= moves@.len(),
                *entry == frontier@[e as int],
                entry_ok(root, *entry, depth - 1),
                b == entry.bb@,
                b.len() == 8,
                m == entry.multiplicity,
                m >= 1,
                moves@ == legal_moves(b),
                moves@.len() > 0,
                !finished(b),
                fview == entries_view(frontier@),
                fview[e as int] == (b, m),
                weight(fview, 1) <= MAX_MULTIPLICITY,
                forall|i: int| 0 <= i < fview.len() ==> (#[trigger] fview[i]).1 >= 0,
                forall|i: int| 0 <= i < moves@.len() ==> legal_move(b, #[trigger] moves@[i]),
                x.wf(root, depth as int),
                terminals_ok(root, terminals@),
                level_of(x.candidates@, terminals@) == with_children(
                    root,
                    level1,
                    node_of(*entry),
                    moves@,
                    k as int,
                ),
                t0 <= t1 <= total_multiplicity(terminals@),
                weight(view1, 0) + t1 == t0 + weight(fview.take(e as int), 1),
                forall|r: nat| #[trigger]
                    weight(entries_view(x.candidates@), r) + total_multiplicity(terminals@)
                        == weight(view1, r) + t1 + m * lines_after(b, moves@.take(k as int), r),
                len1 <= terminals@.len(),
                x.counts@.pruned == c0.pruned,
                x.counts@.evaluations == c0.evaluations,
                x.counts@.rollouts == c0.rollouts,
                x.counts@.generated == c0.generated + moves@.len(),
                k as int == x.counts@.deduped - c0.deduped + x.counts@.ended - c0.ended
                    + x.candidates@.len() - n1,
                0 <= x.counts@.ended - c0.ended,
                x.counts@.ended - c0.ended == terminals@.len() - len1,
                x.counts@.inserted - c0.inserted == terminals@.len() - len1,
            decreases moves@.len() - k,
        {
            let ghost tk = total_multiplicity(terminals@);
            let ghost viewk = entries_view(x.candidates@);
            proof {
                lemma_lines_after_zero(b, moves@.take(k as int));
                assert(weight(viewk, 0) + tk == weight(view1, 0) + t1 + m * lines_after(
                    b,
                    moves@.take(k as int),
                    0,
                ));
                lemma_weight_take(fview, e as int, 1);
                lemma_weight_prefix(fview, e + 1, 1);
                lemma_lines_step(b, 1);
                lemma_lines_after_zero(b, moves@);
                assert(m * k + m <= m * moves@.len()) by (nonlinear_arith)
                    requires
                        k + 1 <= moves@.len(),
                        m >= 1,
                ;
                assert(weight(viewk, 0) + m <= MAX_MULTIPLICITY);
                assert(legal_move(b, moves@[k as int]));
            }
            x.take_child(entry, moves[k], depth, terminals, Ghost(root));
            proof {
                let mv = moves@[k as int];
                assert forall|r: nat| #[trigger]
                    weight(entries_view(x.candidates@), r) + total_multiplicity(terminals@)
                        == weight(view1, r) + t1 + m * lines_after(
                        b,
                        moves@.take(k + 1),
                        r,
                    ) by {
                    lemma_lines_after_take(b, moves@, k as int, r);
                    let before = lines_after(b, moves@.take(k as int), r) as int;
                    let more = lines(applied(b, mv), r) as int;
                    assert(m * (before + more) == m * before + m * more) by (nonlinear_arith);
                    assert(weight(viewk, r) + tk == weight(view1, r) + t1 + m * before);
                }
            }
            k = k + 1;
        }
        proof {
            assert(moves@.take(k as int) =~= moves@);
            assert forall|r: nat| #[trigger]
                weight(entries_view(x.candidates@), r) + total_multiplicity(terminals@) == t0
                    + weight(fview.take(e + 1), r + 1) by {
                lemma_weight_take(fview, e as int, r + 1);
                lemma_lines_step(b, r + 1);
                assert(weight(view1, r) + t1 == t0 + weight(fview.take(e as int), r + 1));
            }
        }
        e = e + 1;
    }
    assert(fview.take(e as int) =~= fview);
    x
}

/// The sum of the outcomes of `rollouts` random playouts.
fn rollout_total(bb: &Bitboard, rollouts: u32, rng: &mut StdRng) -> (total: i64)
    ensures
        -(rollouts as int) <= total <= rollouts,
        (total as int, *final(rng)) == rollout_of(bb@, rollouts as nat, *old(rng)),
        playout_sum(bb@, rollouts as nat, total as int),
        finished(bb@) ==> total == rollouts * outcome(bb@),
{
    let mut total: i64 = 0;
    let mut i: u32 = 0;
    proof {
        crate::bitboard::lemma_popcount(crate::bitboard::taken(bb@), 0);
    }
    while i < rollouts
        invariant
            i <= rollouts,
            -(i as int) <= total <= i,
            playout_sum(bb@, i as nat, total as int),
            (total as int, *rng) == rollout_of(bb@, i as nat, *old(rng)),
            empty_cells(bb@) <= 16,
        decreases rollouts - i,
    {
        let r: i64 = playout(bb, 17, rng);
        assert(playout_sum(bb@, (i + 1) as nat, total + r)) by {
            assert(playout_value(bb@, 17, r as int));
            assert(playout_sum(bb@, i as nat, (total + r) - r));
        }
        total = total + r;
        i = i + 1;
    }
    proof {
        if finished(bb@) {
            law_finished_boards_sum(bb@, rollouts as nat, total as int);
        }
    }
    total
}

/// `q` in the range from minus one to one, in millionths.
fn clamp_custom(q: i64) -> (v: i64)
    ensures
        v == clamped(q as int),
{
    if q > EVALUATOR_UNIT {
        EVALUATOR_UNIT
    } else if q < -EVALUATOR_UNIT {
        -EVALUATOR_UNIT
    } else {
        q
    }
}

/// The values of the candidates for player 0, in units of `scale`: those of the
/// evaluator, or the sums of the outcomes of random playouts.
fn evaluate_candidates<F: Fn(&Bitboard) -> i64>(
    candidates: &Vec<Entry>,
    custom: bool,
    evaluator: &F,
    rollouts: u32,
    rng: &mut StdRng,
) -> (values: Vec<i64>)
    requires
        forall|bb: &Bitboard| #[trigger] call_requires(*evaluator, (bb,)),
    ensures
        values@.len() == candidates@.len(),
        custom ==> *final(rng) == *old(rng),
        !custom ==> (numbers(values@), *final(rng)) == values_drawn(
            entry_boards(candidates@),
            rollouts as nat,
            candidates@.len() as int,
            *old(rng),
        ),
        forall|i: int|
            0 <= i < values@.len() ==> value_fits(
                custom,
                *evaluator,
                rollouts,
                candidates@[i].bb@,
                #[trigger] values@[i] as int,
            ),
{
    assert(numbers(Seq::<i64>::empty()) =~= Seq::empty());
    let mut values: Vec<i64> = Vec::new();
    let mut i: usize = 0;
    while i < candidates.len()
        invariant
            i <= candidates@.len(),
            values@.len() == i,
            custom ==> *rng == *old(rng),
            !custom ==> (numbers(values@), *rng) == values_drawn(
                entry_boards(candidates@),
                rollouts as nat,
                i as int,
                *old(rng),
            ),
            forall|bb: &Bitboard| #[trigger] call_requires(*evaluator, (bb,)),
            forall|j: int|
                0 <= j < i ==> value_fits(
                    custom,
                    *evaluator,
                    rollouts,
                    candidates@[j].bb@,
                    #[trigger] values@[j] as int,
                ),
        decreases candidates@.len() - i,
    {
        let bb: &Bitboard = &candidates[i].bb;
        let v: i64 = if custom {
            let q: i64 = evaluator(bb);
            let v: i64 = clamp_custom(q);
            assert(custom_value(*evaluator, bb@, v as int)) by {
                assert(call_ensures(*evaluator, (bb,), q));
            }
            v
        } else {
            rollout_total(bb, rollouts, rng)
        };
        let ghost before = values@;
        values.push(v);
        assert(numbers(values@) =~= numbers(before).push(v as int));
        i = i + 1;
    }
    values
}

/// Whole numbers as such.
spec fn numbers(values: Seq<i64>) -> Seq<int> {
    Seq::new(values.len(), |i: int| values[i] as int)
}

/// The boards of entries.
spec fn entry_boards(es: Seq<Entry>) -> Seq<Seq<u16>> {
    Seq::new(es.len(), |i: int| es[i].bb@)
}

/// Whether `v` can be the value of the board `b`.
pub open spec fn value_fits<F: Fn(&Bitboard) -> i64>(
    custom: bool,
    f: F,
    rollouts: u32,
    b: Seq<u16>,
    v: int,
) -> bool {
    if custom {
        custom_value(f, b, v)
    } else {
        -(rollouts as int) <= v <= rollouts && playout_sum(b, rollouts as nat, v)
    }
}

/// Whether all values of the levels of a search can be the values of their boards.
spec fn values_fit<F: Fn(&Bitboard) -> i64>(
    custom: bool,
    f: F,
    cfg: BeamSearchConfig,
    root: Seq<u16>,
    t: Seq<BeamStep>,
) -> bool {
    forall|d: int, i: int|
        0 <= d < t.len() && 0 <= i < t[d].values.len() ==> value_fits(
            custom,
            f,
            rollouts_at(cfg, d + 1),
            after_line(root, t[d].open[i].moves),
            #[trigger] t[d].values[i],
        )
}

/// The value of a candidate for the player who moved to it.
spec fn mover_score(e: Entry, v: int) -> int {
    if e.mover == 0 {
        v
    } else {
        -v
    }
}

/// Whether the candidate at `i` belongs before the one at `j`.
spec fn scores_before(cands: Seq<Entry>, values: Seq<i64>, i: int, j: int) -> bool {
    let x = mover_score(cands[i], values[i] as int);
    let y = mover_score(cands[j], values[j] as int);
    x > y || (x == y && i < j)
}

/// Whether `kept` are the first candidates by `order`.
spec fn survivors(
    cands: Seq<Entry>,
    values: Seq<i64>,
    order: Seq<usize>,
    kept: Seq<Entry>,
    kept_values: Seq<i64>,
) -> bool {
    &&& kept.len() == kept_values.len()
    &&& kept.len() <= cands.len()
    &&& forall|i: int|
        0 <= i < kept.len() ==> {
            let c = cands[order[i] as int];
            let k = #[trigger] kept[i];
            &&& k.bb == c.bb
            &&& k.moves@ == c.moves@
            &&& k.mover == c.mover
            &&& k.multiplicity == c.multiplicity
            &&& kept_values[i] == values[order[i] as int]
        }
}

/// The order of the candidates ranks their nodes.
proof fn lemma_ranked(
    root: Seq<u16>,
    cands: Seq<Entry>,
    values: Seq<i64>,
    order: Seq<usize>,
    depth: int,
    step: BeamStep,
)
    requires
        depth > 0,
        entries_ok(root, cands, depth),
        values.len() == cands.len(),
        lists_places(order, 0, cands.len() as int),
        forall|i: int, j: int|
            0 <= i < j < cands.len() ==> scores_before(
                cands,
                values,
                #[trigger] order[i] as int,
                #[trigger] order[j] as int,
            ),
        step.open == entry_nodes(cands),
        step.values == numbers(values),
        step.order == order,
    ensures
        ranked(step.open, step.values, order),
{
    assert forall|i: int, j: int| 0 <= i < j < order.len() implies outranks(
        step.open,
        step.values,
        #[trigger] order[i] as int,
        #[trigger] order[j] as int,
    ) by {
        assert(scores_before(cands, values, order[i] as int, order[j] as int));
        assert(entry_ok(root, cands[order[i] as int], depth));
        assert(entry_ok(root, cands[order[j] as int], depth));
    }
}

proof fn lemma_values_push<F: Fn(&Bitboard) -> i64>(
    custom: bool,
    f: F,
    cfg: BeamSearchConfig,
    root: Seq<u16>,
    t: Seq<BeamStep>,
    step: BeamStep,
    cands: Seq<Entry>,
)
    requires
        values_fit(custom, f, cfg, root, t),
        entries_ok(root, cands, t.len() as int + 1),
        step.open == entry_nodes(cands),
        step.values.len() == cands.len(),
        forall|i: int|
            0 <= i < cands.len() ==> value_fits(
                custom,
                f,
                rollouts_at(cfg, t.len() as int + 1),
                (#[trigger] cands[i]).bb@,
                step.values[i],
            ),
    ensures
        values_fit(custom, f, cfg, root, t.push(step)),
{
    let after = t.push(step);
    assert forall|d: int, i: int| 0 <= d < after.len() && 0 <= i < after[d].values.len() implies
        value_fits(
        custom,
        f,
        rollouts_at(cfg, d + 1),
        after_line(root, after[d].open[i].moves),
        #[trigger] after[d].values[i],
    ) by {
        if d < t.len() {
            assert(after[d] == t[d]);
            let v = t[d].values[i];
        } else {
            assert(entry_ok(root, cands[i], t.len() as int + 1));
        }
    }
}

/// Whether the levels follow from each other, have values that fit, and come to the counts.
#[verifier::opaque]
spec fn levels_ok<F: Fn(&Bitboard) -> i64>(
    root: Seq<u16>,
    cfg: BeamSearchConfig,
    custom: bool,
    f: F,
    t: Seq<BeamStep>,
    counts: BeamCounts,
    rng: StdRng,
) -> bool {
    &&& steps_ok(root, cfg, t)
    &&& values_fit(custom, f, cfg, root, t)
    &&& levels_drawn(root, cfg, custom, t, rng)
    &&& counts == counts_of(root, cfg, custom, t, t.len() as int)
}

/// A level that is done goes on top of the levels before it.
proof fn lemma_level_done<F: Fn(&Bitboard) -> i64>(
    root: Seq<u16>,
    cfg: BeamSearchConfig,
    custom: bool,
    f: F,
    t: Seq<BeamStep>,
    step: BeamStep,
    cands: Seq<Entry>,
    values: Seq<i64>,
    next: Seq<Entry>,
    next_values: Seq<i64>,
    before: BeamCounts,
    after: BeamCounts,
    rng: StdRng,
)
    requires
        levels_ok(root, cfg, custom, f, t, before, rng),
        frontier_at(cfg, t, t.len() as int).len() > 0,
        cands.len() <= usize::MAX,
        if custom {
            step.rng == generator_at(t, rng, t.len() as int)
        } else {
            (numbers(values), step.rng) == values_drawn(
                entry_boards(cands),
                rollouts_at(cfg, t.len() as int + 1) as nat,
                cands.len() as int,
                generator_at(t, rng, t.len() as int),
            )
        },
        ({
            let n = t.len() as int;
            let frontier = frontier_at(cfg, t, n);
            let made = moves_from(root, frontier, frontier.len() as int);
            let over = step.ended.len() - ended_at(t, n).len();
            &&& after.generated == before.generated + made
            &&& after.deduped == before.deduped + made - over - cands.len()
            &&& after.inserted == before.inserted + over + next.len()
            &&& after.pruned == before.pruned + cands.len() - next.len()
            &&& after.evaluations == before.evaluations + cands.len()
            &&& after.rollouts == before.rollouts + if custom {
                0
            } else {
                cands.len() * rollouts_at(cfg, n + 1)
            }
            &&& after.ended == before.ended + over
        }),
        entries_ok(root, cands, t.len() as int + 1),
        values.len() == cands.len(),
        step.open == entry_nodes(cands),
        step.values == numbers(values),
        ({
            let frontier = frontier_at(cfg, t, t.len() as int);
            let level = next_level(
                root,
                ended_at(t, t.len() as int),
                frontier,
                frontier.len() as int,
            );
            step.open == level.open && step.ended == level.ended
        }),
        lists_places(step.order, 0, cands.len() as int),
        forall|i: int, j: int|
            0 <= i < j < cands.len() ==> scores_before(
                cands,
                values,
                #[trigger] step.order[i] as int,
                #[trigger] step.order[j] as int,
            ),
        forall|i: int|
            0 <= i < values.len() ==> value_fits(
                custom,
                f,
                rollouts_at(cfg, t.len() as int + 1),
                cands[i].bb@,
                #[trigger] values[i] as int,
            ),
        survivors(cands, values, step.order, next, next_values),
        next.len() == (if cands.len() <= width_at(cfg, t.len() as int + 1) {
            cands.len()
        } else {
            width_at(cfg, t.len() as int + 1) as nat
        }),
    ensures
        levels_ok(root, cfg, custom, f, t.push(step), after, rng),
        frontier_at(cfg, t.push(step), t.len() as int + 1) == entry_nodes(next),
        ended_at(t.push(step), t.len() as int + 1) == step.ended,
        forall|i: int|
            0 <= i < next_values.len() ==> #[trigger] next_values[i] == step.values[step.order[i] as int],
{
    let n = t.len() as int;
    let longer = t.push(step);
    let width = width_at(cfg, n + 1);
    reveal(levels_ok);
    lemma_ranked(root, cands, values, step.order, n + 1, step);
    lemma_steps_push(root, cfg, t, step);
    lemma_counts_push(root, cfg, custom, t, step, n);
    assert forall|i: int| 0 <= i < cands.len() implies value_fits(
        custom,
        f,
        rollouts_at(cfg, n + 1),
        (#[trigger] cands[i]).bb@,
        step.values[i],
    ) by {
        let v = values[i];
    }
    lemma_values_push(custom, f, cfg, root, t, step, cands);
    assert(entry_nodes(next) =~= kept_nodes(step, width)) by {
        assert forall|i: int| 0 <= i < next.len() implies #[trigger] entry_nodes(next)[i]
            == kept_nodes(step, width)[i] by {
            let k = next[i];
        }
    }
    assert forall|i: int| 0 <= i < next_values.len() implies #[trigger] next_values[i]
        == step.values[step.order[i] as int] by {
        let k = next[i];
    }
    assert(longer[n] == step);
    assert(frontier_at(cfg, longer, n) == frontier_at(cfg, t, n));
    assert(ended_at(longer, n) == ended_at(t, n));
    assert(after == counts_of(root, cfg, custom, longer, n + 1));
    assert(node_boards(root, step.open) =~= entry_boards(cands)) by {
        assert forall|i: int| 0 <= i < cands.len() implies #[trigger] node_boards(
            root,
            step.open,
        )[i] == entry_boards(cands)[i] by {
            assert(entry_ok(root, cands[i], n + 1));
        }
    }
    assert forall|d: int| 0 <= d < longer.len() implies #[trigger] level_drawn(
        root,
        cfg,
        custom,
        longer,
        rng,
        d,
    ) by {
        assert(generator_at(longer, rng, d) == generator_at(t, rng, d));
        if d < n {
            assert(longer[d] == t[d]);
            assert(level_drawn(root, cfg, custom, t, rng, d));
        }
    }
}

/// Keep the `width` best candidates for their movers, best first; ties go to the
/// candidate that was found first.
fn prune(candidates: &Vec<Entry>, values: &Vec<i64>, width: usize) -> (r: (
    Vec<Entry>,
    Vec<i64>,
    Ghost<Seq<usize>>,
))
    requires
        values@.len() == candidates@.len(),
        forall|i: int|
            0 <= i < values@.len() ==> -0x1_0000_0000 <= #[trigger] values@[i] <= 0x1_0000_0000,
    ensures
        r.0@.len() == (if candidates@.len() <= width {
            candidates@.len()
        } else {
            width as nat
        }),
        lists_places(r.2@, 0, candidates@.len() as int),
        survivors(candidates@, values@, r.2@, r.0@, r.1@),
        forall|i: int, j: int|
            0 <= i < j < candidates@.len() ==> scores_before(
                candidates@,
                values@,
                #[trigger] r.2@[i] as int,
                #[trigger] r.2@[j] as int,
            ),
{
    let n: usize = candidates.len();
    let mut scores: Vec<i64> = Vec::new();
    let mut i: usize = 0;
    while i < n
        invariant
            n == candidates@.len(),
            values@.len() == n,
            i <= n,
            scores@.len() == i,
            forall|k: int|
                0 <= k < values@.len() ==> -0x1_0000_0000 <= #[trigger] values@[k] <= 0x1_0000_0000,
            forall|k: int|
                0 <= k < i ==> #[trigger] scores@[k] == mover_score(
                    candidates@[k],
                    values@[k] as int,
                ),
        decreases n - i,
    {
        let v: i64 = values[i];
        if candidates[i].mover == 0 {
            scores.push(v);
        } else {
            scores.push(-v);
        }
        i = i + 1;
    }
    let le = |a: usize, b: usize| -> (r: bool)
        requires
            a < scores@.len(),
            b < scores@.len(),
        ensures
            r == (scores@[a as int] >= scores@[b as int]),
        { scores[a] >= scores[b] };
    let ghost rel = |a: int, b: int| scores@[a] >= scores@[b];
    let order = sort_places(n, &le, Ghost(rel));
    let kept: usize = if n <= width {
        n
    } else {
        width
    };
    let mut frontier: Vec<Entry> = Vec::new();
    let mut frontier_values: Vec<i64> = Vec::new();
    let mut k: usize = 0;
    while k < kept
        invariant
            k <= kept,
            kept <= n,
            n == candidates@.len(),
            values@.len() == n,
            lists_places(order@, 0, n as int),
            frontier@.len() == k,
            survivors(candidates@, values@, order@, frontier@, frontier_values@),
        decreases kept - k,
    {
        let at: usize = order[k];
        let ghost before = frontier@;
        let c = &candidates[at];
        frontier.push(
            Entry {
                bb: c.bb,
                moves: copy_moves(&c.moves),
                mover: c.mover,
                multiplicity: c.multiplicity,
            },
        );
        frontier_values.push(values[at]);
        proof {
            assert forall|i: int| 0 <= i < frontier@.len() implies {
                let c = candidates@[order@[i] as int];
                let f = #[trigger] frontier@[i];
                &&& f.bb == c.bb
                &&& f.moves@ == c.moves@
                &&& f.mover == c.mover
                &&& f.multiplicity == c.multiplicity
                &&& frontier_values@[i] == values@[order@[i] as int]
            } by {
                if i < before.len() {
                    assert(frontier@[i] == before[i]);
                }
            }
        }
        k = k + 1;
    }
    proof {
        assert forall|i: int, j: int| 0 <= i < j < candidates@.len() implies scores_before(
            candidates@,
            values@,
            #[trigger] order@[i] as int,
            #[trigger] order@[j] as int,
        ) by {
            assert(goes_before(rel, order@[i] as int, order@[j] as int));
            assert(rel(order@[i] as int, order@[j] as int));
            if mover_score(candidates@[order@[i] as int], values@[order@[i] as int] as int)
                == mover_score(candidates@[order@[j] as int], values@[order@[j] as int] as int) {
                assert(rel(order@[j] as int, order@[i] as int));
            }
        }
    }
    (frontier, frontier_values, Ghost(order@))
}

/// The value of a leaf for the player to move at the root, in units of `scale`.
pub open spec fn leaf_units(leaf: BeamLeaf, root_player: u8, scale: u64) -> int {
    let units = if leaf.is_terminal {
        leaf.value.num * scale
    } else {
        leaf.value.num as int
    };
    if root_player == 0 {
        units
    } else {
        -units
    }
}

/// Whether the open leaves are what a search of `root` may keep.
pub open spec fn open_leaves_ok(
    root: Seq<u16>,
    leaves: Seq<BeamLeaf>,
    depth: u32,
    scale: u64,
) -> bool {
    forall|i: int|
        0 <= i < leaves.len() ==> {
            let leaf = #[trigger] leaves[i];
            &&& leaf_ok(root, leaf)
            &&& !leaf.is_terminal
            &&& leaf.depth == depth
            &&& leaf.value.den == scale
        }
}

/// What holds of every result of a search of `root`.
pub open spec fn beam_result_ok(res: BeamSearchResult, root: Seq<u16>, cfg: BeamSearchConfig) -> bool {
    &&& 1 <= res.max_depth_reached <= cfg.max_depth
    &&& Some(res.root_player) == to_move(root)
    &&& 0 < res.scale <= u32::MAX
    &&& terminals_ok(root, res.terminal_leaves@)
    &&& open_leaves_ok(root, res.frontier_leaves@, res.max_depth_reached, res.scale)
    &&& res.reached_terminal <==> res.frontier_leaves@.len() == 0
    // No level keeps more than its width.
    &&& res.frontier_leaves@.len() <= width_at(cfg, res.max_depth_reached as int)
    // Terminals come best first for the root player.
    &&& forall|i: int, j: int|
        0 <= i < j < res.terminal_leaves@.len() ==> leaf_units(
            #[trigger] res.terminal_leaves@[i],
            res.root_player,
            res.scale,
        ) >= leaf_units(#[trigger] res.terminal_leaves@[j], res.root_player, res.scale)
    // Without a time limit the search stops at the full depth or when no open
    // board is left.
    &&& cfg.time_limit_nanos is None ==> res.max_depth_reached == cfg.max_depth
        || res.reached_terminal
    // The clock is asked before each level but the first.
    &&& limit_kept(
        cfg.time_limit_nanos,
        res.max_depth_reached > 1,
        res.max_depth_reached < cfg.max_depth && !res.reached_terminal,
    )
    // The leaves stand for no more move sequences than there are, and for all of
    // them if nothing was pruned.
    &&& total_multiplicity(res.terminal_leaves@) + total_multiplicity(res.frontier_leaves@)
        <= lines(root, res.max_depth_reached as nat)
    &&& res.stats.nodes_pruned == 0 ==> total_multiplicity(res.terminal_leaves@)
        + total_multiplicity(res.frontier_leaves@) == lines(root, res.max_depth_reached as nat)
    &&& exists|c: BeamCounts| #[trigger]
        shows(res.stats, c) && counts_ok(c, res.terminal_leaves@.len() as int)
    // The best leaf is one of the leaves, and none is better.
    &&& res.best_leaf is Some
    &&& best_leaf_ok(
        res.best_leaf->0,
        res.terminal_leaves@,
        res.frontier_leaves@,
        res.root_player,
        res.scale,
    )
}

/// Whether two leaves are the same.
pub open spec fn same_leaf(a: BeamLeaf, b: BeamLeaf) -> bool {
    &&& a.moves@ == b.moves@
    &&& a.value == b.value
    &&& a.depth == b.depth
    &&& a.is_terminal == b.is_terminal
    &&& a.multiplicity == b.multiplicity
}

pub open spec fn best_leaf_ok(
    best: BeamLeaf,
    terminals: Seq<BeamLeaf>,
    open_leaves: Seq<BeamLeaf>,
    root_player: u8,
    scale: u64,
) -> bool {
    &&& (exists|i: int| 0 <= i < terminals.len() && same_leaf(best, #[trigger] terminals[i])) || (
    exists|i: int| 0 <= i < open_leaves.len() && same_leaf(best, #[trigger] open_leaves[i]))
    &&& forall|i: int|
        0 <= i < terminals.len() ==> leaf_units(#[trigger] terminals[i], root_player, scale)
            <= leaf_units(best, root_player, scale)
    &&& forall|i: int|
        0 <= i < open_leaves.len() ==> leaf_units(#[trigger] open_leaves[i], root_player, scale)
            <= leaf_units(best, root_player, scale)
    &&& is_last_best(best, terminals, open_leaves, root_player, scale)
}

/// Whether `best` is the last of the best leaves, the terminals taken first.
pub open spec fn is_last_best(
    best: BeamLeaf,
    terminals: Seq<BeamLeaf>,
    open_leaves: Seq<BeamLeaf>,
    root_player: u8,
    scale: u64,
) -> bool {
    ||| exists|i: int|
        0 <= i < open_leaves.len() && same_leaf(best, #[trigger] open_leaves[i])
            && worse_from(open_leaves, i + 1, best, root_player, scale)
    ||| exists|i: int|
        0 <= i < terminals.len() && same_leaf(best, #[trigger] terminals[i]) && worse_from(
            terminals,
            i + 1,
            best,
            root_player,
            scale,
        ) && worse_from(open_leaves, 0, best, root_player, scale)
}

/// Whether the leaves from `n` on are worse than `best`.
pub open spec fn worse_from(
    leaves: Seq<BeamLeaf>,
    n: int,
    best: BeamLeaf,
    root_player: u8,
    scale: u64,
) -> bool {
    forall|j: int|
        n <= j < leaves.len() ==> leaf_units(#[trigger] leaves[j], root_player, scale)
            < leaf_units(best, root_player, scale)
}

/// A copy of a leaf.
fn copy_leaf(leaf: &BeamLeaf) -> (copy: BeamLeaf)
    ensures
        same_leaf(copy, *leaf),
{
    BeamLeaf {
        moves: copy_moves(&leaf.moves),
        value: leaf.value,
        depth: leaf.depth,
        is_terminal: leaf.is_terminal,
        multiplicity: leaf.multiplicity,
    }
}

/// The value of a leaf for the root player, in units of `scale`.
fn units_of(leaf: &BeamLeaf, root_player: u8, scale: u64) -> (u: i64)
    requires
        0 < scale <= u32::MAX,
        leaf.value.in_unit_range(),
        leaf.is_terminal ==> leaf.value.den == 1,
        !leaf.is_terminal ==> leaf.value.den == scale,
    ensures
        u == leaf_units(*leaf, root_player, scale),
        -(scale as int) <= u <= scale,
{
    let units: i64 = if leaf.is_terminal {
        let ghost num = leaf.value.num as int;
        assert(num == -1 || num == 0 || num == 1);
        assert(num * scale == (if num == 1 {
            scale as int
        } else if num == 0 {
            0
        } else {
            -(scale as int)
        })) by (nonlinear_arith)
            requires
                num == -1 || num == 0 || num == 1,
        ;
        if leaf.value.num == 1 {
            scale as i64
        } else if leaf.value.num == 0 {
            0
        } else {
            -(scale as i64)
        }
    } else {
        leaf.value.num
    };
    if root_player == 0 {
        units
    } else {
        -units
    }
}

proof fn lemma_total_sum(leaves: Seq<BeamLeaf>)
    ensures
        total_multiplicity(leaves) == sum(|i: int| leaves[i].multiplicity as int, leaves.len() as int),
    decreases leaves.len(),
{
    if leaves.len() > 0 {
        let rest = leaves.drop_last();
        lemma_total_sum(rest);
        let f = |i: int| leaves[i].multiplicity as int;
        let f0 = |i: int| rest[i].multiplicity as int;
        assert forall|i: int| 0 <= i < rest.len() implies #[trigger] f(i) == f0(i) by {
            assert(rest[i] == leaves[i]);
        }
        crate::invariance::lemma_sum_equal(f, f0, rest.len() as int);
    }
}

/// Reordering leaves keeps the sum of their multiplicities.
proof fn lemma_total_reordered(x: Seq<BeamLeaf>, y: Seq<BeamLeaf>, order: Seq<usize>)
    requires
        x.len() == y.len(),
        x.len() <= usize::MAX,
        lists_places(order, 0, x.len() as int),
        forall|i: int|
            0 <= i < y.len() ==> (#[trigger] y[i]).multiplicity == x[order[i] as int].multiplicity,
    ensures
        total_multiplicity(y) == total_multiplicity(x),
{
    let n = x.len() as int;
    lemma_lists_all(order, n);
    let s = |i: int| order[i] as int;
    let t = |p: int| order.index_of(p as usize);
    assert(crate::invariance::inverse_below(s, t, n)) by {
        assert forall|i: int| 0 <= i < n implies 0 <= #[trigger] s(i) < n && t(s(i)) == i by {
            assert(order.contains(order[i]));
            let k = order.index_of(order[i]);
            assert(order[k] == order[i]);
        }
        assert forall|p: int| 0 <= p < n implies 0 <= #[trigger] t(p) < n && s(t(p)) == p by {
            assert(order.contains(p as usize));
        }
    }
    let f = |i: int| x[i].multiplicity as int;
    let fy = |i: int| y[i].multiplicity as int;
    crate::invariance::lemma_sum_permuted(f, s, t, n);
    let fs = |i: int| f(s(i));
    assert forall|i: int| 0 <= i < n implies #[trigger] fy(i) == fs(i) by {
        assert(y[i].multiplicity == x[order[i] as int].multiplicity);
    }
    crate::invariance::lemma_sum_equal(fy, fs, n);
    lemma_total_sum(x);
    lemma_total_sum(y);
}

/// What a terminal leaf is worth in units.
proof fn lemma_end_units(root: Seq<u16>, leaf: BeamLeaf, player: u8, scale: u64)
    requires
        leaf_ok(root, leaf),
        leaf.is_terminal,
    ensures
        leaf_units(leaf, player, scale) == end_worth(
            root,
            BeamNode { moves: leaf.moves@, multiplicity: leaf.multiplicity as int },
            player,
        ) * scale,
{
    let v = leaf.value.num as int;
    assert(-(v * scale) == (-v) * scale) by (nonlinear_arith);
}

/// The terminals, best first for the root player; ties keep their order.
fn sort_terminals(
    leaves: &Vec<BeamLeaf>,
    root_player: u8,
    scale: u64,
    Ghost(root): Ghost<Seq<u16>>,
) -> (sorted: Vec<BeamLeaf>)
    requires
        terminals_ok(root, leaves@),
        0 < scale <= u32::MAX,
    ensures
        terminals_ok(root, sorted@),
        sorted@.len() == leaves@.len(),
        reorders(root, leaf_nodes(sorted@), leaf_nodes(leaves@), root_player),
        total_multiplicity(sorted@) == total_multiplicity(leaves@),
        forall|i: int, j: int|
            0 <= i < j < sorted@.len() ==> leaf_units(#[trigger] sorted@[i], root_player, scale)
                >= leaf_units(#[trigger] sorted@[j], root_player, scale),
{
    let n: usize = leaves.len();
    let mut units: Vec<i64> = Vec::new();
    let mut i: usize = 0;
    while i < n
        invariant
            n == leaves@.len(),
            i <= n,
            terminals_ok(root, leaves@),
            0 < scale <= u32::MAX,
            units@.len() == i,
            forall|k: int|
                0 <= k < i ==> #[trigger] units@[k] == leaf_units(leaves@[k], root_player, scale),
        decreases n - i,
    {
        assert(leaf_ok(root, leaves@[i as int]));
        units.push(units_of(&leaves[i], root_player, scale));
        i = i + 1;
    }
    let le = |a: usize, b: usize| -> (r: bool)
        requires
            a < units@.len(),
            b < units@.len(),
        ensures
            r == (units@[a as int] >= units@[b as int]),
        { units[a] >= units[b] };
    let ghost rel = |a: int, b: int| units@[a] >= units@[b];
    let order = sort_places(n, &le, Ghost(rel));
    let mut sorted: Vec<BeamLeaf> = Vec::new();
    let mut k: usize = 0;
    while k < n
        invariant
            n == leaves@.len(),
            k <= n,
            lists_places(order@, 0, n as int),
            sorted@.len() == k,
            forall|j: int|
                0 <= j < k ==> same_leaf(#[trigger] sorted@[j], leaves@[order@[j] as int]),
        decreases n - k,
    {
        let ghost before = sorted@;
        sorted.push(copy_leaf(&leaves[order[k]]));
        proof {
            assert forall|j: int| 0 <= j < k + 1 implies same_leaf(
                #[trigger] sorted@[j],
                leaves@[order@[j] as int],
            ) by {
                if j < k {
                    assert(sorted@[j] == before[j]);
                }
            }
        }
        k = k + 1;
    }
    proof {
        lemma_total_reordered(leaves@, sorted@, order@);
        assert(reorders(root, leaf_nodes(sorted@), leaf_nodes(leaves@), root_player)) by {
            let found = leaf_nodes(leaves@);
            assert forall|i: int, j: int| 0 <= i < j < order@.len() implies ends_before(
                root,
                found,
                root_player,
                #[trigger] order@[i] as int,
                #[trigger] order@[j] as int,
            ) by {
                let (a, c) = (order@[i] as int, order@[j] as int);
                assert(goes_before(rel, a, c));
                assert(leaf_ok(root, leaves@[a]) && leaf_ok(root, leaves@[c]));
                lemma_end_units(root, leaves@[a], root_player, scale);
                lemma_end_units(root, leaves@[c], root_player, scale);
                assert(rel(a, c));
                let (x, y) = (
                    end_worth(root, found[a], root_player),
                    end_worth(root, found[c], root_player),
                );
                assert(x * scale >= y * scale);
                assert(x >= y) by (nonlinear_arith)
                    requires
                        x * scale >= y * scale,
                        scale > 0,
                ;
                if x == y {
                    assert(rel(c, a));
                }
            }
            assert(ends_ranked(root, found, root_player, order@));
            assert forall|i: int| 0 <= i < leaf_nodes(sorted@).len() implies #[trigger] leaf_nodes(
                sorted@,
            )[i] == found[order@[i] as int] by {
                assert(same_leaf(sorted@[i], leaves@[order@[i] as int]));
            }
        }
        assert forall|j: int| 0 <= j < sorted@.len() implies leaf_ok(root, #[trigger] sorted@[j])
            && sorted@[j].is_terminal by {
            assert(same_leaf(sorted@[j], leaves@[order@[j] as int]));
            assert(leaf_ok(root, leaves@[order@[j] as int]));
        }
        assert forall|i: int, j: int| 0 <= i < j < sorted@.len() implies leaf_units(
            #[trigger] sorted@[i],
            root_player,
            scale,
        ) >= leaf_units(#[trigger] sorted@[j], root_player, scale) by {
            assert(goes_before(rel, order@[i] as int, order@[j] as int));
            assert(rel(order@[i] as int, order@[j] as int));
            assert(units@[order@[i] as int] == leaf_units(
                leaves@[order@[i] as int],
                root_player,
                scale,
            ));
            assert(units@[order@[j] as int] == leaf_units(
                leaves@[order@[j] as int],
                root_player,
                scale,
            ));
            assert(same_leaf(sorted@[i], leaves@[order@[i] as int]));
            assert(same_leaf(sorted@[j], leaves@[order@[j] as int]));
        }
    }
    sorted
}

/// Why a search cannot start from the root `b`.
pub open spec fn root_complaint(b: Seq<u16>) -> Option<Seq<char>> {
    if won(b) {
        Some("Cannot search from an already-terminal root state."@)
    } else if to_move(b) is None {
        Some("Inconsistent root piece counts."@)
    } else if legal_moves(b).len() == 0 {
        Some("Cannot search from a root state with no legal moves."@)
    } else {
        None
    }
}

proof fn lemma_total_nonneg(leaves: Seq<BeamLeaf>)
    ensures
        total_multiplicity(leaves) >= 0,
        forall|i: int|
            0 <= i < leaves.len() ==> (#[trigger] leaves[i]).multiplicity <= total_multiplicity(
                leaves,
            ),
    decreases leaves.len(),
{
    if leaves.len() > 0 {
        let rest = leaves.drop_last();
        lemma_total_nonneg(rest);
        assert forall|i: int| 0 <= i < leaves.len() implies (#[trigger] leaves[i]).multiplicity
            <= total_multiplicity(leaves) by {
            if i < rest.len() {
                assert(rest[i] == leaves[i]);
            }
        }
    }
}

proof fn lemma_cells_bound(b: Seq<u16>)
    ensures
        0 <= empty_cells(b) <= 16,
{
    crate::bitboard::lemma_popcount(crate::bitboard::taken(b), 0);
}

proof fn lemma_value_range<F: Fn(&Bitboard) -> i64>(
    custom: bool,
    f: F,
    rollouts: u32,
    b: Seq<u16>,
    v: int,
)
    requires
        value_fits(custom, f, rollouts, b, v),
    ensures
        custom ==> -EVALUATOR_UNIT <= v <= EVALUATOR_UNIT,
        !custom ==> -(rollouts as int) <= v <= rollouts,
{
}

proof fn lemma_weight_positive(root: Seq<u16>, es: Seq<Entry>, depth: int)
    requires
        entries_ok(root, es, depth),
        es.len() > 0,
    ensures
        weight(entries_view(es), 1) >= 1,
{
    let ws = entries_view(es);
    lemma_entries_nonneg(es);
    assert forall|i: int| 0 <= i < ws.drop_last().len() implies (#[trigger] ws.drop_last()[i]).1
        >= 0 by {
        assert(ws.drop_last()[i] == ws[i]);
    }
    lemma_weight_nonneg(ws.drop_last(), 1);
    let e = es[es.len() - 1];
    assert(entry_ok(root, e, depth));
    assert(ws.last() == (e.bb@, e.multiplicity as int));
    lemma_lines_bounds(e.bb@, 1);
    let m = e.multiplicity as int;
    let l = lines(e.bb@, 1) as int;
    assert(m * l >= 1) by (nonlinear_arith)
        requires
            m >= 1,
            l >= 1,
    ;
}

/// `a + n * k`, or the largest `u64` if that is less.
fn add_product(a: u64, n: u64, k: u64) -> (r: u64)
    ensures
        r == capped(a + n * k),
{
    assert(0 <= n * k <= 0xFFFF_FFFF_FFFF_FFFF * 0xFFFF_FFFF_FFFF_FFFF) by (nonlinear_arith)
        requires
            0 <= n <= 0xFFFF_FFFF_FFFF_FFFF,
            0 <= k <= 0xFFFF_FFFF_FFFF_FFFF,
    ;
    let total: u128 = a as u128 + n as u128 * k as u128;
    if total < u64::MAX as u128 {
        total as u64
    } else {
        u64::MAX
    }
}

/// The open leaves of a frontier.
fn leaves_of(
    frontier: &Vec<Entry>,
    values: &Vec<i64>,
    depth: u32,
    scale: u64,
    Ghost(root): Ghost<Seq<u16>>,
) -> (leaves: Vec<BeamLeaf>)
    requires
        values@.len() == frontier@.len(),
        entries_ok(root, frontier@, depth as int),
        scale > 0,
        forall|i: int| 0 <= i < values@.len() ==> -(scale as int) <= #[trigger] values@[i] <= scale,
    ensures
        leaves@.len() == frontier@.len(),
        open_leaves_ok(root, leaves@, depth, scale),
        forall|i: int|
            0 <= i < leaves@.len() ==> (#[trigger] leaves@[i]).multiplicity
                == frontier@[i].multiplicity && leaves@[i].moves@ == frontier@[i].moves@
                && leaves@[i].value.num == values@[i] && after_line(root, leaves@[i].moves@)
                == frontier@[i].bb@,
{
    let mut leaves: Vec<BeamLeaf> = Vec::new();
    let mut i: usize = 0;
    while i < frontier.len()
        invariant
            i <= frontier@.len(),
            values@.len() == frontier@.len(),
            entries_ok(root, frontier@, depth as int),
            scale > 0,
            forall|k: int|
                0 <= k < values@.len() ==> -(scale as int) <= #[trigger] values@[k] <= scale,
            leaves@.len() == i,
            open_leaves_ok(root, leaves@, depth, scale),
            forall|k: int|
                0 <= k < i ==> (#[trigger] leaves@[k]).multiplicity == frontier@[k].multiplicity
                    && leaves@[k].moves@ == frontier@[k].moves@ && leaves@[k].value.num
                    == values@[k] && after_line(root, leaves@[k].moves@) == frontier@[k].bb@,
        decreases frontier@.len() - i,
    {
        let e = &frontier[i];
        let ghost before = leaves@;
        assert(entry_ok(root, frontier@[i as int], depth as int));
        leaves.push(
            BeamLeaf {
                moves: copy_moves(&e.moves),
                value: Ratio { num: values[i], den: scale },
                depth,
                is_terminal: false,
                multiplicity: e.multiplicity,
            },
        );
        proof {
            assert forall|k: int| 0 <= k < i + 1 implies {
                let leaf = #[trigger] leaves@[k];
                &&& leaf_ok(root, leaf)
                &&& !leaf.is_terminal
                &&& leaf.depth == depth
                &&& leaf.value.den == scale
            } by {
                if k < i {
                    assert(leaves@[k] == before[k]);
                }
            }
            assert forall|k: int| 0 <= k < i + 1 implies (#[trigger] leaves@[k]).multiplicity
                == frontier@[k].multiplicity && leaves@[k].moves@ == frontier@[k].moves@
                && leaves@[k].value.num == values@[k] && after_line(root, leaves@[k].moves@)
                == frontier@[k].bb@ by {
                if k < i {
                    assert(leaves@[k] == before[k]);
                }
            }
        }
        i = i + 1;
    }
    leaves
}

proof fn lemma_total_weight(es: Seq<Entry>, leaves: Seq<BeamLeaf>)
    requires
        es.len() == leaves.len(),
        forall|i: int|
            0 <= i < leaves.len() ==> (#[trigger] leaves[i]).multiplicity == es[i].multiplicity,
    ensures
        weight(entries_view(es), 0) == total_multiplicity(leaves),
    decreases es.len(),
{
    if es.len() > 0 {
        let rest = es.drop_last();
        let part = leaves.drop_last();
        assert forall|i: int| 0 <= i < part.len() implies (#[trigger] part[i]).multiplicity
            == rest[i].multiplicity by {
            assert(part[i] == leaves[i]);
        }
        lemma_total_weight(rest, part);
        assert(entries_view(es).drop_last() =~= entries_view(rest));
        let last = es.len() - 1;
        assert(leaves[last].multiplicity == es[last].multiplicity);
        let m = es[last].multiplicity as int;
        assert(entries_view(es).last() == (es[last].bb@, m));
        assert(lines(es[last].bb@, 0) == 1);
        assert(m * 1 == m);
    }
}

/// A leaf that is best for the root player, if there is a leaf.
fn best_of(
    terminals: &Vec<BeamLeaf>,
    open_leaves: &Vec<BeamLeaf>,
    root_player: u8,
    scale: u64,
    Ghost(root): Ghost<Seq<u16>>,
    Ghost(depth): Ghost<u32>,
) -> (best: Option<BeamLeaf>)
    requires
        0 < scale <= u32::MAX,
        terminals_ok(root, terminals@),
        open_leaves_ok(root, open_leaves@, depth, scale),
    ensures
        best is Some <==> terminals@.len() + open_leaves@.len() > 0,
        best matches Some(leaf) ==> best_leaf_ok(
            leaf,
            terminals@,
            open_leaves@,
            root_player,
            scale,
        ),
{
    let mut found = false;
    let mut best: i64 = 0;
    let mut at: usize = 0;
    let mut among_open = false;
    let mut i: usize = 0;
    while i < terminals.len()
        invariant
            i <= terminals@.len(),
            0 < scale <= u32::MAX,
            terminals_ok(root, terminals@),
            found <==> i > 0,
            !among_open,
            found ==> at < i && best == leaf_units(terminals@[at as int], root_player, scale),
            forall|k: int|
                at < k < i ==> leaf_units(#[trigger] terminals@[k], root_player, scale) < best,
            forall|k: int|
                0 <= k < i ==> leaf_units(#[trigger] terminals@[k], root_player, scale) <= best,
        decreases terminals@.len() - i,
    {
        assert(leaf_ok(root, terminals@[i as int]));
        let u: i64 = units_of(&terminals[i], root_player, scale);
        if !found || u >= best {
            found = true;
            best = u;
            at = i;
        }
        i = i + 1;
    }
    let mut j: usize = 0;
    while j < open_leaves.len()
        invariant
            j <= open_leaves@.len(),
            0 < scale <= u32::MAX,
            open_leaves_ok(root, open_leaves@, depth, scale),
            found <==> terminals@.len() + j > 0,
            found && !among_open ==> at < terminals@.len() && best == leaf_units(
                terminals@[at as int],
                root_player,
                scale,
            ),
            among_open ==> at < j && best == leaf_units(
                open_leaves@[at as int],
                root_player,
                scale,
            ),
            found && !among_open ==> forall|k: int|
                at < k < terminals@.len() ==> leaf_units(
                    #[trigger] terminals@[k],
                    root_player,
                    scale,
                ) < best,
            found && !among_open ==> forall|k: int|
                0 <= k < j ==> leaf_units(#[trigger] open_leaves@[k], root_player, scale) < best,
            among_open ==> forall|k: int|
                at < k < j ==> leaf_units(#[trigger] open_leaves@[k], root_player, scale) < best,
            forall|k: int|
                0 <= k < terminals@.len() ==> leaf_units(
                    #[trigger] terminals@[k],
                    root_player,
                    scale,
                ) <= best,
            forall|k: int|
                0 <= k < j ==> leaf_units(#[trigger] open_leaves@[k], root_player, scale) <= best,
        decreases open_leaves@.len() - j,
    {
        assert(leaf_ok(root, open_leaves@[j as int]));
        let u: i64 = units_of(&open_leaves[j], root_player, scale);
        if !found || u >= best {
            found = true;
            best = u;
            at = j;
            among_open = true;
        }
        j = j + 1;
    }
    if !found {
        return None;
    }
    let leaf = if among_open {
        copy_leaf(&open_leaves[at])
    } else {
        copy_leaf(&terminals[at])
    };
    Some(leaf)
}

impl BeamSearchResult {
    /// Whether the leaves can be ranked: their values have the right
    /// denominators, and their multiplicities are those of a game.
    pub open spec fn rankable(&self) -> bool {
        &&& 0 < self.scale <= u32::MAX
        &&& forall|i: int|
            0 <= i < self.terminal_leaves@.len() ==> {
                let leaf = #[trigger] self.terminal_leaves@[i];
                leaf.is_terminal && leaf.value.den == 1 && leaf.value.in_unit_range()
                    && leaf.multiplicity >= 1
            }
        &&& forall|i: int|
            0 <= i < self.frontier_leaves@.len() ==> {
                let leaf = #[trigger] self.frontier_leaves@[i];
                !leaf.is_terminal && leaf.value.den == self.scale && leaf.value.in_unit_range()
                    && leaf.multiplicity >= 1
            }
        &&& total_multiplicity(self.terminal_leaves@) + total_multiplicity(self.frontier_leaves@)
            <= MAX_MULTIPLICITY
    }
}

/// Level-by-level beam search over the Quantik game tree.
pub struct BeamSearchEngine {
    config: BeamSearchConfig,
    rng: StdRng,
}

impl BeamSearchEngine {
    /// The generator of the engine's random choices.
    pub closed spec fn generator(&self) -> StdRng {
        self.rng
    }

    /// The configuration of the engine.
    pub closed spec fn settings(&self) -> BeamSearchConfig {
        self.config
    }

    /// The invariant of an engine: its configuration is in order.
    pub closed spec fn wf(&self) -> bool {
        config_complaint(self.config) is None
    }

    pub proof fn lemma_wf(&self)
        requires
            self.wf(),
        ensures
            config_complaint(self.settings()) is None,
    {
    }

    /// Initialize the engine, validating the configuration.
    pub fn new(config: BeamSearchConfig) -> (r: Result<Self, String>)
        ensures
            r is Ok <==> config_complaint(config) is None,
            r matches Ok(e) ==> e.wf() && e.settings() == config && (config.random_seed matches Some(
                seed,
            ) ==> e.generator() == seeded(seed)),
            r matches Err(e) ==> Some(e@) == config_complaint(config),
    {
        if config.beam_width < 1 {
            return Err("beam_width must be >= 1".to_owned());
        }
        if config.max_depth < 1 || config.max_depth > 16 {
            return Err("max_depth must be between 1 and 16".to_owned());
        }
        if config.rollouts_per_candidate < 1 {
            return Err("rollouts_per_candidate must be >= 1".to_owned());
        }
        if let Some(schedule) = &config.beam_schedule {
            if schedule.len() == 0 {
                return Err("beam_schedule must not be empty".to_owned());
            }
            let mut i: usize = 0;
            while i < schedule.len()
                invariant
                    i <= schedule@.len(),
                    config.beam_schedule == Some(*schedule),
                    schedule@.len() > 0,
                    config.beam_width >= 1,
                    1 <= config.max_depth <= 16,
                    config.rollouts_per_candidate >= 1,
                    forall|k: int| 0 <= k < i ==> #[trigger] schedule@[k] >= 1,
                decreases schedule@.len() - i,
            {
                if schedule[i] < 1 {
                    assert(config.beam_schedule->0@[i as int] < 1);
                    return Err("beam_schedule entries must all be >= 1".to_owned());
                }
                i = i + 1;
            }
        }
        if let Some(schedule) = &config.rollout_schedule {
            if schedule.len() == 0 {
                return Err("rollout_schedule must not be empty".to_owned());
            }
            let mut i: usize = 0;
            while i < schedule.len()
                invariant
                    i <= schedule@.len(),
                    config.rollout_schedule == Some(*schedule),
                    schedule@.len() > 0,
                    config.beam_width >= 1,
                    1 <= config.max_depth <= 16,
                    config.rollouts_per_candidate >= 1,
                    config.beam_schedule is Some ==> config.beam_schedule->0@.len() > 0,
                    config.beam_schedule is Some ==> forall|k: int|
                        0 <= k < config.beam_schedule->0@.len()
                            ==> #[trigger] config.beam_schedule->0@[k] >= 1,
                    forall|k: int| 0 <= k < i ==> #[trigger] schedule@[k] >= 1,
                decreases schedule@.len() - i,
            {
                if schedule[i] < 1 {
                    assert(config.rollout_schedule->0@[i as int] < 1);
                    return Err("rollout_schedule entries must all be >= 1".to_owned());
                }
                i = i + 1;
            }
        }
        if let Some(limit) = config.time_limit_nanos {
            if limit == 0 {
                return Err("time_limit must be positive".to_owned());
            }
        }
        let rng = match config.random_seed {
            Some(seed) => seeded_rng(seed),
            None => entropy_rng(),
        };
        Ok(Self { config, rng })
    }

    /// The beam width at a depth, which counts from one. The last entry of a
    /// schedule extends to all deeper levels.
    pub fn beam_width_for_depth(&self, depth: u32) -> (w: usize)
        requires
            self.wf(),
            depth >= 1,
        ensures
            w == width_at(self.settings(), depth as int),
            w >= 1,
    {
        match &self.config.beam_schedule {
            None => self.config.beam_width,
            Some(schedule) => {
                let index: usize = (depth - 1) as usize;
                proof {
                    assert(schedule@.len() > 0);
                    assert(self.config.beam_schedule->0@[schedule@.len() - 1] >= 1);
                }
                if index < schedule.len() {
                    assert(self.config.beam_schedule->0@[index as int] >= 1);
                    schedule[index]
                } else {
                    schedule[schedule.len() - 1]
                }
            },
        }
    }

    /// The rollouts of the built-in evaluator at a depth, which counts from one.
    pub fn rollouts_for_depth(&self, depth: u32) -> (n: u32)
        requires
            self.wf(),
            depth >= 1,
        ensures
            n == rollouts_at(self.settings(), depth as int),
            n >= 1,
    {
        match &self.config.rollout_schedule {
            None => self.config.rollouts_per_candidate,
            Some(schedule) => {
                let index: usize = (depth - 1) as usize;
                proof {
                    assert(schedule@.len() > 0);
                    assert(self.config.rollout_schedule->0@[schedule@.len() - 1] >= 1);
                }
                if index < schedule.len() {
                    assert(self.config.rollout_schedule->0@[index as int] >= 1);
                    schedule[index]
                } else {
                    schedule[schedule.len() - 1]
                }
            },
        }
    }

    /// Run beam search from `root` with the built-in evaluator, which plays
    /// random games.
    pub fn search(&mut self, root: &Bitboard) -> (r: Result<BeamSearchResult, String>)
        requires
            old(self).wf(),
        ensures
            final(self).wf(),
            final(self).settings() == old(self).settings(),
            r is Ok <==> root_complaint(root@) is None,
            r matches Err(e) ==> Some(e@) == root_complaint(root@),
            r matches Ok(res) ==> beam_result_ok(res, root@, old(self).settings()) && res.rankable(),
            r matches Ok(res) ==> res.scale == rollouts_at(
                old(self).settings(),
                res.max_depth_reached as int,
            ),
            r matches Ok(res) ==> searched_by_playouts(
                res,
                root@,
                old(self).settings(),
                old(self).generator(),
                final(self).generator(),
            ),
            r is Err ==> final(self).generator() == old(self).generator(),
    {
        let unused = |bb: &Bitboard| -> (v: i64) { 0i64 };
        let r = self.run(root, false, &unused);
        proof {
            if r is Ok {
                let res = r->Ok_0;
                let t = choose|t: Seq<BeamStep>| #[trigger]
                    shows_levels(res, root@, old(self).settings(), t) && values_fit(
                        false,
                        unused,
                        old(self).settings(),
                        root@,
                        t,
                    ) && shows(
                        res.stats,
                        counts_of(root@, old(self).settings(), false, t, t.len() as int),
                    ) && levels_drawn(
                        root@,
                        old(self).settings(),
                        false,
                        t,
                        old(self).generator(),
                    ) && self.generator() == generator_at(t, old(self).generator(), t.len() as int);
                assert(shows_levels(res, root@, old(self).settings(), t));
                assert(values_played(root@, old(self).settings(), t));
                assert(played_levels(
                    res,
                    root@,
                    old(self).settings(),
                    old(self).generator(),
                    self.generator(),
                    t,
                ));
            }
        }
        r
    }

    /// The engine with an evaluator that gives values for player 0 in millionths; they are
    /// clamped to the range from minus one to one.
    pub fn with_evaluator<F: Fn(&Bitboard) -> i64>(self, evaluator: F) -> (e: EvaluatedBeamSearch<F>)
        ensures
            e.settings() == self.settings(),
            e.generator() == self.generator(),
            e.judge() == evaluator,
            self.wf() ==> e.wf(),
    {
        EvaluatedBeamSearch { engine: self, evaluator }
    }

    #[verifier::rlimit(40)]
    fn run<F: Fn(&Bitboard) -> i64>(&mut self, root_bb: &Bitboard, custom: bool, evaluator: &F) -> (r:
        Result<BeamSearchResult, String>)
        requires
            old(self).wf(),
            forall|bb: &Bitboard| #[trigger] call_requires(*evaluator, (bb,)),
        ensures
            final(self).wf(),
            final(self).settings() == old(self).settings(),
            r is Ok <==> root_complaint(root_bb@) is None,
            r matches Err(e) ==> Some(e@) == root_complaint(root_bb@),
            custom || r is Err ==> final(self).generator() == old(self).generator(),
            r matches Ok(res) ==> {
                let root = root_bb@;
                &&& beam_result_ok(res, root, old(self).settings())
                &&& res.rankable()
                &&& res.scale == (if custom {
                    EVALUATOR_UNIT as int
                } else {
                    rollouts_at(old(self).settings(), res.max_depth_reached as int) as int
                })
                &&& custom ==> res.stats.rollouts == 0
                &&& exists|t: Seq<BeamStep>| #[trigger]
                    shows_levels(res, root, old(self).settings(), t) && values_fit(
                        custom,
                        *evaluator,
                        old(self).settings(),
                        root,
                        t,
                    ) && shows(
                        res.stats,
                        counts_of(root, old(self).settings(), custom, t, t.len() as int),
                    ) && levels_drawn(
                        root,
                        old(self).settings(),
                        custom,
                        t,
                        old(self).generator(),
                    ) && final(self).generator() == generator_at(
                        t,
                        old(self).generator(),
                        t.len() as int,
                    )
                &&& forall|i: int|
                    0 <= i < res.frontier_leaves@.len() ==> value_fits(
                        custom,
                        *evaluator,
                        rollouts_at(old(self).settings(), res.max_depth_reached as int),
                        after_line(root, (#[trigger] res.frontier_leaves@[i]).moves@),
                        res.frontier_leaves@[i].value.num as int,
                    )
            },
    {
        let ghost root = root_bb@;
        let ghost cfg = self.config;
        let ghost rng0 = self.rng;
        if check_winner(root_bb) != WinStatus::NoWin {
            return Err("Cannot search from an already-terminal root state.".to_owned());
        }
        let root_player: u8 = match current_player(root_bb) {
            Some(p) => p,
            None => {
                return Err("Inconsistent root piece counts.".to_owned());
            },
        };
        if generate_legal_moves(root_bb).len() == 0 {
            return Err("Cannot search from a root state with no legal moves.".to_owned());
        }
        let mut stats = BeamStats::default();
        let ghost mut counts = BeamCounts {
            generated: 0,
            deduped: 0,
            inserted: 0,
            pruned: 0,
            evaluations: 0,
            rollouts: 0,
            ended: 0,
        };
        let mut terminals: Vec<BeamLeaf> = Vec::new();
        let mut frontier: Vec<Entry> = Vec::new();
        frontier.push(Entry { bb: *root_bb, moves: Vec::new(), mover: 0, multiplicity: 1 });
        let mut values: Vec<i64> = Vec::new();
        values.push(0);
        let mut scale: u64 = 1;
        let mut reached: u32 = 0;
        let ghost mut t: Seq<BeamStep> = Seq::empty();
        let deadline: Option<Deadline> = deadline_from(
            start_clock(),
            self.config.time_limit_nanos,
        );
        proof {
            assert(entry_ok(root, frontier@[0], 0));
            assert(frontier@[0].moves@ =~= Seq::<Move>::empty());
            assert(entry_nodes(frontier@) =~= frontier_at(cfg, t, 0));
            assert(leaf_nodes(terminals@) =~= ended_at(t, 0));
            reveal(levels_ok);
            assert forall|r: nat| #[trigger]
                weight(entries_view(frontier@), r) + total_multiplicity(terminals@) == lines(
                    root,
                    r,
                ) by {
                let view = entries_view(frontier@);
                assert(view.drop_last() =~= Seq::<(Seq<u16>, int)>::empty());
                assert(view.len() == 1);
                assert(view.last() == (root, 1int));
                assert(weight(view.drop_last(), r) == 0);
                assert(total_multiplicity(terminals@) == 0);
                assert(1 * lines(root, r) == lines(root, r)) by (nonlinear_arith);
                assert(weight(view, r) == 1 * lines(root, r));
            }
        }
        let mut stop = false;
        let max_depth: u32 = self.config.max_depth;
        while reached < max_depth && frontier.len() > 0 && !stop
            invariant
                self.wf(),
                self.config == cfg,
                cfg == old(self).config,
                root == root_bb@,
                root.len() == 8,
                max_depth == cfg.max_depth,
                1 <= max_depth <= 16,
                reached <= max_depth,
                forall|bb: &Bitboard| #[trigger] call_requires(*evaluator, (bb,)),
                deadline_for(cfg.time_limit_nanos, deadline),
                stop ==> clock_answers(deadline, true),
                reached > 1 ==> clock_answers(deadline, false),
                stop ==> cfg.time_limit_nanos is Some && reached > 0,
                entries_ok(root, frontier@, reached as int),
                terminals_ok(root, terminals@),
                values@.len() == frontier@.len(),
                frontier@.len() > 0 || terminals@.len() > 0,
                reached == 0 ==> frontier@.len() == 1 && terminals@.len() == 0,
                reached > 0 ==> 0 < scale <= u32::MAX && scale == (if custom {
                    EVALUATOR_UNIT as int
                } else {
                    rollouts_at(cfg, reached as int) as int
                }),
                reached > 0 ==> frontier@.len() <= width_at(cfg, reached as int),
                t.len() == reached,
                levels_ok(root, cfg, custom, *evaluator, t, counts, rng0),
                rng0 == old(self).rng,
                self.rng == generator_at(t, rng0, reached as int),
                custom ==> self.rng == rng0,
                entry_nodes(frontier@) == frontier_at(cfg, t, reached as int),
                leaf_nodes(terminals@) == ended_at(t, reached as int),
                reached > 0 ==> forall|i: int|
                    0 <= i < values@.len() ==> #[trigger] values@[i] == t[reached
                        - 1].values[t[reached - 1].order[i] as int],
                reached > 0 ==> forall|i: int|
                    0 <= i < values@.len() ==> -(scale as int) <= #[trigger] values@[i] <= scale
                        && value_fits(
                        custom,
                        *evaluator,
                        rollouts_at(cfg, reached as int),
                        frontier@[i].bb@,
                        values@[i] as int,
                    ),
                shows(stats, counts),
                counts_ok(counts, terminals@.len() as int),
                custom ==> counts.rollouts == 0,
                forall|r: nat| #[trigger]
                    weight(entries_view(frontier@), r) + total_multiplicity(terminals@) <= lines(
                        root,
                        (reached + r) as nat,
                    ),
                counts.pruned == 0 ==> forall|r: nat| #[trigger]
                    weight(entries_view(frontier@), r) + total_multiplicity(terminals@) == lines(
                        root,
                        (reached + r) as nat,
                    ),
            decreases (max_depth - reached) + (if stop {
                0int
            } else {
                1int
            }),
        {
            let depth: u32 = reached + 1;
            if depth > 1 && time_is_up(&deadline) {
                stop = true;
            } else {
                let ghost fview = entries_view(frontier@);
                let ghost t0 = total_multiplicity(terminals@);
                let ghost counts0 = counts;
                let ghost len0 = terminals@.len();
                proof {
                    lemma_entries_nonneg(frontier@);
                    lemma_weight_nonneg(fview, 1);
                    lemma_weight_positive(root, frontier@, reached as int);
                    lemma_total_nonneg(terminals@);
                    assert(weight(fview, 1) + t0 <= lines(root, (reached + 1) as nat));
                    lemma_lines_bounds(root, (reached + 1) as nat);
                    lemma_cells_bound(root);
                    lemma_fillings_sixteen(empty_cells(root) as nat);
                }
                let x = expand_frontier(
                    &frontier,
                    depth,
                    stats,
                    Ghost(counts),
                    &mut terminals,
                    Ghost(root),
                );
                let width: usize = self.beam_width_for_depth(depth);
                let rollouts: u32 = self.rollouts_for_depth(depth);
                let cand_values = evaluate_candidates(
                    &x.candidates,
                    custom,
                    evaluator,
                    rollouts,
                    &mut self.rng,
                );
                let n: usize = x.candidates.len();
                proof {
                    assert forall|i: int| 0 <= i < cand_values@.len() implies -0x1_0000_0000
                        <= #[trigger] cand_values@[i] <= 0x1_0000_0000 by {
                        lemma_value_range(
                            custom,
                            *evaluator,
                            rollouts,
                            x.candidates@[i].bb@,
                            cand_values@[i] as int,
                        );
                    }
                }
                let (next, next_values, Ghost(order)) = prune(&x.candidates, &cand_values, width);
                let kept: usize = next.len();
                stats = x.stats;
                stats.evaluations = stats.evaluations.saturating_add(n as u64);
                stats.nodes_pruned = stats.nodes_pruned.saturating_add((n - kept) as u64);
                stats.nodes_inserted = stats.nodes_inserted.saturating_add(kept as u64);
                if !custom {
                    stats.rollouts = add_product(stats.rollouts, n as u64, rollouts as u64);
                }
                proof {
                    let c = x.counts@;
                    let more: int = if custom {
                        0
                    } else {
                        n * rollouts
                    };
                    assert(more >= 0) by (nonlinear_arith)
                        requires
                            more == 0 || more == n * rollouts,
                            n >= 0,
                            rollouts >= 0,
                    ;
                    counts = BeamCounts {
                        evaluations: c.evaluations + n,
                        pruned: c.pruned + (n - kept),
                        inserted: c.inserted + kept,
                        rollouts: c.rollouts + more,
                        ..c
                    };
                    let cview = entries_view(x.candidates@);
                    let nview = entries_view(next@);
                    lemma_entries_nonneg(x.candidates@);
                    assert(next@.len() > 0 || terminals@.len() > 0) by {
                        if n == 0 {
                            assert(weight(cview, 0) == 0);
                            assert(weight(cview, 0) + total_multiplicity(terminals@) == t0
                                + weight(fview, 0 + 1));
                        }
                    }
                    assert forall|i: int| 0 <= i < nview.len() implies #[trigger] nview[i]
                        == cview[order[i] as int] by {
                        let k = next@[i];
                    }
                    assert forall|r: nat| #[trigger]
                        weight(entries_view(next@), r) + total_multiplicity(terminals@) <= lines(
                            root,
                            (depth + r) as nat,
                        ) by {
                        lemma_weight_selected(cview, nview, order, r);
                        assert(weight(cview, r) + total_multiplicity(terminals@) == t0 + weight(
                            fview,
                            r + 1,
                        ));
                        assert(weight(fview, r + 1) + t0 <= lines(root, (reached + (r + 1)) as nat));
                        assert(reached + (r + 1) == depth + r);
                    }
                    if counts.pruned == 0 {
                        assert(c.pruned == counts0.pruned);
                        assert(n == kept && counts0.pruned == 0);
                        assert forall|r: nat| #[trigger]
                            weight(entries_view(next@), r) + total_multiplicity(terminals@)
                                == lines(root, (depth + r) as nat) by {
                            lemma_weight_selected(cview, nview, order, r);
                            assert(weight(cview, r) + total_multiplicity(terminals@) == t0
                                + weight(fview, r + 1));
                            assert(weight(fview, r + 1) + t0 == lines(
                                root,
                                (reached + (r + 1)) as nat,
                            ));
                            assert(reached + (r + 1) == depth + r);
                        }
                    }
                    assert forall|i: int| 0 <= i < next@.len() implies entry_ok(
                        root,
                        #[trigger] next@[i],
                        depth as int,
                    ) by {
                        assert(entry_ok(root, x.candidates@[order[i] as int], depth as int));
                    }
                    assert forall|i: int| 0 <= i < next_values@.len() implies value_fits(
                        custom,
                        *evaluator,
                        rollouts,
                        next@[i].bb@,
                        #[trigger] next_values@[i] as int,
                    ) by {
                        let k = next@[i];
                        assert(value_fits(
                            custom,
                            *evaluator,
                            rollouts,
                            x.candidates@[order[i] as int].bb@,
                            cand_values@[order[i] as int] as int,
                        ));
                    }
                    assert forall|i: int| 0 <= i < next_values@.len() implies -(if custom {
                        EVALUATOR_UNIT as int
                    } else {
                        rollouts as int
                    }) <= #[trigger] next_values@[i] <= (if custom {
                        EVALUATOR_UNIT as int
                    } else {
                        rollouts as int
                    }) by {
                        lemma_value_range(
                            custom,
                            *evaluator,
                            rollouts,
                            next@[i].bb@,
                            next_values@[i] as int,
                        );
                    }
                    let step = BeamStep {
                        open: entry_nodes(x.candidates@),
                        ended: leaf_nodes(terminals@),
                        values: numbers(cand_values@),
                        order,
                        rng: self.rng,
                    };
                    assert(x.candidates@.len() == n);
                    lemma_level_done(
                        root,
                        cfg,
                        custom,
                        *evaluator,
                        t,
                        step,
                        x.candidates@,
                        cand_values@,
                        next@,
                        next_values@,
                        counts0,
                        counts,
                        rng0,
                    );
                    t = t.push(step);
                }
                frontier = next;
                values = next_values;
                scale = if custom {
                    EVALUATOR_UNIT as u64
                } else {
                    rollouts as u64
                };
                reached = depth;
            }
        }
        let frontier_leaves = leaves_of(&frontier, &values, reached, scale, Ghost(root));
        let sorted = sort_terminals(&terminals, root_player, scale, Ghost(root));
        proof {
            lemma_total_weight(frontier@, frontier_leaves@);
            assert(weight(entries_view(frontier@), 0) + total_multiplicity(terminals@) <= lines(
                root,
                (reached + 0) as nat,
            ));
            lemma_lines_bounds(root, reached as nat);
            lemma_cells_bound(root);
            lemma_fillings_sixteen(empty_cells(root) as nat);
            lemma_total_nonneg(sorted@);
            lemma_total_nonneg(frontier_leaves@);
        }
        let best_leaf = best_of(&sorted, &frontier_leaves, root_player, scale, Ghost(root), Ghost(reached));
        let reached_terminal: bool = frontier_leaves.len() == 0;
        let res = BeamSearchResult {
            best_leaf,
            terminal_leaves: sorted,
            reached_terminal,
            max_depth_reached: reached,
            stats,
            root_player,
            frontier_leaves,
            scale,
        };
        proof {
            assert(shows(res.stats, counts) && counts_ok(counts, res.terminal_leaves@.len() as int));
            assert(res.stats.nodes_pruned == 0 ==> counts.pruned == 0);
            assert(counts.pruned == 0 ==> weight(entries_view(frontier@), 0) + total_multiplicity(
                terminals@,
            ) == lines(root, (reached + 0) as nat));
            assert(deadline_for(cfg.time_limit_nanos, deadline));
            assert(beam_result_ok(res, root, cfg));
            assert forall|i: int| 0 <= i < res.terminal_leaves@.len() implies {
                let leaf = #[trigger] res.terminal_leaves@[i];
                leaf.is_terminal && leaf.value.den == 1 && leaf.value.in_unit_range()
                    && leaf.multiplicity >= 1
            } by {
                assert(leaf_ok(root, res.terminal_leaves@[i]));
            }
            assert forall|i: int| 0 <= i < res.frontier_leaves@.len() implies {
                let leaf = #[trigger] res.frontier_leaves@[i];
                !leaf.is_terminal && leaf.value.den == res.scale && leaf.value.in_unit_range()
                    && leaf.multiplicity >= 1
            } by {
                assert(leaf_ok(root, res.frontier_leaves@[i]));
            }
            assert(res.rankable());
            assert(leaf_nodes(res.frontier_leaves@) =~= frontier_at(cfg, t, reached as int)) by {
                assert(leaf_nodes(res.frontier_leaves@) =~= entry_nodes(frontier@));
            }
            assert forall|i: int| 0 <= i < res.frontier_leaves@.len() implies (
            #[trigger] res.frontier_leaves@[i]).value.num == t[reached - 1].values[t[reached
                - 1].order[i] as int] by {
                assert(values@[i] == res.frontier_leaves@[i].value.num);
            }
            reveal(levels_ok);
            assert(shows_levels(res, root, cfg, t));
            assert forall|i: int| 0 <= i < res.frontier_leaves@.len() implies value_fits(
                custom,
                *evaluator,
                rollouts_at(cfg, res.max_depth_reached as int),
                after_line(root, (#[trigger] res.frontier_leaves@[i]).moves@),
                res.frontier_leaves@[i].value.num as int,
            ) by {
                assert(values@[i] == res.frontier_leaves@[i].value.num);
            }
        }
        Ok(res)
    }
}

/// A beam search with an evaluator of its own.
pub struct EvaluatedBeamSearch<F: Fn(&Bitboard) -> i64> {
    engine: BeamSearchEngine,
    evaluator: F,
}

impl<F: Fn(&Bitboard) -> i64> EvaluatedBeamSearch<F> {
    /// The generator of the engine's random choices.
    pub closed spec fn generator(&self) -> StdRng {
        self.engine.generator()
    }

    /// The configuration of the engine.
    pub closed spec fn settings(&self) -> BeamSearchConfig {
        self.engine.settings()
    }

    /// The evaluator.
    pub closed spec fn judge(&self) -> F {
        self.evaluator
    }

    /// The invariant of an engine: its configuration is in order.
    pub closed spec fn wf(&self) -> bool {
        self.engine.wf()
    }

    /// Run beam search from `root`.
    pub fn search(&mut self, root: &Bitboard) -> (r: Result<BeamSearchResult, String>)
        requires
            old(self).wf(),
            forall|bb: &Bitboard| #[trigger] call_requires(old(self).judge(), (bb,)),
        ensures
            final(self).wf(),
            final(self).settings() == old(self).settings(),
            final(self).judge() == old(self).judge(),
            final(self).generator() == old(self).generator(),
            r is Ok <==> root_complaint(root@) is None,
            r matches Err(e) ==> Some(e@) == root_complaint(root@),
            r matches Ok(res) ==> beam_result_ok(res, root@, old(self).settings()) && res.rankable(),
            r matches Ok(res) ==> res.scale == EVALUATOR_UNIT && res.stats.rollouts == 0,
            r matches Ok(res) ==> searched_by_evaluator(
                old(self).judge(),
                res,
                root@,
                old(self).settings(),
            ),
    {
        assert forall|bb: &Bitboard| #[trigger] call_requires(self.evaluator, (bb,)) by {
            assert(call_requires(old(self).judge(), (bb,)));
        }
        let r = self.engine.run(root, true, &self.evaluator);
        proof {
            if r is Ok {
                let res = r->Ok_0;
                let t = choose|t: Seq<BeamStep>| #[trigger]
                    shows_levels(res, root@, old(self).settings(), t) && values_fit(
                        true,
                        old(self).judge(),
                        old(self).settings(),
                        root@,
                        t,
                    ) && shows(
                        res.stats,
                        counts_of(root@, old(self).settings(), true, t, t.len() as int),
                    );
                assert(shows_levels(res, root@, old(self).settings(), t));
                assert(values_given(old(self).judge(), root@, t));
            }
        }
        r
    }
}

/// Aggregated beam-sampled statistics for one first move from the root.
///
/// These are statistics over the leaves that the run happened to keep, not
/// minimax values. Values count in units of the result's `scale`: the mean value
/// of the move is `value_sum / (scale * total_multiplicity)`, and its heuristic
/// win probability is half of one plus the mean.
#[derive(Clone, Copy, Debug)]
pub struct RankedRootMove {
    pub mv: Move,
    /// Largest leaf value through this move, for the root player.
    pub best_value: i64,
    /// Multiplicity-weighted sum of the leaf values, for the root player.
    pub value_sum: i128,
    /// Number of collected leaves through this move.
    pub leaf_count: usize,
    /// Sum of the multiplicities of these leaves.
    pub total_multiplicity: u128,
    /// A terminal that the root player wins exists through this move.
    pub has_terminal_win: bool,
}

/// Whether the leaf goes through the root move `m`.
pub open spec fn goes_through(leaf: BeamLeaf, m: Move) -> bool {
    leaf.moves@.len() > 0 && leaf.moves@[0] == m
}

/// The number of leaves through `m`.
pub open spec fn group_count(leaves: Seq<BeamLeaf>, m: Move) -> int
    decreases leaves.len(),
{
    if leaves.len() == 0 {
        0
    } else {
        group_count(leaves.drop_last(), m) + if goes_through(leaves.last(), m) {
            1int
        } else {
            0
        }
    }
}

/// The sum of the multiplicities of the leaves through `m`.
pub open spec fn group_multiplicity(leaves: Seq<BeamLeaf>, m: Move) -> int
    decreases leaves.len(),
{
    if leaves.len() == 0 {
        0
    } else {
        group_multiplicity(leaves.drop_last(), m) + if goes_through(leaves.last(), m) {
            leaves.last().multiplicity as int
        } else {
            0
        }
    }
}

/// The weighted sum of the values of the leaves through `m`.
pub open spec fn group_value(leaves: Seq<BeamLeaf>, m: Move, root_player: u8, scale: u64) -> int
    decreases leaves.len(),
{
    if leaves.len() == 0 {
        0
    } else {
        group_value(leaves.drop_last(), m, root_player, scale) + if goes_through(
            leaves.last(),
            m,
        ) {
            leaf_units(leaves.last(), root_player, scale) * leaves.last().multiplicity
        } else {
            0
        }
    }
}

/// Whether `best` is the largest value of a leaf through `m`.
pub open spec fn is_group_best(
    leaves: Seq<BeamLeaf>,
    m: Move,
    root_player: u8,
    scale: u64,
    best: int,
) -> bool {
    &&& exists|i: int|
        0 <= i < leaves.len() && goes_through(#[trigger] leaves[i], m) && leaf_units(
            leaves[i],
            root_player,
            scale,
        ) == best
    &&& forall|i: int|
        0 <= i < leaves.len() && goes_through(#[trigger] leaves[i], m) ==> leaf_units(
            leaves[i],
            root_player,
            scale,
        ) <= best
}

/// Whether some leaf through `m` is a terminal that the root player wins.
pub open spec fn group_wins(leaves: Seq<BeamLeaf>, m: Move, root_player: u8, scale: u64) -> bool {
    exists|i: int|
        0 <= i < leaves.len() && goes_through(#[trigger] leaves[i], m) && leaves[i].is_terminal
            && leaf_units(leaves[i], root_player, scale) == scale
}

/// Whether `r` aggregates the leaves through its move.
pub open spec fn aggregates(
    r: RankedRootMove,
    leaves: Seq<BeamLeaf>,
    root_player: u8,
    scale: u64,
) -> bool {
    &&& r.leaf_count == group_count(leaves, r.mv)
    &&& r.leaf_count >= 1
    &&& r.total_multiplicity == group_multiplicity(leaves, r.mv)
    &&& r.value_sum == group_value(leaves, r.mv, root_player, scale)
    &&& is_group_best(leaves, r.mv, root_player, scale, r.best_value as int)
    &&& r.has_terminal_win <==> group_wins(leaves, r.mv, root_player, scale)
}

/// Player, shape and position of a move as one number, in this order.
pub open spec fn move_rank(m: Move) -> int {
    m.player * 65536 + m.shape * 256 + m.position
}

/// Whether the mean of `x` is less than the mean of `y`. Both are shifted by one
/// so that they are not negative.
pub open spec fn mean_lt(x: RankedRootMove, y: RankedRootMove, scale: int) -> bool {
    fraction_lt(
        x.value_sum + scale * x.total_multiplicity,
        x.total_multiplicity as int,
        y.value_sum + scale * y.total_multiplicity,
        y.total_multiplicity as int,
    )
}

/// Whether `x` may stand before `y` in a ranking: by best value, mean value and
/// number of leaves, the largest first, and then by move.
pub open spec fn ranks_before(x: RankedRootMove, y: RankedRootMove, scale: int) -> bool {
    if x.best_value != y.best_value {
        x.best_value > y.best_value
    } else if mean_lt(y, x, scale) {
        true
    } else if mean_lt(x, y, scale) {
        false
    } else if x.leaf_count != y.leaf_count {
        x.leaf_count > y.leaf_count
    } else {
        move_rank(x.mv) <= move_rank(y.mv)
    }
}

/// Whether `ranking` ranks the root moves of `leaves`: each first move once,
/// with its aggregates, in order.
pub open spec fn is_ranking(
    ranking: Seq<RankedRootMove>,
    leaves: Seq<BeamLeaf>,
    root_player: u8,
    scale: u64,
) -> bool {
    &&& forall|i: int|
        0 <= i < ranking.len() ==> aggregates(#[trigger] ranking[i], leaves, root_player, scale)
    &&& forall|k: int|
        0 <= k < leaves.len() && (#[trigger] leaves[k]).moves@.len() > 0 ==> ranked_move(
            ranking,
            leaves[k].moves@[0],
        )
    &&& forall|i: int, j: int|
        0 <= i < j < ranking.len() ==> (#[trigger] ranking[i]).mv != (#[trigger] ranking[j]).mv
            && ranks_before(ranking[i], ranking[j], scale as int)
}

/// Whether `m` has a place in the ranking.
pub open spec fn ranked_move(ranking: Seq<RankedRootMove>, m: Move) -> bool {
    exists|i: int| 0 <= i < ranking.len() && (#[trigger] ranking[i]).mv == m
}

proof fn lemma_ranks_preorder(all: Seq<RankedRootMove>, scale: int)
    requires
        forall|i: int| 0 <= i < all.len() ==> (#[trigger] all[i]).total_multiplicity > 0,
    ensures
        is_preorder(|i: int, j: int| ranks_before(all[i], all[j], scale), all.len() as int),
{
    let rel = |i: int, j: int| ranks_before(all[i], all[j], scale);
    assert forall|i: int, j: int, k: int|
        0 <= i < all.len() && 0 <= j < all.len() && 0 <= k < all.len() && #[trigger] rel(i, j)
            && #[trigger] rel(j, k) implies rel(i, k) by {
        lemma_ranks_transitive(all[i], all[j], all[k], scale);
    }
    assert forall|i: int, j: int| 0 <= i < all.len() && 0 <= j < all.len() implies #[trigger] rel(
        i,
        j,
    ) || rel(j, i) by {
        let (x, y) = (all[i], all[j]);
    }
}

proof fn lemma_ranks_transitive(x: RankedRootMove, y: RankedRootMove, z: RankedRootMove, scale: int)
    requires
        x.total_multiplicity > 0,
        y.total_multiplicity > 0,
        z.total_multiplicity > 0,
        ranks_before(x, y, scale),
        ranks_before(y, z, scale),
    ensures
        ranks_before(x, z, scale),
{
    let (a, b) = (x.value_sum + scale * x.total_multiplicity, x.total_multiplicity as int);
    let (c, d) = (y.value_sum + scale * y.total_multiplicity, y.total_multiplicity as int);
    let (e, f) = (z.value_sum + scale * z.total_multiplicity, z.total_multiplicity as int);
    if x.best_value == y.best_value && y.best_value == z.best_value {
        // Neither step goes up in the mean.
        assert(!fraction_lt(a, b, c, d));
        assert(!fraction_lt(c, d, e, f));
        lemma_fraction_transitive(e, f, c, d, a, b);
        if !fraction_lt(e, f, a, b) {
            // The means are equal all the way.
            lemma_fraction_equal(a, b, c, d, e, f);
        }
    }
}

proof fn lemma_fraction_equal(a: int, b: int, c: int, d: int, e: int, f: int)
    requires
        b > 0,
        d > 0,
        f > 0,
        !fraction_lt(a, b, c, d),
        !fraction_lt(c, d, e, f),
        !fraction_lt(e, f, a, b),
    ensures
        !fraction_lt(c, d, a, b),
        !fraction_lt(e, f, c, d),
{
    // a / b >= c / d >= e / f >= a / b.
    lemma_fraction_transitive(c, d, a, b, e, f);
    lemma_fraction_transitive(a, b, e, f, c, d);
}

/// Whether the sums of a group are in range.
spec fn group_bounded(r: RankedRootMove, scale: int) -> bool {
    &&& 0 < r.total_multiplicity <= MAX_MULTIPLICITY
    &&& -(scale * r.total_multiplicity) <= r.value_sum <= scale * r.total_multiplicity
}

/// What the first `n` leaves say of the move `m`.
spec fn partial(
    r: RankedRootMove,
    leaves: Seq<BeamLeaf>,
    n: int,
    root_player: u8,
    scale: u64,
) -> bool {
    let part = leaves.take(n);
    &&& r.leaf_count == group_count(part, r.mv)
    &&& r.leaf_count <= n
    &&& r.total_multiplicity == group_multiplicity(part, r.mv)
    &&& r.value_sum == group_value(part, r.mv, root_player, scale)
    &&& r.leaf_count > 0 ==> is_group_best(part, r.mv, root_player, scale, r.best_value as int)
    &&& r.leaf_count == 0 ==> forall|i: int|
        0 <= i < n ==> !goes_through(#[trigger] leaves[i], r.mv)
    &&& r.has_terminal_win <==> group_wins(part, r.mv, root_player, scale)
    &&& -(scale * r.total_multiplicity) <= r.value_sum <= scale * r.total_multiplicity
}

proof fn lemma_group_le_total(leaves: Seq<BeamLeaf>, m: Move)
    ensures
        0 <= group_multiplicity(leaves, m) <= total_multiplicity(leaves),
    decreases leaves.len(),
{
    if leaves.len() > 0 {
        lemma_group_le_total(leaves.drop_last(), m);
    }
}

proof fn lemma_total_take(leaves: Seq<BeamLeaf>, n: int)
    requires
        0 <= n <= leaves.len(),
    ensures
        total_multiplicity(leaves.take(n)) <= total_multiplicity(leaves),
    decreases leaves.len() - n,
{
    if n == leaves.len() {
        assert(leaves.take(n) =~= leaves);
    } else {
        lemma_total_take(leaves, n + 1);
        assert(leaves.take(n + 1).drop_last() =~= leaves.take(n));
    }
}

proof fn lemma_total_concat(x: Seq<BeamLeaf>, y: Seq<BeamLeaf>)
    ensures
        total_multiplicity(x + y) == total_multiplicity(x) + total_multiplicity(y),
    decreases y.len(),
{
    if y.len() == 0 {
        assert(x + y =~= x);
    } else {
        assert((x + y).drop_last() =~= x + y.drop_last());
        lemma_total_concat(x, y.drop_last());
    }
}

/// Count one more leaf.
fn count_leaf(
    r: RankedRootMove,
    leaf: &BeamLeaf,
    root_player: u8,
    scale: u64,
    Ghost(leaves): Ghost<Seq<BeamLeaf>>,
    Ghost(n): Ghost<int>,
) -> (s: RankedRootMove)
    requires
        0 < scale <= u32::MAX,
        0 <= n < leaves.len(),
        leaves.len() <= usize::MAX,
        *leaf == leaves[n],
        leaf.value.in_unit_range(),
        leaf.is_terminal ==> leaf.value.den == 1,
        !leaf.is_terminal ==> leaf.value.den == scale,
        total_multiplicity(leaves) <= MAX_MULTIPLICITY,
        partial(r, leaves, n, root_player, scale),
    ensures
        s.mv == r.mv,
        partial(s, leaves, n + 1, root_player, scale),
{
    let ghost part = leaves.take(n);
    let ghost next = leaves.take(n + 1);
    proof {
        assert(next.drop_last() =~= part);
        assert(next.last() == *leaf);
        lemma_total_take(leaves, n + 1);
        lemma_group_le_total(next, r.mv);
        lemma_group_le_total(part, r.mv);
        assert(forall|i: int| 0 <= i < n ==> #[trigger] next[i] == part[i]);
    }
    if leaf.moves.len() == 0 || leaf.moves[0] != r.mv {
        proof {
            assert(!goes_through(*leaf, r.mv));
            lemma_group_unchanged(leaves, n, r.mv, root_player, scale, r.best_value as int);
        }
        return r;
    }
    let u: i64 = units_of(leaf, root_player, scale);
    let ghost mult = leaf.multiplicity as int;
    let ghost total = r.total_multiplicity as int;
    proof {
        assert(goes_through(*leaf, r.mv));
        assert(group_multiplicity(next, r.mv) == total + mult);
        assert(-(scale * mult) <= u * mult <= scale * mult) by (nonlinear_arith)
            requires
                -(scale as int) <= u <= scale,
                mult >= 0,
        ;
        assert(0 <= scale * mult && scale * mult + scale * total
            <= 0x1_0000_0000 * 0x2000_0000_0000_0000_0000) by (nonlinear_arith)
            requires
                0 < scale <= 0xFFFF_FFFF,
                0 <= total,
                0 <= mult,
                total + mult <= 0x2000_0000_0000_0000_0000,
        ;
        assert(scale * (total + mult) == scale * total + scale * mult) by (nonlinear_arith);
    }
    let s = RankedRootMove {
        mv: r.mv,
        best_value: if r.leaf_count == 0 || u > r.best_value {
            u
        } else {
            r.best_value
        },
        value_sum: r.value_sum + u as i128 * leaf.multiplicity as i128,
        leaf_count: r.leaf_count + 1,
        total_multiplicity: r.total_multiplicity + leaf.multiplicity,
        has_terminal_win: r.has_terminal_win || (leaf.is_terminal && u == scale as i64),
    };
    proof {
        assert(next[n] == *leaf);
        if r.leaf_count > 0 {
            let i = choose|i: int|
                0 <= i < part.len() && goes_through(#[trigger] part[i], r.mv) && leaf_units(
                    part[i],
                    root_player,
                    scale,
                ) == r.best_value;
            assert(next[i] == part[i]);
        }
        assert(is_group_best(next, r.mv, root_player, scale, s.best_value as int)) by {
            assert forall|i: int| 0 <= i < next.len() && goes_through(#[trigger] next[i], r.mv) implies leaf_units(
                next[i],
                root_player,
                scale,
            ) <= s.best_value by {
                if i < n {
                    assert(next[i] == part[i] && next[i] == leaves[i]);
                }
            }
        }
        assert(s.has_terminal_win <==> group_wins(next, r.mv, root_player, scale)) by {
            if group_wins(part, r.mv, root_player, scale) {
                let i = choose|i: int|
                    0 <= i < part.len() && goes_through(#[trigger] part[i], r.mv)
                        && part[i].is_terminal && leaf_units(part[i], root_player, scale) == scale;
                assert(next[i] == part[i]);
            }
            if group_wins(next, r.mv, root_player, scale) {
                let i = choose|i: int|
                    0 <= i < next.len() && goes_through(#[trigger] next[i], r.mv)
                        && next[i].is_terminal && leaf_units(next[i], root_player, scale) == scale;
                if i < n {
                    assert(next[i] == part[i]);
                }
            }
        }
    }
    s
}

proof fn lemma_group_unchanged(
    leaves: Seq<BeamLeaf>,
    n: int,
    m: Move,
    root_player: u8,
    scale: u64,
    best: int,
)
    requires
        0 <= n < leaves.len(),
        !goes_through(leaves[n], m),
    ensures
        is_group_best(leaves.take(n), m, root_player, scale, best) ==> is_group_best(
            leaves.take(n + 1),
            m,
            root_player,
            scale,
            best,
        ),
        group_wins(leaves.take(n), m, root_player, scale) <==> group_wins(
            leaves.take(n + 1),
            m,
            root_player,
            scale,
        ),
{
    let part = leaves.take(n);
    let next = leaves.take(n + 1);
    assert(forall|i: int| 0 <= i < n ==> #[trigger] next[i] == part[i]);
    assert(next[n] == leaves[n]);
    if is_group_best(part, m, root_player, scale, best) {
        let i = choose|i: int|
            0 <= i < part.len() && goes_through(#[trigger] part[i], m) && leaf_units(
                part[i],
                root_player,
                scale,
            ) == best;
        assert(next[i] == part[i]);
        assert forall|i: int| 0 <= i < next.len() && goes_through(#[trigger] next[i], m) implies leaf_units(
            next[i],
            root_player,
            scale,
        ) <= best by {
            if i < n {
                assert(next[i] == part[i]);
            }
        }
    }
    if group_wins(part, m, root_player, scale) {
        let i = choose|i: int|
            0 <= i < part.len() && goes_through(#[trigger] part[i], m) && part[i].is_terminal
                && leaf_units(part[i], root_player, scale) == scale;
        assert(next[i] == part[i]);
    }
    if group_wins(next, m, root_player, scale) {
        let i = choose|i: int|
            0 <= i < next.len() && goes_through(#[trigger] next[i], m) && next[i].is_terminal
                && leaf_units(next[i], root_player, scale) == scale;
        assert(next[i] == part[i]);
    }
}

impl BeamSearchResult {
    /// Aggregate every collected leaf by its first move from the root, best
    /// first. With `top_k`, only that many are returned.
    pub fn ranked_root_moves(&self, top_k: Option<usize>) -> (ranked: Vec<RankedRootMove>)
        requires
            self.rankable(),
            self.terminal_leaves@.len() + self.frontier_leaves@.len() <= usize::MAX,
        ensures
            exists|full: Seq<RankedRootMove>| #[trigger]
                is_ranking(
                    full,
                    self.terminal_leaves@ + self.frontier_leaves@,
                    self.root_player,
                    self.scale,
                ) && ranked@ == (match top_k {
                    Some(k) => if k < full.len() {
                        full.take(k as int)
                    } else {
                        full
                    },
                    None => full,
                }),
    {
        let ghost leaves = self.terminal_leaves@ + self.frontier_leaves@;
        let terminals: usize = self.terminal_leaves.len();
        let n: usize = terminals + self.frontier_leaves.len();
        let mut firsts: Vec<Move> = Vec::new();
        let mut groups: Vec<RankedRootMove> = Vec::new();
        let mut k: usize = 0;
        while k < n
            invariant
                self.rankable(),
                leaves == self.terminal_leaves@ + self.frontier_leaves@,
                terminals == self.terminal_leaves@.len(),
                n == leaves.len(),
                k <= n,
                forall|i: int|
                    0 <= i < groups@.len() ==> aggregates(
                        #[trigger] groups@[i],
                        leaves,
                        self.root_player,
                        self.scale,
                    ) && group_bounded(groups@[i], self.scale as int),
                forall|i: int, j: int|
                    0 <= i < j < groups@.len() ==> (#[trigger] groups@[i]).mv != (
                    #[trigger] groups@[j]).mv,
                forall|i: int|
                    0 <= i < k && (#[trigger] leaves[i]).moves@.len() > 0 ==> ranked_move(
                        groups@,
                        leaves[i].moves@[0],
                    ),
            decreases n - k,
        {
            let leaf: &BeamLeaf = if k < terminals {
                &self.terminal_leaves[k]
            } else {
                &self.frontier_leaves[k - terminals]
            };
            assert(*leaf == leaves[k as int]);
            if leaf.moves.len() > 0 {
                let m: Move = leaf.moves[0];
                if !has_group(&groups, m) {
                    let group = self.group_of(m, k);
                    let ghost before = groups@;
                    groups.push(group);
                    proof {
                        assert(groups@[before.len() as int].mv == m);
                        assert forall|i: int|
                            0 <= i < k && (#[trigger] leaves[i]).moves@.len() > 0 implies ranked_move(
                            groups@,
                            leaves[i].moves@[0],
                        ) by {
                            assert(ranked_move(before, leaves[i].moves@[0]));
                            let j = choose|j: int|
                                0 <= j < before.len() && (#[trigger] before[j]).mv
                                    == leaves[i].moves@[0];
                            assert(groups@[j] == before[j]);
                        }
                        assert forall|i: int, j: int| 0 <= i < j < groups@.len() implies (
                        #[trigger] groups@[i]).mv != (#[trigger] groups@[j]).mv by {
                            if j == before.len() {
                                assert(groups@[i] == before[i]);
                                if before[i].mv == m {
                                    assert(ranked_move(before, m));
                                }
                            } else {
                                assert(groups@[i] == before[i] && groups@[j] == before[j]);
                            }
                        }
                        assert forall|i: int| 0 <= i < groups@.len() implies aggregates(
                            #[trigger] groups@[i],
                            leaves,
                            self.root_player,
                            self.scale,
                        ) && group_bounded(groups@[i], self.scale as int) by {
                            if i < before.len() {
                                assert(groups@[i] == before[i]);
                            }
                        }
                    }
                }
            }
            k = k + 1;
        }
        let scale: u64 = self.scale;
        let count: usize = groups.len();
        proof {
            lemma_ranks_preorder(groups@, scale as int);
        }
        let ghost rel = |i: int, j: int| ranks_before(groups@[i], groups@[j], scale as int);
        let le = |a: usize, b: usize| -> (r: bool)
            requires
                a < groups@.len(),
                b < groups@.len(),
                0 < scale <= u32::MAX,
                group_bounded(groups@[a as int], scale as int),
                group_bounded(groups@[b as int], scale as int),
            ensures
                r == ranks_before(groups@[a as int], groups@[b as int], scale as int),
            { goes_first(&groups[a], &groups[b], scale) };
        let order = sort_places(count, &le, Ghost(rel));
        let keep: usize = match top_k {
            Some(limit) => if limit < count {
                limit
            } else {
                count
            },
            None => count,
        };
        let ghost full: Seq<RankedRootMove> = Seq::new(
            count as nat,
            |i: int| groups@[order@[i] as int],
        );
        let mut ranked: Vec<RankedRootMove> = Vec::new();
        let mut i: usize = 0;
        while i < keep
            invariant
                i <= keep,
                keep <= count,
                count == groups@.len(),
                lists_places(order@, 0, count as int),
                full == Seq::new(count as nat, |i: int| groups@[order@[i] as int]),
                ranked@ == full.take(i as int),
            decreases keep - i,
        {
            ranked.push(groups[order[i]]);
            assert(full.take(i + 1) =~= full.take(i as int).push(full[i as int]));
            i = i + 1;
        }
        proof {
            lemma_lists_all(order@, count as int);
            assert(is_ranking(full, leaves, self.root_player, self.scale)) by {
                assert forall|i: int, j: int| 0 <= i < j < full.len() implies (
                #[trigger] full[i]).mv != (#[trigger] full[j]).mv && ranks_before(
                    full[i],
                    full[j],
                    scale as int,
                ) by {
                    let (p, q) = (order@[i] as int, order@[j] as int);
                    assert(order@[i] != order@[j]);
                    assert(goes_before(rel, p, q));
                    assert(rel(p, q));
                    if p < q {
                        assert(groups@[p].mv != groups@[q].mv);
                    } else {
                        assert(groups@[q].mv != groups@[p].mv);
                    }
                }
                assert forall|k: int|
                    0 <= k < leaves.len() && (#[trigger] leaves[k]).moves@.len()
                        > 0 implies ranked_move(full, leaves[k].moves@[0]) by {
                    let m = leaves[k].moves@[0];
                    assert(ranked_move(groups@, m));
                    let j = choose|j: int|
                        0 <= j < groups@.len() && (#[trigger] groups@[j]).mv == m;
                    assert(order@.contains(j as usize));
                    let i = choose|i: int| 0 <= i < order@.len() && order@[i] == j as usize;
                    assert(full[i].mv == m);
                }
            }
            assert(full.take(count as int) =~= full);
        }
        ranked
    }

    /// The aggregates of the root move `m`, through which leaf `k` goes.
    fn group_of(&self, m: Move, k: usize) -> (r: RankedRootMove)
        requires
            self.rankable(),
            self.terminal_leaves@.len() + self.frontier_leaves@.len() <= usize::MAX,
            k < self.terminal_leaves@.len() + self.frontier_leaves@.len(),
            goes_through((self.terminal_leaves@ + self.frontier_leaves@)[k as int], m),
        ensures
            r.mv == m,
            aggregates(
                r,
                self.terminal_leaves@ + self.frontier_leaves@,
                self.root_player,
                self.scale,
            ),
            group_bounded(r, self.scale as int),
    {
        let ghost leaves = self.terminal_leaves@ + self.frontier_leaves@;
        let terminals: usize = self.terminal_leaves.len();
        let n: usize = terminals + self.frontier_leaves.len();
        let mut r = RankedRootMove {
            mv: m,
            best_value: 0,
            value_sum: 0,
            leaf_count: 0,
            total_multiplicity: 0,
            has_terminal_win: false,
        };
        proof {
            lemma_total_concat(self.terminal_leaves@, self.frontier_leaves@);
            assert(leaves.take(0) =~= Seq::<BeamLeaf>::empty());
        }
        let mut i: usize = 0;
        while i < n
            invariant
                self.rankable(),
                leaves == self.terminal_leaves@ + self.frontier_leaves@,
                terminals == self.terminal_leaves@.len(),
                n == leaves.len(),
                i <= n,
                total_multiplicity(leaves) <= MAX_MULTIPLICITY,
                r.mv == m,
                partial(r, leaves, i as int, self.root_player, self.scale),
                i > k ==> r.leaf_count > 0,
                k < n,
                goes_through(leaves[k as int], m),
            decreases n - i,
        {
            let leaf: &BeamLeaf = if i < terminals {
                &self.terminal_leaves[i]
            } else {
                &self.frontier_leaves[i - terminals]
            };
            assert(*leaf == leaves[i as int]);
            let ghost before = r;
            r = count_leaf(r, leaf, self.root_player, self.scale, Ghost(leaves), Ghost(i as int));
            proof {
                if i == k && r.leaf_count == 0 {
                    assert(!goes_through(leaves[k as int], r.mv));
                }
                if i > k && r.leaf_count == 0 {
                    assert(!goes_through(leaves[k as int], r.mv));
                }
            }
            i = i + 1;
        }
        proof {
            assert(leaves.take(n as int) =~= leaves);
            lemma_group_le_total(leaves, m);
            lemma_group_positive(leaves, m, k as int);
        }
        r
    }
}

proof fn lemma_group_positive(leaves: Seq<BeamLeaf>, m: Move, k: int)
    requires
        0 <= k < leaves.len(),
        goes_through(leaves[k], m),
        leaves[k].multiplicity >= 1,
    ensures
        group_multiplicity(leaves, m) >= 1,
    decreases leaves.len(),
{
    lemma_group_le_total(leaves.drop_last(), m);
    if k < leaves.len() - 1 {
        assert(leaves.drop_last()[k] == leaves[k]);
        lemma_group_positive(leaves.drop_last(), m, k);
    }
}

fn has_group(groups: &Vec<RankedRootMove>, m: Move) -> (r: bool)
    ensures
        r <==> ranked_move(groups@, m),
{
    let mut i: usize = 0;
    while i < groups.len()
        invariant
            i <= groups@.len(),
            forall|j: int| 0 <= j < i ==> (#[trigger] groups@[j]).mv != m,
        decreases groups@.len() - i,
    {
        if groups[i].mv == m {
            assert(groups@[i as int].mv == m);
            return true;
        }
        i = i + 1;
    }
    false
}

/// The mean of a ranked move, shifted so that it is not negative, as a fraction.
fn shifted_mean(r: &RankedRootMove, scale: u64) -> (f: (u128, u128))
    requires
        0 < scale <= u32::MAX,
        group_bounded(*r, scale as int),
    ensures
        f.0 == r.value_sum + scale * r.total_multiplicity,
        f.1 == r.total_multiplicity,
{
    let ghost t = r.total_multiplicity as int;
    assert(0 <= scale * t <= 0x1_0000_0000 * 0x2000_0000_0000_0000_0000) by (nonlinear_arith)
        requires
            0 < scale <= 0xFFFF_FFFF,
            0 <= t <= 0x2000_0000_0000_0000_0000,
    ;
    let shift: i128 = scale as i128 * r.total_multiplicity as i128;
    ((r.value_sum + shift) as u128, r.total_multiplicity)
}

/// Whether `x` may stand before `y` in a ranking.
fn goes_first(x: &RankedRootMove, y: &RankedRootMove, scale: u64) -> (r: bool)
    requires
        0 < scale <= u32::MAX,
        group_bounded(*x, scale as int),
        group_bounded(*y, scale as int),
    ensures
        r == ranks_before(*x, *y, scale as int),
{
    if x.best_value != y.best_value {
        return x.best_value > y.best_value;
    }
    let (a, b): (u128, u128) = shifted_mean(x, scale);
    let (c, d): (u128, u128) = shifted_mean(y, scale);
    if fraction_less(c, d, a, b) {
        return true;
    }
    if fraction_less(a, b, c, d) {
        return false;
    }
    if x.leaf_count != y.leaf_count {
        return x.leaf_count > y.leaf_count;
    }
    let p: u32 = x.mv.player as u32 * 65536 + x.mv.shape as u32 * 256 + x.mv.position as u32;
    let q: u32 = y.mv.player as u32 * 65536 + y.mv.shape as u32 * 256 + y.mv.position as u32;
    p <= q
}

} // verus!
