//! Monte Carlo tree search.
//!
//! The tree descends by a priority that the caller supplies, which is where the
//! exploration formula lives: it is called with the wins of the side to move at
//! the parent, the visits of the child and the visits of the parent, and the
//! child with the largest priority is taken.
use crate::bitboard::Bitboard;
use crate::board::{result_of, GameResult};
use crate::clock::{
    clock_answers, deadline_for, deadline_from, limit_kept, spent_since, start_clock, time_is_up,
    took, whole_millis, Deadline,
};
use crate::game::{check_winner, current_player, total_pieces, won, WinStatus};
use crate::game_value::{
    after_line, empty_cells, finished, legal_line, lemma_line_push, lemma_move_fills_cell,
    side_to_move,
};
use crate::invariance::lemma_image_counts;
use crate::mcts_trace::{
    bare_node, bare_tree, chooses, counts_events, descends_to, descent, ends_at, ends_counted,
    expands, finished_below, first_largest, grows, goes_on, is_leaf, iterates, iterates_by,
    law_finished_boards_are_won, lemma_finished_below, on_path, outcome_from, priorities,
    root_moves_of, tries_move, variation_from, visit_of, with_last, with_outcome, GrownTree,
    TreeNode,
};
use crate::moves::{
    applied, apply_move, generate_legal_moves, legal_move, legal_moves, lemma_legal_move_step,
    lemma_legal_moves, Move,
};
use crate::rng::{after_draw, drawn, entropy_rng, pick, seeded, seeded_rng};
use crate::search_telemetry::{
    clamp_unproven, no_events, EngineKind, PolicyMassKind, Ratio, RootMoveStat, SearchEventCounters,
    SearchTelemetry, UNPROVEN_DEN, UNPROVEN_NUM,
};
use crate::symmetry::{
    canonical, image, law_canonical_complete, lemma_canonical, lemma_payload_injective,
    payload_number, Sym, SymmetryHandler,
};
use rand::rngs::StdRng;
use std::collections::HashMap;
use vstd::prelude::*;

verus! {

#[derive(Clone, Copy, Debug)]
pub struct MCTSConfig {
    pub max_iterations: u32,
    /// Plies after which a playout is given up as undecided.
    pub max_depth: u32,
    pub seed: Option<u64>,
    /// Optional wall-clock budget in nanoseconds, checked after each iteration.
    pub time_limit_nanos: Option<u64>,
    /// Merge children that reach an already-seen canonical state into the
    /// existing node.
    pub use_transposition_table: bool,
}

impl Default for MCTSConfig {
    fn default() -> (c: Self)
        ensures
            c == (MCTSConfig {
                max_iterations: 10_000,
                max_depth: 16,
                seed: None,
                time_limit_nanos: None,
                use_transposition_table: true,
            }),
    {
        Self {
            max_iterations: 10_000,
            max_depth: 16,
            seed: None,
            time_limit_nanos: None,
            use_transposition_table: true,
        }
    }
}

/// The result of a finished game as a number: one for player 0, minus one for
/// player 1, zero for a game that goes on.
pub open spec fn outcome(b: Seq<u16>) -> int {
    match result_of(b) {
        GameResult::Player0Wins => 1,
        GameResult::Player1Wins => -1,
        GameResult::Ongoing => 0,
    }
}

/// The result of the board as a number, and whether the game is over.
pub fn board_outcome(bb: &Bitboard, legal: &Vec<Move>) -> (r: (bool, i64))
    requires
        legal@ == legal_moves(bb@),
    ensures
        r.0 <==> finished(bb@),
        r.1 == outcome(bb@),
        -1 <= r.1 <= 1,
        r.0 <==> r.1 != 0,
{
    match check_winner(bb) {
        WinStatus::Player0Wins => (true, 1),
        WinStatus::Player1Wins => (true, -1),
        WinStatus::NoWin => {
            if legal.len() == 0 {
                // No legal moves: the player who cannot move loses.
                match current_player(bb) {
                    Some(p) => {
                        if p == 0 {
                            (true, -1)
                        } else {
                            (true, 1)
                        }
                    },
                    None => (true, 1),
                }
            } else {
                (false, 0)
            }
        },
    }
}

/// Whether a game that goes on from `b` for at most `d` moves can come to the value `r`:
/// the outcome of a finished board, or zero where the moves ran out.
pub open spec fn playout_value(b: Seq<u16>, d: nat, r: int) -> bool
    decreases d,
{
    if d == 0 {
        r == 0
    } else if finished(b) {
        r == outcome(b)
    } else {
        exists|m: Move| #[trigger]
            legal_move(b, m) && playout_value(applied(b, m), (d - 1) as nat, r)
    }
}

/// The move that a generator draws on a board on which the game goes on.
pub open spec fn drawn_move(b: Seq<u16>, rng: StdRng) -> Move {
    legal_moves(b)[drawn(rng, legal_moves(b).len() as u64) as int]
}

/// The value to which a generator plays a game from `b` for at most `d` moves, and the
/// generator after it.
pub open spec fn playout_of(b: Seq<u16>, d: nat, rng: StdRng) -> (int, StdRng)
    decreases d,
{
    if d == 0 {
        (0, rng)
    } else if finished(b) {
        (outcome(b), rng)
    } else {
        playout_of(
            applied(b, drawn_move(b, rng)),
            (d - 1) as nat,
            after_draw(rng, legal_moves(b).len() as u64),
        )
    }
}

/// Play uniformly random legal moves until the game is over, or until
/// `max_depth` moves have been made: then the playout is undecided.
pub(crate) fn playout(bb: &Bitboard, max_depth: u32, rng: &mut StdRng) -> (r: i64)
    ensures
        -1 <= r <= 1,
        (r as int, *final(rng)) == playout_of(bb@, max_depth as nat, *old(rng)),
        playout_value(bb@, max_depth as nat, r as int),
        max_depth > empty_cells(bb@) ==> r != 0,
        max_depth > 0 && finished(bb@) ==> r == outcome(bb@),
        max_depth == 0 ==> r == 0,
{
    let mut current = *bb;
    let mut depth: u32 = 0;
    proof {
        crate::bitboard::lemma_popcount(crate::bitboard::taken(bb@), 0);
    }
    while depth < max_depth
        invariant
            depth <= max_depth,
            empty_cells(current@) == empty_cells(bb@) - depth,
            empty_cells(current@) >= 0,
            finished(bb@) ==> depth == 0,
            depth == 0 ==> current@ == bb@,
            playout_of(current@, (max_depth - depth) as nat, *rng) == playout_of(
                bb@,
                max_depth as nat,
                *old(rng),
            ),
            forall|r: int| #[trigger]
                playout_value(current@, (max_depth - depth) as nat, r) ==> playout_value(
                    bb@,
                    max_depth as nat,
                    r,
                ),
        decreases max_depth - depth,
    {
        let ghost left = (max_depth - depth) as nat;
        let moves = generate_legal_moves(&current);
        let (over, value): (bool, i64) = board_outcome(&current, &moves);
        if over {
            assert(playout_value(current@, left, value as int));
            return value;
        }
        let mv = moves[pick(rng, moves.len())];
        proof {
            lemma_legal_moves(current@);
            assert(moves@.contains(mv));
            lemma_move_fills_cell(current@, mv);
            crate::bitboard::lemma_popcount(
                crate::bitboard::taken(applied(current@, mv)),
                0,
            );
            assert forall|r: int| #[trigger]
                playout_value(applied(current@, mv), (left - 1) as nat, r) implies playout_value(
                bb@,
                max_depth as nat,
                r,
            ) by {
                assert(legal_move(current@, mv));
                assert(playout_value(current@, left, r));
            }
        }
        current = apply_move(&current, &mv);
        depth = depth + 1;
        assert((max_depth - depth) as nat == (left - 1) as nat);
    }
    assert(playout_value(current@, (max_depth - depth) as nat, 0));
    0
}

/// A node of the search tree.
struct MCTSNode {
    bb: Bitboard,
    children: Vec<usize>,
    /// The move that led here when the node was made.
    mv: Option<Move>,
    visit_count: u32,
    win_count_p0: u32,
    win_count_p1: u32,
    untried_moves: Vec<Move>,
    is_terminal: bool,
    terminal_value: i64,
}

impl MCTSNode {
    spec fn pieces(self) -> int {
        total_pieces(self.bb@)
    }

    /// The node as a node of a tree that grows.
    spec fn model(self) -> TreeNode {
        TreeNode {
            board: self.bb@,
            children: self.children@,
            mv: self.mv,
            visits: self.visit_count,
            wins_p0: self.win_count_p0,
            wins_p1: self.win_count_p1,
            untried: self.untried_moves@,
        }
    }

    /// What holds of the node on its own.
    spec fn wf(self) -> bool {
        &&& self.win_count_p0 + self.win_count_p1 <= self.visit_count
        &&& self.is_terminal <==> finished(self.bb@)
        &&& self.terminal_value == outcome(self.bb@)
        &&& self.is_terminal ==> self.children@.len() == 0
        &&& !self.is_terminal ==> self.children@.len() + self.untried_moves@.len() > 0
        &&& self.children@.no_duplicates()
        &&& forall|k: int|
            0 <= k < self.untried_moves@.len() ==> legal_move(
                self.bb@,
                #[trigger] self.untried_moves@[k],
            )
    }
}

/// Whether `c` may be a child of `n`: a node with one piece more.
spec fn link_ok(nodes: Seq<MCTSNode>, n: int, c: usize) -> bool {
    c < nodes.len() && nodes[c as int].pieces() == nodes[n].pieces() + 1
}

/// Whether all children of node `n` are nodes with one piece more.
spec fn links_ok(nodes: Seq<MCTSNode>, n: int) -> bool {
    forall|k: int|
        0 <= k < nodes[n].children@.len() ==> link_ok(nodes, n, #[trigger] nodes[n].children@[k])
}

/// Whether node `n` stands in its place: later nodes hold more pieces than the
/// root, and a node with one more is reached by its move from the root, whose
/// child it is.
spec fn place_ok(nodes: Seq<MCTSNode>, n: int) -> bool {
    let root = nodes[0];
    n > 0 ==> {
        &&& nodes[n].mv is Some
        &&& nodes[n].mv->0.in_range()
        &&& nodes[n].pieces() > root.pieces()
        &&& nodes[n].pieces() == root.pieces() + 1 ==> {
            &&& root.children@.contains(n as usize)
            &&& legal_move(root.bb@, nodes[n].mv->0)
            &&& nodes[n].bb@ == applied(root.bb@, nodes[n].mv->0)
        }
    }
}

/// The invariant of the tree.
spec fn tree_ok(nodes: Seq<MCTSNode>) -> bool {
    &&& nodes.len() <= usize::MAX
    &&& forall|n: int| 0 <= n < nodes.len() ==> (#[trigger] nodes[n]).wf()
    &&& forall|n: int| 0 <= n < nodes.len() ==> #[trigger] links_ok(nodes, n)
    &&& forall|n: int| 0 <= n < nodes.len() ==> #[trigger] place_ok(nodes, n)
}

/// Whether each entry of the table names a later node with that canonical
/// payload.
spec fn table_ok(table: Map<u128, usize>, nodes: Seq<MCTSNode>) -> bool {
    forall|key: u128| #[trigger]
        table.contains_key(key) ==> 0 < table[key] < nodes.len() && payload_number(
            canonical(nodes[table[key] as int].bb@),
        ) == key
}

/// The sum of the visits of the nodes `ids`.
spec fn visit_sum(nodes: Seq<MCTSNode>, ids: Seq<usize>) -> int
    decreases ids.len(),
{
    if ids.len() == 0 {
        0
    } else {
        visit_sum(nodes, ids.drop_last()) + nodes[ids.last() as int].visit_count
    }
}

/// Boards with the same canonical payload hold equally many pieces.
proof fn lemma_same_pieces(a: Seq<u16>, b: Seq<u16>)
    requires
        a.len() == 8,
        b.len() == 8,
        payload_number(canonical(a)) == payload_number(canonical(b)),
    ensures
        total_pieces(a) == total_pieces(b),
{
    lemma_canonical(a, a);
    lemma_canonical(b, b);
    lemma_payload_injective(canonical(a), canonical(b));
    law_canonical_complete(a, b);
    let g = choose|g: Sym| g.valid() && a == #[trigger] image(b, g);
    lemma_image_counts(b, g);
}

proof fn lemma_visit_sum_same(x: Seq<MCTSNode>, y: Seq<MCTSNode>, ids: Seq<usize>)
    requires
        forall|k: int|
            0 <= k < ids.len() ==> y[#[trigger] ids[k] as int].visit_count
                == x[ids[k] as int].visit_count,
    ensures
        visit_sum(y, ids) == visit_sum(x, ids),
    decreases ids.len(),
{
    if ids.len() > 0 {
        let rest = ids.drop_last();
        assert forall|k: int| 0 <= k < rest.len() implies y[#[trigger] rest[k] as int].visit_count
            == x[rest[k] as int].visit_count by {
            assert(rest[k] == ids[k]);
        }
        lemma_visit_sum_same(x, y, rest);
        assert(ids[ids.len() - 1] == ids.last());
    }
}

proof fn lemma_visit_sum_bump(x: Seq<MCTSNode>, y: Seq<MCTSNode>, ids: Seq<usize>, at: int)
    requires
        0 <= at < ids.len(),
        y[ids[at] as int].visit_count == x[ids[at] as int].visit_count + 1,
        forall|k: int|
            0 <= k < ids.len() && k != at ==> y[#[trigger] ids[k] as int].visit_count
                == x[ids[k] as int].visit_count,
    ensures
        visit_sum(y, ids) == visit_sum(x, ids) + 1,
    decreases ids.len(),
{
    let rest = ids.drop_last();
    assert(ids[ids.len() - 1] == ids.last());
    if at == ids.len() - 1 {
        assert forall|k: int| 0 <= k < rest.len() implies y[#[trigger] rest[k] as int].visit_count
            == x[rest[k] as int].visit_count by {
            assert(rest[k] == ids[k]);
        }
        lemma_visit_sum_same(x, y, rest);
    } else {
        assert(rest[at] == ids[at]);
        assert forall|k: int| 0 <= k < rest.len() && k != at implies y[#[trigger] rest[k] as int].visit_count
            == x[rest[k] as int].visit_count by {
            assert(rest[k] == ids[k]);
        }
        lemma_visit_sum_bump(x, y, rest, at);
    }
}

/// No board holds more than 128 pieces.
proof fn lemma_pieces_bound(b: Seq<u16>)
    requires
        b.len() == 8,
    ensures
        0 <= total_pieces(b) <= 128,
{
    crate::bitboard::lemma_popcount(b[0], 0);
    crate::bitboard::lemma_popcount(b[1], 0);
    crate::bitboard::lemma_popcount(b[2], 0);
    crate::bitboard::lemma_popcount(b[3], 0);
    crate::bitboard::lemma_popcount(b[4], 0);
    crate::bitboard::lemma_popcount(b[5], 0);
    crate::bitboard::lemma_popcount(b[6], 0);
    crate::bitboard::lemma_popcount(b[7], 0);
}

/// Whether `path` leads from the root down to one of its descendants.
spec fn path_ok(nodes: Seq<MCTSNode>, path: Seq<usize>) -> bool {
    &&& 0 < path.len() <= 129
    &&& path[0] == 0
    &&& forall|i: int|
        0 <= i < path.len() ==> (#[trigger] path[i]) < nodes.len() && nodes[path[i] as int].pieces()
            == nodes[0].pieces() + i
    &&& path.len() > 1 ==> nodes[0].children@.contains(path[1])
}

/// The nodes as those of a tree that grows.
spec fn models(nodes: Seq<MCTSNode>) -> Seq<TreeNode> {
    Seq::new(nodes.len(), |i: int| nodes[i].model())
}

/// The tree of the nodes and the table.
spec fn tree_of(
    nodes: Seq<MCTSNode>,
    table: Map<u128, usize>,
    counters: SearchEventCounters,
    depth: u32,
    rng: StdRng,
) -> GrownTree {
    GrownTree {
        nodes: models(nodes),
        table,
        tried: counters.generated_nodes as int,
        depth: depth as int,
        rng,
    }
}

/// Descend from the root by the priority of the children, an unvisited child
/// first, to a node that is over or has untried moves.
fn select<F: Fn(u32, u32, u32) -> i64>(nodes: &Vec<MCTSNode>, priority: &F) -> (path: Vec<usize>)
    requires
        nodes@.len() > 0,
        tree_ok(nodes@),
        forall|w: u32, v: u32, p: u32| #[trigger] call_requires(*priority, (w, v, p)),
    ensures
        path_ok(nodes@, path@),
        nodes@[path@.last() as int].is_terminal || nodes@[path@.last() as int].untried_moves@.len()
            > 0,
        path@.len() > 1 ==> nodes@[0].untried_moves@.len() == 0 && !nodes@[0].is_terminal,
        descent(models(nodes@), path@, *priority),
{
    let mut path: Vec<usize> = Vec::new();
    path.push(0);
    let mut current: usize = 0;
    let ghost tree = models(nodes@);
    proof {
        lemma_pieces_bound(nodes@[0].bb@);
        assert(nodes@[0].wf());
    }
    while !nodes[current].is_terminal && nodes[current].untried_moves.len() == 0
        invariant
            tree_ok(nodes@),
            nodes@.len() > 0,
            forall|w: u32, v: u32, p: u32| #[trigger] call_requires(*priority, (w, v, p)),
            current < nodes@.len(),
            path_ok(nodes@, path@),
            path@.last() == current,
            path@.len() > 1 ==> nodes@[0].untried_moves@.len() == 0 && !nodes@[0].is_terminal,
            path@.len() == 1 ==> current == 0,
            nodes@[current as int].pieces() <= 128,
            nodes@[0].pieces() >= 0,
            tree == models(nodes@),
            forall|i: int|
                0 <= i < path@.len() - 1 ==> !is_leaf(tree[#[trigger] path@[i] as int])
                    && descends_to(tree, path@[i] as int, path@[i + 1], *priority),
        decreases 128 - nodes@[current as int].pieces(),
    {
        proof {
            assert(nodes@[current as int].wf());
            assert(links_ok(nodes@, current as int));
        }
        let parent_visits: u32 = nodes[current].visit_count;
        let mover: u8 = match current_player(&nodes[current].bb) {
            Some(p) => p,
            None => 0,
        };
        let count: usize = nodes[current].children.len();
        let mut best_child: usize = nodes[current].children[0];
        let mut best: i64 = 0;
        let mut scored = false;
        let mut unvisited = false;
        let mut i: usize = 0;
        let ghost kids = nodes@[current as int].children@;
        let ghost mut scores: Seq<i64> = Seq::empty();
        let ghost mut place: int = 0;
        assert(kids.contains(kids[0]));
        while i < count && !unvisited
            invariant
                mover as int == side_to_move(nodes@[current as int].bb@),
                parent_visits == nodes@[current as int].visit_count,
                priorities(tree, current as int, *priority, scores),
                tree == models(nodes@),
                count > 0,
                0 <= place < count,
                kids[place] == best_child,
                !unvisited ==> scores.len() == i,
                unvisited ==> scores.len() == i - 1 && place == i - 1
                    && nodes@[best_child as int].visit_count == 0,
                scored <==> scores.len() > 0,
                scored && !unvisited ==> best == scores[place] && first_largest(scores, place),
                i <= count,
                count == kids.len(),
                current < nodes@.len(),
                kids == nodes@[current as int].children@,
                links_ok(nodes@, current as int),
                kids.contains(best_child),
                forall|w: u32, v: u32, p: u32| #[trigger] call_requires(*priority, (w, v, p)),
            decreases count - i,
        {
            let child_id: usize = nodes[current].children[i];
            assert(link_ok(nodes@, current as int, kids[i as int]));
            assert(kids.contains(kids[i as int]));
            let visits: u32 = nodes[child_id].visit_count;
            if visits == 0 {
                best_child = child_id;
                unvisited = true;
                proof {
                    place = i as int;
                }
            } else {
                let wins: u32 = if mover == 0 {
                    nodes[child_id].win_count_p0
                } else {
                    nodes[child_id].win_count_p1
                };
                let score: i64 = priority(wins, visits, parent_visits);
                proof {
                    scores = scores.push(score);
                }
                if !scored || score > best {
                    scored = true;
                    best = score;
                    best_child = child_id;
                    proof {
                        place = i as int;
                    }
                }
            }
            i = i + 1;
        }
        proof {
            let k = choose|k: int| 0 <= k < kids.len() && kids[k] == best_child;
            assert(link_ok(nodes@, current as int, kids[k]));
            lemma_pieces_bound(nodes@[best_child as int].bb@);
            let at = path@.len() - 1;
            assert(path@[at] == current);
            assert(nodes@[current as int].pieces() == nodes@[0].pieces() + at);
        }
        let ghost before = path@;
        proof {
            assert(tree[current as int].children == kids);
            assert(priorities(tree, current as int, *priority, scores)
                && tree[current as int].children[place] == best_child);
            assert(descends_to(tree, current as int, best_child, *priority));
            assert(!is_leaf(tree[current as int]));
        }
        path.push(best_child);
        proof {
            assert forall|i: int| 0 <= i < path@.len() - 1 implies !is_leaf(
                tree[#[trigger] path@[i] as int],
            ) && descends_to(tree, path@[i] as int, path@[i + 1], *priority) by {
                assert(path@[i] == before[i]);
                if i < before.len() - 1 {
                    assert(path@[i + 1] == before[i + 1]);
                }
            }
        }
        current = best_child;
        assert(nodes@[current as int].wf());
    }
    proof {
        assert(nodes@[current as int].wf());
        assert(tree[current as int] == nodes@[current as int].model());
        assert forall|i: int| 0 <= i < path@.len() implies (#[trigger] path@[i]) < tree.len() by {}
    }
    path
}

/// Count the outcome `value` at every node of `path`.
fn backpropagate(nodes: &mut Vec<MCTSNode>, path: &Vec<usize>, value: i64, Ghost(limit): Ghost<int>)
    requires
        tree_ok(old(nodes)@),
        path_ok(old(nodes)@, path@),
        limit < u32::MAX,
        forall|n: int|
            0 <= n < old(nodes)@.len() ==> (#[trigger] old(nodes)@[n]).visit_count <= limit,
    ensures
        tree_ok(final(nodes)@),
        final(nodes)@.len() == old(nodes)@.len(),
        forall|n: int|
            0 <= n < old(nodes)@.len() ==> counted(
                old(nodes)@[n],
                #[trigger] final(nodes)@[n],
                path@.contains(n as usize),
                value as int,
            ),
{
    let ghost nodes0 = nodes@;
    let mut i: usize = path.len();
    while i > 0
        invariant
            i <= path@.len(),
            path_ok(nodes0, path@),
            tree_ok(nodes0),
            nodes0 == old(nodes)@,
            nodes@.len() == nodes0.len(),
            limit < u32::MAX,
            forall|n: int| 0 <= n < nodes0.len() ==> (#[trigger] nodes0[n]).visit_count <= limit,
            forall|n: int|
                0 <= n < nodes0.len() ==> counted(
                    nodes0[n],
                    #[trigger] nodes@[n],
                    in_tail(path@, i as int, n as usize),
                    value as int,
                ),
        decreases i,
    {
        i = i - 1;
        let id: usize = path[i];
        let ghost before = nodes@;
        proof {
            assert(!in_tail(path@, i + 1, id)) by {
                if in_tail(path@, i + 1, id) {
                    let k = choose|k: int| i + 1 <= k < path@.len() && path@[k] == id;
                    assert(nodes0[path@[k] as int].pieces() == nodes0[0].pieces() + k);
                    assert(nodes0[path@[i as int] as int].pieces() == nodes0[0].pieces() + i);
                }
            }
            assert(counted(nodes0[id as int], nodes@[id as int], false, value as int));
            assert(nodes0[id as int].wf());
        }
        let visits: u32 = nodes[id].visit_count;
        nodes[id].visit_count = visits + 1;
        if value > 0 {
            let wins: u32 = nodes[id].win_count_p0;
            nodes[id].win_count_p0 = wins + 1;
        } else if value < 0 {
            let wins: u32 = nodes[id].win_count_p1;
            nodes[id].win_count_p1 = wins + 1;
        }
        proof {
            assert forall|n: int| 0 <= n < nodes0.len() implies counted(
                nodes0[n],
                #[trigger] nodes@[n],
                in_tail(path@, i as int, n as usize),
                value as int,
            ) by {
                if n == id {
                    assert(path@[i as int] == n as usize);
                } else {
                    assert(nodes@[n] == before[n]);
                    assert(counted(
                        nodes0[n],
                        before[n],
                        in_tail(path@, i + 1, n as usize),
                        value as int,
                    ));
                    assert(in_tail(path@, i as int, n as usize) <==> in_tail(
                        path@,
                        i + 1,
                        n as usize,
                    )) by {
                        if in_tail(path@, i as int, n as usize) {
                            let k = choose|k: int| i <= k < path@.len() && path@[k] == n as usize;
                            assert(k != i);
                            assert(path@[k] == n as usize);
                        }
                    }
                }
            }
        }
    }
    proof {
        assert forall|n: int| 0 <= n < nodes0.len() implies counted(
            nodes0[n],
            #[trigger] nodes@[n],
            path@.contains(n as usize),
            value as int,
        ) by {
            assert(in_tail(path@, 0, n as usize) <==> path@.contains(n as usize));
        }
        lemma_tree_counted(nodes0, nodes@);
    }
}

spec fn in_tail(path: Seq<usize>, from: int, id: usize) -> bool {
    exists|k: int| from <= k < path.len() && path[k] == id
}

/// Whether all finished boards are won in every visit.
spec fn ends_won(nodes: Seq<MCTSNode>) -> bool {
    forall|n: int| 0 <= n < nodes.len() ==> ends_counted((#[trigger] nodes[n]).model())
}

proof fn lemma_counted_model(
    x: Seq<MCTSNode>,
    y: Seq<MCTSNode>,
    tree: GrownTree,
    path: Seq<usize>,
    value: int,
)
    requires
        x.len() == y.len(),
        x.len() <= usize::MAX,
        forall|n: int|
            0 <= n < x.len() ==> counted(
                x[n],
                #[trigger] y[n],
                path.contains(n as usize),
                value,
            ),
        tree.nodes == models(x),
    ensures
        models(y) == with_outcome(tree, path, value, tree.rng).nodes,
        finished_below(models(y), y.len() as int) == finished_below(models(x), x.len() as int),
{
    let t = with_outcome(tree, path, value, tree.rng);
    assert(models(y) =~= t.nodes) by {
        assert forall|n: int| 0 <= n < x.len() implies #[trigger] models(y)[n] == t.nodes[n] by {
            assert(counted(x[n], y[n], path.contains(n as usize), value));
            assert(path.contains(n as usize) <==> on_path(path, n)) by {
                if path.contains(n as usize) {
                    let k = choose|k: int| 0 <= k < path.len() && path[k] == n as usize;
                    assert(path[k] == n);
                }
            }
        }
    }
    assert forall|i: int| 0 <= i < x.len() implies (#[trigger] models(y)[i]).board == models(
        x,
    )[i].board by {
        assert(counted(x[i], y[i], path.contains(i as usize), value));
    }
    lemma_finished_below(models(x), models(y), x.len() as int);
}

/// How a node changes when it is counted, or is not.
spec fn counted(before: MCTSNode, after: MCTSNode, hit: bool, value: int) -> bool {
    let n: int = if hit {
        1
    } else {
        0
    };
    &&& after.bb == before.bb
    &&& after.children == before.children
    &&& after.mv == before.mv
    &&& after.untried_moves == before.untried_moves
    &&& after.is_terminal == before.is_terminal
    &&& after.terminal_value == before.terminal_value
    &&& after.visit_count == before.visit_count + n
    &&& after.win_count_p0 == before.win_count_p0 + (if value > 0 {
        n
    } else {
        0
    })
    &&& after.win_count_p1 == before.win_count_p1 + (if value < 0 {
        n
    } else {
        0
    })
}

proof fn lemma_tree_counted(x: Seq<MCTSNode>, y: Seq<MCTSNode>)
    requires
        tree_ok(x),
        x.len() == y.len(),
        forall|n: int|
            0 <= n < x.len() ==> {
                let (a, b) = (x[n], #[trigger] y[n]);
                &&& b.bb == a.bb
                &&& b.children == a.children
                &&& b.mv == a.mv
                &&& b.untried_moves == a.untried_moves
                &&& b.is_terminal == a.is_terminal
                &&& b.terminal_value == a.terminal_value
                &&& b.win_count_p0 + b.win_count_p1 <= b.visit_count
            },
    ensures
        tree_ok(y),
{
    assert forall|n: int| 0 <= n < y.len() implies (#[trigger] y[n]).wf() by {
        assert(x[n].wf());
    }
    assert forall|n: int| 0 <= n < y.len() implies #[trigger] links_ok(y, n) by {
        assert(links_ok(x, n));
        assert(y[n].children == x[n].children);
        assert forall|k: int| 0 <= k < y[n].children@.len() implies link_ok(
            y,
            n,
            #[trigger] y[n].children@[k],
        ) by {
            assert(link_ok(x, n, x[n].children@[k]));
            let c = y[n].children@[k];
            assert(y[c as int].bb == x[c as int].bb);
        }
    }
    assert forall|n: int| 0 <= n < y.len() implies #[trigger] place_ok(y, n) by {
        assert(place_ok(x, n));
        assert(y[n].bb == x[n].bb);
        assert(y[0].bb == x[0].bb);
    }
}

/// Monte Carlo tree search engine.
pub struct MCTSEngine {
    config: MCTSConfig,
    nodes: Vec<MCTSNode>,
    transpositions: HashMap<u128, usize>,
    rng: StdRng,
    iterations_performed: u32,
    counters: SearchEventCounters,
    elapsed_ms: u64,
    max_depth_reached: u32,
}

/// Whether the move of node `c` leads from the board of node `n` to that of `c`.
spec fn plain_link(nodes: Seq<MCTSNode>, n: int, c: usize) -> bool {
    &&& c < nodes.len()
    &&& nodes[c as int].mv is Some
    &&& legal_move(nodes[n].bb@, nodes[c as int].mv->0)
    &&& nodes[c as int].bb@ == applied(nodes[n].bb@, nodes[c as int].mv->0)
}

/// Whether every child is reached from its parent by its move, as it is where no nodes
/// are merged.
#[verifier::opaque]
spec fn plain_tree(nodes: Seq<MCTSNode>) -> bool {
    forall|n: int, k: int|
        0 <= n < nodes.len() && 0 <= k < nodes[n].children@.len() ==> plain_link(
            nodes,
            n,
            #[trigger] nodes[n].children@[k],
        )
}

proof fn lemma_plain_start(nodes: Seq<MCTSNode>)
    requires
        forall|n: int| 0 <= n < nodes.len() ==> (#[trigger] nodes[n]).children@.len() == 0,
    ensures
        plain_tree(nodes),
{
    reveal(plain_tree);
}

proof fn lemma_plain_counted(x: Seq<MCTSNode>, y: Seq<MCTSNode>)
    requires
        plain_tree(x),
        x.len() == y.len(),
        forall|n: int|
            0 <= n < x.len() ==> (#[trigger] y[n]).bb == x[n].bb && y[n].children == x[n].children
                && y[n].mv == x[n].mv,
    ensures
        plain_tree(y),
{
    reveal(plain_tree);
    assert forall|n: int, k: int|
        0 <= n < y.len() && 0 <= k < y[n].children@.len() implies plain_link(
        y,
        n,
        #[trigger] y[n].children@[k],
    ) by {
        assert(y[n].children == x[n].children);
        assert(plain_link(x, n, x[n].children@[k]));
    }
}

proof fn lemma_plain_expanded(x: Seq<MCTSNode>, y: Seq<MCTSNode>, id: int, c: usize)
    requires
        plain_tree(x),
        0 <= id < x.len(),
        y.len() == x.len() + 1,
        c == x.len(),
        forall|n: int| 0 <= n < x.len() && n != id ==> #[trigger] y[n] == x[n],
        y[id].bb == x[id].bb,
        y[id].mv == x[id].mv,
        y[id].children@ == x[id].children@.push(c),
        y[c as int].children@.len() == 0,
        plain_link(y, id, c),
    ensures
        plain_tree(y),
{
    reveal(plain_tree);
    assert forall|n: int, k: int|
        0 <= n < y.len() && 0 <= k < y[n].children@.len() implies plain_link(
        y,
        n,
        #[trigger] y[n].children@[k],
    ) by {
        if n == id {
            if k < x[id].children@.len() {
                assert(y[id].children@[k] == x[id].children@[k]);
                assert(plain_link(x, id, x[id].children@[k]));
                let d = x[id].children@[k] as int;
                assert(d == id || y[d] == x[d]);
            }
        } else {
            assert(y[n] == x[n]);
            assert(plain_link(x, n, x[n].children@[k]));
            let d = x[n].children@[k] as int;
            assert(d == id || y[d] == x[d]);
        }
    }
}

/// How the tree changes when node `id` is expanded to `r`: one of its untried
/// moves is gone, `r` is among its children, and at most one node is new.
spec fn expanded(x: Seq<MCTSNode>, y: Seq<MCTSNode>, id: int, r: usize) -> bool {
    &&& x.len() <= y.len() <= x.len() + 1
    &&& r < y.len()
    &&& y.len() > x.len() ==> r == x.len() && y[r as int].visit_count == 0
    &&& forall|n: int| 0 <= n < x.len() && n != id ==> #[trigger] y[n] == x[n]
    &&& y[id].bb == x[id].bb
    &&& y[id].mv == x[id].mv
    &&& y[id].visit_count == x[id].visit_count
    &&& y[id].is_terminal == x[id].is_terminal
    &&& y[id].untried_moves@.len() == x[id].untried_moves@.len() - 1
    &&& y[id].children@.contains(r)
    &&& y[id].children@ == x[id].children@ || y[id].children@ == x[id].children@.push(r)
    &&& y.len() > x.len() ==> y[id].children@ == x[id].children@.push(r)
    &&& y[r as int].pieces() == y[id].pieces() + 1
}

proof fn lemma_tree_expanded(
    x: Seq<MCTSNode>,
    y: Seq<MCTSNode>,
    id: int,
    r: usize,
    mv: Move,
)
    requires
        tree_ok(x),
        0 <= id < x.len(),
        !x[id].is_terminal,
        expanded(x, y, id, r),
        y.len() <= usize::MAX,
        legal_move(x[id].bb@, mv),
        y[id].wf(),
        y.len() > x.len() ==> {
            &&& y[r as int].wf()
            &&& y[r as int].children@.len() == 0
            &&& y[r as int].mv == Some(mv)
            &&& y[r as int].bb@ == applied(x[id].bb@, mv)
        },
    ensures
        tree_ok(y),
{
    let new = x.len() as int;
    assert(place_ok(x, id));
    assert(x[id].pieces() >= x[0].pieces());
    lemma_legal_move_step(x[id].bb@, mv);
    assert forall|n: int| 0 <= n < y.len() implies (#[trigger] y[n]).wf() by {
        if n < new && n != id {
            assert(x[n].wf());
        }
    }
    assert forall|n: int| 0 <= n < y.len() implies #[trigger] links_ok(y, n) by {
        if n < new {
            assert(links_ok(x, n));
            assert forall|k: int| 0 <= k < y[n].children@.len() implies link_ok(
                y,
                n,
                #[trigger] y[n].children@[k],
            ) by {
                let c = y[n].children@[k];
                if k < x[n].children@.len() {
                    assert(c == x[n].children@[k]);
                    assert(link_ok(x, n, x[n].children@[k]));
                    assert(y[c as int].bb == x[c as int].bb);
                }
            }
        }
    }
    assert forall|n: int| 0 <= n < y.len() implies #[trigger] place_ok(y, n) by {
        assert(y[0].bb == x[0].bb);
        if n < new {
            assert(place_ok(x, n));
            if n > 0 && y[n].pieces() == y[0].pieces() + 1 {
                assert(x[0].children@.contains(n as usize));
                let k = choose|k: int| 0 <= k < x[0].children@.len() && x[0].children@[k] == n as usize;
                assert(y[0].children@[k] == n as usize);
            }
        } else if y[n].pieces() == y[0].pieces() + 1 {
            assert(x[id].pieces() == x[0].pieces());
            assert(id == 0);
        }
    }
}

/// Expanding leaves the visits of the root's children as they are.
proof fn lemma_expanded_visits(x: Seq<MCTSNode>, y: Seq<MCTSNode>, id: int, r: usize)
    requires
        tree_ok(x),
        tree_ok(y),
        0 <= id < x.len(),
        expanded(x, y, id, r),
    ensures
        visit_sum(y, y[0].children@) == visit_sum(x, x[0].children@),
{
    let kids = x[0].children@;
    assert(links_ok(x, 0));
    assert forall|k: int| 0 <= k < kids.len() implies y[#[trigger] kids[k] as int].visit_count
        == x[kids[k] as int].visit_count by {
        assert(link_ok(x, 0, kids[k]));
    }
    lemma_visit_sum_same(x, y, kids);
    if id == 0 && y[0].children@ != kids {
        assert(y[0].children@ == kids.push(r));
        if y.len() == x.len() {
            assert(place_ok(x, r as int));
            assert(kids.contains(r));
            let k = choose|k: int| 0 <= k < kids.len() && kids[k] == r;
            assert(y[0].wf());
            assert(y[0].children@[k] == r && y[0].children@[kids.len() as int] == r);
        } else {
            assert(y[0].children@.drop_last() =~= kids);
            assert(y[0].children@.last() == r);
        }
    }
}

impl MCTSEngine {
    spec fn inv(&self) -> bool {
        &&& tree_ok(self.nodes@)
        &&& table_ok(self.transpositions@, self.nodes@)
        &&& !self.config.use_transposition_table ==> plain_tree(self.nodes@)
    }

    /// Try one of the untried moves of `id` and return the node that it leads
    /// to; `id` itself if it is over or has none.
    fn expand(&mut self, id: usize) -> (r: usize)
        requires
            old(self).inv(),
            id < old(self).nodes@.len(),
            counts_events(old(self).tree(), old(self).counters),
            old(self).counters.generated_nodes < u64::MAX,
            old(self).nodes@.len() < u64::MAX,
        ensures
            final(self).inv(),
            counts_events(final(self).tree(), final(self).counters),
            final(self).counters.generated_nodes <= old(self).counters.generated_nodes + 1,
            final(self).config == old(self).config,
            final(self).iterations_performed == old(self).iterations_performed,
            final(self).max_depth_reached == old(self).max_depth_reached,
            final(self).elapsed_ms == old(self).elapsed_ms,
            old(self).nodes@[id as int].is_terminal || old(self).nodes@[id as int].untried_moves@.len()
                == 0 ==> r == id && final(self).nodes@ == old(self).nodes@,
            !old(self).nodes@[id as int].is_terminal && old(self).nodes@[id as int].untried_moves@.len()
                > 0 ==> expanded(old(self).nodes@, final(self).nodes@, id as int, r),
            !old(self).config.use_transposition_table ==> final(self).counters.transposition_hits
                == old(self).counters.transposition_hits,
            final(self).counters.tablebase_hits == old(self).counters.tablebase_hits,
            final(self).counters.canonical_dedup_hits == old(self).counters.canonical_dedup_hits,
            final(self).counters.expanded_nodes >= old(self).counters.expanded_nodes,
            final(self).counters.terminal_hits >= old(self).counters.terminal_hits,
            !old(self).config.use_transposition_table && !old(self).nodes@[id as int].is_terminal
                && old(self).nodes@[id as int].untried_moves@.len() > 0 ==> final(self).nodes@.len()
                > old(self).nodes@.len(),
            moves_kept(old(self).nodes@, final(self).nodes@, id as int, r),
            expands(
                old(self).config.use_transposition_table,
                old(self).tree(),
                id as int,
                final(self).tree(),
                r,
            ),
    {
        broadcast use vstd::std_specs::hash::group_hash_axioms;

        let ghost t0 = self.tree();
        let ghost c0 = self.counters;
        assert(t0.nodes[id as int] == self.nodes@[id as int].model());
        assert(self.nodes@[id as int].wf());
        if self.nodes[id].is_terminal || self.nodes[id].untried_moves.len() == 0 {
            return id;
        }
        let ghost x = self.nodes@;
        let ghost b = x[id as int].bb@;
        proof {
            assert(x[id as int].wf());
            assert(links_ok(x, id as int));
        }
        let idx: usize = pick(&mut self.rng, self.nodes[id].untried_moves.len());
        let mv: Move = self.nodes[id].untried_moves.swap_remove(idx);
        let ghost x1 = self.nodes@;
        proof {
            assert(mv == x[id as int].untried_moves@[idx as int]);
            assert(legal_move(b, mv));
            lemma_legal_move_step(b, mv);
            assert forall|k: int| 0 <= k < x1[id as int].untried_moves@.len() implies legal_move(
                b,
                #[trigger] x1[id as int].untried_moves@[k],
            ) by {
                let last = x[id as int].untried_moves@.len() - 1;
                let was = if k == idx as int {
                    last
                } else {
                    k
                };
                assert(x1[id as int].untried_moves@[k] == x[id as int].untried_moves@[was]);
            }
            assert(kept_without(x[id as int].untried_moves@, x1[id as int].untried_moves@, mv)) by {
                assert forall|m: Move|
                    x[id as int].untried_moves@.contains(m) && m
                        != mv implies #[trigger] x1[id as int].untried_moves@.contains(m) by {
                    let u = x[id as int].untried_moves@;
                    let k = choose|k: int| 0 <= k < u.len() && u[k] == m;
                    if k == u.len() - 1 {
                        assert(x1[id as int].untried_moves@[idx as int] == m);
                    } else {
                        assert(x1[id as int].untried_moves@[k] == m);
                    }
                }
            }
        }
        let new_bb = apply_move(&self.nodes[id].bb, &mv);
        self.counters.generated_nodes = self.counters.generated_nodes.saturating_add(1);
        let mut key: Option<u128> = None;
        if self.config.use_transposition_table {
            let number = SymmetryHandler::canonical_number(&new_bb);
            key = Some(number);
            if let Some(found) = self.transpositions.get(&number) {
                let existing: usize = *found;
                proof {
                    assert(self.transpositions@.contains_key(number));
                    lemma_same_pieces(x[existing as int].bb@, new_bb@);
                    assert(existing != id);
                }
                if !contains_id(&self.nodes[id].children, existing) {
                    self.nodes[id].children.push(existing);
                    assert(self.nodes@[id as int].children@[x[id as int].children@.len() as int]
                        == existing);
                }
                self.counters.transposition_hits =
                self.counters.transposition_hits.saturating_add(1);
                proof {
                    lemma_tree_expanded(x, self.nodes@, id as int, existing, mv);
                    lemma_table_kept(self.transpositions@, x, self.nodes@, id as int, existing);
                    let t1 = self.tree();
                    let node = t0.nodes[id as int];
                    let left = node.untried.update(idx as int, node.untried.last()).drop_last();
                    assert(t1.nodes =~= t0.nodes.update(
                        id as int,
                        TreeNode {
                            untried: left,
                            children: if node.children.contains(existing) {
                                node.children
                            } else {
                                node.children.push(existing)
                            },
                            ..node
                        },
                    ));
                    assert(tries_move(true, t0, id as int, idx as int, t1, existing));
                    lemma_finished_below(t0.nodes, t1.nodes, t0.nodes.len() as int);
                }
                return existing;
            }
        }
        let legal = generate_legal_moves(&new_bb);
        let (is_terminal, terminal_value): (bool, i64) = board_outcome(&new_bb, &legal);
        self.counters.expanded_nodes = self.counters.expanded_nodes.saturating_add(1);
        if is_terminal {
            self.counters.terminal_hits = self.counters.terminal_hits.saturating_add(1);
        }
        let child_id: usize = self.nodes.len();
        proof {
            lemma_legal_moves(new_bb@);
        }
        self.nodes.push(
            MCTSNode {
                bb: new_bb,
                children: Vec::new(),
                mv: Some(mv),
                visit_count: 0,
                win_count_p0: 0,
                win_count_p1: 0,
                untried_moves: legal,
                is_terminal,
                terminal_value,
            },
        );
        self.nodes[id].children.push(child_id);
        proof {
            let kids = x[id as int].children@;
            assert(self.nodes@.len() == self.nodes.len());
            assert(self.nodes@[id as int].children@ == kids.push(child_id));
            assert(self.nodes@[id as int].children@[kids.len() as int] == child_id);
            assert forall|k: int| 0 <= k < kids.len() implies kids[k] != child_id by {
                assert(link_ok(x, id as int, kids[k]));
            }
            lemma_tree_expanded(x, self.nodes@, id as int, child_id, mv);
            lemma_table_kept(self.transpositions@, x, self.nodes@, id as int, child_id);
            if !self.config.use_transposition_table {
                assert(plain_link(self.nodes@, id as int, child_id));
                lemma_plain_expanded(x, self.nodes@, id as int, child_id);
            }
        }
        if let Some(number) = key {
            self.transpositions.insert(number, child_id);
        }
        proof {
            let t1 = self.tree();
            let node = t0.nodes[id as int];
            let left = node.untried.update(idx as int, node.untried.last()).drop_last();
            assert(self.nodes@[child_id as int].children@ =~= Seq::<usize>::empty());
            assert(t1.nodes =~= t0.nodes.update(
                id as int,
                TreeNode { untried: left, children: node.children.push(child_id), ..node },
            ).push(bare_node(new_bb@, Some(mv))));
            assert(tries_move(
                self.config.use_transposition_table,
                t0,
                id as int,
                idx as int,
                t1,
                child_id,
            ));
            lemma_finished_below(t0.nodes, t1.nodes, t0.nodes.len() as int);
            assert(t1.nodes[child_id as int].board == new_bb@);
        }
        child_id
    }
}

/// Whether `after` still holds every move of `before` but `m`.
spec fn kept_without(before: Seq<Move>, after: Seq<Move>, m: Move) -> bool {
    forall|n: Move| before.contains(n) && n != m ==> #[trigger] after.contains(n)
}

/// Whether a move of node `id` that is no longer untried is the move of a new
/// child; with merging nothing is said.
spec fn moves_kept(x: Seq<MCTSNode>, y: Seq<MCTSNode>, id: int, r: usize) -> bool {
    y.len() > x.len() ==> y[r as int].mv is Some && kept_without(
        x[id].untried_moves@,
        y[id].untried_moves@,
        y[r as int].mv->0,
    )
}

proof fn lemma_table_kept(
    table: Map<u128, usize>,
    x: Seq<MCTSNode>,
    y: Seq<MCTSNode>,
    id: int,
    r: usize,
)
    requires
        table_ok(table, x),
        0 <= id < x.len(),
        expanded(x, y, id, r),
    ensures
        table_ok(table, y),
{
    assert forall|key: u128| #[trigger] table.contains_key(key) implies 0 < table[key] < y.len()
        && payload_number(canonical(y[table[key] as int].bb@)) == key by {
        assert(y[table[key] as int].bb == x[table[key] as int].bb);
    }
}

fn contains_id(ids: &Vec<usize>, id: usize) -> (r: bool)
    ensures
        r <==> ids@.contains(id),
{
    let mut i: usize = 0;
    while i < ids.len()
        invariant
            i <= ids@.len(),
            forall|j: int| 0 <= j < i ==> ids@[j] != id,
        decreases ids@.len() - i,
    {
        if ids[i] == id {
            return true;
        }
        i = i + 1;
    }
    false
}

/// What the tree knows of a root move.
pub struct RootChild {
    pub mv: Move,
    pub visits: u32,
    pub wins_p0: u32,
    pub wins_p1: u32,
    pub terminal: bool,
    pub terminal_value: int,
}

/// The sum of the visits of the root moves.
pub open spec fn total_visits(children: Seq<RootChild>) -> int
    decreases children.len(),
{
    if children.len() == 0 {
        0
    } else {
        total_visits(children.drop_last()) + children.last().visits
    }
}

/// Whether child `k` is the first of those with the most visits.
pub open spec fn first_most_visited(children: Seq<RootChild>, k: int) -> bool {
    &&& 0 <= k < children.len()
    &&& forall|j: int| 0 <= j < children.len() ==> (#[trigger] children[j]).visits <= children[k].visits
    &&& forall|j: int| 0 <= j < k ==> (#[trigger] children[j]).visits < children[k].visits
}

/// The wins of `player` through a root move.
pub open spec fn child_wins(c: RootChild, player: int) -> int {
    if player == 0 {
        c.wins_p0 as int
    } else {
        c.wins_p1 as int
    }
}

/// Whether the root moves are what a search of `b` can have found.
pub open spec fn root_children_ok(children: Seq<RootChild>, b: Seq<u16>) -> bool {
    forall|k: int|
        0 <= k < children.len() ==> {
            let c = #[trigger] children[k];
            &&& legal_move(b, c.mv)
            &&& c.visits >= 1
            &&& c.wins_p0 + c.wins_p1 <= c.visits
            &&& c.terminal <==> finished(applied(b, c.mv))
            &&& c.terminal_value == outcome(applied(b, c.mv))
            &&& c.terminal ==> if c.terminal_value > 0 {
                c.wins_p0 == c.visits && c.wins_p1 == 0
            } else {
                c.wins_p1 == c.visits && c.wins_p0 == 0
            }
        }
}

/// Whether `m` is one of the root moves.
pub open spec fn has_root_move(children: Seq<RootChild>, m: Move) -> bool {
    exists|k: int| 0 <= k < children.len() && (#[trigger] children[k]).mv == m
}

/// The value of a root move for `mover`: exact where the move ends the game,
/// else the win rate brought to the range from minus one to one.
pub open spec fn child_q(c: RootChild, mover: int) -> (int, int) {
    if c.terminal {
        (if mover == 0 {
            c.terminal_value
        } else {
            -c.terminal_value
        }, 1)
    } else {
        (2 * child_wins(c, mover) - c.visits, c.visits as int)
    }
}

/// Whether `q` reports `child_q` as telemetry does: proven values exactly,
/// estimates kept away from them.
pub open spec fn reports_q(q: Ratio, c: RootChild, mover: int) -> bool {
    let (num, den) = child_q(c, mover);
    if c.terminal {
        q.num == num && q.den == den
    } else {
        &&& -q.den < q.num < q.den
        &&& -UNPROVEN_NUM * den <= num * UNPROVEN_DEN <= UNPROVEN_NUM * den ==> q.num == num && q.den
            == den
        &&& num * UNPROVEN_DEN > UNPROVEN_NUM * den ==> q.num == UNPROVEN_NUM && q.den
            == UNPROVEN_DEN
        &&& num * UNPROVEN_DEN < -UNPROVEN_NUM * den ==> q.num == -UNPROVEN_NUM && q.den
            == UNPROVEN_DEN
    }
}

impl MCTSEngine {
    /// The generator of the engine's random choices.
    pub closed spec fn generator(&self) -> StdRng {
        self.rng
    }

    /// The configuration of the engine.
    pub closed spec fn settings(&self) -> MCTSConfig {
        self.config
    }

    /// The number of iterations of the last search.
    pub closed spec fn iterations(&self) -> u32 {
        self.iterations_performed
    }

    /// Whether the last search had a tree.
    pub closed spec fn has_tree(&self) -> bool {
        self.nodes@.len() > 0
    }

    /// The root board of the last search.
    pub closed spec fn root(&self) -> Seq<u16> {
        self.nodes@[0].bb@
    }

    /// The tree of the last search, with the generator of the choices to come.
    pub closed spec fn tree(&self) -> GrownTree {
        tree_of(
            self.nodes@,
            self.transpositions@,
            self.counters,
            self.max_depth_reached,
            self.rng,
        )
    }

    /// The number of nodes of the last search's tree.
    pub closed spec fn node_count(&self) -> nat {
        self.nodes@.len()
    }

    /// The root moves that the last search has tried.
    pub closed spec fn root_children(&self) -> Seq<RootChild> {
        if self.nodes@.len() == 0 {
            Seq::empty()
        } else {
            children_view(self.nodes@, self.nodes@[0].children@)
        }
    }

    /// The event counters of the last search.
    pub closed spec fn events(&self) -> SearchEventCounters {
        self.counters
    }

    /// The duration of the last search in milliseconds.
    pub closed spec fn elapsed(&self) -> u64 {
        self.elapsed_ms
    }

    /// The longest path of the last search.
    pub closed spec fn depth(&self) -> u32 {
        self.max_depth_reached
    }

    /// The invariant of the engine.
    pub closed spec fn wf(&self) -> bool {
        &&& self.inv()
        &&& self.nodes@.len() > 0 ==> root_children_ok(self.root_children(), self.root())
        &&& self.nodes@.len() > 0 ==> legal_moves(self.nodes@[0].bb@).len() > 0
    }

    pub fn new(config: MCTSConfig) -> (e: Self)
        requires
            config.time_limit_nanos matches Some(limit) ==> limit > 0,
        ensures
            e.wf(),
            e.settings() == config,
            config.seed matches Some(seed) ==> e.generator() == seeded(seed),
            !e.has_tree(),
            e.iterations() == 0,
    {
        broadcast use vstd::std_specs::hash::group_hash_axioms;

        let rng = match config.seed {
            Some(seed) => seeded_rng(seed),
            None => entropy_rng(),
        };
        proof {
            lemma_plain_start(Seq::empty());
        }
        Self {
            config,
            nodes: Vec::new(),
            transpositions: HashMap::new(),
            rng,
            iterations_performed: 0,
            counters: SearchEventCounters::default(),
            elapsed_ms: 0,
            max_depth_reached: 0,
        }
    }

    /// One iteration: descend to a leaf, expand it, and count the outcome along the way.
    #[verifier::rlimit(40)]
    fn iterate<F: Fn(u32, u32, u32) -> i64>(&mut self, priority: &F, Ghost(b): Ghost<Seq<u16>>)
        requires
            forall|w: u32, v: u32, p: u32| #[trigger] call_requires(*priority, (w, v, p)),
            legal_moves(b).len() > 0,
            old(self).iterations_performed < u32::MAX,
            search_state(
                old(self).nodes@,
                b,
                old(self).iterations_performed as int,
                old(self).config.use_transposition_table,
            ),
            old(self).inv(),
            !old(self).config.use_transposition_table ==> old(self).counters.transposition_hits == 0,
            counts_events(old(self).tree(), old(self).counters),
            old(self).counters.generated_nodes <= old(self).iterations_performed,
        ensures
            final(self).config == old(self).config,
            final(self).iterations_performed == old(self).iterations_performed + 1,
            search_state(
                final(self).nodes@,
                b,
                final(self).iterations_performed as int,
                final(self).config.use_transposition_table,
            ),
            final(self).inv(),
            !old(self).config.use_transposition_table ==> final(self).counters.transposition_hits
                == 0,
            counts_events(final(self).tree(), final(self).counters),
            final(self).counters.generated_nodes <= final(self).iterations_performed,
            iterates(*priority, old(self).config, old(self).tree(), final(self).tree()),
    {
        let ghost x = self.nodes@;
        let ghost config0 = self.config;
        let ghost before = self.tree();
        let mut path = select(&self.nodes, priority);
        let leaf: usize = path[path.len() - 1];
        let ghost short = path@;
        let expanded_id: usize = self.expand(leaf);
        let ghost y = self.nodes@;
        let ghost middle = self.tree();
        proof {
            assert(short[short.len() - 1] == leaf);
            lemma_expand_step(
                x,
                y,
                b,
                self.iterations_performed as int,
                config0.use_transposition_table,
                short,
                leaf,
                expanded_id,
            );
        }
        if expanded_id != leaf {
            path.push(expanded_id);
        }
        if path.len() as u32 - 1 > self.max_depth_reached {
            self.max_depth_reached = path.len() as u32 - 1;
        }
        let value: i64 = if self.nodes[expanded_id].is_terminal {
            self.nodes[expanded_id].terminal_value
        } else {
            playout(&self.nodes[expanded_id].bb, self.config.max_depth, &mut self.rng)
        };
        assert(y[expanded_id as int].wf());
        assert(outcome_from(middle.nodes[expanded_id as int].board, config0.max_depth, value as int));
        assert((value as int, self.rng) == visit_of(
            middle.nodes[expanded_id as int].board,
            config0.max_depth,
            middle.rng,
        ));
        backpropagate(&mut self.nodes, &path, value, Ghost(self.iterations_performed as int));
        proof {
            assert(path@ == with_last(short, expanded_id));
            lemma_counted_model(y, self.nodes@, middle, path@, value as int);
            assert(self.tree() == with_outcome(middle, path@, value as int, self.rng));
            assert(iterates_by(
                *priority,
                config0,
                before,
                short,
                middle,
                expanded_id,
                self.tree(),
            ));
            assert(iterates(*priority, config0, before, self.tree()));
            lemma_count_step(
                y,
                self.nodes@,
                b,
                self.iterations_performed as int,
                config0.use_transposition_table,
                path@,
                value as int,
            );
            lemma_table_counted(self.transpositions@, y, self.nodes@);
            if !config0.use_transposition_table {
                lemma_plain_counted(y, self.nodes@);
            }
        }
        self.iterations_performed = self.iterations_performed + 1;
    }

    /// Run the search from `bb` and return the most visited root move with the
    /// root mover's win rate through it.
    pub fn search<F: Fn(u32, u32, u32) -> i64>(&mut self, bb: &Bitboard, priority: &F) -> (r: Option<
        (Move, Ratio),
    >)
        requires
            forall|w: u32, v: u32, p: u32| #[trigger] call_requires(*priority, (w, v, p)),
        ensures
            final(self).wf(),
            final(self).settings() == old(self).settings(),
            final(self).has_tree() <==> legal_moves(bb@).len() > 0,
            final(self).has_tree() ==> final(self).root() == bb@,
            root_children_ok(final(self).root_children(), bb@),
            r matches Some((mv, p)) ==> legal_move(bb@, mv) && 0 <= p.num <= p.den && p.den > 0,
            r is Some <==> legal_moves(bb@).len() > 0 && !won(bb@) &&
                old(self).settings().max_iterations > 0,
            final(self).iterations() <= old(self).settings().max_iterations,
            !final(self).has_tree() ==> final(self).iterations() == 0,
            final(self).has_tree() && old(self).settings().time_limit_nanos is None
                ==> final(self).iterations() == old(self).settings().max_iterations,
            final(self).has_tree() && old(self).settings().max_iterations > 0 ==>
                final(self).iterations() > 0,
            final(self).has_tree() ==> limit_kept(
                old(self).settings().time_limit_nanos,
                final(self).iterations() > 1,
                final(self).iterations() < old(self).settings().max_iterations,
            ),
            !final(self).has_tree() ==> final(self).elapsed() == 0,
            final(self).has_tree() ==> exists|spent: u64| #[trigger]
                took(spent) && final(self).elapsed() == spent / 1_000_000,
            final(self).has_tree() && !won(bb@) ==> total_visits(final(self).root_children())
                == final(self).iterations(),
            final(self).has_tree() && won(bb@) ==> final(self).root_children().len() == 0,
            final(self).has_tree() && !won(bb@) && !old(self).settings().use_transposition_table
                && final(self).iterations() >= legal_moves(bb@).len() ==>
                final(self).root_children().len() == legal_moves(bb@).len() && forall|m: Move|
                legal_move(bb@, m) ==> #[trigger] has_root_move(final(self).root_children(), m),
            r matches Some((mv, p)) ==> exists|k: int|
                #[trigger] first_most_visited(final(self).root_children(), k) && {
                    let c = final(self).root_children()[k];
                    &&& mv == c.mv
                    &&& p.num == child_wins(c, side_to_move(bb@))
                    &&& p.den == c.visits
                },
            !old(self).settings().use_transposition_table ==> final(self).events().transposition_hits == 0,
            final(self).has_tree() ==> counts_events(final(self).tree(), final(self).events()),
            final(self).has_tree() ==> final(self).depth() == final(self).tree().depth,
            !final(self).has_tree() ==> final(self).depth() == 0 && final(self).events()
                == no_events(),
            final(self).node_count() <= final(self).iterations() + 1,
            final(self).node_count() == final(self).tree().nodes.len(),
            final(self).generator() == if final(self).has_tree() {
                final(self).tree().rng
            } else {
                old(self).generator()
            },
            final(self).root_children() == root_moves_of(final(self).tree()),
            final(self).has_tree() ==> grows(
                *priority,
                old(self).settings(),
                bb@,
                old(self).generator(),
                final(self).iterations() as nat,
                final(self).tree(),
            ),
            r matches Some((mv, p)) ==> chooses(
                *priority,
                old(self).settings(),
                bb@,
                old(self).generator(),
                final(self).iterations(),
                final(self).tree(),
                mv,
                p.num as int,
                p.den as int,
            ),
    {
        broadcast use vstd::std_specs::hash::group_hash_axioms;

        self.nodes = Vec::new();
        self.transpositions = HashMap::new();
        self.iterations_performed = 0;
        self.counters = SearchEventCounters::default();
        self.elapsed_ms = 0;
        self.max_depth_reached = 0;
        let ghost b = bb@;
        let ghost config0 = self.config;
        let ghost rng0 = self.rng;
        let legal = generate_legal_moves(bb);
        if legal.len() == 0 {
            proof {
                lemma_plain_start(self.nodes@);
            }
            return None;
        }
        proof {
            lemma_legal_moves(b);
        }
        let (is_terminal, terminal_value): (bool, i64) = board_outcome(bb, &legal);
        self.nodes.push(
            MCTSNode {
                bb: *bb,
                children: Vec::new(),
                mv: None,
                visit_count: 0,
                win_count_p0: 0,
                win_count_p1: 0,
                untried_moves: legal,
                is_terminal,
                terminal_value,
            },
        );
        proof {
            lemma_plain_start(self.nodes@);
            assert(self.nodes@[0].children@ =~= Seq::<usize>::empty());
            assert(models(self.nodes@) =~= seq![bare_node(b, None)]);
            assert(self.transpositions@ =~= Map::<u128, usize>::empty());
        }
        self.counters.expanded_nodes = 1;
        if is_terminal {
            self.counters.terminal_hits = 1;
        }
        proof {
            let nodes = self.tree().nodes;
            assert(nodes =~= seq![bare_node(b, None)]);
            assert(finished_below(nodes, 1) == finished_below(nodes, 0) + if finished(b) {
                1int
            } else {
                0
            });
            assert(self.tree() == bare_tree(b, rng0));
        }
        let deadline: Option<Deadline> = deadline_from(
            start_clock(),
            self.config.time_limit_nanos,
        );
        let started = start_clock();
        let max_iterations: u32 = self.config.max_iterations;
        let mut stop = false;
        while self.iterations_performed < max_iterations && !stop
            invariant
                b == bb@,
                self.config == config0,
                max_iterations == config0.max_iterations,
                self.iterations_performed <= max_iterations,
                deadline_for(config0.time_limit_nanos, deadline),
                stop ==> clock_answers(deadline, true),
                self.iterations_performed > 1 || (self.iterations_performed == 1 && !stop)
                    ==> clock_answers(deadline, false),
                stop ==> config0.time_limit_nanos is Some && self.iterations_performed > 0,
                forall|w: u32, v: u32, p: u32| #[trigger] call_requires(*priority, (w, v, p)),
                legal_moves(b).len() > 0,
                search_state(
                    self.nodes@,
                    b,
                    self.iterations_performed as int,
                    config0.use_transposition_table,
                ),
                self.inv(),
                rng0 == old(self).rng,
                grows(
                    *priority,
                    config0,
                    b,
                    rng0,
                    self.iterations_performed as nat,
                    self.tree(),
                ),
                !config0.use_transposition_table ==> self.counters.transposition_hits == 0,
                counts_events(self.tree(), self.counters),
                self.counters.generated_nodes <= self.iterations_performed,
            decreases (max_iterations - self.iterations_performed) + (if stop {
                0int
            } else {
                1int
            }),
        {
            let ghost before = self.tree();
            self.iterate(priority, Ghost(b));
            assert(iterates(*priority, config0, before, self.tree()));
            if time_is_up(&deadline) {
                stop = true;
            }
        }
        let spent: u64 = spent_since(&started);
        self.elapsed_ms = whole_millis(spent);
        proof {
            assert(took(spent));
            assert(deadline_for(config0.time_limit_nanos, deadline));
            law_finished_boards_are_won(
                *priority,
                config0,
                b,
                rng0,
                self.iterations_performed as nat,
                self.tree(),
            );
            assert(ends_won(self.nodes@)) by {
                assert forall|n: int| 0 <= n < self.nodes@.len() implies ends_counted(
                    (#[trigger] self.nodes@[n]).model(),
                ) by {
                    assert(self.tree().nodes[n] == self.nodes@[n].model());
                }
            }
            lemma_root_moves(self.nodes@, self.tree());
            lemma_root_view(self.nodes@, b, self.iterations_performed as int, config0.use_transposition_table);
        }
        if self.nodes[0].children.len() == 0 {
            return None;
        }
        let (k, id): (usize, usize) = self.best_child();
        let mover: u8 = match current_player(bb) {
            Some(p) => p,
            None => 0,
        };
        let child = &self.nodes[id];
        let wins: u32 = if mover == 0 {
            child.win_count_p0
        } else {
            child.win_count_p1
        };
        let rate = Ratio { num: wins as i64, den: child.visit_count as u64 };
        proof {
            assert(first_most_visited(self.root_children(), k as int));
            assert(self.root_children()[k as int].mv == child.mv->0);
        }
        match child.mv {
            Some(mv) => Some((mv, rate)),
            None => None,
        }
    }

    /// The place and the node of the first root child with the most visits.
    fn best_child(&self) -> (r: (usize, usize))
        requires
            self.inv(),
            self.nodes@.len() > 0,
            self.nodes@[0].children@.len() > 0,
        ensures
            r.0 < self.nodes@[0].children@.len(),
            r.1 == self.nodes@[0].children@[r.0 as int],
            r.1 < self.nodes@.len(),
            first_most_visited(self.root_children(), r.0 as int),
    {
        let ghost kids = self.nodes@[0].children@;
        let ghost view = self.root_children();
        proof {
            assert(links_ok(self.nodes@, 0));
            assert(link_ok(self.nodes@, 0, kids[0]));
        }
        let mut best: usize = 0;
        let mut best_id: usize = self.nodes[0].children[0];
        let mut i: usize = 1;
        while i < self.nodes[0].children.len()
            invariant
                self.nodes@.len() > 0,
                links_ok(self.nodes@, 0),
                kids == self.nodes@[0].children@,
                view == children_view(self.nodes@, kids),
                1 <= i <= kids.len(),
                best < i,
                best_id == kids[best as int],
                best_id < self.nodes@.len(),
                forall|j: int| 0 <= j < i ==> (#[trigger] view[j]).visits <= view[best as int].visits,
                forall|j: int| 0 <= j < best ==> (#[trigger] view[j]).visits < view[best as int].visits,
            decreases kids.len() - i,
        {
            let id: usize = self.nodes[0].children[i];
            assert(link_ok(self.nodes@, 0, kids[i as int]));
            assert(view[i as int].visits == self.nodes@[id as int].visit_count);
            assert(view[best as int].visits == self.nodes@[best_id as int].visit_count);
            if self.nodes[id].visit_count > self.nodes[best_id].visit_count {
                best = i;
                best_id = id;
            }
            i = i + 1;
        }
        (best, best_id)
    }

    /// The visits of the root moves after the most recent search, one entry per
    /// root child. Without merging, every legal move that was tried has its own
    /// entry; with merging, symmetric moves share the entry of the one that was
    /// tried first.
    pub fn root_move_visits(&self) -> (v: Vec<(Move, u32)>)
        requires
            self.wf(),
        ensures
            v@.len() == self.root_children().len(),
            forall|k: int|
                0 <= k < v@.len() ==> #[trigger] v@[k] == (
                    self.root_children()[k].mv,
                    self.root_children()[k].visits,
                ),
    {
        let mut v: Vec<(Move, u32)> = Vec::new();
        if self.nodes.len() == 0 {
            return v;
        }
        let ghost kids = self.nodes@[0].children@;
        let mut i: usize = 0;
        while i < self.nodes[0].children.len()
            invariant
                self.inv(),
                self.nodes@.len() > 0,
                kids == self.nodes@[0].children@,
                i <= kids.len(),
                v@.len() == i,
                forall|k: int|
                    0 <= k < i ==> #[trigger] v@[k] == (
                        self.root_children()[k].mv,
                        self.root_children()[k].visits,
                    ),
            decreases kids.len() - i,
        {
            let id: usize = self.nodes[0].children[i];
            proof {
                assert(links_ok(self.nodes@, 0));
                assert(link_ok(self.nodes@, 0, kids[i as int]));
                assert(place_ok(self.nodes@, id as int));
            }
            if let Some(mv) = self.nodes[id].mv {
                v.push((mv, self.nodes[id].visit_count));
            }
            i = i + 1;
        }
        v
    }

    /// Telemetry for the most recent search; `None` if none has run or it found
    /// no move to try.
    pub fn telemetry(&self) -> (t: Option<SearchTelemetry>)
        requires
            self.wf(),
        ensures
            t is Some <==> self.root_children().len() > 0,
            t matches Some(t) ==> {
                let kids = self.root_children();
                let mover = side_to_move(self.root());
                &&& t.engine_kind == EngineKind::Mcts
                &&& t.policy_mass_kind == PolicyMassKind::Visits
                &&& exists|k: int| #[trigger]
                    first_most_visited(kids, k) && reports_q(t.root_value, kids[k], mover)
                &&& t.root_moves@.len() == kids.len()
                &&& forall|k: int|
                    0 <= k < kids.len() ==> {
                        let stat = #[trigger] t.root_moves@[k];
                        &&& stat.mv == kids[k].mv
                        &&& stat.action_index == stat.mv.shape * 16 + stat.mv.position
                        &&& stat.policy_mass == kids[k].visits
                        &&& stat.q is Some && reports_q(stat.q->0, kids[k], mover)
                    }
                &&& t.root_identity_preserved == !self.settings().use_transposition_table
                &&& 1 <= t.principal_variation@.len() <= 16
                &&& exists|k: int| #[trigger]
                    variation_head(kids, k) && t.principal_variation@[0] == kids[k].mv
                &&& !self.settings().use_transposition_table ==> legal_line(
                    self.root(),
                    t.principal_variation@,
                )
                &&& variation_from(self.tree().nodes, 0, 16, t.principal_variation@)
                &&& t.counters == self.events()
                &&& t.elapsed_ms == self.elapsed()
                &&& t.depth_reached == self.depth()
                &&& t.seed == self.settings().seed
            },
    {
        if self.nodes.len() == 0 || self.nodes[0].children.len() == 0 {
            return None;
        }
        let mover: u8 = match current_player(&self.nodes[0].bb) {
            Some(p) => p,
            None => 0,
        };
        let ghost kids = self.root_children();
        let mut root_moves: Vec<RootMoveStat> = Vec::new();
        let mut i: usize = 0;
        while i < self.nodes[0].children.len()
            invariant
                self.wf(),
                self.nodes@.len() > 0,
                kids == self.root_children(),
                mover == side_to_move(self.root()),
                i <= self.nodes@[0].children@.len(),
                root_moves@.len() == i,
                forall|k: int|
                    0 <= k < i ==> {
                        let stat = #[trigger] root_moves@[k];
                        &&& stat.mv == kids[k].mv
                        &&& stat.action_index == stat.mv.shape * 16 + stat.mv.position
                        &&& stat.policy_mass == kids[k].visits
                        &&& stat.q is Some && reports_q(stat.q->0, kids[k], mover as int)
                    },
            decreases self.nodes@[0].children@.len() - i,
        {
            let id: usize = self.nodes[0].children[i];
            proof {
                assert(links_ok(self.nodes@, 0));
                assert(link_ok(self.nodes@, 0, self.nodes@[0].children@[i as int]));
                assert(place_ok(self.nodes@, id as int));
                assert(legal_move(self.root(), kids[i as int].mv));
            }
            let q = self.node_q(i, id, mover);
            if let Some(mv) = self.nodes[id].mv {
                root_moves.push(RootMoveStat::new(mv, self.nodes[id].visit_count as u64, Some(q)));
            }
            i = i + 1;
        }
        let (k, id): (usize, usize) = self.best_child();
        let root_value = self.node_q(k, id, mover);
        let principal_variation = self.principal_variation();
        Some(
            SearchTelemetry {
                engine_kind: EngineKind::Mcts,
                root_value,
                policy_mass_kind: PolicyMassKind::Visits,
                root_moves,
                root_identity_preserved: !self.config.use_transposition_table,
                principal_variation,
                counters: self.counters,
                elapsed_ms: self.elapsed_ms,
                depth_reached: self.max_depth_reached,
                seed: self.config.seed,
            },
        )
    }

    /// The value of the root child at place `k`, as telemetry reports it.
    fn node_q(&self, k: usize, id: usize, mover: u8) -> (q: Ratio)
        requires
            self.wf(),
            self.nodes@.len() > 0,
            k < self.nodes@[0].children@.len(),
            id == self.nodes@[0].children@[k as int],
        ensures
            reports_q(q, self.root_children()[k as int], mover as int),
    {
        proof {
            assert(links_ok(self.nodes@, 0));
            assert(link_ok(self.nodes@, 0, self.nodes@[0].children@[k as int]));
            assert(self.nodes@[id as int].wf());
            let c = self.root_children()[k as int];
            assert(c.visits >= 1);
        }
        let node = &self.nodes[id];
        if node.is_terminal {
            let value: i64 = if mover == 0 {
                node.terminal_value
            } else {
                -node.terminal_value
            };
            return Ratio { num: value, den: 1 };
        }
        let wins: u32 = if mover == 0 {
            node.win_count_p0
        } else {
            node.win_count_p1
        };
        clamp_unproven(
            Ratio {
                num: 2 * wins as i64 - node.visit_count as i64,
                den: node.visit_count as u64,
            },
        )
    }

    /// The moves of the most visited nodes from the root down, at most sixteen.
    /// Ties go to the lowest action number.
    fn principal_variation(&self) -> (pv: Vec<Move>)
        requires
            self.wf(),
            self.nodes@.len() > 0,
            self.nodes@[0].children@.len() > 0,
        ensures
            1 <= pv@.len() <= 16,
            exists|k: int| #[trigger]
                variation_head(self.root_children(), k) && pv@[0] == self.root_children()[k].mv,
            !self.config.use_transposition_table ==> legal_line(self.nodes@[0].bb@, pv@),
            variation_from(models(self.nodes@), 0, 16, pv@),
    {
        let mut pv: Vec<Move> = Vec::new();
        let mut node_id: usize = 0;
        let mut steps: usize = 0;
        let mut stop = false;
        let ghost tree = models(self.nodes@);
        proof {
            assert forall|rest: Seq<Move>| #[trigger]
                variation_from(tree, 0, 16, rest) implies variation_from(
                tree,
                0,
                16,
                pv@ + rest,
            ) by {
                assert(pv@ + rest =~= rest);
            }
        }
        while steps < 16 && !stop
            invariant
                self.wf(),
                self.nodes@.len() > 0,
                self.nodes@[0].children@.len() > 0,
                node_id < self.nodes@.len(),
                steps <= 16,
                pv@.len() <= steps,
                tree == models(self.nodes@),
                stop ==> variation_from(tree, 0, 16, pv@),
                !stop ==> forall|rest: Seq<Move>| #[trigger]
                    variation_from(tree, node_id as int, (16 - steps) as nat, rest)
                        ==> variation_from(tree, 0, 16, pv@ + rest),
                steps == 0 ==> node_id == 0 && !stop && pv@.len() == 0,
                steps > 0 ==> pv@.len() > 0 && exists|k: int| #[trigger]
                    variation_head(self.root_children(), k) && pv@[0]
                        == self.root_children()[k].mv,
                !self.config.use_transposition_table ==> legal_line(self.nodes@[0].bb@, pv@)
                    && after_line(self.nodes@[0].bb@, pv@) == self.nodes@[node_id as int].bb@,
            decreases (16 - steps) + (if stop {
                0int
            } else {
                1int
            }),
        {
            let ghost left = (16 - steps) as nat;
            let ghost current = node_id as int;
            match self.most_visited_child(node_id) {
                Some((next, mv)) => {
                    let ghost before = pv@;
                    pv.push(mv);
                    proof {
                        let k = choose|k: int| #[trigger]
                            goes_on(tree, current, k) && tree[current].children[k] == next;
                        assert forall|rest: Seq<Move>| #[trigger]
                            variation_from(
                                tree,
                                next as int,
                                (left - 1) as nat,
                                rest,
                            ) implies variation_from(tree, 0, 16, pv@ + rest) by {
                            let longer = seq![mv] + rest;
                            assert(longer.drop_first() =~= rest);
                            assert(goes_on(tree, current, k));
                            assert(!ends_at(tree, current)) by {
                                let c = tree[current].children[k];
                                assert(tree[c as int].visits > 0);
                            }
                            assert(tree[next as int] == self.nodes@[next as int].model());
                            assert(variation_from(tree, current, left, longer));
                            assert(before + longer =~= pv@ + rest);
                        }
                    }
                    assert(before.len() > 0 ==> pv@[0] == before[0]);
                    proof {
                        if !self.config.use_transposition_table {
                            lemma_line_push(self.nodes@[0].bb@, before, mv);
                        }
                    }
                    node_id = next;
                },
                None => {
                    stop = true;
                    proof {
                        assert(variation_from(tree, current, left, Seq::<Move>::empty()));
                        assert(pv@ + Seq::<Move>::empty() =~= pv@);
                    }
                },
            }
            steps = steps + 1;
            assert(!stop ==> (16 - steps) as nat == (left - 1) as nat);
        }
        proof {
            if !stop {
                assert(variation_from(
                    tree,
                    node_id as int,
                    (16 - steps) as nat,
                    Seq::<Move>::empty(),
                ));
                assert(pv@ + Seq::<Move>::empty() =~= pv@);
            }
        }
        pv
    }

    /// The child of `id` with the most visits and its move, if one was visited.
    fn most_visited_child(&self, id: usize) -> (r: Option<(usize, Move)>)
        requires
            self.wf(),
            id < self.nodes@.len(),
        ensures
            r matches Some((next, mv)) ==> next < self.nodes@.len() && self.nodes@[next as int].mv
                == Some(mv) && exists|k: int| #[trigger]
                goes_on(models(self.nodes@), id as int, k) && models(
                    self.nodes@,
                )[id as int].children[k] == next,
            r is None ==> ends_at(models(self.nodes@), id as int),
            r matches Some((next, mv)) ==> !self.config.use_transposition_table ==> plain_link(
                self.nodes@,
                id as int,
                next,
            ) && self.nodes@[next as int].mv == Some(mv),
            id == 0 && self.nodes@[0].children@.len() > 0 ==> (r matches Some((_, mv))
                && exists|k: int| #[trigger]
                variation_head(self.root_children(), k) && mv == self.root_children()[k].mv),
    {
        let ghost kids = self.nodes@[id as int].children@;
        let ghost view = children_view(self.nodes@, kids);
        let mut best: Option<(usize, Move)> = None;
        let mut best_visits: u32 = 0;
        let mut best_action: u8 = 0;
        let mut i: usize = 0;
        let ghost mut at: int = 0;
        while i < self.nodes[id].children.len()
            invariant
                self.wf(),
                id < self.nodes@.len(),
                kids == self.nodes@[id as int].children@,
                view == children_view(self.nodes@, kids),
                i <= kids.len(),
                best is None ==> best_visits == 0,
                best is None ==> forall|j: int|
                    0 <= j < i ==> (#[trigger] view[j]).visits == 0,
                best matches Some((next, mv)) ==> {
                    &&& next < self.nodes@.len()
                    &&& self.nodes@[next as int].mv == Some(mv)
                    &&& !self.config.use_transposition_table ==> plain_link(
                        self.nodes@,
                        id as int,
                        next,
                    )
                    &&& 0 <= at < i
                    &&& kids[at] == next
                    &&& mv == view[at].mv
                    &&& mv.in_range()
                    &&& best_visits == view[at].visits
                    &&& best_visits > 0
                    &&& best_action == mv.shape * 16 + mv.position
                    &&& forall|j: int|
                        0 <= j < i ==> (#[trigger] view[j]).visits < view[at].visits || (
                        view[j].visits == view[at].visits && action_number(view[at].mv)
                            <= action_number(view[j].mv))
                    &&& forall|j: int|
                        0 <= j < at ==> (#[trigger] view[j]).visits < view[at].visits || (
                        view[j].visits == view[at].visits && action_number(view[at].mv)
                            < action_number(view[j].mv))
                },
            decreases kids.len() - i,
        {
            let child_id: usize = self.nodes[id].children[i];
            proof {
                assert(links_ok(self.nodes@, id as int));
                assert(link_ok(self.nodes@, id as int, kids[i as int]));
                assert(place_ok(self.nodes@, id as int));
                assert(place_ok(self.nodes@, child_id as int));
                assert(view[i as int].visits == self.nodes@[child_id as int].visit_count);
                if !self.config.use_transposition_table {
                    reveal(plain_tree);
                    assert(plain_link(self.nodes@, id as int, kids[i as int]));
                }
            }
            let visits: u32 = self.nodes[child_id].visit_count;
            if let Some(mv) = self.nodes[child_id].mv {
                let action: u8 = mv.shape * 16 + mv.position;
                if visits > 0 && (visits > best_visits || (visits == best_visits && action
                    < best_action)) {
                    best = Some((child_id, mv));
                    best_visits = visits;
                    best_action = action;
                    proof {
                        at = i as int;
                    }
                }
            }
            i = i + 1;
        }
        proof {
            let tree = models(self.nodes@);
            assert(tree[id as int].children == kids);
            assert(links_ok(self.nodes@, id as int));
            assert forall|j: int| 0 <= j < kids.len() implies tree[#[trigger] kids[j] as int]
                == self.nodes@[kids[j] as int].model() && view[j].visits
                == tree[kids[j] as int].visits && view[j].mv == tree[kids[j] as int].mv->0 by {
                assert(link_ok(self.nodes@, id as int, kids[j]));
            }
            if best is Some {
                assert(goes_on(tree, id as int, at));
            }
            if id == 0 && kids.len() > 0 {
                assert(view == self.root_children());
                assert(view[0].visits >= 1);
                assert(variation_head(self.root_children(), at));
            }
        }
        best
    }

    pub fn iterations_performed(&self) -> (n: u32)
        ensures
            n == self.iterations(),
    {
        self.iterations_performed
    }

    pub fn nodes_created(&self) -> (n: usize)
        ensures
            n == self.node_count(),
    {
        self.nodes.len()
    }
}

/// The action number of a move: shape times sixteen plus position.
pub open spec fn action_number(m: Move) -> int {
    m.shape * 16 + m.position
}

/// Whether root move `k` heads the principal variation: no other has more
/// visits, nor as many and a lower action number.
pub open spec fn variation_head(kids: Seq<RootChild>, k: int) -> bool {
    &&& 0 <= k < kids.len()
    &&& forall|j: int|
        0 <= j < kids.len() ==> (#[trigger] kids[j]).visits < kids[k].visits || (kids[j].visits
            == kids[k].visits && action_number(kids[k].mv) <= action_number(kids[j].mv))
}

/// The root moves `ids` as the reports show them.
spec fn children_view(nodes: Seq<MCTSNode>, ids: Seq<usize>) -> Seq<RootChild> {
    Seq::new(
        ids.len(),
        |k: int|
            {
                let n = nodes[ids[k] as int];
                RootChild {
                    mv: n.mv->0,
                    visits: n.visit_count,
                    wins_p0: n.win_count_p0,
                    wins_p1: n.win_count_p1,
                    terminal: n.is_terminal,
                    terminal_value: n.terminal_value as int,
                }
            },
    )
}

/// The root moves are those of the tree.
proof fn lemma_root_moves(nodes: Seq<MCTSNode>, t: GrownTree)
    requires
        tree_ok(nodes),
        nodes.len() > 0,
        t.nodes == models(nodes),
    ensures
        children_view(nodes, nodes[0].children@) == root_moves_of(t),
{
    let kids = nodes[0].children@;
    assert(links_ok(nodes, 0));
    assert(t.nodes[0].children == kids);
    assert(children_view(nodes, kids) =~= root_moves_of(t)) by {
        assert forall|k: int| 0 <= k < kids.len() implies #[trigger] children_view(nodes, kids)[k]
            == root_moves_of(t)[k] by {
            assert(link_ok(nodes, 0, kids[k]));
            assert(nodes[kids[k] as int].wf());
            assert(t.nodes[kids[k] as int] == nodes[kids[k] as int].model());
        }
    }
}

/// Whether every legal move of the root is untried or is the move of a child.
spec fn root_covered(nodes: Seq<MCTSNode>, b: Seq<u16>) -> bool {
    forall|m: Move|
        legal_move(b, m) ==> #[trigger] root_has(nodes, m)
}

spec fn root_has(nodes: Seq<MCTSNode>, m: Move) -> bool {
    nodes[0].untried_moves@.contains(m) || exists|k: int|
        0 <= k < nodes[0].children@.len() && nodes[#[trigger] nodes[0].children@[k] as int].mv
            == Some(m)
}

/// What holds of the tree after `n` iterations.
spec fn search_state(nodes: Seq<MCTSNode>, b: Seq<u16>, n: int, merging: bool) -> bool {
    &&& 0 < nodes.len() <= n + 1
    &&& tree_ok(nodes)
    &&& nodes[0].bb@ == b
    &&& forall|i: int| 0 <= i < nodes.len() ==> (#[trigger] nodes[i]).visit_count <= n
    &&& forall|k: int|
        0 <= k < nodes[0].children@.len() ==> nodes[#[trigger] nodes[0].children@[k] as int].visit_count
            >= 1
    &&& !nodes[0].is_terminal ==> visit_sum(nodes, nodes[0].children@) == n
    &&& !nodes[0].is_terminal ==> nodes[0].untried_moves@.len() == (if n
        < legal_moves(b).len() {
        legal_moves(b).len() - n
    } else {
        0
    })
    &&& !nodes[0].is_terminal && !merging ==> nodes[0].children@.len()
        + nodes[0].untried_moves@.len() == legal_moves(b).len()
    &&& !nodes[0].is_terminal && !merging ==> root_covered(nodes, b)
}

/// What holds between the expansion and the count of an iteration.
spec fn expanded_state(nodes: Seq<MCTSNode>, b: Seq<u16>, n: int, merging: bool, path: Seq<usize>) -> bool {
    &&& 0 < nodes.len() <= n + 2
    &&& tree_ok(nodes)
    &&& nodes[0].bb@ == b
    &&& path_ok(nodes, path)
    &&& forall|i: int| 0 <= i < nodes.len() ==> (#[trigger] nodes[i]).visit_count <= n
    &&& forall|k: int|
        0 <= k < nodes[0].children@.len() ==> nodes[#[trigger] nodes[0].children@[k] as int].visit_count
            >= 1 || (path.len() > 1 && path[1] == nodes[0].children@[k])
    &&& !nodes[0].is_terminal ==> path.len() > 1 && visit_sum(nodes, nodes[0].children@) == n
    &&& !nodes[0].is_terminal ==> nodes[0].untried_moves@.len() == (if n + 1
        < legal_moves(b).len() {
        legal_moves(b).len() - n - 1
    } else {
        0
    })
    &&& !nodes[0].is_terminal && !merging ==> nodes[0].children@.len()
        + nodes[0].untried_moves@.len() == legal_moves(b).len()
    &&& !nodes[0].is_terminal && !merging ==> root_covered(nodes, b)
}

proof fn lemma_expand_step(
    x: Seq<MCTSNode>,
    y: Seq<MCTSNode>,
    b: Seq<u16>,
    n: int,
    merging: bool,
    path: Seq<usize>,
    leaf: usize,
    r: usize,
)
    requires
        search_state(x, b, n, merging),
        tree_ok(y),
        path_ok(x, path),
        path.last() == leaf,
        x[leaf as int].is_terminal || x[leaf as int].untried_moves@.len() > 0,
        path.len() > 1 ==> x[0].untried_moves@.len() == 0 && !x[0].is_terminal,
        x[leaf as int].is_terminal ==> r == leaf && y == x,
        !x[leaf as int].is_terminal ==> expanded(x, y, leaf as int, r),
        !merging && !x[leaf as int].is_terminal ==> y.len() > x.len(),
        moves_kept(x, y, leaf as int, r),
    ensures
        r < y.len(),
        r != leaf ==> expanded_state(y, b, n, merging, path.push(r)),
        r == leaf ==> expanded_state(y, b, n, merging, path),
{
    assert(path[path.len() - 1] == leaf);
    let longer = path.push(r);
    if x[leaf as int].is_terminal {
        assert(x[leaf as int].wf());
        assert(!x[0].is_terminal ==> path.len() > 1) by {
            if path.len() == 1 {
                assert(leaf == 0);
            }
        }
    } else {
        lemma_expanded_visits(x, y, leaf as int, r);
        assert(y[leaf as int].pieces() + 1 == y[r as int].pieces());
        assert(r != leaf);
        assert forall|i: int| 0 <= i < longer.len() implies (#[trigger] longer[i]) < y.len()
            && y[longer[i] as int].pieces() == y[0].pieces() + i by {
            if i < path.len() {
                assert(longer[i] == path[i]);
                assert(y[path[i] as int].bb == x[path[i] as int].bb);
            }
        }
        lemma_pieces_bound(y[r as int].bb@);
        lemma_pieces_bound(y[0].bb@);
        assert forall|i: int| 0 <= i < y.len() implies (#[trigger] y[i]).visit_count <= n by {
            if i < x.len() {
                assert(x[i].visit_count <= n);
            }
        }
        if leaf == 0 {
            assert(path.len() == 1) by {
                if path.len() > 1 {
                    assert(x[path[path.len() - 1] as int].pieces() == x[0].pieces() + path.len() - 1);
                }
            }
            assert(longer[1] == r);
        } else {
            assert(path.len() > 1);
            assert(longer[1] == path[1]);
            assert(y[0] == x[0]);
        }
        lemma_root_kids(x, y, n, leaf, r, longer);
        if !merging && !x[0].is_terminal {
            lemma_root_covered_step(x, y, b, leaf as int, r);
        }
    }
}

proof fn lemma_root_kids(
    x: Seq<MCTSNode>,
    y: Seq<MCTSNode>,
    n: int,
    leaf: usize,
    r: usize,
    longer: Seq<usize>,
)
    requires
        tree_ok(x),
        x.len() > 0,
        leaf < x.len(),
        expanded(x, y, leaf as int, r),
        forall|k: int|
            0 <= k < x[0].children@.len() ==> x[#[trigger] x[0].children@[k] as int].visit_count >= 1,
        longer.len() > 1,
        leaf == 0 ==> longer[1] == r,
    ensures
        forall|k: int|
            0 <= k < y[0].children@.len() ==> y[#[trigger] y[0].children@[k] as int].visit_count >= 1
                || longer[1] == y[0].children@[k],
{
    assert(links_ok(x, 0));
    assert forall|k: int| 0 <= k < y[0].children@.len() implies y[#[trigger] y[0].children@[k] as int].visit_count
        >= 1 || longer[1] == y[0].children@[k] by {
        let kids = x[0].children@;
        if k < kids.len() {
            assert(y[0].children@[k] == kids[k]);
            assert(link_ok(x, 0, kids[k]));
            assert(x[kids[k] as int].visit_count >= 1);
        } else {
            assert(leaf == 0);
            assert(y[0].children@[k] == r);
        }
    }
}

proof fn lemma_root_covered_step(
    x: Seq<MCTSNode>,
    y: Seq<MCTSNode>,
    b: Seq<u16>,
    id: int,
    r: usize,
)
    requires
        tree_ok(x),
        0 <= id < x.len(),
        expanded(x, y, id, r),
        y.len() > x.len(),
        moves_kept(x, y, id, r),
        root_covered(x, b),
    ensures
        root_covered(y, b),
{
    assert(links_ok(x, 0));
    assert forall|m: Move| legal_move(b, m) implies #[trigger] root_has(y, m) by {
        assert(root_has(x, m));
        let kids = x[0].children@;
        if x[0].untried_moves@.contains(m) {
            if id == 0 {
                if m == y[r as int].mv->0 {
                    assert(y[0].children@[kids.len() as int] == r);
                    assert(y[y[0].children@[kids.len() as int] as int].mv == Some(m));
                } else {
                    assert(y[0].untried_moves@.contains(m));
                }
            }
        } else {
            let k = choose|k: int|
                0 <= k < kids.len() && x[#[trigger] kids[k] as int].mv == Some(m);
            assert(link_ok(x, 0, kids[k]));
            assert(y[0].children@[k] == kids[k]);
            assert(y[y[0].children@[k] as int].mv == Some(m));
        }
    }
}

proof fn lemma_count_step(
    y: Seq<MCTSNode>,
    z: Seq<MCTSNode>,
    b: Seq<u16>,
    n: int,
    merging: bool,
    path: Seq<usize>,
    value: int,
)
    requires
        expanded_state(y, b, n, merging, path),
        tree_ok(z),
        z.len() == y.len(),
        forall|i: int|
            0 <= i < y.len() ==> counted(y[i], #[trigger] z[i], path.contains(i as usize), value),
    ensures
        search_state(z, b, n + 1, merging),
{
    let kids = y[0].children@;
    assert(counted(y[0], z[0], path.contains(0usize), value));
    assert(links_ok(y, 0));
    assert(y[0].wf());
    assert forall|i: int| 0 <= i < z.len() implies (#[trigger] z[i]).visit_count <= n + 1 by {
        assert(counted(y[i], z[i], path.contains(i as usize), value));
        assert(y[i].visit_count <= n);
    }
    assert forall|k: int| 0 <= k < kids.len() implies z[#[trigger] kids[k] as int].visit_count
        == y[kids[k] as int].visit_count + (if path.len() > 1 && kids[k] == path[1] {
        1int
    } else {
        0int
    }) by {
        let c = kids[k];
        assert(link_ok(y, 0, c));
        assert(counted(y[c as int], z[c as int], path.contains(c), value));
        if path.len() > 1 && c == path[1] {
            assert(path.contains(c));
        } else if path.contains(c) {
            let j = choose|j: int| 0 <= j < path.len() && path[j] == c;
            assert(y[path[j] as int].pieces() == y[0].pieces() + j);
            assert(j == 1);
        }
    }
    assert forall|k: int| 0 <= k < z[0].children@.len() implies z[#[trigger] z[0].children@[k] as int].visit_count
        >= 1 by {
        assert(z[0].children@[k] == kids[k]);
        assert(y[kids[k] as int].visit_count >= 1 || (path.len() > 1 && path[1] == kids[k]));
    }
    if !y[0].is_terminal {
        assert(kids.contains(path[1]));
        let at = choose|at: int| 0 <= at < kids.len() && kids[at] == path[1];
        assert forall|k: int| 0 <= k < kids.len() && k != at implies z[#[trigger] kids[k] as int].visit_count
            == y[kids[k] as int].visit_count by {
            assert(kids[k] != kids[at]);
        }
        assert(z[kids[at] as int].visit_count == y[kids[at] as int].visit_count + 1);
        lemma_visit_sum_bump(y, z, kids, at);
        if !merging {
            assert forall|m: Move| legal_move(b, m) implies #[trigger] root_has(z, m) by {
                assert(root_has(y, m));
                if !y[0].untried_moves@.contains(m) {
                    let k = choose|k: int|
                        0 <= k < kids.len() && y[#[trigger] kids[k] as int].mv == Some(m);
                    let c = kids[k];
                    assert(link_ok(y, 0, c));
                    assert(counted(y[c as int], z[c as int], path.contains(c), value));
                    assert(z[z[0].children@[k] as int].mv == Some(m));
                }
            }
        }
    }
}

proof fn lemma_table_counted(table: Map<u128, usize>, y: Seq<MCTSNode>, z: Seq<MCTSNode>)
    requires
        table_ok(table, y),
        z.len() == y.len(),
        forall|i: int| 0 <= i < y.len() ==> (#[trigger] z[i]).bb == y[i].bb,
    ensures
        table_ok(table, z),
{
    assert forall|key: u128| #[trigger] table.contains_key(key) implies 0 < table[key] < z.len()
        && payload_number(canonical(z[table[key] as int].bb@)) == key by {
        assert(z[table[key] as int].bb == y[table[key] as int].bb);
    }
}

proof fn lemma_view_sum(nodes: Seq<MCTSNode>, ids: Seq<usize>)
    ensures
        total_visits(children_view(nodes, ids)) == visit_sum(nodes, ids),
    decreases ids.len(),
{
    let view = children_view(nodes, ids);
    if ids.len() > 0 {
        lemma_view_sum(nodes, ids.drop_last());
        assert(view.drop_last() =~= children_view(nodes, ids.drop_last()));
    }
}

/// What the tree says of the root moves at the end of a search.
proof fn lemma_root_view(nodes: Seq<MCTSNode>, b: Seq<u16>, n: int, merging: bool)
    requires
        search_state(nodes, b, n, merging),
        ends_won(nodes),
        legal_moves(b).len() > 0,
    ensures
        ({
            let view = children_view(nodes, nodes[0].children@);
            &&& root_children_ok(view, b)
            &&& !won(b) ==> total_visits(view) == n
            &&& won(b) ==> view.len() == 0
            &&& !won(b) && n > 0 ==> view.len() > 0
            &&& !won(b) && !merging && n >= legal_moves(b).len() ==> view.len() == legal_moves(
                b,
            ).len() && forall|m: Move| legal_move(b, m) ==> #[trigger] has_root_move(view, m)
        }),
        forall|k: int|
            0 <= k < nodes[0].children@.len() ==> (#[trigger] nodes[0].children@[k]) < nodes.len()
                && nodes[nodes[0].children@[k] as int].mv is Some,
{
    let ids = nodes[0].children@;
    let view = children_view(nodes, ids);
    lemma_view_sum(nodes, ids);
    assert(nodes[0].wf());
    assert(links_ok(nodes, 0));
    assert forall|k: int| 0 <= k < ids.len() implies (#[trigger] ids[k]) < nodes.len()
        && nodes[ids[k] as int].mv is Some by {
        assert(link_ok(nodes, 0, ids[k]));
        assert(place_ok(nodes, ids[k] as int));
    }
    assert forall|k: int| 0 <= k < view.len() implies {
        let c = #[trigger] view[k];
        &&& legal_move(b, c.mv)
        &&& c.visits >= 1
        &&& c.wins_p0 + c.wins_p1 <= c.visits
        &&& c.terminal <==> finished(applied(b, c.mv))
        &&& c.terminal_value == outcome(applied(b, c.mv))
        &&& c.terminal ==> if c.terminal_value > 0 {
            c.wins_p0 == c.visits && c.wins_p1 == 0
        } else {
            c.wins_p1 == c.visits && c.wins_p0 == 0
        }
    } by {
        assert(ids[k] < nodes.len());
        assert(ends_counted(nodes[ids[k] as int].model()));
        let id = ids[k];
        assert(link_ok(nodes, 0, id));
        assert(place_ok(nodes, id as int));
        assert(nodes[id as int].wf());
    }
    if !won(b) && n > 0 && view.len() == 0 {
        assert(visit_sum(nodes, ids) == 0);
    }
    if !won(b) && !merging && n >= legal_moves(b).len() {
        assert forall|m: Move| legal_move(b, m) implies #[trigger] has_root_move(view, m) by {
            assert(root_has(nodes, m));
            let k = choose|k: int| 0 <= k < ids.len() && nodes[#[trigger] ids[k] as int].mv == Some(m);
            assert(view[k].mv == m);
        }
    }
}

} // verus!
