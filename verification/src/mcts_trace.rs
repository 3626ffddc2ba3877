//! How the tree of a Monte Carlo search grows, iteration by iteration.
use crate::clock::limit_kept;
use crate::game_value::{finished, side_to_move};
use crate::mcts::{
    action_number, child_wins, first_most_visited, outcome, playout_of, playout_value, MCTSConfig,
    RootChild,
};
use crate::moves::{applied, legal_moves, Move};
use crate::rng::{after_draw, drawn};
use crate::search_telemetry::SearchEventCounters;
use crate::symmetry::{canonical, payload_number};
use rand::rngs::StdRng;
use vstd::prelude::*;

verus! {

/// A node of a search tree.
pub struct TreeNode {
    pub board: Seq<u16>,
    /// The places of the children.
    pub children: Seq<usize>,
    /// The move that led to the node when it was made.
    pub mv: Option<Move>,
    pub visits: u32,
    pub wins_p0: u32,
    pub wins_p1: u32,
    /// The moves that were not tried yet.
    pub untried: Seq<Move>,
}

/// A search tree, the places of its nodes by the numbers of their boards, which symmetric
/// boards share, the number of moves that were tried, the length of the longest path, and the
/// generator of the random choices to come.
pub struct GrownTree {
    pub nodes: Seq<TreeNode>,
    pub table: vstd::map::Map<u128, usize>,
    pub tried: int,
    pub depth: int,
    pub rng: StdRng,
}

/// A node of which nothing was tried.
pub open spec fn bare_node(board: Seq<u16>, mv: Option<Move>) -> TreeNode {
    TreeNode {
        board,
        children: Seq::empty(),
        mv,
        visits: 0,
        wins_p0: 0,
        wins_p1: 0,
        untried: legal_moves(board),
    }
}

/// The tree with which a search of `b` begins.
pub open spec fn bare_tree(b: Seq<u16>, rng: StdRng) -> GrownTree {
    GrownTree {
        nodes: seq![bare_node(b, None)],
        table: vstd::map::Map::empty(),
        tried: 0,
        depth: 0,
        rng,
    }
}

/// The wins of a node for a player.
pub open spec fn tree_wins(n: TreeNode, player: int) -> u32 {
    if player == 0 {
        n.wins_p0
    } else {
        n.wins_p1
    }
}

/// Whether `scores` are the priorities of the first children of node `n` for the player who
/// moves there, all of them visited.
pub open spec fn priorities<F: Fn(u32, u32, u32) -> i64>(
    nodes: Seq<TreeNode>,
    n: int,
    priority: F,
    scores: Seq<i64>,
) -> bool {
    let kids = nodes[n].children;
    &&& scores.len() <= kids.len()
    &&& forall|j: int|
        0 <= j < scores.len() ==> nodes[#[trigger] kids[j] as int].visits > 0 && call_ensures(
            priority,
            (
                tree_wins(nodes[kids[j] as int], side_to_move(nodes[n].board)),
                nodes[kids[j] as int].visits,
                nodes[n].visits,
            ),
            scores[j],
        )
}

/// Whether `k` is the place of the largest score, the first of them.
pub open spec fn first_largest(scores: Seq<i64>, k: int) -> bool {
    &&& 0 <= k < scores.len()
    &&& forall|j: int| 0 <= j < scores.len() ==> #[trigger] scores[j] <= scores[k]
    &&& forall|j: int| 0 <= j < k ==> #[trigger] scores[j] < scores[k]
}

/// Whether the descent goes from node `n` to its child `c`: the first child that was never
/// visited, or else the first of those with the highest priority.
pub open spec fn descends_to<F: Fn(u32, u32, u32) -> i64>(
    nodes: Seq<TreeNode>,
    n: int,
    c: usize,
    priority: F,
) -> bool {
    let kids = nodes[n].children;
    exists|scores: Seq<i64>, k: int|
        #![trigger priorities(nodes, n, priority, scores), kids[k]]
        priorities(nodes, n, priority, scores) && 0 <= k < kids.len() && kids[k] == c
            && if scores.len() < kids.len() {
            k == scores.len() && nodes[c as int].visits == 0
        } else {
            first_largest(scores, k)
        }
}

/// Whether a descent ends at the node: the game is over or a move was not tried.
pub open spec fn is_leaf(n: TreeNode) -> bool {
    finished(n.board) || n.untried.len() > 0
}

/// Whether `path` is the descent from the root to the first leaf.
pub open spec fn descent<F: Fn(u32, u32, u32) -> i64>(
    nodes: Seq<TreeNode>,
    path: Seq<usize>,
    priority: F,
) -> bool {
    &&& path.len() > 0
    &&& path[0] == 0
    &&& forall|i: int| 0 <= i < path.len() ==> (#[trigger] path[i]) < nodes.len()
    &&& forall|i: int|
        0 <= i < path.len() - 1 ==> !is_leaf(nodes[#[trigger] path[i] as int]) && descends_to(
            nodes,
            path[i] as int,
            path[i + 1],
            priority,
        )
    &&& is_leaf(nodes[path.last() as int])
}

/// Whether trying the move at `i` of node `id` turns `x` into `y` and leads to node `r`: a
/// node that stands for the board, where nodes are merged and there is one, or a new one.
/// The last of the untried moves takes the place of the one that was tried.
pub open spec fn tries_move(
    merging: bool,
    x: GrownTree,
    id: int,
    i: int,
    y: GrownTree,
    r: usize,
) -> bool {
    let node = x.nodes[id];
    let m = node.untried[i];
    let board = applied(node.board, m);
    let key = payload_number(canonical(board)) as u128;
    let left = node.untried.update(i, node.untried.last()).drop_last();
    &&& 0 <= i < node.untried.len()
    &&& y.tried == x.tried + 1
    &&& y.rng == after_draw(x.rng, node.untried.len() as u64)
    &&& y.depth == x.depth
    &&& if merging && x.table.contains_key(key) {
        &&& r == x.table[key]
        &&& y.table == x.table
        &&& y.nodes == x.nodes.update(
            id,
            TreeNode {
                untried: left,
                children: if node.children.contains(r) {
                    node.children
                } else {
                    node.children.push(r)
                },
                ..node
            },
        )
    } else {
        &&& r == x.nodes.len()
        &&& y.nodes == x.nodes.update(
            id,
            TreeNode { untried: left, children: node.children.push(r), ..node },
        ).push(bare_node(board, Some(m)))
        &&& y.table == if merging {
            x.table.insert(key, r)
        } else {
            x.table
        }
    }
}

/// Whether expanding node `id` turns `x` into `y` and leads to node `r`: nothing changes
/// where the game is over, else the generator draws one of the untried moves, which is tried.
pub open spec fn expands(merging: bool, x: GrownTree, id: int, y: GrownTree, r: usize) -> bool {
    if finished(x.nodes[id].board) || x.nodes[id].untried.len() == 0 {
        y == x && r == id
    } else {
        tries_move(
            merging,
            x,
            id,
            drawn(x.rng, x.nodes[id].untried.len() as u64) as int,
            y,
            r,
        )
    }
}

/// The path with the node that an expansion led to.
pub open spec fn with_last(path: Seq<usize>, r: usize) -> Seq<usize> {
    if path.last() == r {
        path
    } else {
        path.push(r)
    }
}

/// A node after a visit with the outcome `value`.
pub open spec fn visited(n: TreeNode, value: int) -> TreeNode {
    TreeNode {
        visits: (n.visits + 1) as u32,
        wins_p0: if value > 0 {
            (n.wins_p0 + 1) as u32
        } else {
            n.wins_p0
        },
        wins_p1: if value < 0 {
            (n.wins_p1 + 1) as u32
        } else {
            n.wins_p1
        },
        ..n
    }
}

/// Whether the node at `n` is on the path.
pub open spec fn on_path(path: Seq<usize>, n: int) -> bool {
    exists|k: int| 0 <= k < path.len() && #[trigger] path[k] == n
}

/// The tree after the outcome `value` is counted at every node of `path`, with the generator
/// `rng`.
pub open spec fn with_outcome(
    t: GrownTree,
    path: Seq<usize>,
    value: int,
    rng: StdRng,
) -> GrownTree {
    GrownTree {
        nodes: Seq::new(
            t.nodes.len(),
            |n: int|
                if on_path(path, n) {
                    visited(t.nodes[n], value)
                } else {
                    t.nodes[n]
                },
        ),
        depth: if path.len() - 1 > t.depth {
            path.len() - 1
        } else {
            t.depth
        },
        rng,
        ..t
    }
}

/// The number of nodes below `n` on whose boards the game is over.
pub open spec fn finished_below(nodes: Seq<TreeNode>, n: int) -> int
    decreases n,
{
    if n <= 0 {
        0
    } else {
        finished_below(nodes, n - 1) + if finished(nodes[n - 1].board) {
            1int
        } else {
            0
        }
    }
}

/// Whether the counters show how the tree grew: the moves that were tried, the nodes that
/// were made, those on which the game is over, and the moves that led to nodes that were
/// there already.
pub open spec fn counts_events(t: GrownTree, c: SearchEventCounters) -> bool {
    &&& c.generated_nodes == t.tried
    &&& c.expanded_nodes == t.nodes.len()
    &&& c.terminal_hits == finished_below(t.nodes, t.nodes.len() as int)
    &&& c.transposition_hits == t.tried - (t.nodes.len() - 1)
    &&& c.canonical_dedup_hits == 0
    &&& c.tablebase_hits == 0
}

pub proof fn lemma_finished_below(x: Seq<TreeNode>, y: Seq<TreeNode>, n: int)
    requires
        0 <= n <= x.len(),
        n <= y.len(),
        forall|i: int| 0 <= i < n ==> (#[trigger] y[i]).board == x[i].board,
    ensures
        finished_below(x, n) == finished_below(y, n),
        0 <= finished_below(x, n) <= n,
    decreases n,
{
    if n > 0 {
        lemma_finished_below(x, y, n - 1);
        assert(y[n - 1].board == x[n - 1].board);
    }
}

/// Whether `value` may be the outcome of a visit to a board: its own where the game is over,
/// else that of a playout.
pub open spec fn outcome_from(b: Seq<u16>, max_depth: u32, value: int) -> bool {
    if finished(b) {
        value == outcome(b)
    } else {
        playout_value(b, max_depth as nat, value)
    }
}

/// The outcome of a visit to a board, its own where the game is over, else that of the game
/// that the generator plays, and the generator after it.
pub open spec fn visit_of(b: Seq<u16>, max_depth: u32, rng: StdRng) -> (int, StdRng) {
    if finished(b) {
        (outcome(b), rng)
    } else {
        playout_of(b, max_depth as nat, rng)
    }
}

/// Whether an iteration may turn `x` into `z`, with the descent `path` and the expansion to
/// node `r` of `y`.
pub open spec fn iterates_by<F: Fn(u32, u32, u32) -> i64>(
    priority: F,
    cfg: MCTSConfig,
    x: GrownTree,
    path: Seq<usize>,
    y: GrownTree,
    r: usize,
    z: GrownTree,
) -> bool {
    &&& descent(x.nodes, path, priority)
    &&& expands(cfg.use_transposition_table, x, path.last() as int, y, r)
    &&& r < y.nodes.len()
    &&& ({
        let (value, rng) = visit_of(y.nodes[r as int].board, cfg.max_depth, y.rng);
        &&& outcome_from(y.nodes[r as int].board, cfg.max_depth, value)
        &&& z == with_outcome(y, with_last(path, r), value, rng)
    })
}

/// Whether an iteration may turn `x` into `z`: descend by priority to a leaf, expand it, and
/// count the outcome of the node that this leads to along the way.
pub open spec fn iterates<F: Fn(u32, u32, u32) -> i64>(
    priority: F,
    cfg: MCTSConfig,
    x: GrownTree,
    z: GrownTree,
) -> bool {
    exists|path: Seq<usize>, y: GrownTree, r: usize| #[trigger]
        iterates_by(priority, cfg, x, path, y, r, z)
}

/// Whether `n` iterations of a search of `b` with the generator `rng` may grow the tree `t`.
pub open spec fn grows<F: Fn(u32, u32, u32) -> i64>(
    priority: F,
    cfg: MCTSConfig,
    b: Seq<u16>,
    rng: StdRng,
    n: nat,
    t: GrownTree,
) -> bool
    decreases n,
{
    if n == 0 {
        t == bare_tree(b, rng)
    } else {
        exists|x: GrownTree| #[trigger]
            iterates(priority, cfg, x, t) && grows(priority, cfg, b, rng, (n - 1) as nat, x)
    }
}

/// What a tree knows of the root moves that were tried.
pub open spec fn root_moves_of(t: GrownTree) -> Seq<RootChild> {
    if t.nodes.len() == 0 {
        Seq::empty()
    } else {
        Seq::new(
            t.nodes[0].children.len(),
            |k: int|
                {
                    let n = t.nodes[t.nodes[0].children[k] as int];
                    RootChild {
                        mv: n.mv->0,
                        visits: n.visits,
                        wins_p0: n.wins_p0,
                        wins_p1: n.wins_p1,
                        terminal: finished(n.board),
                        terminal_value: outcome(n.board),
                    }
                },
        )
    }
}

/// Whether a search of `b` with the generator `rng` and `n` iterations that grew the tree `t`
/// chooses `mv`, which won `wins` of its `visits` for the player to move: the first of the
/// most visited moves.
pub open spec fn chooses<F: Fn(u32, u32, u32) -> i64>(
    priority: F,
    cfg: MCTSConfig,
    b: Seq<u16>,
    rng: StdRng,
    n: u32,
    t: GrownTree,
    mv: Move,
    wins: int,
    visits: int,
) -> bool {
    &&& n <= cfg.max_iterations
    &&& cfg.time_limit_nanos is None ==> n == cfg.max_iterations
    &&& limit_kept(cfg.time_limit_nanos, n > 1, n < cfg.max_iterations)
    &&& grows(priority, cfg, b, rng, n as nat, t)
    &&& exists|k: int| #[trigger]
        first_most_visited(root_moves_of(t), k) && {
            let c = root_moves_of(t)[k];
            &&& mv == c.mv
            &&& wins == child_wins(c, side_to_move(b))
            &&& visits == c.visits
        }
}

/// Whether the variation goes from node `n` to its child at `k`: it was visited, no other
/// child has more visits, nor as many and a lower action number, nor both and comes first.
pub open spec fn goes_on(nodes: Seq<TreeNode>, n: int, k: int) -> bool {
    let kids = nodes[n].children;
    let c = nodes[kids[k] as int];
    &&& 0 <= k < kids.len()
    &&& c.visits > 0
    &&& forall|j: int|
        0 <= j < kids.len() ==> {
            let d = nodes[#[trigger] kids[j] as int];
            ||| d.visits < c.visits
            ||| d.visits == c.visits && action_number(c.mv->0) < action_number(d.mv->0)
            ||| d.visits == c.visits && action_number(c.mv->0) == action_number(d.mv->0) && k <= j
        }
}

/// Whether no child of node `n` was visited.
pub open spec fn ends_at(nodes: Seq<TreeNode>, n: int) -> bool {
    let kids = nodes[n].children;
    forall|j: int| 0 <= j < kids.len() ==> nodes[#[trigger] kids[j] as int].visits == 0
}

/// Whether `line` is the variation of the most visited nodes from node `n` down, at most `d`
/// moves long.
pub open spec fn variation_from(nodes: Seq<TreeNode>, n: int, d: nat, line: Seq<Move>) -> bool
    decreases d,
{
    if d == 0 || ends_at(nodes, n) {
        line.len() == 0
    } else {
        exists|k: int| #[trigger]
            goes_on(nodes, n, k) && line.len() > 0 && line[0]
                == nodes[nodes[n].children[k] as int].mv->0 && variation_from(
                nodes,
                nodes[n].children[k] as int,
                (d - 1) as nat,
                line.drop_first(),
            )
    }
}

/// Whether every visit of a finished board counts as a win of its winner, and none as a win
/// of the other player.
pub open spec fn ends_counted(n: TreeNode) -> bool {
    finished(n.board) ==> if outcome(n.board) > 0 {
        n.wins_p0 == n.visits && n.wins_p1 == 0
    } else {
        n.wins_p1 == n.visits && n.wins_p0 == 0
    }
}

proof fn lemma_end_has_winner(b: Seq<u16>)
    requires
        finished(b),
    ensures
        outcome(b) == 1 || outcome(b) == -1,
{
}

proof fn lemma_ends_expanded(merging: bool, x: GrownTree, id: int, y: GrownTree, r: usize)
    requires
        0 <= id < x.nodes.len(),
        expands(merging, x, id, y, r),
        forall|n: int| 0 <= n < x.nodes.len() ==> ends_counted(#[trigger] x.nodes[n]),
    ensures
        forall|n: int| 0 <= n < y.nodes.len() ==> ends_counted(#[trigger] y.nodes[n]),
        y.nodes.len() >= x.nodes.len(),
        forall|n: int| 0 <= n < x.nodes.len() ==> (#[trigger] y.nodes[n]).board == x.nodes[n].board,
{
    if !(finished(x.nodes[id].board) || x.nodes[id].untried.len() == 0) {
        assert forall|n: int| 0 <= n < y.nodes.len() implies ends_counted(#[trigger] y.nodes[n]) by {
            if n < x.nodes.len() && n != id {
                assert(y.nodes[n] == x.nodes[n]);
            }
        }
    }
}

/// Every visit of a finished board of the tree counts as a win of its winner.
pub proof fn law_finished_boards_are_won<F: Fn(u32, u32, u32) -> i64>(
    priority: F,
    cfg: MCTSConfig,
    b: Seq<u16>,
    rng: StdRng,
    n: nat,
    t: GrownTree,
)
    requires
        grows(priority, cfg, b, rng, n, t),
    ensures
        forall|i: int| 0 <= i < t.nodes.len() ==> ends_counted(#[trigger] t.nodes[i]),
    decreases n,
{
    if n > 0 {
        let x = choose|x: GrownTree| #[trigger]
            iterates(priority, cfg, x, t) && grows(priority, cfg, b, rng, (n - 1) as nat, x);
        law_finished_boards_are_won(priority, cfg, b, rng, (n - 1) as nat, x);
        let (path, y, r) = choose|path: Seq<usize>, y: GrownTree, r: usize| #[trigger]
            iterates_by(priority, cfg, x, path, y, r, t);
        let leaf = path.last() as int;
        assert(path[path.len() - 1] == path.last());
        lemma_ends_expanded(cfg.use_transposition_table, x, leaf, y, r);
        let way = with_last(path, r);
        assert forall|i: int| 0 <= i < t.nodes.len() implies ends_counted(
            #[trigger] t.nodes[i],
        ) by {
            assert(ends_counted(y.nodes[i]));
            if on_path(way, i) && finished(y.nodes[i].board) {
                lemma_end_has_winner(y.nodes[i].board);
                let k = choose|k: int| 0 <= k < way.len() && #[trigger] way[k] == i;
                if k < path.len() - 1 {
                    assert(way[k] == path[k]);
                    assert(path[k] < x.nodes.len());
                    assert(!is_leaf(x.nodes[path[k] as int]));
                    assert(y.nodes[path[k] as int].board == x.nodes[path[k] as int].board);
                }
                assert(i == r) by {
                    if k == path.len() - 1 {
                        assert(way[k] == path.last());
                        assert(y.nodes[leaf].board == x.nodes[leaf].board);
                    }
                }
            }
        }
    } else {
        assert forall|i: int| 0 <= i < t.nodes.len() implies ends_counted(
            #[trigger] t.nodes[i],
        ) by {
            assert(t.nodes[i] == bare_node(b, None));
        }
    }
}

/// Whether the priority gives one value for given wins and visits.
pub open spec fn gives_one_value<F: Fn(u32, u32, u32) -> i64>(priority: F) -> bool {
    forall|w: u32, v: u32, p: u32, x: i64, y: i64|
        #![trigger call_ensures(priority, (w, v, p), x), call_ensures(priority, (w, v, p), y)]
        call_ensures(priority, (w, v, p), x) && call_ensures(priority, (w, v, p), y) ==> x == y
}

/// A node is left for one child.
proof fn lemma_one_child<F: Fn(u32, u32, u32) -> i64>(
    nodes: Seq<TreeNode>,
    n: int,
    c: usize,
    d: usize,
    priority: F,
)
    requires
        gives_one_value(priority),
        descends_to(nodes, n, c, priority),
        descends_to(nodes, n, d, priority),
    ensures
        c == d,
{
    let kids = nodes[n].children;
    let (s, k) = choose|s: Seq<i64>, k: int|
        #![trigger priorities(nodes, n, priority, s), kids[k]]
        priorities(nodes, n, priority, s) && 0 <= k < kids.len() && kids[k] == c && if s.len()
            < kids.len() {
            k == s.len() && nodes[c as int].visits == 0
        } else {
            first_largest(s, k)
        };
    let (t, l) = choose|t: Seq<i64>, l: int|
        #![trigger priorities(nodes, n, priority, t), kids[l]]
        priorities(nodes, n, priority, t) && 0 <= l < kids.len() && kids[l] == d && if t.len()
            < kids.len() {
            l == t.len() && nodes[d as int].visits == 0
        } else {
            first_largest(t, l)
        };
    if s.len() < t.len() {
        assert(nodes[kids[s.len() as int] as int].visits > 0);
    } else if t.len() < s.len() {
        assert(nodes[kids[t.len() as int] as int].visits > 0);
    } else {
        assert(s =~= t) by {
            assert forall|j: int| 0 <= j < s.len() implies s[j] == t[j] by {
                let kid = kids[j];
            }
        }
        if s.len() == kids.len() {
            if k < l {
                assert(s[k] < s[l]);
            } else if l < k {
                assert(s[l] < s[k]);
            }
        }
    }
}

proof fn lemma_one_path<F: Fn(u32, u32, u32) -> i64>(
    nodes: Seq<TreeNode>,
    p: Seq<usize>,
    q: Seq<usize>,
    i: int,
    priority: F,
)
    requires
        gives_one_value(priority),
        descent(nodes, p, priority),
        descent(nodes, q, priority),
        0 <= i < p.len(),
        i < q.len(),
    ensures
        p[i] == q[i],
    decreases i,
{
    if i > 0 {
        lemma_one_path(nodes, p, q, i - 1, priority);
        let from = p[i - 1];
        assert(q[i - 1] == from);
        lemma_one_child(nodes, from as int, p[i], q[i], priority);
    }
}

/// A tree is descended along one path.
proof fn lemma_one_descent<F: Fn(u32, u32, u32) -> i64>(
    nodes: Seq<TreeNode>,
    p: Seq<usize>,
    q: Seq<usize>,
    priority: F,
)
    requires
        gives_one_value(priority),
        descent(nodes, p, priority),
        descent(nodes, q, priority),
    ensures
        p == q,
{
    let n = if p.len() < q.len() {
        p.len() as int
    } else {
        q.len() as int
    };
    assert forall|i: int| 0 <= i < n implies p[i] == q[i] by {
        lemma_one_path(nodes, p, q, i, priority);
    }
    if p.len() < q.len() {
        assert(q[n - 1] == p.last());
        assert(!is_leaf(nodes[q[n - 1] as int]));
    } else if q.len() < p.len() {
        assert(p[n - 1] == q.last());
        assert(!is_leaf(nodes[p[n - 1] as int]));
    }
    assert(p =~= q);
}

/// The tree of a search is settled by the settings, the board, the generator and the number
/// of iterations, with a priority that gives one value for given wins and visits.
pub proof fn law_growth_is_settled<F: Fn(u32, u32, u32) -> i64>(
    priority: F,
    cfg: MCTSConfig,
    b: Seq<u16>,
    rng: StdRng,
    n: nat,
    s: GrownTree,
    t: GrownTree,
)
    requires
        gives_one_value(priority),
        grows(priority, cfg, b, rng, n, s),
        grows(priority, cfg, b, rng, n, t),
    ensures
        s == t,
    decreases n,
{
    if n > 0 {
        let x = choose|x: GrownTree| #[trigger]
            iterates(priority, cfg, x, s) && grows(priority, cfg, b, rng, (n - 1) as nat, x);
        let y = choose|y: GrownTree| #[trigger]
            iterates(priority, cfg, y, t) && grows(priority, cfg, b, rng, (n - 1) as nat, y);
        law_growth_is_settled(priority, cfg, b, rng, (n - 1) as nat, x, y);
        let (p, x1, i) = choose|path: Seq<usize>, m: GrownTree, r: usize| #[trigger]
            iterates_by(priority, cfg, x, path, m, r, s);
        let (q, y1, j) = choose|path: Seq<usize>, m: GrownTree, r: usize| #[trigger]
            iterates_by(priority, cfg, y, path, m, r, t);
        lemma_one_descent(x.nodes, p, q, priority);
        assert(x1.nodes == y1.nodes && x1.table == y1.table && i == j);
        assert(x1 == y1);
    }
}

/// Two searches without a time limit, with equal settings, board and generator, and a
/// priority that gives one value for given wins and visits, grow the same tree and choose the
/// same move with the same win rate.
pub proof fn law_searches_agree<F: Fn(u32, u32, u32) -> i64>(
    priority: F,
    cfg: MCTSConfig,
    b: Seq<u16>,
    rng: StdRng,
    n: u32,
    s: GrownTree,
    x: Move,
    x_wins: int,
    x_visits: int,
    m: u32,
    t: GrownTree,
    y: Move,
    y_wins: int,
    y_visits: int,
)
    requires
        gives_one_value(priority),
        cfg.time_limit_nanos is None,
        chooses(priority, cfg, b, rng, n, s, x, x_wins, x_visits),
        chooses(priority, cfg, b, rng, m, t, y, y_wins, y_visits),
    ensures
        n == m,
        s == t,
        x == y,
        x_wins == y_wins,
        x_visits == y_visits,
{
    law_growth_is_settled(priority, cfg, b, rng, n as nat, s, t);
    let kids = root_moves_of(s);
    let k = choose|k: int| #[trigger]
        first_most_visited(kids, k) && {
            let c = kids[k];
            &&& x == c.mv
            &&& x_wins == child_wins(c, side_to_move(b))
            &&& x_visits == c.visits
        };
    let l = choose|l: int| #[trigger]
        first_most_visited(kids, l) && {
            let c = kids[l];
            &&& y == c.mv
            &&& y_wins == child_wins(c, side_to_move(b))
            &&& y_visits == c.visits
        };
    if k < l {
        assert(kids[k].visits < kids[l].visits);
        assert(kids[l].visits <= kids[k].visits);
    } else if l < k {
        assert(kids[l].visits < kids[k].visits);
        assert(kids[k].visits <= kids[l].visits);
    }
}

} // verus!
