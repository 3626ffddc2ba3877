//! What the random games of a tree search are, and whose wins it counts.
use crate::bitboard::{lemma_popcount, taken};
use crate::game::to_move;
use crate::game_value::{
    after_line, empty_cells, finished, legal_line, lemma_line_prepend, lemma_move_fills_cell,
    side_to_move,
};
use crate::invariance::lemma_image_counts;
use crate::laws::rules::law_the_player_to_move_has_lost;
use crate::mcts::{
    child_q, child_wins, first_most_visited, playout_of, reports_q, root_children_ok, MCTSConfig,
    RootChild,
};
use crate::mcts_trace::{
    bare_node, chooses, descends_to, descent, expands, goes_on, grows, is_leaf, iterates,
    iterates_by, law_finished_boards_are_won, on_path, priorities, root_moves_of, tree_wins,
    tries_move, variation_from, visit_of, with_last, GrownTree, TreeNode,
};
use crate::moves::{
    applied, legal_move, legal_moves, lemma_legal_move_step, lemma_legal_moves, Move,
};
use crate::rng::{after_draw, drawn};
use crate::search_telemetry::{Ratio, UNPROVEN_DEN, UNPROVEN_NUM};
use crate::symmetry::{
    canonical, image, law_canonical_complete, lemma_canonical, lemma_payload_bounds,
    lemma_payload_injective, payload_number, Sym,
};
use rand::rngs::StdRng;
use vstd::prelude::*;

verus! {

/// Whether a generator that is asked for a number below another always gives one.
pub open spec fn draws_stay_below() -> bool {
    forall|rng: StdRng, n: u64| n > 0 ==> #[trigger] drawn(rng, n) < n
}

/// A random game goes on with the legal move at which the draw points, and with the generator
/// after that draw.
pub proof fn law_playouts_follow_the_draws(b: Seq<u16>, d: nat, rng: StdRng, m: Move)
    requires
        !finished(b),
        d > 0,
        drawn(rng, legal_moves(b).len() as u64) < legal_moves(b).len(),
        legal_moves(b)[drawn(rng, legal_moves(b).len() as u64) as int] == m,
    ensures
        legal_move(b, m),
        playout_of(b, d, rng) == playout_of(
            applied(b, m),
            (d - 1) as nat,
            after_draw(rng, legal_moves(b).len() as u64),
        ),
{
    lemma_legal_moves(b);
}

/// For every legal move there is a draw that makes the random game go through it.
pub proof fn law_every_move_can_be_drawn(b: Seq<u16>, d: nat, m: Move)
    requires
        !finished(b),
        d > 0,
        legal_move(b, m),
    ensures
        exists|i: u64| #![trigger legal_moves(b)[i as int]]
            {
                &&& i < legal_moves(b).len()
                &&& legal_moves(b)[i as int] == m
                &&& forall|rng: StdRng|
                    drawn(rng, legal_moves(b).len() as u64) == i ==> #[trigger] playout_of(
                        b,
                        d,
                        rng,
                    ) == playout_of(
                        applied(b, m),
                        (d - 1) as nat,
                        after_draw(rng, legal_moves(b).len() as u64),
                    )
            },
{
    lemma_legal_moves(b);
    let moves = legal_moves(b);
    assert(moves.contains(m));
    let k = choose|k: int| 0 <= k < moves.len() && moves[k] == m;
    let i = k as u64;
    assert(moves[i as int] == m);
}

/// A random game is a line of legal moves. Its value is one if player 1 is to move when it is
/// over, minus one if player 0 is, and zero if the moves ran out before. With more moves than
/// empty cells it is always over.
pub proof fn law_playouts_tell_who_lost(b: Seq<u16>, d: nat, rng: StdRng)
    requires
        b.len() == 8,
        to_move(b) is Some,
        draws_stay_below(),
    ensures
        exists|line: Seq<Move>|
            {
                let v = playout_of(b, d, rng).0;
                let end = after_line(b, line);
                &&& #[trigger] legal_line(b, line)
                &&& line.len() <= d
                &&& v == 1 || v == -1 || v == 0
                &&& v == 1 ==> finished(end) && to_move(end) == Some(1u8)
                &&& v == -1 ==> finished(end) && to_move(end) == Some(0u8)
                &&& v == 0 ==> line.len() == d
            },
        d > empty_cells(b) ==> playout_of(b, d, rng).0 != 0,
    decreases d,
{
    lemma_popcount(taken(b), 0);
    let v = playout_of(b, d, rng).0;
    if d == 0 || finished(b) {
        let line: Seq<Move> = Seq::empty();
        assert(legal_line(b, line));
        assert(after_line(b, line) == b);
        if d > 0 {
            law_the_player_to_move_has_lost(b, to_move(b)->0);
        }
    } else {
        lemma_legal_moves(b);
        let n = legal_moves(b).len() as u64;
        assert(drawn(rng, n) < n);
        let m = legal_moves(b)[drawn(rng, n) as int];
        law_playouts_follow_the_draws(b, d, rng, m);
        lemma_legal_move_step(b, m);
        lemma_move_fills_cell(b, m);
        let c = applied(b, m);
        let e = (d - 1) as nat;
        let after = after_draw(rng, n);
        law_playouts_tell_who_lost(c, e, after);
        let rest = choose|line: Seq<Move>|
            {
                let v = playout_of(c, e, after).0;
                let end = after_line(c, line);
                &&& #[trigger] legal_line(c, line)
                &&& line.len() <= e
                &&& v == 1 || v == -1 || v == 0
                &&& v == 1 ==> finished(end) && to_move(end) == Some(1u8)
                &&& v == -1 ==> finished(end) && to_move(end) == Some(0u8)
                &&& v == 0 ==> line.len() == e
            };
        lemma_line_prepend(b, m, rest);
        let line = seq![m] + rest;
        assert(line.drop_first() =~= rest);
        assert(after_line(b, line) == after_line(c, rest));
        assert(legal_line(b, line));
    }
}

/// Whether the tree hangs together: its boards have a player to move, an untried move is legal,
/// the children of a node are boards of the other player's turn, and the table points at the
/// boards that it names.
pub open spec fn well_grown(t: GrownTree) -> bool {
    &&& forall|i: int| 0 <= i < t.nodes.len() ==> #[trigger] board_fits(t.nodes[i])
    &&& forall|i: int, j: int|
        0 <= i < t.nodes.len() && 0 <= j < t.nodes[i].children.len() ==> #[trigger]
            turns(t.nodes, i, t.nodes[i].children[j] as int)
    &&& forall|k: u128| #[trigger]
        t.table.contains_key(k) ==> t.table[k] < t.nodes.len() && payload_number(
            canonical(t.nodes[t.table[k] as int].board),
        ) as u128 == k
}

/// Whether the board has a player to move and the untried moves are legal on it.
pub open spec fn board_fits(n: TreeNode) -> bool {
    &&& n.board.len() == 8
    &&& to_move(n.board) is Some
    &&& forall|j: int| 0 <= j < n.untried.len() ==> legal_move(n.board, #[trigger] n.untried[j])
}

/// Whether it is the other player's turn at node `c`.
pub open spec fn turns(nodes: Seq<TreeNode>, i: int, c: int) -> bool {
    &&& 0 <= c < nodes.len()
    &&& side_to_move(nodes[c].board) == 1 - side_to_move(nodes[i].board)
}

proof fn lemma_same_turn(a: Seq<u16>, b: Seq<u16>)
    requires
        a.len() == 8,
        b.len() == 8,
        payload_number(canonical(a)) as u128 == payload_number(canonical(b)) as u128,
    ensures
        to_move(a) == to_move(b),
{
    lemma_canonical(a, a);
    lemma_canonical(b, b);
    lemma_payload_bounds(canonical(a));
    lemma_payload_bounds(canonical(b));
    lemma_payload_injective(canonical(a), canonical(b));
    law_canonical_complete(a, b);
    let g = choose|g: Sym| g.valid() && a == #[trigger] image(b, g);
    lemma_image_counts(b, g);
}

proof fn lemma_expansion_fits(merging: bool, x: GrownTree, id: int, y: GrownTree, r: usize)
    requires
        0 <= id < x.nodes.len(),
        well_grown(x),
        expands(merging, x, id, y, r),
        draws_stay_below(),
        x.nodes.len() < usize::MAX,
    ensures
        well_grown(y),
        x.nodes.len() <= y.nodes.len(),
        forall|i: int| 0 <= i < x.nodes.len() ==> (#[trigger] y.nodes[i]).board == x.nodes[i].board,
{
    let node = x.nodes[id];
    assert(board_fits(node));
    if !(finished(node.board) || node.untried.len() == 0) {
        lemma_legal_moves(node.board);
        let i = drawn(x.rng, node.untried.len() as u64) as int;
        assert(tries_move(merging, x, id, i, y, r));
        let m = node.untried[i];
        assert(legal_move(node.board, m));
        let board = applied(node.board, m);
        lemma_legal_move_step(node.board, m);
        lemma_legal_moves(board);
        let key = payload_number(canonical(board)) as u128;
        let left = node.untried.update(i, node.untried.last()).drop_last();
        assert forall|j: int| 0 <= j < left.len() implies legal_move(
            node.board,
            #[trigger] left[j],
        ) by {
            if j == i {
                assert(left[j] == node.untried[node.untried.len() - 1]);
            } else {
                assert(left[j] == node.untried[j]);
            }
        }
        if merging && x.table.contains_key(key) {
            assert(board_fits(x.nodes[r as int]));
            lemma_same_turn(x.nodes[r as int].board, board);
        }
        assert forall|k: int| 0 <= k < y.nodes.len() implies #[trigger] board_fits(
            y.nodes[k],
        ) by {
            if k < x.nodes.len() {
                assert(board_fits(x.nodes[k]));
            }
        }
        assert forall|k: int, j: int|
            0 <= k < y.nodes.len() && 0 <= j < y.nodes[k].children.len() implies #[trigger] turns(
            y.nodes,
            k,
            y.nodes[k].children[j] as int,
        ) by {
            let c = y.nodes[k].children[j] as int;
            if k < x.nodes.len() && j < x.nodes[k].children.len() {
                assert(turns(x.nodes, k, x.nodes[k].children[j] as int));
            }
        }
    }
}

/// A grown tree hangs together, its root is the searched board and was visited once for each
/// iteration, and no node has more wins than visits; where the games may be as long as there
/// are empty cells, each visit is a win of one player.
pub proof fn law_visits_are_counted<F: Fn(u32, u32, u32) -> i64>(
    priority: F,
    cfg: MCTSConfig,
    b: Seq<u16>,
    rng: StdRng,
    n: nat,
    t: GrownTree,
)
    requires
        b.len() == 8,
        to_move(b) is Some,
        n < u32::MAX,
        n < usize::MAX - 1,
        grows(priority, cfg, b, rng, n, t),
        draws_stay_below(),
    ensures
        well_grown(t),
        1 <= t.nodes.len() <= n + 1,
        t.nodes[0].board == b,
        t.nodes[0].visits == n,
        forall|i: int| 0 <= i < t.nodes.len() ==> (#[trigger] t.nodes[i]).visits <= n,
        forall|i: int|
            0 <= i < t.nodes.len() ==> (#[trigger] t.nodes[i]).wins_p0 + t.nodes[i].wins_p1
                <= t.nodes[i].visits,
        cfg.max_depth > 16 ==> forall|i: int|
            0 <= i < t.nodes.len() ==> (#[trigger] t.nodes[i]).wins_p0 + t.nodes[i].wins_p1
                == t.nodes[i].visits,
    decreases n,
{
    lemma_legal_moves(b);
    if n == 0 {
        assert(t.nodes[0] == bare_node(b, None));
    } else {
        let x = choose|x: GrownTree| #[trigger]
            iterates(priority, cfg, x, t) && grows(priority, cfg, b, rng, (n - 1) as nat, x);
        law_visits_are_counted(priority, cfg, b, rng, (n - 1) as nat, x);
        let (path, y, r) = choose|path: Seq<usize>, y: GrownTree, r: usize| #[trigger]
            iterates_by(priority, cfg, x, path, y, r, t);
        let leaf = path.last() as int;
        assert(path[path.len() - 1] < x.nodes.len());
        lemma_expansion_fits(cfg.use_transposition_table, x, leaf, y, r);
        lemma_expansion_keeps_counts(cfg.use_transposition_table, x, leaf, y, r);
        let way = with_last(path, r);
        assert(way[0] == 0) by {
            assert(path[0] == 0);
        }
        assert(on_path(way, 0));
        let board = y.nodes[r as int].board;
        let v = visit_of(board, cfg.max_depth, y.rng).0;
        assert(board_fits(y.nodes[r as int]));
        lemma_popcount(taken(board), 0);
        if finished(board) {
            law_the_player_to_move_has_lost(board, to_move(board)->0);
        } else {
            law_playouts_tell_who_lost(board, cfg.max_depth as nat, y.rng);
        }
        assert(v == 1 || v == -1 || v == 0);
        assert(cfg.max_depth > 16 ==> v != 0);
        assert forall|i: int| 0 <= i < t.nodes.len() implies {
            &&& (#[trigger] t.nodes[i]).visits <= n
            &&& t.nodes[i].wins_p0 + t.nodes[i].wins_p1 <= t.nodes[i].visits
            &&& cfg.max_depth > 16 ==> t.nodes[i].wins_p0 + t.nodes[i].wins_p1 == t.nodes[i].visits
        } by {
            let before = y.nodes[i];
            assert(before.visits <= n - 1);
        }
        assert forall|i: int| 0 <= i < t.nodes.len() implies #[trigger] board_fits(
            t.nodes[i],
        ) by {
            assert(board_fits(y.nodes[i]));
        }
        assert forall|i: int, j: int|
            0 <= i < t.nodes.len() && 0 <= j < t.nodes[i].children.len() implies #[trigger] turns(
            t.nodes,
            i,
            t.nodes[i].children[j] as int,
        ) by {
            assert(turns(y.nodes, i, y.nodes[i].children[j] as int));
        }
    }
}

proof fn lemma_expansion_keeps_counts(
    merging: bool,
    x: GrownTree,
    id: int,
    y: GrownTree,
    r: usize,
)
    requires
        0 <= id < x.nodes.len(),
        x.nodes.len() < usize::MAX,
        expands(merging, x, id, y, r),
    ensures
        x.nodes.len() <= y.nodes.len() <= x.nodes.len() + 1,
        forall|i: int|
            0 <= i < x.nodes.len() ==> {
                &&& (#[trigger] y.nodes[i]).visits == x.nodes[i].visits
                &&& y.nodes[i].wins_p0 == x.nodes[i].wins_p0
                &&& y.nodes[i].wins_p1 == x.nodes[i].wins_p1
            },
        forall|i: int|
            x.nodes.len() <= i < y.nodes.len() ==> (#[trigger] y.nodes[i]).visits == 0
                && y.nodes[i].wins_p0 == 0 && y.nodes[i].wins_p1 == 0,
{
}

/// A board of the tree on which the game is over counts every visit as a win of the player who
/// moved to it, and none as a win of the player who is to move.
pub proof fn law_the_last_mover_wins_every_visit<F: Fn(u32, u32, u32) -> i64>(
    priority: F,
    cfg: MCTSConfig,
    b: Seq<u16>,
    rng: StdRng,
    n: nat,
    t: GrownTree,
    i: int,
    player: u8,
)
    requires
        grows(priority, cfg, b, rng, n, t),
        0 <= i < t.nodes.len(),
        finished(t.nodes[i].board),
        to_move(t.nodes[i].board) == Some(player),
        player < 2,
    ensures
        player == 0 ==> t.nodes[i].wins_p1 == t.nodes[i].visits && t.nodes[i].wins_p0 == 0,
        player == 1 ==> t.nodes[i].wins_p0 == t.nodes[i].visits && t.nodes[i].wins_p1 == 0,
{
    law_finished_boards_are_won(priority, cfg, b, rng, n, t);
    law_the_player_to_move_has_lost(t.nodes[i].board, player);
}

/// To the player who chooses, a move that ends the game looks like one that won every visit:
/// the priority of the child is that of as many wins as visits.
pub proof fn law_finishing_moves_look_won<F: Fn(u32, u32, u32) -> i64>(
    priority: F,
    cfg: MCTSConfig,
    b: Seq<u16>,
    rng: StdRng,
    n: nat,
    t: GrownTree,
    i: int,
    scores: Seq<i64>,
    j: int,
)
    requires
        b.len() == 8,
        to_move(b) is Some,
        n < u32::MAX,
        n < usize::MAX - 1,
        grows(priority, cfg, b, rng, n, t),
        draws_stay_below(),
        0 <= i < t.nodes.len(),
        priorities(t.nodes, i, priority, scores),
        0 <= j < scores.len(),
        finished(t.nodes[t.nodes[i].children[j] as int].board),
    ensures
        ({
            let visits = t.nodes[t.nodes[i].children[j] as int].visits;
            call_ensures(priority, (visits, visits, t.nodes[i].visits), scores[j])
        }),
{
    law_visits_are_counted(priority, cfg, b, rng, n, t);
    let c = t.nodes[i].children[j] as int;
    assert(turns(t.nodes, i, c));
    assert(board_fits(t.nodes[i]) && board_fits(t.nodes[c]));
    law_the_last_mover_wins_every_visit(
        priority,
        cfg,
        b,
        rng,
        n,
        t,
        c,
        to_move(t.nodes[c].board)->0,
    );
}

/// Where every child was visited, the descent takes one whose priority no other exceeds.
pub proof fn law_the_descent_takes_the_highest_priority<F: Fn(u32, u32, u32) -> i64>(
    priority: F,
    nodes: Seq<TreeNode>,
    n: int,
    c: usize,
    k: int,
)
    requires
        descends_to(nodes, n, c, priority),
        0 <= k < nodes[n].children.len(),
        forall|j: int|
            0 <= j < nodes[n].children.len() ==> nodes[#[trigger] nodes[n].children[j] as int].visits
                > 0,
    ensures
        nodes[n].children.contains(c),
        exists|x: i64, y: i64|
            x >= y && #[trigger] call_ensures(
                priority,
                (
                    tree_wins(nodes[c as int], side_to_move(nodes[n].board)),
                    nodes[c as int].visits,
                    nodes[n].visits,
                ),
                x,
            ) && #[trigger] call_ensures(
                priority,
                (
                    tree_wins(
                        nodes[nodes[n].children[k] as int],
                        side_to_move(nodes[n].board),
                    ),
                    nodes[nodes[n].children[k] as int].visits,
                    nodes[n].visits,
                ),
                y,
            ),
{
    let kids = nodes[n].children;
    let (scores, p) = choose|scores: Seq<i64>, p: int|
        #![trigger priorities(nodes, n, priority, scores), kids[p]]
        priorities(nodes, n, priority, scores) && 0 <= p < kids.len() && kids[p] == c
            && if scores.len() < kids.len() {
            p == scores.len() && nodes[c as int].visits == 0
        } else {
            crate::mcts_trace::first_largest(scores, p)
        };
    assert(nodes[kids[p] as int].visits > 0);
    assert(scores[k] <= scores[p]);
    assert(nodes[kids[k] as int].visits > 0);
}

/// The draw decides which of the untried moves of a node is tried: a new node holds the board
/// after the move at which it points.
pub proof fn law_the_draw_tries_a_move(
    x: GrownTree,
    id: int,
    y: GrownTree,
    r: usize,
    i: int,
)
    requires
        0 <= id < x.nodes.len(),
        expands(false, x, id, y, r),
        !finished(x.nodes[id].board),
        0 <= i < x.nodes[id].untried.len(),
        drawn(x.rng, x.nodes[id].untried.len() as u64) == i,
    ensures
        y.nodes.len() == x.nodes.len() + 1,
        r == x.nodes.len(),
        y.nodes.last().board == applied(x.nodes[id].board, x.nodes[id].untried[i]),
        y.nodes.last().mv == Some(x.nodes[id].untried[i]),
        y.nodes[id].untried.len() == x.nodes[id].untried.len() - 1,
        x.nodes[id].untried.no_duplicates() ==> forall|m: Move| #[trigger]
            y.nodes[id].untried.contains(m) <==> x.nodes[id].untried.contains(m) && m
                != x.nodes[id].untried[i],
{
    let u = x.nodes[id].untried;
    let left = u.update(i, u.last()).drop_last();
    if u.no_duplicates() {
        assert forall|m: Move| #[trigger] left.contains(m) <==> u.contains(m) && m != u[i] by {
            if left.contains(m) {
                let k = choose|k: int| 0 <= k < left.len() && left[k] == m;
                if k == i {
                    assert(u[u.len() - 1] == m);
                } else {
                    assert(u[k] == m);
                }
            }
            if u.contains(m) && m != u[i] {
                let k = choose|k: int| 0 <= k < u.len() && u[k] == m;
                if k == u.len() - 1 {
                    assert(left[i] == m);
                } else {
                    assert(left[k] == m);
                }
            }
        }
    }
}

/// The move that is reported was visited at least as often as any other root move, and its
/// wins are those of the player to move.
pub proof fn law_the_most_visited_move_is_chosen<F: Fn(u32, u32, u32) -> i64>(
    priority: F,
    cfg: MCTSConfig,
    b: Seq<u16>,
    rng: StdRng,
    n: u32,
    t: GrownTree,
    mv: Move,
    wins: int,
    visits: int,
    k: int,
)
    requires
        chooses(priority, cfg, b, rng, n, t, mv, wins, visits),
        0 <= k < root_moves_of(t).len(),
    ensures
        root_moves_of(t)[k].visits <= visits,
        exists|j: int|
            {
                &&& 0 <= j < root_moves_of(t).len()
                &&& (#[trigger] root_moves_of(t)[j]).mv == mv
                &&& root_moves_of(t)[j].visits == visits
                &&& to_move(b) == Some(0u8) ==> wins == root_moves_of(t)[j].wins_p0
                &&& to_move(b) == Some(1u8) ==> wins == root_moves_of(t)[j].wins_p1
            },
{
    let j = choose|j: int| #[trigger]
        first_most_visited(root_moves_of(t), j) && {
            let c = root_moves_of(t)[j];
            &&& mv == c.mv
            &&& wins == child_wins(c, side_to_move(b))
            &&& visits == c.visits
        };
    assert(root_moves_of(t)[j].mv == mv);
    assert(root_moves_of(t)[k].visits <= root_moves_of(t)[j].visits);
}

/// A root move that ends the game has won every visit for the player to move and is reported
/// with the value one; any other move is reported with less.
pub proof fn law_finishing_root_moves_are_worth_one(
    children: Seq<RootChild>,
    b: Seq<u16>,
    k: int,
    q: Ratio,
)
    requires
        b.len() == 8,
        to_move(b) is Some,
        root_children_ok(children, b),
        0 <= k < children.len(),
        reports_q(q, children[k], side_to_move(b)),
    ensures
        finished(applied(b, children[k].mv)) ==> q.num == q.den && child_wins(
            children[k],
            side_to_move(b),
        ) == children[k].visits,
        !finished(applied(b, children[k].mv)) ==> -q.den < q.num < q.den,
{
    let c = children[k];
    assert(legal_move(b, c.mv));
    lemma_legal_move_step(b, c.mv);
    if finished(applied(b, c.mv)) {
        law_the_player_to_move_has_lost(applied(b, c.mv), (1 - c.mv.player) as u8);
    }
}

/// The value of a root move that does not end the game has the sign of what the player to move
/// won beyond half of the visits.
pub proof fn law_values_follow_the_movers_wins(q: Ratio, c: RootChild, mover: u8)
    requires
        reports_q(q, c, mover as int),
        mover < 2,
        !c.terminal,
        c.visits > 0,
    ensures
        ({
            let wins = if mover == 0 {
                c.wins_p0
            } else {
                c.wins_p1
            };
            (q.num > 0 <==> 2 * wins > c.visits) && (q.num < 0 <==> 2 * wins < c.visits)
        }),
{
    let (num, den) = child_q(c, mover as int);
    let a = UNPROVEN_NUM as int;
    let z = UNPROVEN_DEN as int;
    assert(a * den > 0 && -a * den < 0) by (nonlinear_arith)
        requires
            a > 0,
            den > 0,
    ;
    assert(num * z > 0 <==> num > 0) by (nonlinear_arith)
        requires
            z > 0,
    ;
    assert(num * z < 0 <==> num < 0) by (nonlinear_arith)
        requires
            z > 0,
    ;
}

/// The first move of a variation was visited, and at least as often as any other move.
pub proof fn law_variations_follow_the_visits(
    nodes: Seq<TreeNode>,
    n: int,
    d: nat,
    line: Seq<Move>,
    k: int,
)
    requires
        variation_from(nodes, n, d, line),
        line.len() > 0,
        0 <= k < nodes[n].children.len(),
    ensures
        exists|j: int|
            {
                let c = nodes[#[trigger] nodes[n].children[j] as int];
                &&& 0 <= j < nodes[n].children.len()
                &&& c.mv->0 == line[0]
                &&& c.visits > 0
                &&& c.visits >= nodes[nodes[n].children[k] as int].visits
            },
{
    let j = choose|j: int| #[trigger]
        goes_on(nodes, n, j) && line.len() > 0 && line[0] == nodes[nodes[n].children[j] as int].mv->0
            && variation_from(
            nodes,
            nodes[n].children[j] as int,
            (d - 1) as nat,
            line.drop_first(),
        );
    assert(goes_on(nodes, n, j));
    let c = nodes[nodes[n].children[j] as int];
    let e = nodes[nodes[n].children[k] as int];
}

/// Of several root moves that were visited most the first that was tried is chosen: those before
/// it were visited less.
pub proof fn law_ties_go_to_the_first_tried<F: Fn(u32, u32, u32) -> i64>(
    priority: F,
    cfg: MCTSConfig,
    b: Seq<u16>,
    rng: StdRng,
    n: u32,
    t: GrownTree,
    mv: Move,
    wins: int,
    visits: int,
)
    requires
        chooses(priority, cfg, b, rng, n, t, mv, wins, visits),
    ensures
        exists|j: int|
            {
                &&& 0 <= j < root_moves_of(t).len()
                &&& (#[trigger] root_moves_of(t)[j]).mv == mv
                &&& forall|k: int|
                    0 <= k < j ==> (#[trigger] root_moves_of(t)[k]).visits < visits
            },
{
    let j = choose|j: int| #[trigger]
        first_most_visited(root_moves_of(t), j) && {
            let c = root_moves_of(t)[j];
            &&& mv == c.mv
            &&& wins == child_wins(c, side_to_move(b))
            &&& visits == c.visits
        };
    assert(root_moves_of(t)[j].mv == mv);
}

/// The descent goes from the root through nodes at which no move is left to try and the game
/// goes on, each time to a child, and ends at the first node at which a move is left or the game
/// is over.
pub proof fn law_the_descent_stops_at_the_first_leaf<F: Fn(u32, u32, u32) -> i64>(
    priority: F,
    nodes: Seq<TreeNode>,
    path: Seq<usize>,
    i: int,
)
    requires
        descent(nodes, path, priority),
        0 <= i < path.len() - 1,
    ensures
        path[0] == 0,
        nodes[path[i] as int].untried.len() == 0 && !finished(nodes[path[i] as int].board),
        nodes[path[i] as int].children.contains(path[i + 1]),
        nodes[path.last() as int].untried.len() > 0 || finished(nodes[path.last() as int].board),
{
    assert(!is_leaf(nodes[path[i] as int]));
    assert(descends_to(nodes, path[i] as int, path[i + 1], priority));
    lemma_goes_to_a_child(priority, nodes, path[i] as int, path[i + 1]);
}

proof fn lemma_goes_to_a_child<F: Fn(u32, u32, u32) -> i64>(
    priority: F,
    nodes: Seq<TreeNode>,
    n: int,
    c: usize,
)
    requires
        descends_to(nodes, n, c, priority),
    ensures
        nodes[n].children.contains(c),
        (exists|j: int|
            0 <= j < nodes[n].children.len() && nodes[#[trigger] nodes[n].children[j] as int].visits
                == 0) ==> nodes[c as int].visits == 0,
{
    let kids = nodes[n].children;
    let (scores, k) = choose|scores: Seq<i64>, k: int|
        #![trigger priorities(nodes, n, priority, scores), kids[k]]
        priorities(nodes, n, priority, scores) && 0 <= k < kids.len() && kids[k] == c
            && if scores.len() < kids.len() {
            k == scores.len() && nodes[c as int].visits == 0
        } else {
            crate::mcts_trace::first_largest(scores, k)
        };
    assert(kids[k] == c);
    if exists|j: int| 0 <= j < kids.len() && nodes[#[trigger] kids[j] as int].visits == 0 {
        let j = choose|j: int| 0 <= j < kids.len() && nodes[#[trigger] kids[j] as int].visits == 0;
        if scores.len() == kids.len() {
            assert(nodes[kids[j] as int].visits > 0);
        }
    }
}

/// A child that was never visited is taken before any that was.
pub proof fn law_unvisited_children_come_first<F: Fn(u32, u32, u32) -> i64>(
    priority: F,
    nodes: Seq<TreeNode>,
    n: int,
    c: usize,
    j: int,
)
    requires
        descends_to(nodes, n, c, priority),
        0 <= j < nodes[n].children.len(),
        nodes[nodes[n].children[j] as int].visits == 0,
    ensures
        nodes[c as int].visits == 0,
{
    lemma_goes_to_a_child(priority, nodes, n, c);
}

/// A visit to a board on which the game goes on plays a random game of at most the configured
/// length from there; one to a board on which it is over counts who has won.
pub proof fn law_a_visit_plays_a_game(b: Seq<u16>, max_depth: u32, rng: StdRng, player: u8)
    requires
        to_move(b) == Some(player),
        player < 2,
    ensures
        !finished(b) ==> visit_of(b, max_depth, rng) == playout_of(b, max_depth as nat, rng),
        finished(b) && player == 0 ==> visit_of(b, max_depth, rng) == (-1int, rng),
        finished(b) && player == 1 ==> visit_of(b, max_depth, rng) == (1int, rng),
{
    if finished(b) {
        law_the_player_to_move_has_lost(b, player);
    }
}

/// Where nodes are merged, trying a move leads to a node whose board is symmetric to the board
/// after the move, and adds a node only if there was none.
pub proof fn law_merged_nodes_are_symmetric(x: GrownTree, id: int, y: GrownTree, r: usize)
    requires
        0 <= id < x.nodes.len() < usize::MAX,
        well_grown(x),
        expands(true, x, id, y, r),
        !finished(x.nodes[id].board),
        x.nodes[id].untried.len() > 0,
        draws_stay_below(),
    ensures
        exists|m: Move| #[trigger]
            legal_move(x.nodes[id].board, m) && canonical(y.nodes[r as int].board) == canonical(
                applied(x.nodes[id].board, m),
            ),
        y.nodes.len() == x.nodes.len() || (y.nodes.len() == x.nodes.len() + 1 && r
            == x.nodes.len()),
        y.nodes[id].children.contains(r),
{
    let node = x.nodes[id];
    assert(board_fits(node));
    lemma_legal_moves(node.board);
    let i = drawn(x.rng, node.untried.len() as u64) as int;
    assert(0 <= i < node.untried.len());
    let m = node.untried[i];
    assert(legal_move(node.board, m));
    let board = applied(node.board, m);
    lemma_legal_move_step(node.board, m);
    let key = payload_number(canonical(board)) as u128;
    if x.table.contains_key(key) {
        let c = x.nodes[r as int].board;
        assert(board_fits(x.nodes[r as int]));
        lemma_canonical(c, c);
        lemma_canonical(board, board);
        lemma_payload_bounds(canonical(c));
        lemma_payload_bounds(canonical(board));
        lemma_payload_injective(canonical(c), canonical(board));
        assert(y.nodes[r as int].board == c);
        if node.children.contains(r) {
            assert(y.nodes[id].children == node.children);
        } else {
            assert(y.nodes[id].children[node.children.len() as int] == r);
        }
    } else {
        assert(y.nodes[r as int].board == board);
        assert(y.nodes[id].children[node.children.len() as int] == r);
    }
}

/// Of several moves that were visited equally often a variation takes one with the lowest
/// action number.
pub proof fn law_variations_prefer_low_actions(nodes: Seq<TreeNode>, n: int, j: int, k: int)
    requires
        goes_on(nodes, n, j),
        0 <= k < nodes[n].children.len(),
    ensures
        ({
            let c = nodes[nodes[n].children[j] as int];
            let e = nodes[nodes[n].children[k] as int];
            &&& e.visits <= c.visits
            &&& e.visits == c.visits ==> c.mv->0.shape * 16 + c.mv->0.position <= e.mv->0.shape * 16
                + e.mv->0.position
        }),
{
    let e = nodes[nodes[n].children[k] as int];
}

} // verus!
