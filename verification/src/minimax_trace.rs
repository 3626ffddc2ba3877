//! How a minimax search runs: what it looks at in turn, what it remembers, and what it counts.
//!
//! The value that a search finds is that of [`crate::game_value`] whatever it remembers. The
//! run settles the rest: the line that it reports, the nodes that it visits, and which of
//! equally good moves it chooses.
use crate::clock::{clock_answers, limit_kept, took, Deadline};
use crate::evaluation::eval_value;
use crate::game::won;
use crate::game_value::{move_value, root_value, side_to_move};
use crate::minimax::{root_order, stepped, Bound, MinimaxConfig, MinimaxResult, INFINITE};
use crate::moves::{applied, legal_moves, Move};
use crate::rng::{after_draw, drawn, seeded};
use crate::search_telemetry::{no_events, SearchEventCounters};
use crate::symmetry::{canonical, payload_number};
use rand::rngs::StdRng;
use vstd::prelude::*;

verus! {

/// What a search remembers and counts: by the number of a board, which symmetric boards
/// share, the depth of a search of it, the value and what that says.
pub struct TreeModel {
    pub tt: vstd::map::Map<u128, (u32, i64, Bound)>,
    pub nodes: u64,
    pub counters: SearchEventCounters,
}

/// What was found of a board: the value for the side to move and a line, and what is
/// remembered after it.
pub struct Found {
    pub tree: TreeModel,
    pub value: int,
    pub line: Seq<Move>,
}

/// A counter after `k` more events.
pub open spec fn stepped_by(n: u64, k: int) -> u64 {
    if n + k <= u64::MAX {
        (n + k) as u64
    } else {
        u64::MAX
    }
}

/// The number of the board after the move `m`.
pub open spec fn number_after(b: Seq<u16>, m: Move) -> int {
    payload_number(canonical(applied(b, m)))
}

/// Whether an earlier move leads to a board that is symmetric to the one after the move at
/// `i`.
pub open spec fn repeats(b: Seq<u16>, moves: Seq<Move>, i: int) -> bool {
    exists|j: int| 0 <= j < i && number_after(b, #[trigger] moves[j]) == number_after(b, moves[i])
}

/// The first `n` moves, with `dedup` without those that repeat an earlier one.
pub open spec fn distinct_moves(b: Seq<u16>, moves: Seq<Move>, n: int, dedup: bool) -> Seq<Move>
    decreases n,
{
    if n <= 0 {
        Seq::empty()
    } else if dedup && repeats(b, moves, n - 1) {
        distinct_moves(b, moves, n - 1, dedup)
    } else {
        distinct_moves(b, moves, n - 1, dedup).push(moves[n - 1])
    }
}

/// What is counted when the boards after `moves` are made.
pub open spec fn with_boards(t: TreeModel, b: Seq<u16>, moves: Seq<Move>, dedup: bool) -> TreeModel {
    let kept = distinct_moves(b, moves, moves.len() as int, dedup).len();
    TreeModel {
        counters: SearchEventCounters {
            generated_nodes: stepped_by(t.counters.generated_nodes, moves.len() as int),
            canonical_dedup_hits: stepped_by(t.counters.canonical_dedup_hits, moves.len() - kept),
            ..t.counters
        },
        ..t
    }
}

/// Of the first `n` moves those that complete a line, or those that do not, in order.
pub open spec fn moves_completing(b: Seq<u16>, moves: Seq<Move>, n: int, completes: bool) -> Seq<
    Move,
>
    decreases n,
{
    if n <= 0 {
        Seq::empty()
    } else if won(applied(b, moves[n - 1])) == completes {
        moves_completing(b, moves, n - 1, completes).push(moves[n - 1])
    } else {
        moves_completing(b, moves, n - 1, completes)
    }
}

/// The moves in the order in which they are looked at: those that complete a line first.
pub open spec fn completing_first(b: Seq<u16>, moves: Seq<Move>) -> Seq<Move> {
    moves_completing(b, moves, moves.len() as int, true) + moves_completing(
        b,
        moves,
        moves.len() as int,
        false,
    )
}

/// What a table entry settles: a value, or the window that is left.
pub enum Probe {
    Settled(int),
    Open(int, int),
}

/// What the table says of a board with the number `key`.
pub open spec fn probed(
    cfg: MinimaxConfig,
    t: TreeModel,
    key: u128,
    depth: nat,
    alpha: int,
    beta: int,
) -> Probe {
    if !t.tt.contains_key(key) || t.tt[key].0 < depth {
        Probe::Open(alpha, beta)
    } else {
        let stored = t.tt[key].1 as int;
        if t.tt[key].2 == Bound::Exact {
            Probe::Settled(stored)
        } else if !cfg.use_alpha_beta {
            Probe::Open(alpha, beta)
        } else {
            let low = if t.tt[key].2 == Bound::Lower && stored > alpha {
                stored
            } else {
                alpha
            };
            let high = if t.tt[key].2 == Bound::Upper && stored < beta {
                stored
            } else {
                beta
            };
            if low >= high {
                Probe::Settled(stored)
            } else {
                Probe::Open(low, high)
            }
        }
    }
}

/// What a value says that was found with a window.
pub open spec fn bound_of(cfg: MinimaxConfig, v: int, alpha: int, beta: int) -> Bound {
    if v <= alpha {
        Bound::Upper
    } else if cfg.use_alpha_beta && v >= beta {
        Bound::Lower
    } else {
        Bound::Exact
    }
}

/// The search of the boards after `moves`, from the move at `i` on, with the window from
/// `alpha` to `beta`; `best` and `line` are what the moves before gave.
pub open spec fn children_searched(
    cfg: MinimaxConfig,
    t: TreeModel,
    b: Seq<u16>,
    moves: Seq<Move>,
    i: int,
    depth: nat,
    alpha: int,
    beta: int,
    ply: int,
    best: int,
    line: Seq<Move>,
) -> Found
    decreases depth, 0nat, moves.len() - i,
{
    if i >= moves.len() || depth == 0 {
        Found { tree: t, value: best, line }
    } else {
        let reply = board_searched(
            cfg,
            t,
            applied(b, moves[i]),
            (depth - 1) as nat,
            -beta,
            -alpha,
            ply + 1,
        );
        let better = -reply.value > best;
        let best1 = if better {
            -reply.value
        } else {
            best
        };
        let line1 = if better {
            seq![moves[i]] + reply.line
        } else {
            line
        };
        let alpha1 = if cfg.use_alpha_beta && best1 > alpha {
            best1
        } else {
            alpha
        };
        if cfg.use_alpha_beta && alpha1 >= beta {
            Found { tree: reply.tree, value: best1, line: line1 }
        } else {
            children_searched(
                cfg,
                reply.tree,
                b,
                moves,
                i + 1,
                depth,
                alpha1,
                beta,
                ply,
                best1,
                line1,
            )
        }
    }
}

/// The search of the board `b`, `ply` plies after the root, that looks `depth` plies ahead
/// with the window from `alpha` to `beta`.
pub open spec fn board_searched(
    cfg: MinimaxConfig,
    t: TreeModel,
    b: Seq<u16>,
    depth: nat,
    alpha: int,
    beta: int,
    ply: int,
) -> Found
    decreases depth, 1nat, 0int,
{
    let visited = TreeModel { nodes: stepped(t.nodes), ..t };
    let lost = -(cfg.eval_config.win - ply * cfg.eval_config.unit);
    let moves = legal_moves(b);
    if won(b) {
        Found { tree: ended(visited), value: lost, line: Seq::empty() }
    } else if moves.len() == 0 {
        Found { tree: ended(expanded(visited)), value: lost, line: Seq::empty() }
    } else if depth == 0 {
        Found {
            tree: expanded(visited),
            value: eval_value(b, side_to_move(b), cfg.eval_config),
            line: Seq::empty(),
        }
    } else {
        let t0 = expanded(visited);
        let key = payload_number(canonical(b)) as u128;
        let p = if cfg.use_transposition_table {
            probed(cfg, t0, key, depth, alpha, beta)
        } else {
            Probe::Open(alpha, beta)
        };
        match p {
            Probe::Settled(v) => Found { tree: hit(t0), value: v, line: Seq::empty() },
            Probe::Open(low, high) => {
                let kept = distinct_moves(b, moves, moves.len() as int, cfg.dedup_children);
                let f = children_searched(
                    cfg,
                    with_boards(t0, b, moves, cfg.dedup_children),
                    b,
                    completing_first(b, kept),
                    0,
                    depth,
                    low,
                    high,
                    ply,
                    -INFINITE,
                    Seq::empty(),
                );
                if cfg.use_transposition_table {
                    Found {
                        tree: TreeModel {
                            tt: f.tree.tt.insert(
                                key,
                                (depth as u32, f.value as i64, bound_of(cfg, f.value, alpha, beta)),
                            ),
                            ..f.tree
                        },
                        ..f
                    }
                } else {
                    f
                }
            },
        }
    }
}

/// The counters after a board on which the game is over.
pub open spec fn ended(t: TreeModel) -> TreeModel {
    TreeModel {
        counters: SearchEventCounters {
            terminal_hits: stepped(t.counters.terminal_hits),
            ..t.counters
        },
        ..t
    }
}

/// The counters after a board whose moves were made out.
pub open spec fn expanded(t: TreeModel) -> TreeModel {
    TreeModel {
        counters: SearchEventCounters {
            expanded_nodes: stepped(t.counters.expanded_nodes),
            ..t.counters
        },
        ..t
    }
}

/// The counters after the table settled a board.
pub open spec fn hit(t: TreeModel) -> TreeModel {
    TreeModel {
        counters: SearchEventCounters {
            transposition_hits: stepped(t.counters.transposition_hits),
            ..t.counters
        },
        ..t
    }
}

/// What is remembered after the boards after the first `n` root moves were searched with full
/// windows, and the lines that were found there.
pub open spec fn root_searched(
    cfg: MinimaxConfig,
    t: TreeModel,
    b: Seq<u16>,
    moves: Seq<Move>,
    n: int,
    depth: nat,
) -> (TreeModel, Seq<Seq<Move>>)
    decreases n,
{
    if n <= 0 {
        (t, Seq::empty())
    } else {
        let before = root_searched(cfg, t, b, moves, n - 1, depth);
        let f = board_searched(
            cfg,
            before.0,
            applied(b, moves[n - 1]),
            (depth - 1) as nat,
            -INFINITE,
            INFINITE as int,
            1,
        );
        (f.tree, before.1.push(f.line))
    }
}

/// The places below `n` of the root moves that are worth the most, looking `depth` plies
/// ahead.
pub open spec fn best_places(
    b: Seq<u16>,
    moves: Seq<Move>,
    n: int,
    depth: nat,
    cfg: MinimaxConfig,
) -> Seq<int>
    decreases n,
{
    if n <= 0 {
        Seq::empty()
    } else if move_value(b, moves[n - 1], (depth - 1) as nat, 1, cfg.eval_config) == root_value(
        b,
        depth,
        cfg.eval_config,
    ) {
        best_places(b, moves, n - 1, depth, cfg).push(n - 1)
    } else {
        best_places(b, moves, n - 1, depth, cfg)
    }
}

/// The state of a search after some iterations: the best move and the line of the last of
/// them, what is remembered, and the generator that breaks ties.
pub struct Deepened {
    pub tree: TreeModel,
    pub best: Option<Move>,
    pub line: Seq<Move>,
    pub rng: Option<StdRng>,
}

/// The state of a search of `b` after the iterations that look up to `depth` plies ahead. Each
/// looks at the best move of the one before first, and chooses among the moves that are worth
/// the most: the one that the generator draws, or else the first.
pub open spec fn deepened_to(
    cfg: MinimaxConfig,
    b: Seq<u16>,
    rng: Option<StdRng>,
    depth: nat,
) -> Deepened
    decreases depth,
{
    if depth == 0 {
        Deepened {
            tree: TreeModel {
                tt: vstd::map::Map::empty(),
                nodes: 0,
                counters: SearchEventCounters { expanded_nodes: 1, ..no_events() },
            },
            best: None,
            line: Seq::empty(),
            rng,
        }
    } else {
        iterated(cfg, b, deepened_to(cfg, b, rng, (depth - 1) as nat), depth)
    }
}

/// The state after one more iteration, which looks `depth` plies ahead.
pub open spec fn iterated(cfg: MinimaxConfig, b: Seq<u16>, x: Deepened, depth: nat) -> Deepened {
    let ordered = root_order(legal_moves(b), x.best);
    let moves = distinct_moves(b, ordered, ordered.len() as int, cfg.dedup_children);
    let n = moves.len() as int;
    let (tree, lines) = root_searched(
        cfg,
        with_boards(x.tree, b, ordered, cfg.dedup_children),
        b,
        moves,
        n,
        depth,
    );
    let places = best_places(b, moves, n, depth, cfg);
    let count = places.len() as u64;
    let chosen = match x.rng {
        Some(rng) => places[drawn(rng, count) as int],
        None => places[0],
    };
    Deepened {
        tree,
        best: Some(moves[chosen]),
        line: seq![moves[chosen]] + lines[chosen],
        rng: match x.rng {
            Some(rng) => Some(after_draw(rng, count)),
            None => None,
        },
    }
}

/// The generator that breaks ties for an optional seed.
pub open spec fn tie_breaker(seed: Option<u64>) -> Option<StdRng> {
    match seed {
        Some(s) => Some(seeded(s)),
        None => None,
    }
}

/// Whether `r` is the result of a search of `b` that completed the iterations up to
/// `r.depth_reached`.
pub open spec fn ran_to(
    r: MinimaxResult,
    cfg: MinimaxConfig,
    b: Seq<u16>,
    rng: Option<StdRng>,
) -> bool {
    let x = deepened_to(cfg, b, rng, r.depth_reached as nat);
    &&& x.best == Some(r.best_move)
    &&& r.pv@ == x.line
    &&& r.nodes == x.tree.nodes
    &&& r.score == root_value(b, r.depth_reached as nat, cfg.eval_config)
}

/// Whether a search with the result `r` kept its time limit. It asks the clock after each
/// iteration and with every 1024th node.
pub open spec fn ran_in_time(r: MinimaxResult, cfg: MinimaxConfig) -> bool {
    &&& limit_kept(
        cfg.time_limit_nanos,
        r.depth_reached > 1 || r.nodes >= 1024,
        r.depth_reached < cfg.max_depth,
    )
    &&& took(r.elapsed_nanos)
}

/// Whether the clock, where a search came past a 1024th node, said that there was time left.
pub open spec fn asked_on_the_way(deadline: Option<Deadline>, from: u64, to: u64) -> bool {
    to / 1024 > from / 1024 ==> clock_answers(deadline, false)
}

/// Two searches with equal settings, board and generator that reached the same depth, as they
/// do without a time limit, chose the same move with the same score, line and number of nodes.
pub proof fn law_minimax_searches_agree(
    cfg: MinimaxConfig,
    b: Seq<u16>,
    rng: Option<StdRng>,
    x: MinimaxResult,
    y: MinimaxResult,
)
    requires
        ran_to(x, cfg, b, rng),
        ran_to(y, cfg, b, rng),
        x.depth_reached == y.depth_reached,
    ensures
        x.best_move == y.best_move,
        x.score == y.score,
        x.nodes == y.nodes,
        x.pv@ == y.pv@,
{
}

} // verus!
