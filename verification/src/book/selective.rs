//! Selective search below the exhaustive part of a book.
use crate::bitboard::{lemma_popcount, Bitboard};
use crate::book::positions::{quick_evaluate, quick_value};
use crate::book::ranking::{is_ranked, rank_moves};
use crate::game::{current_player, has_winning_line, total_pieces, to_move};
use crate::game_value::finished;
use crate::invariance::lemma_image_counts;
use crate::minimax_trace::stepped_by;
use crate::moves::{
    applied, apply_move, generate_legal_moves, legal_move, legal_moves, lemma_legal_move_step,
    lemma_legal_moves, Move,
};
use crate::search_telemetry::Ratio;
use crate::sorting::lists_places;
use crate::state::State;
use crate::symmetry::{
    canonical, image, law_canonical_complete, lemma_canonical, lemma_payload_injective,
    payload_number, Sym,
};
use std::collections::HashMap;
use vstd::prelude::*;

verus! {

/// What the search knows of a position and those symmetric to it: a score for the
/// side to move in tenths, the plies that it looked ahead, and the best move.
#[derive(Clone, Copy, Debug)]
pub struct TTEntry {
    pub score: i32,
    pub searched_depth: i32,
    pub best_move: Option<Move>,
}

/// The quick evaluation for the side to move.
pub open spec fn mover_value(b: Seq<u16>) -> int {
    if to_move(b) == Some(1u8) {
        -quick_value(b)
    } else {
        quick_value(b)
    }
}

/// How many moves are tried: all of them in the exhaustive part of the book, else the
/// `top_k` most promising.
pub open spec fn tried(b: Seq<u16>, n: int, top_k: usize, exhaustive_depth: usize) -> int {
    if total_pieces(b) > exhaustive_depth && top_k < n {
        top_k as int
    } else {
        n
    }
}

/// The best that the mover gets, given what each reply is worth to the opponent; zero
/// where no move is tried.
pub open spec fn best_of(scores: Seq<int>) -> int
    decreases scores.len(),
{
    if scores.len() == 0 {
        0
    } else if scores.len() == 1 {
        -scores[0]
    } else {
        let rest = best_of(scores.drop_last());
        if -scores.last() > rest {
            -scores.last()
        } else {
            rest
        }
    }
}

/// The place of the first reply that is worth the most to the mover.
pub open spec fn best_place(scores: Seq<int>) -> int
    decreases scores.len(),
{
    if scores.len() <= 1 || -scores.last() > best_of(scores.drop_last()) {
        scores.len() - 1
    } else {
        best_place(scores.drop_last())
    }
}

/// The best of the moves that are tried, the first of them where several are; none where
/// no move is tried.
pub open spec fn best_tried(ranked: Seq<(Move, i32)>, scores: Seq<int>) -> Option<Move> {
    if scores.len() == 0 {
        None
    } else {
        Some(ranked[best_place(scores)].0)
    }
}

/// Whether `s` and `best` are what a search of `b` that looks exactly `d` plies ahead may
/// give: a finished game is lost, at the horizon the evaluation decides, else the best of
/// the moves that are tried, each searched at least one ply less. `e` bounds the length of
/// a game.
pub open spec fn computed(
    b: Seq<u16>,
    e: nat,
    d: int,
    s: int,
    best: Option<Move>,
    top_k: usize,
    exhaustive_depth: usize,
) -> bool
    decreases e,
{
    if finished(b) {
        s == -10 && best is None
    } else if d <= 0 {
        s == mover_value(b) && best is None
    } else {
        e > 0 && exists|ranked: Seq<(Move, i32)>, replies: Seq<Reply>|
            #![trigger is_ranked(ranked, b, legal_moves(b)), best_of(scores_of(replies))]
            {
                &&& is_ranked(ranked, b, legal_moves(b))
                &&& replies.len() == tried(b, ranked.len() as int, top_k, exhaustive_depth)
                &&& forall|i: int|
                    0 <= i < replies.len() ==> {
                        let r = #[trigger] replies[i];
                        &&& r.depth >= d - 1
                        &&& r.board.len() == 8
                        &&& canonical(r.board) == canonical(applied(b, ranked[i].0))
                        &&& computed(
                            r.board,
                            (e - 1) as nat,
                            r.depth,
                            r.score,
                            r.best,
                            top_k,
                            exhaustive_depth,
                        )
                    }
                &&& s == best_of(scores_of(replies))
                &&& best == best_tried(ranked, scores_of(replies))
            }
    }
}

/// What was found of a reply: the board that was searched, symmetric to the one after
/// the reply, the plies that were looked ahead, the score and the best move.
pub struct Reply {
    pub board: Seq<u16>,
    pub depth: int,
    pub score: int,
    pub best: Option<Move>,
}

/// The scores of some replies.
pub open spec fn scores_of(replies: Seq<Reply>) -> Seq<int> {
    replies.map_values(|r: Reply| r.score)
}

/// Whether `s` is what a search of `b`, or of a board symmetric to it, that looks at
/// least `d` plies ahead may give.
pub open spec fn searched(
    b: Seq<u16>,
    e: nat,
    d: int,
    s: int,
    top_k: usize,
    exhaustive_depth: usize,
) -> bool {
    exists|c: Seq<u16>, deep: int, best: Option<Move>|
        deep >= d && c.len() == 8 && canonical(c) == canonical(b) && #[trigger] computed(
            c,
            e,
            deep,
            s,
            best,
            top_k,
            exhaustive_depth,
        )
}

/// A bound on the length of the games from `b`.
pub open spec fn longest(b: Seq<u16>) -> nat {
    (128 - total_pieces(b)) as nat
}

/// Whether what is known under `key` is what a search of a board with that key gave.
pub open spec fn entry_true(
    key: u128,
    entry: TTEntry,
    top_k: usize,
    exhaustive_depth: usize,
) -> bool {
    &&& -10 <= entry.score <= 10
    &&& entry.searched_depth >= 0
    &&& exists|c: Seq<u16>|
        c.len() == 8 && #[trigger] payload_number(canonical(c)) == key && computed(
            c,
            longest(c),
            entry.searched_depth as int,
            entry.score as int,
            entry.best_move,
            top_k,
            exhaustive_depth,
        )
}

/// Whether the second table knows all that the first does, searched no less deep.
#[verifier::opaque]
pub open spec fn deepened(
    before: vstd::map::Map<u128, TTEntry>,
    after: vstd::map::Map<u128, TTEntry>,
) -> bool {
    forall|key: u128| #[trigger]
        before.contains_key(key) ==> after.contains_key(key) && before[key].searched_depth
            <= after[key].searched_depth
}

proof fn lemma_deepened_same(tt: vstd::map::Map<u128, TTEntry>)
    ensures
        deepened(tt, tt),
{
    reveal(deepened);
}

proof fn lemma_deepened_insert(
    before: vstd::map::Map<u128, TTEntry>,
    tt: vstd::map::Map<u128, TTEntry>,
    key: u128,
    entry: TTEntry,
)
    requires
        deepened(before, tt),
        before.contains_key(key) ==> before[key].searched_depth <= entry.searched_depth,
    ensures
        deepened(before, tt.insert(key, entry)),
{
    reveal(deepened);
}

proof fn lemma_deepened_twice(
    x: vstd::map::Map<u128, TTEntry>,
    y: vstd::map::Map<u128, TTEntry>,
    z: vstd::map::Map<u128, TTEntry>,
)
    requires
        deepened(x, y),
        deepened(y, z),
    ensures
        deepened(x, z),
        forall|b: Seq<u16>, d: int| listed(y, b, d) ==> #[trigger] listed(z, b, d),
{
    reveal(deepened);
}

/// Whether the table knows a board that was searched at least `depth` plies deep.
pub open spec fn listed(
    tt: vstd::map::Map<u128, TTEntry>,
    b: Seq<u16>,
    depth: int,
) -> bool {
    let key = payload_number(canonical(b)) as u128;
    tt.contains_key(key) && tt[key].searched_depth >= depth
}

/// Whether all that the table says is true.
#[verifier::opaque]
pub open spec fn table_true(
    tt: vstd::map::Map<u128, TTEntry>,
    top_k: usize,
    exhaustive_depth: usize,
) -> bool {
    forall|key: u128| #[trigger]
        tt.contains_key(key) ==> entry_true(key, tt[key], top_k, exhaustive_depth)
}

proof fn lemma_total_bounds(b: Seq<u16>)
    requires
        b.len() == 8,
    ensures
        0 <= total_pieces(b) <= 128,
{
    lemma_popcount(b[0], 0);
    lemma_popcount(b[1], 0);
    lemma_popcount(b[2], 0);
    lemma_popcount(b[3], 0);
    lemma_popcount(b[4], 0);
    lemma_popcount(b[5], 0);
    lemma_popcount(b[6], 0);
    lemma_popcount(b[7], 0);
}

/// Boards with the same key have the same canonical representative and hold equally
/// many pieces.
proof fn lemma_same_key(b: Seq<u16>, c: Seq<u16>)
    requires
        b.len() == 8,
        c.len() == 8,
        payload_number(canonical(b)) == payload_number(canonical(c)),
    ensures
        canonical(b) == canonical(c),
        total_pieces(b) == total_pieces(c),
{
    lemma_canonical(b, b);
    lemma_canonical(c, c);
    lemma_payload_injective(canonical(b), canonical(c));
    law_canonical_complete(b, c);
    let g = choose|g: Sym| g.valid() && b == #[trigger] image(c, g);
    lemma_image_counts(c, g);
}

/// What is known under a key is what a search of any board with that key may give.
pub proof fn law_entry_holds_of_symmetric_boards(
    b: Seq<u16>,
    entry: TTEntry,
    key: u128,
    top_k: usize,
    x: usize,
)
    requires
        b.len() == 8,
        payload_number(canonical(b)) == key,
        entry_true(key, entry, top_k, x),
    ensures
        searched(b, longest(b), entry.searched_depth as int, entry.score as int, top_k, x),
{
    let c = choose|c: Seq<u16>|
        c.len() == 8 && #[trigger] payload_number(canonical(c)) == key && computed(
            c,
            longest(c),
            entry.searched_depth as int,
            entry.score as int,
            entry.best_move,
            top_k,
            x,
        );
    lemma_same_key(c, b);
    assert(computed(
        c,
        longest(b),
        entry.searched_depth as int,
        entry.score as int,
        entry.best_move,
        top_k,
        x,
    ));
}

proof fn lemma_table_insert(
    tt: vstd::map::Map<u128, TTEntry>,
    key: u128,
    entry: TTEntry,
    top_k: usize,
    x: usize,
)
    requires
        table_true(tt, top_k, x),
        entry_true(key, entry, top_k, x),
    ensures
        table_true(tt.insert(key, entry), top_k, x),
{
    reveal(table_true);
    let after = tt.insert(key, entry);
    assert forall|k: u128| #[trigger] after.contains_key(k) implies entry_true(
        k,
        after[k],
        top_k,
        x,
    ) by {
        if k != key {
            assert(tt.contains_key(k));
        }
    }
}

proof fn lemma_table_get(tt: vstd::map::Map<u128, TTEntry>, key: u128, top_k: usize, x: usize)
    requires
        table_true(tt, top_k, x),
        tt.contains_key(key),
    ensures
        entry_true(key, tt[key], top_k, x),
{
    reveal(table_true);
}

/// Searching deeper than asked is allowed.
proof fn lemma_searched_at(
    b: Seq<u16>,
    e: nat,
    d: int,
    s: int,
    best: Option<Move>,
    top_k: usize,
    x: usize,
)
    requires
        b.len() == 8,
        computed(b, e, d, s, best, top_k, x),
    ensures
        searched(b, e, d, s, top_k, x),
{
}

proof fn lemma_searched_less(b: Seq<u16>, e: nat, d: int, less: int, s: int, top_k: usize, x: usize)
    requires
        searched(b, e, d, s, top_k, x),
        less <= d,
    ensures
        searched(b, e, less, s, top_k, x),
{
    let (c, deep, best) = choose|c: Seq<u16>, deep: int, best: Option<Move>|
        deep >= d && c.len() == 8 && canonical(c) == canonical(b) && #[trigger] computed(
            c,
            e,
            deep,
            s,
            best,
            top_k,
            x,
        );
    assert(computed(c, e, deep, s, best, top_k, x));
}

/// The legal moves of a board in the order of their promise.
pub open spec fn ranking(b: Seq<u16>) -> Seq<(Move, i32)> {
    choose|ranked: Seq<(Move, i32)>| is_ranked(ranked, b, legal_moves(b))
}

/// A run of the search: the table and the score after it, and the boards that it visited.
pub struct Run {
    pub tt: vstd::map::Map<u128, TTEntry>,
    pub score: int,
    pub visits: int,
}

/// A run over the boards after some moves: the table after it, their scores for the opponent,
/// and the boards that it visited.
pub struct MovesRun {
    pub tt: vstd::map::Map<u128, TTEntry>,
    pub scores: Seq<int>,
    pub visits: int,
}

/// The search of the boards after the first `n` of the ranked moves, one after the other.
pub open spec fn moves_run(
    b: Seq<u16>,
    remaining: nat,
    tt: vstd::map::Map<u128, TTEntry>,
    n: int,
    top_k: usize,
    exhaustive_depth: usize,
) -> MovesRun
    decreases remaining, 0nat, n,
{
    if n <= 0 || remaining == 0 {
        MovesRun { tt, scores: Seq::empty(), visits: 0 }
    } else {
        let before = moves_run(b, remaining, tt, n - 1, top_k, exhaustive_depth);
        let last = board_run(
            applied(b, ranking(b)[n - 1].0),
            (remaining - 1) as nat,
            before.tt,
            top_k,
            exhaustive_depth,
        );
        MovesRun {
            tt: last.tt,
            scores: before.scores.push(last.score),
            visits: before.visits + last.visits,
        }
    }
}

/// The search of a board that looks `remaining` plies ahead: what is known far enough is
/// taken from the table, and what is found is put there.
pub open spec fn board_run(
    b: Seq<u16>,
    remaining: nat,
    tt: vstd::map::Map<u128, TTEntry>,
    top_k: usize,
    exhaustive_depth: usize,
) -> Run
    decreases remaining, 1nat, 0int,
{
    let key = payload_number(canonical(b)) as u128;
    if tt.contains_key(key) && tt[key].searched_depth >= remaining {
        Run { tt, score: tt[key].score as int, visits: 1 }
    } else if finished(b) {
        let entry = TTEntry {
            score: (-10) as i32,
            searched_depth: remaining as i32,
            best_move: None,
        };
        Run { tt: tt.insert(key, entry), score: -10, visits: 1 }
    } else if remaining == 0 {
        let entry = TTEntry {
            score: mover_value(b) as i32,
            searched_depth: 0,
            best_move: None,
        };
        Run {
            tt: if tt.contains_key(key) {
                tt
            } else {
                tt.insert(key, entry)
            },
            score: mover_value(b),
            visits: 1,
        }
    } else {
        let n = tried(b, ranking(b).len() as int, top_k, exhaustive_depth);
        let f = moves_run(b, remaining, tt, n, top_k, exhaustive_depth);
        let entry = TTEntry {
            score: best_of(f.scores) as i32,
            searched_depth: remaining as i32,
            best_move: best_tried(ranking(b), f.scores),
        };
        Run { tt: f.tt.insert(key, entry), score: best_of(f.scores), visits: f.visits + 1 }
    }
}

/// The ranking of a board is the one that there is.
proof fn lemma_one_ranking(b: Seq<u16>, ranked: Seq<(Move, i32)>)
    requires
        is_ranked(ranked, b, legal_moves(b)),
    ensures
        ranked == ranking(b),
{
    let moves = legal_moves(b);
    let other = ranking(b);
    assert(is_ranked(other, b, moves));
    lemma_legal_moves(b);
    crate::book::ranking::lemma_ranked_unique(ranked, other, b, moves);
}

/// Negamax with a table of what is known already. The score is for the side to move,
/// in tenths.
#[verifier::rlimit(60)]
pub fn negamax_dfs(
    bb: &Bitboard,
    remaining: i32,
    tt: &mut HashMap<u128, TTEntry>,
    nodes: &mut u64,
    top_k: usize,
    exhaustive_depth: usize,
) -> (score: i32)
    requires
        remaining >= 0,
        table_true(old(tt)@, top_k, exhaustive_depth),
    ensures
        table_true(final(tt)@, top_k, exhaustive_depth),
        -10 <= score <= 10,
        searched(bb@, longest(bb@), remaining as int, score as int, top_k, exhaustive_depth),
        finished(bb@) && !old(tt)@.contains_key(payload_number(canonical(bb@)) as u128) ==> score
            == -10,
        deepened(old(tt)@, final(tt)@),
        listed(final(tt)@, bb@, remaining as int),
        ({
            let run = board_run(bb@, remaining as nat, old(tt)@, top_k, exhaustive_depth);
            &&& final(tt)@ == run.tt
            &&& score == run.score
            &&& run.visits >= 1
            &&& *final(nodes) == stepped_by(*old(nodes), run.visits)
        }),
    decreases remaining,
{
    broadcast use vstd::std_specs::hash::group_hash_axioms;

    *nodes = nodes.saturating_add(1);
    let ghost b = bb@;
    let key: u128 = State::new(*bb).canonical_number();
    if let Some(entry) = tt.get(&key) {
        if entry.searched_depth >= remaining {
            proof {
                lemma_table_get(tt@, key, top_k, exhaustive_depth);
                assert(payload_number(canonical(b)) == key);
                law_entry_holds_of_symmetric_boards(b, *entry, key, top_k, exhaustive_depth);
                lemma_searched_less(
                    b,
                    longest(b),
                    entry.searched_depth as int,
                    remaining as int,
                    entry.score as int,
                    top_k,
                    exhaustive_depth,
                );
            }
            proof {
                lemma_deepened_same(tt@);
            }
            return entry.score;
        }
    }
    let moves = generate_legal_moves(bb);
    proof {
        lemma_deepened_same(tt@);
    }
    if has_winning_line(bb) || moves.len() == 0 {
        let entry = TTEntry { score: -10, searched_depth: remaining, best_move: None };
        proof {
            assert(payload_number(canonical(b)) == key);
            lemma_table_insert(tt@, key, entry, top_k, exhaustive_depth);
            lemma_deepened_insert(tt@, tt@, key, entry);
            lemma_searched_at(b, longest(b), remaining as int, -10, None, top_k, exhaustive_depth);
        }
        tt.insert(key, entry);
        return -10;
    }
    if remaining == 0 {
        let raw: i32 = quick_evaluate(bb);
        let second: bool = match current_player(bb) {
            Some(p) => p == 1,
            None => false,
        };
        let score: i32 = if second {
            -raw
        } else {
            raw
        };
        let entry = TTEntry { score, searched_depth: 0, best_move: None };
        proof {
            lemma_searched_at(b, longest(b), 0, score as int, None, top_k, exhaustive_depth);
        }
        if !tt.contains_key(&key) {
            proof {
                assert(payload_number(canonical(b)) == key);
                lemma_table_insert(tt@, key, entry, top_k, exhaustive_depth);
                lemma_deepened_insert(tt@, tt@, key, entry);
            }
            tt.insert(key, entry);
        } else {
            proof {
                lemma_table_get(tt@, key, top_k, exhaustive_depth);
            }
        }
        return score;
    }
    proof {
        lemma_legal_moves(b);
        assert forall|i: int| 0 <= i < moves@.len() implies (#[trigger] moves@[i]).in_range() by {
            assert(legal_move(b, moves@[i]));
        }
        lemma_total_bounds(b);
    }
    let ranked = rank_moves(bb, &moves);
    proof {
        lemma_one_ranking(b, ranked@);
    }
    let depth: usize = bb.player_piece_count(0) as usize + bb.player_piece_count(1) as usize;
    let limit: usize = if depth > exhaustive_depth && top_k < ranked.len() {
        top_k
    } else {
        ranked.len()
    };
    let ghost mut replies: Seq<Reply> = Seq::empty();
    let mut best: i32 = 0;
    let mut best_move: Option<Move> = None;
    let ghost known = tt@;
    let mut i: usize = 0;
    assert(scores_of(replies) =~= Seq::empty());
    proof {
        assert forall|k: int| 0 <= k < ranked@.len() implies legal_move(b, (#[trigger] ranked@[k]).0) by {
            let order = choose|order: Seq<usize>|
                #![trigger lists_places(order, 0, moves@.len() as int)]
                {
                    &&& lists_places(order, 0, moves@.len() as int)
                    &&& crate::sorting::in_order(order, crate::book::ranking::ranks(b, moves@))
                    &&& ranked@.len() == order.len()
                    &&& forall|i: int|
                        0 <= i < ranked@.len() ==> #[trigger] ranked@[i] == (
                            moves@[order[i] as int],
                            crate::book::ranking::heuristic(b, moves@[order[i] as int]) as i32,
                        )
                };
            assert(0 <= order[k] < moves@.len());
            assert(ranked@[k].0 == moves@[order[k] as int]);
            assert(legal_move(b, moves@[order[k] as int]));
        }
    }
    while i < limit
        invariant
            i <= limit <= ranked@.len(),
            b == bb@,
            b.len() == 8,
            remaining > 0,
            0 <= total_pieces(b) <= 128,
            forall|k: int|
                0 <= k < ranked@.len() ==> legal_move(b, (#[trigger] ranked@[k]).0),
            table_true(tt@, top_k, exhaustive_depth),
            deepened(known, tt@),
            ranked@ == ranking(b),
            known == old(tt)@,
            ({
                let f = moves_run(
                    b,
                    remaining as nat,
                    known,
                    i as int,
                    top_k,
                    exhaustive_depth,
                );
                &&& tt@ == f.tt
                &&& scores_of(replies) == f.scores
                &&& f.visits >= 0
                &&& *nodes == stepped_by(*old(nodes), f.visits + 1)
            }),
            replies.len() == i,
            forall|k: int|
                0 <= k < i ==> {
                    let r = #[trigger] replies[k];
                    &&& r.depth >= remaining - 1
                    &&& r.board.len() == 8
                    &&& canonical(r.board) == canonical(applied(b, ranked@[k].0))
                    &&& computed(
                        r.board,
                        (longest(b) - 1) as nat,
                        r.depth,
                        r.score,
                        r.best,
                        top_k,
                        exhaustive_depth,
                    )
                },
            best_move == best_tried(ranked@, scores_of(replies)),
            best == best_of(scores_of(replies)),
            -10 <= best <= 10,
            longest(b) >= 1 || i == 0,
        decreases limit - i,
    {
        let m = ranked[i].0;
        assert(legal_move(b, ranked@[i as int].0));
        let child = apply_move(bb, &m);
        let ghost earlier = tt@;
        let s: i32 = negamax_dfs(&child, remaining - 1, tt, nodes, top_k, exhaustive_depth);
        proof {
            lemma_deepened_twice(known, earlier, tt@);
            lemma_legal_move_step(b, m);
            lemma_total_bounds(applied(b, m));
            let (c, deep, next) = choose|c: Seq<u16>, deep: int, next: Option<Move>|
                deep >= remaining - 1 && c.len() == 8 && canonical(c) == canonical(child@)
                    && #[trigger] computed(
                    c,
                    longest(child@),
                    deep,
                    s as int,
                    next,
                    top_k,
                    exhaustive_depth,
                );
            let before = replies;
            replies = replies.push(Reply { board: c, depth: deep, score: s as int, best: next });
            assert(scores_of(replies).drop_last() =~= scores_of(before));
            assert(scores_of(replies).last() == s as int);
            assert(scores_of(replies) =~= scores_of(before).push(s as int));
        }
        if i == 0 || -s > best {
            best = -s;
            best_move = Some(m);
        }
        i = i + 1;
    }
    let entry = TTEntry { score: best, searched_depth: remaining, best_move };
    proof {
        let m = ranked@[0].0;
        assert(legal_move(b, ranked@[0].0));
        lemma_legal_move_step(b, m);
        lemma_total_bounds(applied(b, m));
        assert(is_ranked(ranked@, b, legal_moves(b)));
        assert(best == best_of(scores_of(replies)));
        assert(computed(
            b,
            longest(b),
            remaining as int,
            best as int,
            best_move,
            top_k,
            exhaustive_depth,
        ));
        lemma_searched_at(
            b,
            longest(b),
            remaining as int,
            best as int,
            best_move,
            top_k,
            exhaustive_depth,
        );
        assert(payload_number(canonical(b)) == key);
        assert(entry_true(key, entry, top_k, exhaustive_depth));
        lemma_table_insert(tt@, key, entry, top_k, exhaustive_depth);
        lemma_deepened_insert(known, tt@, key, entry);
    }
    tt.insert(key, entry);
    best
}

/// How many of the first `n` positions of a frontier are less deep than `depth_limit`.
pub open spec fn to_search(frontier: Seq<(Bitboard, usize)>, n: int, depth_limit: usize) -> int
    decreases n,
{
    if n <= 0 {
        0
    } else {
        to_search(frontier, n - 1, depth_limit) + if frontier[n - 1].1 < depth_limit {
            1int
        } else {
            0
        }
    }
}

/// The table after the first `n` positions of a frontier were searched as far as
/// `depth_limit` plies from the empty board, and the boards that were visited.
pub open spec fn frontier_run(
    frontier: Seq<(Bitboard, usize)>,
    n: int,
    depth_limit: usize,
    tt: vstd::map::Map<u128, TTEntry>,
    top_k: usize,
    exhaustive_depth: usize,
) -> (vstd::map::Map<u128, TTEntry>, int)
    decreases n,
{
    if n <= 0 {
        (tt, 0)
    } else {
        let before = frontier_run(frontier, n - 1, depth_limit, tt, top_k, exhaustive_depth);
        let (bb, depth) = frontier[n - 1];
        if depth < depth_limit {
            let run = board_run(
                bb@,
                (depth_limit - depth) as nat,
                before.0,
                top_k,
                exhaustive_depth,
            );
            (run.tt, before.1 + run.visits)
        } else {
            before
        }
    }
}

/// Search all positions of a frontier as far as `depth_limit` plies from the empty
/// board. A position comes with its own depth. Returns the number of nodes.
pub fn deepen_frontier(
    frontier: &Vec<(Bitboard, usize)>,
    depth_limit: usize,
    tt: &mut HashMap<u128, TTEntry>,
    top_k: usize,
    exhaustive_depth: usize,
) -> (nodes: u64)
    requires
        depth_limit <= i32::MAX,
        table_true(old(tt)@, top_k, exhaustive_depth),
    ensures
        table_true(final(tt)@, top_k, exhaustive_depth),
        deepened(old(tt)@, final(tt)@),
        nodes >= to_search(frontier@, frontier@.len() as int, depth_limit),
        ({
            let run = frontier_run(
                frontier@,
                frontier@.len() as int,
                depth_limit,
                old(tt)@,
                top_k,
                exhaustive_depth,
            );
            final(tt)@ == run.0 && nodes == stepped_by(0, run.1)
        }),
        forall|i: int|
            0 <= i < frontier@.len() && (#[trigger] frontier@[i]).1 < depth_limit ==> listed(
                final(tt)@,
                frontier@[i].0@,
                depth_limit - frontier@[i].1,
            ),
{
    let mut nodes: u64 = 0;
    let mut i: usize = 0;
    proof {
        lemma_deepened_same(tt@);
    }
    while i < frontier.len()
        invariant
            i <= frontier@.len(),
            depth_limit <= i32::MAX,
            table_true(tt@, top_k, exhaustive_depth),
            deepened(old(tt)@, tt@),
            to_search(frontier@, i as int, depth_limit) <= i,
            nodes >= to_search(frontier@, i as int, depth_limit),
            ({
                let run = frontier_run(
                    frontier@,
                    i as int,
                    depth_limit,
                    old(tt)@,
                    top_k,
                    exhaustive_depth,
                );
                tt@ == run.0 && run.1 >= 0 && nodes == stepped_by(0, run.1)
            }),
            forall|k: int|
                0 <= k < i && (#[trigger] frontier@[k]).1 < depth_limit ==> listed(
                    tt@,
                    frontier@[k].0@,
                    depth_limit - frontier@[k].1,
                ),
        decreases frontier@.len() - i,
    {
        if frontier[i].1 < depth_limit {
            let remaining: i32 = (depth_limit - frontier[i].1) as i32;
            let ghost before = tt@;
            negamax_dfs(&frontier[i].0, remaining, tt, &mut nodes, top_k, exhaustive_depth);
            proof {
                lemma_deepened_twice(old(tt)@, before, tt@);
            }
        }
        i = i + 1;
    }
    nodes
}

/// The table after the searches with the limits up to `depth_limit`, which follow that at
/// `exhaustive_depth`, and the boards that each of them visited.
pub open spec fn limits_run(
    frontier: Seq<(Bitboard, usize)>,
    exhaustive_depth: usize,
    depth_limit: int,
    tt: vstd::map::Map<u128, TTEntry>,
    top_k: usize,
) -> (vstd::map::Map<u128, TTEntry>, Seq<u64>)
    decreases depth_limit - exhaustive_depth,
{
    if depth_limit <= exhaustive_depth {
        (tt, Seq::empty())
    } else {
        let before = limits_run(frontier, exhaustive_depth, depth_limit - 1, tt, top_k);
        let run = frontier_run(
            frontier,
            frontier.len() as int,
            depth_limit as usize,
            before.0,
            top_k,
            exhaustive_depth,
        );
        (run.0, before.1.push(stepped_by(0, run.1)))
    }
}

/// Search all positions of a frontier with one limit after the other, from one ply below the
/// exhaustive part of the book down to `selective_depth`. Returns the number of nodes for each
/// limit.
pub fn run_selective_ids(
    frontier: &Vec<(Bitboard, usize)>,
    exhaustive_depth: usize,
    selective_depth: usize,
    tt: &mut HashMap<u128, TTEntry>,
    top_k: usize,
) -> (nodes: Vec<u64>)
    requires
        selective_depth <= i32::MAX,
        table_true(old(tt)@, top_k, exhaustive_depth),
    ensures
        (final(tt)@, nodes@) == limits_run(
            frontier@,
            exhaustive_depth,
            selective_depth as int,
            old(tt)@,
            top_k,
        ),
        table_true(final(tt)@, top_k, exhaustive_depth),
        deepened(old(tt)@, final(tt)@),
        selective_depth > exhaustive_depth ==> forall|i: int|
            0 <= i < frontier@.len() && (#[trigger] frontier@[i]).1 < selective_depth ==> listed(
                final(tt)@,
                frontier@[i].0@,
                selective_depth - frontier@[i].1,
            ),
{
    let mut nodes: Vec<u64> = Vec::new();
    proof {
        lemma_deepened_same(tt@);
    }
    if selective_depth <= exhaustive_depth {
        assert(nodes@ =~= Seq::empty());
        return nodes;
    }
    let mut limit: usize = exhaustive_depth;
    assert(nodes@ =~= Seq::empty());
    while limit < selective_depth
        invariant
            exhaustive_depth <= limit <= selective_depth <= i32::MAX,
            (tt@, nodes@) == limits_run(
                frontier@,
                exhaustive_depth,
                limit as int,
                old(tt)@,
                top_k,
            ),
            table_true(tt@, top_k, exhaustive_depth),
            deepened(old(tt)@, tt@),
            limit > exhaustive_depth ==> forall|i: int|
                0 <= i < frontier@.len() && (#[trigger] frontier@[i]).1 < limit ==> listed(
                    tt@,
                    frontier@[i].0@,
                    limit - frontier@[i].1,
                ),
        decreases selective_depth - limit,
    {
        limit = limit + 1;
        let ghost before = tt@;
        let n: u64 = deepen_frontier(frontier, limit, tt, top_k, exhaustive_depth);
        nodes.push(n);
        proof {
            lemma_deepened_twice(old(tt)@, before, tt@);
        }
    }
    nodes
}

/// A table that says nothing.
pub fn empty_table(top_k: usize, exhaustive_depth: usize) -> (tt: HashMap<u128, TTEntry>)
    ensures
        tt@ == vstd::map::Map::<u128, TTEntry>::empty(),
        table_true(tt@, top_k, exhaustive_depth),
{
    broadcast use vstd::std_specs::hash::group_hash_axioms;

    let tt: HashMap<u128, TTEntry> = HashMap::new();
    proof {
        assert(tt@ =~= vstd::map::Map::<u128, TTEntry>::empty());
        reveal(table_true);
    }
    tt
}

/// The score of a position after its simulations: the win rate brought to the range
/// from minus one to one.
pub fn simulated_score(win_rate: Ratio) -> (q: Ratio)
    requires
        0 <= win_rate.num <= win_rate.den,
        0 < win_rate.den <= u32::MAX,
    ensures
        q.num == 2 * win_rate.num - win_rate.den,
        q.den == win_rate.den,
        q.in_unit_range(),
{
    Ratio { num: 2 * win_rate.num - win_rate.den as i64, den: win_rate.den }
}

} // verus!
