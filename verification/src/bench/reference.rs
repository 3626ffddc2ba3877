//! Exact game-theoretic references for benchmark positions.
//!
//! The reference of a position is the game value for the side to move together
//! with all the optimal moves. It exists only where every move was searched to
//! the end of the game.
use crate::bench::canonical::{
    float_text, python_float_repr, scientific_of, scientific_text, text_at_most, text_le,
};
use crate::bench::fields::{at, concat, concat4, text_in, text_in_or, text_or, texts};
use crate::bench::json::{
    field, items_view, members_of, members_view, set_member, with_member, Json, JsonView,
};
use crate::bitboard::{bit, lemma_popcount, pieces, popcount, taken, Bitboard};
use crate::clock::{began, clock_says, left_of, spent_since, start_clock};
use crate::constants::PACKAGE_VERSION;
use crate::game::{has_winning_line, total_pieces};
use crate::game_value::{
    exact_best, finished, legal_line, lemma_exact_best, lemma_exact_best_sign, lemma_line_prepend,
    lemma_move_fills_cell, lemma_move_keeps_disjoint, lemma_pieces_fill_cells, lemma_value_bounds,
    wins, VALUE_BOUND,
};
use crate::minimax::{
    deterministic_best, lemma_no_duplicates, result_ok, MinimaxConfig, MinimaxEngine, MinimaxResult,
};
use crate::minimax_trace::{ran_in_time, ran_to};
use crate::moves::{
    applied, apply_move, generate_legal_moves, legal_move, legal_moves, lemma_legal_move_step,
    lemma_legal_moves, Move,
};
use crate::qfen::{disjoint_planes, is_qfen, lemma_qfen_shows_board, qfen_board};
use crate::state::State;
use crate::text::{
    debug_form, debug_text, decimal, is_digit, lemma_decimal_number, lemma_split_push,
    lemma_split_single, number_of, parse_number, push_decimal, same_text, split, split_text,
};
use std::time::Instant;
use vstd::prelude::*;
use vstd::string::*;

verus! {

/// The key of a move: `player:shape:position`.
pub open spec fn key_of(m: Move) -> Seq<char> {
    decimal(m.player as nat) + seq![':'] + decimal(m.shape as nat) + seq![':'] + decimal(
        m.position as nat,
    )
}

/// Stable text identifier for a move: `player:shape:position`.
pub fn move_key(mv: &Move) -> (key: String)
    ensures
        key@ == key_of(*mv),
{
    let mut key = String::new();
    push_decimal(&mut key, mv.player as u64);
    key.push(':');
    push_decimal(&mut key, mv.shape as u64);
    key.push(':');
    push_decimal(&mut key, mv.position as u64);
    assert(key@ =~= key_of(*mv));
    key
}

/// What a move key says: its player, shape and position, or why it says nothing.
pub open spec fn parsed_key(key: Seq<char>) -> Result<(int, int, int), Seq<char>> {
    let parts = split_text(key, ':');
    if parts.len() != 3 {
        Err("invalid move key "@ + debug_form(key))
    } else {
        match (number_of(parts[0], 255), number_of(parts[1], 255), number_of(parts[2], 255)) {
            (Ok(a), Ok(b), Ok(c)) => Ok((a, b, c)),
            (Err(e), _, _) => Err("move key "@ + debug_form(key) + ": "@ + e),
            (_, Err(e), _) => Err("move key "@ + debug_form(key) + ": "@ + e),
            (_, _, Err(e)) => Err("move key "@ + debug_form(key) + ": "@ + e),
        }
    }
}

fn key_part(key: &str, part: &str) -> (r: Result<u8, String>)
    ensures
        match (r, number_of(part@, 255)) {
            (Ok(n), Ok(v)) => n == v,
            (Err(m), Err(e)) => m@ == "move key "@ + debug_form(key@) + ": "@ + e,
            _ => false,
        },
{
    match parse_number(part, 255) {
        Ok(n) => {
            proof {
                lemma_number_bound(part@, 255);
            }
            Ok(n as u8)
        },
        Err(e) => {
            let shown = debug_text(key);
            Err(concat4("move key ", shown.as_str(), ": ", e.as_str()))
        },
    }
}

proof fn lemma_number_bound(s: Seq<char>, max: int)
    requires
        max >= 0,
    ensures
        number_of(s, max) matches Ok(n) ==> 0 <= n <= max,
{
    lemma_prefix_bound(s, s.len() as int, max);
    lemma_prefix_bound(s.skip(1), s.len() - 1, max);
}

proof fn lemma_prefix_bound(s: Seq<char>, n: int, max: int)
    requires
        max >= 0,
    ensures
        crate::text::prefix_number(s, n, max) matches Ok(v) ==> 0 <= v <= max,
    decreases n,
{
    if n > 0 {
        lemma_prefix_bound(s, n - 1, max);
    }
}

/// Parse a move key into `(player, shape, position)`.
pub fn parse_move_key(key: &str) -> (r: Result<(u8, u8, u8), String>)
    ensures
        match (r, parsed_key(key@)) {
            (Ok(t), Ok(p)) => t.0 == p.0 && t.1 == p.1 && t.2 == p.2,
            (Err(m), Err(e)) => m@ == e,
            _ => false,
        },
{
    let parts = split(key, ':');
    let ghost listed = parts@.map_values(|p: String| p@);
    assert(listed.len() == parts@.len());
    if parts.len() != 3 {
        let shown = debug_text(key);
        return Err(concat("invalid move key ", shown.as_str()));
    }
    assert(listed[0] == parts@[0]@ && listed[1] == parts@[1]@ && listed[2] == parts@[2]@);
    let player: u8 = key_part(key, parts[0].as_str())?;
    let shape: u8 = key_part(key, parts[1].as_str())?;
    let position: u8 = key_part(key, parts[2].as_str())?;
    Ok((player, shape, position))
}

/// Parsing the key of a move gives back its player, shape and position.
pub proof fn law_move_key_round_trip(m: Move)
    ensures
        parsed_key(key_of(m)) == Ok::<(int, int, int), Seq<char>>(
            (m.player as int, m.shape as int, m.position as int),
        ),
{
    let a = decimal(m.player as nat);
    let b = decimal(m.shape as nat);
    let c = decimal(m.position as nat);
    lemma_decimal_number(m.player as nat, 255);
    lemma_decimal_number(m.shape as nat, 255);
    lemma_decimal_number(m.position as nat, 255);
    assert(!a.contains(':') && !b.contains(':') && !c.contains(':')) by {
        assert(!is_digit(':'));
    }
    lemma_split_single(a, ':');
    lemma_split_push(a, b, ':');
    lemma_split_push(a.push(':') + b, c, ':');
    assert(key_of(m) =~= (a.push(':') + b).push(':') + c);
    assert(split_text(key_of(m), ':') =~= seq![a, b, c]);
}

/// Two moves with the same key are the same.
pub proof fn law_move_key_injective(m: Move, n: Move)
    requires
        key_of(m) == key_of(n),
    ensures
        m == n,
{
    law_move_key_round_trip(m);
    law_move_key_round_trip(n);
}

/// The plies that are left until every cell is filled.
pub fn remaining_plies(bb: &Bitboard) -> (n: u32)
    requires
        total_pieces(bb@) <= 16,
    ensures
        n == 16 - total_pieces(bb@),
{
    proof {
        lemma_piece_counts(bb@);
    }
    16 - bb.player_piece_count(0) - bb.player_piece_count(1)
}

proof fn lemma_piece_counts(b: Seq<u16>)
    ensures
        pieces(b, 0) >= 0,
        pieces(b, 1) >= 0,
{
    assert forall|i: int| 0 <= i < 8 implies popcount(#[trigger] b[i]) >= 0 by {
        lemma_popcount(b[i], 0);
    }
    assert(popcount(b[0]) >= 0 && popcount(b[1]) >= 0 && popcount(b[2]) >= 0 && popcount(b[3])
        >= 0 && popcount(b[4]) >= 0 && popcount(b[5]) >= 0 && popcount(b[6]) >= 0 && popcount(b[7])
        >= 0);
}

/// The score of a move that ends the game: better than any other.
pub const IMMEDIATE_WIN: i64 = 0x7FFF_FFFF_FFFF_FFFF;

/// The exact score of the move `m` for its mover: moves that end the game come
/// first, the others are scored by the exact value of the position they lead to.
pub open spec fn reference_score(b: Seq<u16>, m: Move) -> int {
    let child = applied(b, m);
    if finished(child) {
        IMMEDIATE_WIN as int
    } else {
        -exact_best(child, legal_moves(child), 15, 1, 10_000, 1)
    }
}

/// Whether no legal move scores better than `m`.
pub open spec fn is_optimal(b: Seq<u16>, m: Move) -> bool {
    legal_move(b, m) && forall|n: Move|
        #[trigger] legal_move(b, n) ==> reference_score(b, n) <= reference_score(b, m)
}

/// An exact reference of a position.
#[derive(Debug)]
pub struct SolvedReference {
    /// One if the side to move can force a win, else minus one.
    pub value: i8,
    /// The keys of the optimal moves, sorted.
    pub optimal_moves: Vec<String>,
    /// The keys of a line that begins with the first optimal move.
    pub pv: Vec<String>,
    pub nodes: u64,
    pub elapsed_nanos: u64,
}

/// Whether `keys` is sorted and lists nothing twice.
pub open spec fn strictly_sorted(keys: Seq<Seq<char>>) -> bool {
    forall|i: int, j: int|
        0 <= i < j < keys.len() ==> text_le(#[trigger] keys[i], #[trigger] keys[j]) && keys[i]
            != keys[j]
}

/// Whether `r` lists legal moves of `b` in order and a line of play from `b`
/// that begins with the first of them.
pub open spec fn reference_shape(b: Seq<u16>, r: SolvedReference) -> bool {
    &&& r.optimal_moves@.len() > 0
    &&& strictly_sorted(texts(r.optimal_moves@))
    &&& forall|i: int|
        0 <= i < r.optimal_moves@.len() ==> exists|m: Move|
            legal_move(b, m) && (#[trigger] r.optimal_moves@[i])@ == #[trigger] key_of(m)
    &&& exists|line: Seq<Move>|
        #![trigger legal_line(b, line)]
        {
            &&& legal_line(b, line)
            &&& line.len() > 0
            &&& texts(r.pv@) == line.map_values(|m: Move| key_of(m))
            &&& key_of(line[0]) == r.optimal_moves@[0]@
        }
    &&& r.value == 1 || r.value == -1
}

/// Whether `r` is exact: it lists the optimal moves of `b` and no others, and its
/// value tells whether some move leads to a position that is lost for its mover.
pub open spec fn reference_exact(b: Seq<u16>, r: SolvedReference) -> bool {
    &&& forall|m: Move|
        legal_move(b, m) ==> (is_optimal(b, m) <==> texts(r.optimal_moves@).contains(
            #[trigger] key_of(m),
        ))
    &&& r.value == 1 <==> exists|m: Move|
        #[trigger] legal_move(b, m) && !wins(applied(b, m), 16)
}

/// Whether a search has seen every game to its end: it is as deep as plies are left.
pub open spec fn seen_to_the_end(b: Seq<u16>, result: MinimaxResult) -> bool {
    result.depth_reached + total_pieces(b) >= 16
}

/// What is proved of a move: its score for the player who made it, the nodes that were
/// searched after it and the line that they found.
#[derive(Debug)]
pub struct MoveOutcome {
    pub score: i64,
    pub nodes: u64,
    pub line: Vec<Move>,
}

/// Whether `r` is what a search proves of the position `b` after a move; nothing if the
/// search was cut off before it saw every game to its end.
pub open spec fn settled(b: Seq<u16>, result: MinimaxResult, r: Option<MoveOutcome>) -> bool {
    match r {
        Some(o) => seen_to_the_end(b, result) && o.score == -result.score && o.nodes == result.nodes
            && o.line@ == result.pv@,
        None => !seen_to_the_end(b, result),
    }
}

/// Whether `result` can come of a search of `b` with the default evaluation, as many plies as
/// a game can have and a limit of `limit_nanos`, cut off by time or not.
pub open spec fn searched_within(b: Seq<u16>, limit_nanos: u64, result: MinimaxResult) -> bool {
    &&& result.depth_reached <= 16
    &&& exists|c: MinimaxConfig|
        {
            &&& c.max_depth == 16
            &&& c.time_limit_nanos == Some(limit_nanos)
            &&& c.use_alpha_beta && c.use_transposition_table && c.dedup_children
            &&& c.random_seed is None
            &&& c.eval_config.weights@ == seq![100i64, -100i64, 20i64, 3i64, 2i64, 0i64]
            &&& c.eval_config.win == 10_000
            &&& c.eval_config.unit == 1
            &&& result_ok(result, b, c.eval_config)
            &&& #[trigger] ran_to(result, c, b, None)
            &&& ran_in_time(result, c)
            &&& result.best_move == deterministic_best(
                b,
                result.depth_reached as nat,
                c.eval_config,
            )
        }
}

/// What a search proves of the position after a move.
pub fn settle(child: &Bitboard, result: MinimaxResult) -> (r: Option<MoveOutcome>)
    requires
        total_pieces(child@) <= 16,
        -VALUE_BOUND <= result.score <= VALUE_BOUND,
    ensures
        settled(child@, result, r),
{
    if result.depth_reached < remaining_plies(child) {
        return None;
    }
    Some(MoveOutcome { score: -result.score, nodes: result.nodes, line: result.pv })
}

/// Solve the position after a move exactly within `limit_nanos`; nothing if the
/// search was cut off. The first ply is always searched, so that a position with one
/// empty cell is always solved.
fn score_child(child: &Bitboard, limit_nanos: u64) -> (r: Option<MoveOutcome>)
    requires
        total_pieces(child@) <= 16,
        !finished(child@),
    ensures
        exists|result: MinimaxResult| #[trigger]
            searched_within(child@, limit_nanos, result) && settled(child@, result, r),
        total_pieces(child@) >= 15 ==> r is Some,
        r matches Some(o) ==> {
            &&& -VALUE_BOUND <= o.score <= VALUE_BOUND
            &&& disjoint_planes(child@) ==> o.score == -exact_best(
                child@,
                legal_moves(child@),
                15,
                1,
                10_000,
                1,
            )
            &&& legal_line(child@, o.line@)
            &&& o.line@.len() > 0
        },
{
    let mut config = MinimaxConfig::default();
    config.max_depth = 16;
    config.time_limit_nanos = Some(limit_nanos);
    let mut engine = MinimaxEngine::new(config);
    let result = match engine.search(&State::new(*child)) {
        Ok(result) => result,
        Err(_) => return None,
    };
    proof {
        let b = child@;
        let moves = legal_moves(b);
        let d = (result.depth_reached - 1) as nat;
        let cfg = config.eval_config;
        lemma_legal_moves(b);
        lemma_value_bounds(applied(b, result.best_move), d, 1, cfg);
        if disjoint_planes(b) && seen_to_the_end(b, result) {
            lemma_pieces_fill_cells(b);
            lemma_popcount(taken(b), 0);
            lemma_exact_best(b, moves, d, 15, 1, cfg);
        }
        assert(ran_to(result, config, b, None));
        assert(searched_within(b, limit_nanos, result));
    }
    settle(child, result)
}

/// Whether the search of the position `c` after a move, in a run with a budget that began at
/// `start`, may have proved nothing: the budget was spent, or the search with what was left of
/// it was cut off.
pub open spec fn gave_up(start: Instant, c: Seq<u16>, budget_nanos: u64) -> bool {
    exists|spent: u64| #[trigger]
        clock_says(start, spent) && (spent >= budget_nanos || exists|result: MinimaxResult|
            #[trigger] searched_within(c, (budget_nanos - spent) as u64, result)
                && !seen_to_the_end(c, result))
}

/// Whether `o` may be what a run with a budget that began at `start` proved of the move `m` on
/// the board `b`: that it ends the game, or what a search with what was left of the budget
/// showed.
pub open spec fn move_settled(
    start: Instant,
    b: Seq<u16>,
    m: Move,
    budget_nanos: u64,
    o: MoveOutcome,
) -> bool {
    let c = applied(b, m);
    if finished(c) {
        o.score == IMMEDIATE_WIN && o.nodes == 0 && o.line@.len() == 0
    } else {
        exists|spent: u64, result: MinimaxResult|
            {
                &&& #[trigger] clock_says(start, spent)
                &&& spent < budget_nanos
                &&& #[trigger] searched_within(c, (budget_nanos - spent) as u64, result)
                &&& settled(c, result, Some(o))
            }
    }
}

/// Whether `outcomes` may be what such a run proved of the legal moves of `b`, in their order.
pub open spec fn moves_settled(
    start: Instant,
    b: Seq<u16>,
    budget_nanos: u64,
    outcomes: Seq<MoveOutcome>,
) -> bool {
    &&& outcomes.len() == legal_moves(b).len()
    &&& forall|i: int|
        0 <= i < outcomes.len() ==> move_settled(
            start,
            b,
            legal_moves(b)[i],
            budget_nanos,
            #[trigger] outcomes[i],
        )
}

/// The nodes of the first `n` outcomes, up to the largest number that fits.
pub open spec fn total_nodes(outcomes: Seq<MoveOutcome>, n: int) -> int
    decreases n,
{
    if n <= 0 {
        0
    } else {
        let sum = total_nodes(outcomes, n - 1) + outcomes[n - 1].nodes;
        if sum <= u64::MAX {
            sum
        } else {
            u64::MAX as int
        }
    }
}

/// Whether `best` is the largest score of the outcomes.
pub open spec fn best_score(outcomes: Seq<MoveOutcome>, best: int) -> bool {
    &&& forall|i: int| 0 <= i < outcomes.len() ==> (#[trigger] outcomes[i]).score <= best
    &&& exists|i: int| 0 <= i < outcomes.len() && (#[trigger] outcomes[i]).score == best
}

/// The keys of a line of moves.
pub open spec fn keys_of(line: Seq<Move>) -> Seq<Seq<char>> {
    line.map_values(|m: Move| key_of(m))
}

/// Whether `r` sums up the outcomes of `moves`: it lists the moves with the best score, the
/// line of the first of them in the list, and whether the score is a win.
pub open spec fn summed_up(
    moves: Seq<Move>,
    outcomes: Seq<MoveOutcome>,
    r: SolvedReference,
) -> bool {
    &&& r.nodes == total_nodes(outcomes, outcomes.len() as int)
    &&& strictly_sorted(texts(r.optimal_moves@))
    &&& exists|best: int| #[trigger]
        best_score(outcomes, best) && {
            &&& r.value == if best > 0 {
                1int
            } else {
                -1int
            }
            &&& forall|t: Seq<char>| #[trigger]
                texts(r.optimal_moves@).contains(t) <==> exists|x: int|
                    0 <= x < moves.len() && outcomes[x].score == best && t == key_of(
                        #[trigger] moves[x],
                    )
            &&& exists|x: int|
                {
                    &&& 0 <= x < moves.len()
                    &&& outcomes[x].score == best
                    &&& texts(r.optimal_moves@).len() > 0
                    &&& texts(r.optimal_moves@)[0] == key_of(#[trigger] moves[x])
                    &&& texts(r.pv@) == keys_of(seq![moves[x]] + outcomes[x].line@)
                }
        }
}

/// Whether `r` may be what a run with a budget makes of the board `b`: nothing if there is no
/// legal move, or if one that does not end the game was given up; else the sum of what was
/// proved of the moves.
pub open spec fn solved_within(
    b: Seq<u16>,
    budget_nanos: u64,
    r: Option<SolvedReference>,
) -> bool {
    exists|start: Instant| #[trigger]
        began(start) && match r {
            None => legal_moves(b).len() == 0 || exists|m: Move| #[trigger]
                legal_move(b, m) && !finished(applied(b, m)) && gave_up(
                    start,
                    applied(b, m),
                    budget_nanos,
                ),
            Some(s) => legal_moves(b).len() > 0 && clock_says(start, s.elapsed_nanos) && exists|
                outcomes: Seq<MoveOutcome>,
            | #[trigger]
                moves_settled(start, b, budget_nanos, outcomes) && summed_up(
                    legal_moves(b),
                    outcomes,
                    s,
                ),
        }
}

/// Put `key` in its place in the sorted `list`.
pub(crate) fn insert_sorted(list: &mut Vec<String>, key: String)
    requires
        strictly_sorted(texts(old(list)@)),
        !texts(old(list)@).contains(key@),
    ensures
        strictly_sorted(texts(final(list)@)),
        exists|k: int|
            0 <= k <= old(list)@.len() && #[trigger] texts(old(list)@).insert(k, key@) == texts(
                final(list)@,
            ),
        final(list)@.len() == old(list)@.len() + 1,
{
    let ghost before = texts(list@);
    let ghost name = key@;
    let mut k: usize = 0;
    while k < list.len() && text_at_most(list[k].as_str(), key.as_str())
        invariant
            k <= list@.len(),
            before == texts(list@),
            name == key@,
            forall|i: int| 0 <= i < k ==> text_le(#[trigger] before[i], name),
        decreases list@.len() - k,
    {
        k = k + 1;
    }
    let ghost kept = list@;
    proof {
        if k < kept.len() {
            assert(before[k as int] == kept[k as int]@);
        }
    }
    list.insert(k, key);
    proof {
        let after = texts(list@);
        assert(after =~= before.insert(k as int, name));
        assert forall|i: int, j: int| 0 <= i < j < after.len() implies text_le(
            #[trigger] after[i],
            #[trigger] after[j],
        ) && after[i] != after[j] by {
            let x = if i < k {
                i
            } else {
                i - 1
            };
            let y = if j < k {
                j
            } else {
                j - 1
            };
            if i != k {
                assert(after[i] == before[x]);
                assert(before.contains(before[x]));
            }
            if j != k {
                assert(after[j] == before[y]);
                assert(before.contains(before[y]));
            }
            if i == k {
                crate::bench::canonical::lemma_text_le_total(name, before[k as int]);
                if y > k {
                    crate::bench::canonical::lemma_text_le_transitive(
                        name,
                        before[k as int],
                        before[y],
                    );
                }
            }
        }
    }
}

/// The keys of a line that begins with `mv`.
fn line_keys(mv: &Move, rest: &Vec<Move>) -> (pv: Vec<String>)
    ensures
        texts(pv@) == keys_of(seq![*mv] + rest@),
{
    let ghost line = seq![*mv] + rest@;
    let mut pv: Vec<String> = Vec::new();
    pv.push(move_key(mv));
    let mut n: usize = 0;
    assert(texts(pv@) =~= keys_of(line.take(1)));
    while n < rest.len()
        invariant
            n <= rest@.len(),
            line == seq![*mv] + rest@,
            texts(pv@) == keys_of(line.take(n + 1)),
        decreases rest@.len() - n,
    {
        let ghost before = texts(pv@);
        let key = move_key(&rest[n]);
        let ghost name = key@;
        pv.push(key);
        assert(texts(pv@) =~= before.push(name));
        assert(keys_of(line.take(n + 2)) =~= keys_of(line.take(n + 1)).push(name));
        n = n + 1;
    }
    assert(line.take(n + 1) =~= line);
    pv
}

/// Sum up what was proved of all the moves of a position.
pub fn sum_up(moves: &Vec<Move>, outcomes: &Vec<MoveOutcome>, elapsed_nanos: u64) -> (r:
    SolvedReference)
    requires
        moves@.len() > 0,
        outcomes@.len() == moves@.len(),
        moves@.no_duplicates(),
    ensures
        summed_up(moves@, outcomes@, r),
        r.elapsed_nanos == elapsed_nanos,
{
    let best: i64 = largest(outcomes);
    let mut optimal: Vec<String> = Vec::new();
    let mut nodes: u64 = 0;
    let mut first: usize = 0;
    let mut k: usize = 0;
    assert(texts(optimal@) =~= Seq::empty());
    while k < moves.len()
        invariant
            k <= moves@.len(),
            outcomes@.len() == moves@.len(),
            moves@.no_duplicates(),
            nodes == total_nodes(outcomes@, k as int),
            strictly_sorted(texts(optimal@)),
            optimal@.len() > 0 <==> exists|x: int|
                0 <= x < k && (#[trigger] outcomes@[x]).score == best,
            forall|t: Seq<char>| #[trigger]
                texts(optimal@).contains(t) <==> exists|x: int|
                    0 <= x < k && outcomes@[x].score == best && t == key_of(#[trigger] moves@[x]),
            optimal@.len() > 0 ==> first < k && outcomes@[first as int].score == best && key_of(
                moves@[first as int],
            ) == texts(optimal@)[0],
        decreases moves@.len() - k,
    {
        nodes = nodes.saturating_add(outcomes[k].nodes);
        if outcomes[k].score == best {
            let key = move_key(&moves[k]);
            let ghost before = texts(optimal@);
            proof {
                if before.contains(key@) {
                    let x = choose|x: int|
                        0 <= x < k && outcomes@[x].score == best && key@ == key_of(
                            #[trigger] moves@[x],
                        );
                    law_move_key_injective(moves@[x], moves@[k as int]);
                }
            }
            let ghost name = key@;
            insert_sorted(&mut optimal, key);
            let ghost after = texts(optimal@);
            proof {
                let p = choose|p: int|
                    0 <= p <= before.len() && #[trigger] before.insert(p, name) == after;
                assert forall|t: Seq<char>| #[trigger] after.contains(t) <==> exists|x: int|
                    0 <= x < k + 1 && outcomes@[x].score == best && t == key_of(
                        #[trigger] moves@[x],
                    ) by {
                    if after.contains(t) {
                        let q = choose|q: int| 0 <= q < after.len() && after[q] == t;
                        if q == p {
                            assert(t == key_of(moves@[k as int]));
                        } else {
                            if q < p {
                                assert(before[q] == t);
                            } else {
                                assert(before[q - 1] == t);
                            }
                            assert(before.contains(t));
                        }
                    }
                    if exists|x: int|
                        0 <= x < k + 1 && outcomes@[x].score == best && t == key_of(
                            #[trigger] moves@[x],
                        ) {
                        let x = choose|x: int|
                            0 <= x < k + 1 && outcomes@[x].score == best && t == key_of(
                                #[trigger] moves@[x],
                            );
                        if x == k {
                            assert(after[p] == t);
                        } else {
                            assert(before.contains(t));
                            let q = choose|q: int| 0 <= q < before.len() && before[q] == t;
                            if q < p {
                                assert(after[q] == t);
                            } else {
                                assert(after[q + 1] == t);
                            }
                        }
                    }
                }
                assert(after[0] == name || after[0] == before[0]);
                assert(outcomes@[k as int].score == best);
            }
            if same_text(optimal[0].as_str(), move_key(&moves[k]).as_str()) {
                first = k;
            }
        }
        k = k + 1;
    }
    let value: i8 = if best > 0 {
        1
    } else {
        -1
    };
    let pv = line_keys(&moves[first], &outcomes[first].line);
    let solved = SolvedReference { value, optimal_moves: optimal, pv, nodes, elapsed_nanos };
    proof {
        let x = choose|x: int| 0 <= x < outcomes@.len() && (#[trigger] outcomes@[x]).score == best;
        assert(outcomes@[x].score == best);
        assert(best_score(outcomes@, best as int));
        assert(texts(solved.optimal_moves@)[0] == key_of(moves@[first as int]));
    }
    solved
}

/// Return an exact reference for `bb`, or nothing if the budget ran out.
///
/// The reference is exact because no game exceeds sixteen plies: a completed
/// depth of at least the plies that are left proves that a move was searched to
/// the end of every game.
pub fn solve_position(bb: &Bitboard, budget_nanos: u64) -> (r: Option<SolvedReference>)
    requires
        legal_moves(bb@).len() > 0 ==> total_pieces(bb@) < 16,
    ensures
        solved_within(bb@, budget_nanos, r),
        legal_moves(bb@).len() == 0 ==> r is None,
        legal_moves(bb@).len() > 0 && (forall|m: Move|
            #[trigger] legal_move(bb@, m) ==> finished(applied(bb@, m))) ==> r is Some,
        r matches Some(s) ==> reference_shape(bb@, s) && (disjoint_planes(bb@) ==> reference_exact(
            bb@,
            s,
        )),
{
    let started = start_clock();
    let moves = generate_legal_moves(bb);
    if moves.len() == 0 {
        return None;
    }
    let ghost b = bb@;
    proof {
        lemma_legal_moves(b);
    }
    let mut outcomes: Vec<MoveOutcome> = Vec::new();
    let mut i: usize = 0;
    while i < moves.len()
        invariant
            i <= moves@.len(),
            began(started),
            b == bb@,
            b.len() == 8,
            moves@ == legal_moves(b),
            moves@.len() > 0,
            total_pieces(b) < 16,
            forall|k: int| 0 <= k < moves@.len() ==> legal_move(b, #[trigger] moves@[k]),
            outcomes@.len() == i,
            forall|k: int|
                0 <= k < i ==> {
                    &&& move_settled(started, b, moves@[k], budget_nanos, #[trigger] outcomes@[k])
                    &&& disjoint_planes(b) ==> outcomes@[k].score == reference_score(b, moves@[k])
                    &&& legal_line(b, seq![moves@[k]] + outcomes@[k].line@)
                },
        decreases moves@.len() - i,
    {
        let mv = moves[i];
        let child = apply_move(bb, &mv);
        proof {
            assert(legal_move(b, moves@[i as int]));
            lemma_legal_move_step(b, mv);
            if disjoint_planes(b) {
                lemma_move_keeps_disjoint(b, mv);
            }
        }
        if has_winning_line(&child) || generate_legal_moves(&child).len() == 0 {
            let line: Vec<Move> = Vec::new();
            proof {
                lemma_line_prepend(b, mv, Seq::empty());
                assert(line@ =~= Seq::<Move>::empty());
            }
            outcomes.push(MoveOutcome { score: IMMEDIATE_WIN, nodes: 0, line });
        } else {
            assert(!finished(applied(b, mv)));
            assert(legal_move(b, mv));
            let spent: u64 = spent_since(&started);
            let left: u64 = match left_of(budget_nanos, spent) {
                Some(left) => left,
                None => {
                    assert(gave_up(started, child@, budget_nanos));
                    return None;
                },
            };
            let outcome = match score_child(&child, left) {
                Some(outcome) => outcome,
                None => {
                    assert(gave_up(started, child@, budget_nanos));
                    return None;
                },
            };
            proof {
                lemma_line_prepend(b, mv, outcome.line@);
                assert(move_settled(started, b, mv, budget_nanos, outcome));
            }
            outcomes.push(outcome);
        }
        i = i + 1;
    }
    proof {
        lemma_no_duplicates(b);
    }
    let solved = sum_up(&moves, &outcomes, spent_since(&started));
    proof {
        assert(moves_settled(started, b, budget_nanos, outcomes@));
        lemma_summed_up(b, outcomes@, solved);
    }
    Some(solved)
}

/// The sum of what is proved of the moves of a board is a reference of it.
proof fn lemma_summed_up(b: Seq<u16>, outcomes: Seq<MoveOutcome>, r: SolvedReference)
    requires
        b.len() == 8,
        legal_moves(b).len() > 0,
        outcomes.len() == legal_moves(b).len(),
        forall|k: int|
            0 <= k < outcomes.len() ==> {
                &&& disjoint_planes(b) ==> (#[trigger] outcomes[k]).score == reference_score(
                    b,
                    legal_moves(b)[k],
                )
                &&& legal_line(b, seq![legal_moves(b)[k]] + outcomes[k].line@)
            },
        summed_up(legal_moves(b), outcomes, r),
    ensures
        reference_shape(b, r),
        disjoint_planes(b) ==> reference_exact(b, r),
{
    let moves = legal_moves(b);
    lemma_legal_moves(b);
    let best = choose|best: int| #[trigger]
        best_score(outcomes, best) && {
            &&& r.value == if best > 0 {
                1int
            } else {
                -1int
            }
            &&& forall|t: Seq<char>| #[trigger]
                texts(r.optimal_moves@).contains(t) <==> exists|x: int|
                    0 <= x < moves.len() && outcomes[x].score == best && t == key_of(
                        #[trigger] moves[x],
                    )
            &&& exists|x: int|
                {
                    &&& 0 <= x < moves.len()
                    &&& outcomes[x].score == best
                    &&& texts(r.optimal_moves@).len() > 0
                    &&& texts(r.optimal_moves@)[0] == key_of(#[trigger] moves[x])
                    &&& texts(r.pv@) == keys_of(seq![moves[x]] + outcomes[x].line@)
                }
        };
    let first = choose|x: int|
        {
            &&& 0 <= x < moves.len()
            &&& outcomes[x].score == best
            &&& texts(r.optimal_moves@).len() > 0
            &&& texts(r.optimal_moves@)[0] == key_of(#[trigger] moves[x])
            &&& texts(r.pv@) == keys_of(seq![moves[x]] + outcomes[x].line@)
        };
    assert forall|i: int| 0 <= i < r.optimal_moves@.len() implies exists|m: Move|
        legal_move(b, m) && (#[trigger] r.optimal_moves@[i])@ == #[trigger] key_of(m) by {
        let t = texts(r.optimal_moves@)[i];
        assert(texts(r.optimal_moves@).contains(t));
        let x = choose|x: int|
            0 <= x < moves.len() && outcomes[x].score == best && t == key_of(#[trigger] moves[x]);
        assert(legal_move(b, moves[x]) && t == key_of(moves[x]));
    }
    let line = seq![moves[first]] + outcomes[first].line@;
    assert(legal_line(b, line));
    assert(line[0] == moves[first]);
    assert(texts(r.pv@) == line.map_values(|m: Move| key_of(m)));
    if disjoint_planes(b) {
        let scores = Seq::new(outcomes.len(), |i: int| outcomes[i].score);
        let top = choose|i: int| 0 <= i < outcomes.len() && (#[trigger] outcomes[i]).score == best;
        assert(scores[top] == best);
        assert forall|i: int| 0 <= i < scores.len() implies #[trigger] scores[i] <= best by {
            assert(outcomes[i].score <= best);
        }
        assert forall|i: int| 0 <= i < scores.len() implies #[trigger] scores[i]
            == reference_score(b, moves[i]) by {
            assert(outcomes[i].score == scores[i]);
        }
        assert forall|t: Seq<char>| #[trigger]
            texts(r.optimal_moves@).contains(t) <==> exists|x: int|
                0 <= x < scores.len() && scores[x] == best && t == key_of(#[trigger] moves[x]) by {
            if texts(r.optimal_moves@).contains(t) {
                let x = choose|x: int|
                    0 <= x < moves.len() && outcomes[x].score == best && t == key_of(
                        #[trigger] moves[x],
                    );
                assert(scores[x] == best);
            }
        }
        lemma_reference_exact(b, scores, best, r);
    }
}

/// The largest score of some outcomes.
fn largest(outcomes: &Vec<MoveOutcome>) -> (best: i64)
    requires
        outcomes@.len() > 0,
    ensures
        best_score(outcomes@, best as int),
{
    let mut best: i64 = outcomes[0].score;
    let mut i: usize = 1;
    assert(outcomes@[0].score == best);
    while i < outcomes.len()
        invariant
            1 <= i <= outcomes@.len(),
            forall|k: int| 0 <= k < i ==> (#[trigger] outcomes@[k]).score <= best,
            exists|k: int| 0 <= k < i && (#[trigger] outcomes@[k]).score == best,
        decreases outcomes@.len() - i,
    {
        if outcomes[i].score > best {
            best = outcomes[i].score;
            assert(outcomes@[i as int].score == best);
        }
        i = i + 1;
    }
    best
}

proof fn lemma_reference_exact(b: Seq<u16>, scores: Seq<i64>, best: int, r: SolvedReference)
    requires
        b.len() == 8,
        disjoint_planes(b),
        legal_moves(b).len() > 0,
        scores.len() == legal_moves(b).len(),
        forall|i: int|
            0 <= i < scores.len() ==> #[trigger] scores[i] == reference_score(
                b,
                legal_moves(b)[i],
            ),
        forall|i: int| 0 <= i < scores.len() ==> #[trigger] scores[i] <= best,
        exists|i: int| 0 <= i < scores.len() && #[trigger] scores[i] == best,
        r.value == if best > 0 {
            1int
        } else {
            -1int
        },
        forall|t: Seq<char>| #[trigger]
            texts(r.optimal_moves@).contains(t) <==> exists|x: int|
                0 <= x < scores.len() && scores[x] == best && t == key_of(
                    #[trigger] legal_moves(b)[x],
                ),
    ensures
        reference_exact(b, r),
{
    let moves = legal_moves(b);
    lemma_legal_moves(b);
    let top = choose|i: int| 0 <= i < scores.len() && #[trigger] scores[i] == best;
    assert forall|m: Move| #[trigger] legal_move(b, m) implies reference_score(b, m) <= best && (
    reference_score(b, m) > 0 <==> !wins(applied(b, m), 16)) by {
        assert(moves.contains(m));
        let x = choose|x: int| 0 <= x < moves.len() && moves[x] == m;
        assert(scores[x] <= best);
        lemma_score_sign(b, m);
    }
    assert forall|m: Move| legal_move(b, m) implies (is_optimal(b, m) <==> texts(
        r.optimal_moves@,
    ).contains(#[trigger] key_of(m))) by {
        assert(moves.contains(m));
        let x = choose|x: int| 0 <= x < moves.len() && moves[x] == m;
        assert(legal_move(b, moves[top]));
        if is_optimal(b, m) {
            assert(reference_score(b, moves[top]) <= reference_score(b, m));
            assert(scores[x] == best);
        }
        if texts(r.optimal_moves@).contains(key_of(m)) {
            let y = choose|y: int|
                0 <= y < scores.len() && scores[y] == best && key_of(m) == key_of(
                    #[trigger] moves[y],
                );
            law_move_key_injective(m, moves[y]);
        }
    }
    assert(legal_move(b, moves[top]));
    if best > 0 {
        assert(!wins(applied(b, moves[top]), 16));
    }
}

/// A move scores above zero exactly if the opponent cannot force a win after it.
pub(crate) proof fn lemma_score_sign(b: Seq<u16>, m: Move)
    requires
        b.len() == 8,
        legal_move(b, m),
    ensures
        reference_score(b, m) > 0 <==> !wins(applied(b, m), 16),
{
    let c = applied(b, m);
    lemma_move_fills_cell(b, m);
    lemma_popcount(taken(c), 0);
    lemma_popcount(taken(b), 0);
    lemma_legal_moves(c);
    if !finished(c) {
        lemma_exact_best_sign(c, legal_moves(c), 15, 1, 10_000, 1);
    }
}

/// Texts as a JSON list.
pub open spec fn texts_json(list: Seq<Seq<char>>) -> JsonView {
    JsonView::Array(list.map_values(|s: Seq<char>| JsonView::Text(s)))
}

/// Texts as a JSON list.
pub(crate) fn text_list(list: &Vec<String>) -> (j: Json)
    ensures
        j.view() == texts_json(texts(list@)),
{
    let mut items: Vec<Json> = Vec::new();
    let mut i: usize = 0;
    while i < list.len()
        invariant
            i <= list@.len(),
            items@.len() == i,
            forall|k: int|
                0 <= k < i ==> (#[trigger] items@[k]).view() == JsonView::Text(list@[k]@),
        decreases list@.len() - i,
    {
        items.push(Json::Text(list[i].clone()));
        i = i + 1;
    }
    assert(items_view(items@) =~= texts(list@).map_values(|s: Seq<char>| JsonView::Text(s)));
    Json::Array(items)
}

/// The words about the solver with a budget of so many seconds.
pub open spec fn solver_words(budget: Seq<char>) -> Seq<char> {
    "MinimaxEngine(max_depth=16, budget_s="@ + float_text(budget) + ") quantik-core-rust "@
        + PACKAGE_VERSION@
}

/// A reference as JSON. The time is given in microseconds.
pub open spec fn reference_view(r: SolvedReference, budget: Seq<char>) -> JsonView {
    JsonView::Object(
        seq![
            ("no_cutoff"@, JsonView::Bool(true)),
            ("nodes"@, JsonView::Unsigned(r.nodes)),
            ("optimal_moves"@, texts_json(texts(r.optimal_moves@))),
            ("pv"@, texts_json(texts(r.pv@))),
            (
                "solve_time_s"@,
                JsonView::Float(scientific_of(((r.elapsed_nanos as int + 500) / 1000) as nat, 6)),
            ),
            ("solved"@, JsonView::Bool(true)),
            ("solver"@, JsonView::Text(solver_words(budget))),
            (
                "value"@,
                if r.value > 0 {
                    JsonView::Unsigned(1)
                } else {
                    JsonView::Negative(-1i64)
                },
            ),
        ],
    )
}

/// A reference as JSON. `budget` is the budget in seconds in scientific notation.
pub fn reference_payload(r: &SolvedReference, budget: &str) -> (j: Json)
    ensures
        j.view() == reference_view(*r, budget@),
{
    let micros: u64 = ((r.elapsed_nanos as u128 + 500) / 1000) as u64;
    let shown = python_float_repr(budget);
    let solver = concat4(
        "MinimaxEngine(max_depth=16, budget_s=",
        shown.as_str(),
        ") quantik-core-rust ",
        PACKAGE_VERSION,
    );
    let value = if r.value > 0 {
        Json::Unsigned(1)
    } else {
        Json::Negative(-1)
    };
    let members: Vec<(String, Json)> = vec![
        field("no_cutoff", Json::Bool(true)),
        field("nodes", Json::Unsigned(r.nodes)),
        field("optimal_moves", text_list(&r.optimal_moves)),
        field("pv", text_list(&r.pv)),
        field("solve_time_s", Json::Float(scientific_text(micros, 6))),
        field("solved", Json::Bool(true)),
        field("solver", Json::Text(solver)),
        field("value", value),
    ];
    assert(members_view(members@) =~= reference_view(*r, budget@)->Object_0);
    Json::Object(members)
}

/// The board of a position; the empty board if its text is none.
pub open spec fn board_or_empty(position: JsonView) -> Seq<u16> {
    let qfen = text_or(position, "qfen"@, ""@);
    if is_qfen(qfen) {
        qfen_board(qfen)
    } else {
        Seq::new(8, |i: int| 0u16)
    }
}

/// A reference as JSON, if there is one; else null.
pub open spec fn shown_reference(r: Option<SolvedReference>, budget: Seq<char>) -> JsonView {
    match r {
        Some(s) => reference_view(s, budget),
        None => JsonView::Null,
    }
}

/// A reference as JSON, if there is one; else null.
pub fn reference_json(r: &Option<SolvedReference>, budget: &str) -> (j: Json)
    ensures
        j.view() == shown_reference(*r, budget@),
        j.view() is Null <==> r is None,
{
    match r {
        Some(s) => reference_payload(s, budget),
        None => Json::Null,
    }
}

/// Whether `v` is what the reference of a position may become: nothing for an
/// opening, else what solving the position within the budget gives.
pub open spec fn reference_for(
    position: JsonView,
    budget_nanos: u64,
    budget: Seq<char>,
    v: JsonView,
) -> bool {
    let b = board_or_empty(position);
    if at(position, "phase"@) == JsonView::Text("opening"@) {
        v is Null
    } else {
        exists|r: Option<SolvedReference>|
            {
                &&& #[trigger] solved_within(b, budget_nanos, r)
                &&& v == shown_reference(r, budget)
                &&& r matches Some(s) ==> reference_shape(b, s) && reference_exact(b, s)
            }
    }
}

/// The reference of a position that is no opening is null only if its board has no legal move
/// or a search of a move that does not end the game was given up for want of time.
pub proof fn law_null_needs_a_reason(
    position: JsonView,
    budget_nanos: u64,
    budget: Seq<char>,
    v: JsonView,
)
    requires
        reference_for(position, budget_nanos, budget, v),
        at(position, "phase"@) != JsonView::Text("opening"@),
    ensures
        v is Null ==> legal_moves(board_or_empty(position)).len() == 0 || exists|
            start: Instant,
            m: Move,
        |
            {
                &&& began(start)
                &&& legal_move(board_or_empty(position), m)
                &&& !finished(applied(board_or_empty(position), m))
                &&& #[trigger] gave_up(start, applied(board_or_empty(position), m), budget_nanos)
            },
        v is Null ==> !(legal_moves(board_or_empty(position)).len() > 0 && forall|m: Move|
            #[trigger] legal_move(board_or_empty(position), m) ==> finished(
                applied(board_or_empty(position), m),
            )),
{
    let b = board_or_empty(position);
    let r = choose|r: Option<SolvedReference>|
        {
            &&& #[trigger] solved_within(b, budget_nanos, r)
            &&& v == shown_reference(r, budget)
            &&& r matches Some(s) ==> reference_shape(b, s) && reference_exact(b, s)
        };
    assert(solved_within(b, budget_nanos, r));
    if v is Null && legal_moves(b).len() > 0 {
        assert(r is None);
        let start = choose|start: Instant| #[trigger]
            began(start) && exists|m: Move| #[trigger]
                legal_move(b, m) && !finished(applied(b, m)) && gave_up(
                    start,
                    applied(b, m),
                    budget_nanos,
                );
        let m = choose|m: Move| #[trigger]
            legal_move(b, m) && !finished(applied(b, m)) && gave_up(
                start,
                applied(b, m),
                budget_nanos,
            );
        assert(gave_up(start, applied(b, m), budget_nanos));
    }
}

/// Whether `after` is the position `before` with its reference filled in.
pub open spec fn position_augmented(
    before: JsonView,
    after: JsonView,
    budget_nanos: u64,
    budget: Seq<char>,
) -> bool {
    exists|v: JsonView| #[trigger]
        reference_for(before, budget_nanos, budget, v) && after == JsonView::Object(
            with_member(members_of(before), "reference"@, v),
        )
}

/// No two pieces stand on one cell of the empty board or of one that a text shows.
proof fn lemma_board_disjoint(position: JsonView)
    ensures
        board_or_empty(position).len() == 8,
        disjoint_planes(board_or_empty(position)),
        legal_moves(board_or_empty(position)).len() > 0 ==> total_pieces(board_or_empty(position))
            < 16,
{
    let qfen = text_or(position, "qfen"@, ""@);
    let b = board_or_empty(position);
    if is_qfen(qfen) {
        lemma_qfen_shows_board(qfen);
        assert forall|i: int, j: int, p: int|
            0 <= i < 8 && 0 <= j < 8 && 0 <= p < 16 && #[trigger] bit(b[i], p) && #[trigger] bit(
                b[j],
                p,
            ) implies i == j by {
        }
    } else {
        assert forall|i: int, j: int, p: int|
            0 <= i < 8 && 0 <= j < 8 && 0 <= p < 16 && #[trigger] bit(b[i], p) && #[trigger] bit(
                b[j],
                p,
            ) implies i == j by {
            lemma_popcount(0, p);
        }
    }
    if legal_moves(b).len() > 0 {
        lemma_legal_moves(b);
        assert(legal_move(b, legal_moves(b)[0]));
        lemma_move_fills_cell(b, legal_moves(b)[0]);
        lemma_pieces_fill_cells(b);
    }
}

fn board_in(position: &Json) -> (bb: Bitboard)
    ensures
        bb@ == board_or_empty(position.view()),
{
    match State::from_qfen(text_in_or(position, "qfen", "")) {
        Ok(state) => state.bb,
        Err(_) => {
            let bb = Bitboard::empty();
            assert(bb@ =~= Seq::new(8, |i: int| 0u16));
            bb
        },
    }
}

fn augment_position(position: &Json, budget_nanos: u64, budget: &str) -> (after: Json)
    ensures
        position_augmented(position.view(), after.view(), budget_nanos, budget@),
{
    let opening: bool = match text_in(position, "phase") {
        Some(s) => same_text(s, "opening"),
        None => false,
    };
    let reference = if opening {
        Json::Null
    } else {
        let bb = board_in(position);
        proof {
            lemma_board_disjoint(position.view());
        }
        let solved = solve_position(&bb, budget_nanos);
        assert(solved_within(bb@, budget_nanos, solved));
        reference_json(&solved, budget)
    };
    let ghost v = reference.view();
    assert(reference_for(position.view(), budget_nanos, budget@, v));
    set_member(position, "reference", reference)
}

/// The positions with their references filled in.
pub open spec fn positions_augmented(
    before: Seq<JsonView>,
    after: Seq<JsonView>,
    budget_nanos: u64,
    budget: Seq<char>,
) -> bool {
    &&& after.len() == before.len()
    &&& forall|i: int|
        0 <= i < before.len() ==> #[trigger] position_augmented(
            before[i],
            after[i],
            budget_nanos,
            budget,
        )
}

/// Whether `after` is the dataset `before` with its references filled in.
pub open spec fn dataset_augmented(
    before: JsonView,
    after: JsonView,
    budget_nanos: u64,
    budget: Seq<char>,
) -> bool {
    let positions = at(before, "positions"@);
    if positions is Array {
        exists|new: Seq<JsonView>|
            #[trigger] positions_augmented(positions->Array_0, new, budget_nanos, budget) && after
                == JsonView::Object(
                with_member(members_of(before), "positions"@, JsonView::Array(new)),
            )
    } else {
        after == before
    }
}

/// Fill in the references of a dataset. Openings are left out, since they are too
/// expensive to solve. `budget` is the budget in seconds in scientific notation.
pub fn augment_with_references(payload: &Json, budget_nanos: u64, budget: &str) -> (after: Json)
    requires
        at(payload.view(), "positions"@) matches JsonView::Array(items) ==> forall|i: int|
            0 <= i < items.len() ==> (#[trigger] items[i]) is Object || items[i] is Null,
    ensures
        dataset_augmented(payload.view(), after.view(), budget_nanos, budget@),
{
    match payload.get("positions") {
        Some(v) => match v {
            Json::Array(items) => {
                let ghost views = items_view(items@);
                let mut new: Vec<Json> = Vec::new();
                let mut i: usize = 0;
                while i < items.len()
                    invariant
                        i <= items@.len(),
                        views == items_view(items@),
                        new@.len() == i,
                        forall|k: int|
                            0 <= k < i ==> #[trigger] position_augmented(
                                views[k],
                                items_view(new@)[k],
                                budget_nanos,
                                budget@,
                            ),
                    decreases items@.len() - i,
                {
                    let ghost before = items_view(new@);
                    let next = augment_position(&items[i], budget_nanos, budget);
                    let ghost shown = next.view();
                    new.push(next);
                    assert(items_view(new@) =~= before.push(shown));
                    i = i + 1;
                }
                let ghost shown = items_view(new@);
                assert(positions_augmented(views, shown, budget_nanos, budget@));
                let list = Json::Array(new);
                assert(list.view() == JsonView::Array(shown));
                let after = set_member(payload, "positions", list);
                proof {
                    let p = at(payload.view(), "positions"@);
                    assert(p is Array);
                    assert(p->Array_0 == views);
                    assert(positions_augmented(p->Array_0, shown, budget_nanos, budget@));
                    assert(after.view() == JsonView::Object(
                        with_member(
                            members_of(payload.view()),
                            "positions"@,
                            JsonView::Array(shown),
                        ),
                    ));
                    assert(dataset_augmented(payload.view(), after.view(), budget_nanos, budget@));
                }
                return after;
            },
            _ => {},
        },
        None => {},
    }
    payload.copy()
}

} // verus!
