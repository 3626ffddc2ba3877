//! Who wins a game between engines, and what the sums over games and choices count.
use crate::bench::adapters::{choice_made, engine_says, EngineAdapter, RawMetrics};
use crate::bench::aggregate::{
    agreement_ok, cost_group_ok, game_seed, games_ok, modal_count, move_count, nodes_of, pairs_of,
    peak_of, split_keys, split_ok, stability_group_ok, tally, times_of, wins_of, AgreementGroup,
    CostGroup, GamesSummary, GroupBy, PhaseSplit, StabilityGroup, Tally,
};
use crate::bench::agreement::{
    choice_of, hit_view, is_new, law_the_choices_left_are_made, lists_text, steps_of,
    AgreementStep, Contender, RunKey,
};
use crate::bench::fields::{at, float_of, text_at, text_or, texts};
use crate::bench::head_to_head::{
    choice_in_turn, game_ends, game_made, game_played, record_view, task_made, H2hTask,
};
use crate::bench::json::{lemma_member_at, JsonView};
use crate::bench::plan::{choices, law_expected_rows, rows_per_position, seeded_ones};
use crate::game::to_move;
use crate::game_value::{after_line, finished, legal_line, lemma_line_prepend};
use crate::moves::{applied, legal_move, lemma_legal_move_step, Move};
use vstd::prelude::*;
use vstd::string::*;

verus! {

/// One for true, zero for false.
pub open spec fn one_if(c: bool) -> int {
    if c {
        1
    } else {
        0
    }
}

/// What one more game adds to a sum: a win to the engine that the record names as the winner,
/// and a win as the mover only if the record names this engine as the mover too; a pair unless
/// a game of the position and the seed was there before.
pub proof fn law_one_more_game(
    s: GamesSummary,
    t: GamesSummary,
    rows: Seq<JsonView>,
    row: JsonView,
    a: Seq<char>,
    b: Seq<char>,
)
    requires
        games_ok(s, rows, a, b),
        games_ok(t, rows.push(row), a, b),
    ensures
        t.games == s.games + 1,
        t.a_wins == s.a_wins + one_if(text_at(row, "winner"@) == Some(a)),
        t.b_wins == s.b_wins + one_if(text_at(row, "winner"@) == Some(b)),
        t.a_wins_as_mover == s.a_wins_as_mover + one_if(
            text_at(row, "winner"@) == Some(a) && text_at(row, "mover"@) == Some(a),
        ),
        t.b_wins_as_mover == s.b_wins_as_mover + one_if(
            text_at(row, "winner"@) == Some(b) && text_at(row, "mover"@) == Some(b),
        ),
        t.paired_positions == s.paired_positions + one_if(
            forall|j: int|
                0 <= j < rows.len() ==> text_or(#[trigger] rows[j], "position_id"@, ""@) != text_or(
                    row,
                    "position_id"@,
                    ""@,
                ) || game_seed(rows[j]) != game_seed(row),
        ),
{
    let n = rows.len() as int;
    let more = rows.push(row);
    lemma_wins_same(rows, more, n, a, None, false);
    lemma_wins_same(rows, more, n, b, None, false);
    lemma_wins_same(rows, more, n, a, None, true);
    lemma_wins_same(rows, more, n, b, None, true);
    lemma_pairs_same(rows, more, n);
    assert(more[n] == row);
    if exists|j: int| 0 <= j < n && crate::bench::aggregate::same_pair(#[trigger] more[j], row) {
        let j = choose|j: int|
            0 <= j < n && crate::bench::aggregate::same_pair(#[trigger] more[j], row);
        assert(rows[j] == more[j]);
    } else {
        assert forall|j: int| 0 <= j < rows.len() implies text_or(
            #[trigger] rows[j],
            "position_id"@,
            ""@,
        ) != text_or(row, "position_id"@, ""@) || game_seed(rows[j]) != game_seed(row) by {
            assert(more[j] == rows[j]);
            assert(!crate::bench::aggregate::same_pair(more[j], row));
        }
    }
}

proof fn lemma_wins_same(
    x: Seq<JsonView>,
    y: Seq<JsonView>,
    n: int,
    name: Seq<char>,
    phase: Option<Seq<Seq<char>>>,
    as_mover: bool,
)
    requires
        0 <= n <= x.len() <= y.len(),
        forall|i: int| 0 <= i < x.len() ==> x[i] == y[i],
    ensures
        wins_of(x, n, name, phase, as_mover) == wins_of(y, n, name, phase, as_mover),
        0 <= wins_of(x, n, name, phase, as_mover) <= n,
    decreases n,
{
    if n > 0 {
        lemma_wins_same(x, y, n - 1, name, phase, as_mover);
    }
}

proof fn lemma_pairs_same(x: Seq<JsonView>, y: Seq<JsonView>, n: int)
    requires
        0 <= n <= x.len() <= y.len(),
        forall|i: int| 0 <= i < x.len() ==> #[trigger] x[i] == y[i],
    ensures
        pairs_of(x, n) == pairs_of(y, n),
        0 <= pairs_of(x, n) <= n,
    decreases n,
{
    if n > 0 {
        lemma_pairs_same(x, y, n - 1);
        let last = x[n - 1];
        assert(y[n - 1] == last);
        if exists|j: int| 0 <= j < n - 1 && crate::bench::aggregate::same_pair(#[trigger] x[j], last) {
            let j = choose|j: int|
                0 <= j < n - 1 && crate::bench::aggregate::same_pair(#[trigger] x[j], last);
            assert(y[j] == x[j]);
        }
        if exists|j: int| 0 <= j < n - 1 && crate::bench::aggregate::same_pair(#[trigger] y[j], last) {
            let j = choose|j: int|
                0 <= j < n - 1 && crate::bench::aggregate::same_pair(#[trigger] y[j], last);
            assert(x[j] == y[j]);
        }
    }
}

/// Without games there is nothing to count.
pub proof fn law_no_games(s: GamesSummary, a: Seq<char>, b: Seq<char>)
    requires
        games_ok(s, Seq::empty(), a, b),
    ensures
        s.games == 0 && s.a_wins == 0 && s.b_wins == 0 && s.paired_positions == 0,
        s.a_wins_as_mover == 0 && s.b_wins_as_mover == 0,
{
}

/// An engine that is the mover of every game has won all its games as the mover, and one that is
/// the mover of none has won none as the mover.
pub proof fn law_wins_as_the_mover(
    s: GamesSummary,
    rows: Seq<JsonView>,
    a: Seq<char>,
    b: Seq<char>,
)
    requires
        games_ok(s, rows, a, b),
    ensures
        (forall|i: int| 0 <= i < rows.len() ==> text_at(#[trigger] rows[i], "mover"@) == Some(a))
            ==> s.a_wins_as_mover == s.a_wins,
        (forall|i: int| 0 <= i < rows.len() ==> text_at(#[trigger] rows[i], "mover"@) != Some(a))
            ==> s.a_wins_as_mover == 0,
        (forall|i: int| 0 <= i < rows.len() ==> text_at(#[trigger] rows[i], "mover"@) == Some(b))
            ==> s.b_wins_as_mover == s.b_wins,
        (forall|i: int| 0 <= i < rows.len() ==> text_at(#[trigger] rows[i], "mover"@) != Some(b))
            ==> s.b_wins_as_mover == 0,
{
    lemma_as_mover(rows, rows.len() as int, a);
    lemma_as_mover(rows, rows.len() as int, b);
}

proof fn lemma_as_mover(rows: Seq<JsonView>, n: int, name: Seq<char>)
    requires
        0 <= n <= rows.len(),
    ensures
        (forall|i: int| 0 <= i < rows.len() ==> text_at(#[trigger] rows[i], "mover"@) == Some(name))
            ==> wins_of(rows, n, name, None, true) == wins_of(rows, n, name, None, false),
        (forall|i: int| 0 <= i < rows.len() ==> text_at(#[trigger] rows[i], "mover"@) != Some(name))
            ==> wins_of(rows, n, name, None, true) == 0,
    decreases n,
{
    if n > 0 {
        lemma_as_mover(rows, n - 1, name);
        assert(text_at(rows[n - 1], "mover"@) == text_at(rows[n - 1], "mover"@));
    }
}

/// Where every record names one of the two engines as the winner, the wins add up to the games:
/// there are no draws.
pub proof fn law_wins_add_up_to_the_games(
    s: GamesSummary,
    rows: Seq<JsonView>,
    a: Seq<char>,
    b: Seq<char>,
)
    requires
        games_ok(s, rows, a, b),
        a != b,
        forall|i: int|
            0 <= i < rows.len() ==> text_at(#[trigger] rows[i], "winner"@) == Some(a) || text_at(
                rows[i],
                "winner"@,
            ) == Some(b),
    ensures
        s.a_wins + s.b_wins == s.games,
        s.games == rows.len(),
{
    lemma_shared(rows, rows.len() as int, a, b);
}

proof fn lemma_shared(rows: Seq<JsonView>, n: int, a: Seq<char>, b: Seq<char>)
    requires
        a != b,
        0 <= n <= rows.len(),
        forall|i: int|
            0 <= i < rows.len() ==> text_at(#[trigger] rows[i], "winner"@) == Some(a) || text_at(
                rows[i],
                "winner"@,
            ) == Some(b),
    ensures
        wins_of(rows, n, a, None, false) + wins_of(rows, n, b, None, false) == n,
    decreases n,
{
    if n > 0 {
        lemma_shared(rows, n - 1, a, b);
        assert(text_at(rows[n - 1], "winner"@) == Some(a) || text_at(rows[n - 1], "winner"@)
            == Some(b));
    }
}

/// With the engines named the other way round the sum says the same of each.
pub proof fn law_the_order_of_the_names_does_not_count(
    s: GamesSummary,
    t: GamesSummary,
    rows: Seq<JsonView>,
    a: Seq<char>,
    b: Seq<char>,
)
    requires
        games_ok(s, rows, a, b),
        games_ok(t, rows, b, a),
    ensures
        s.engine_a@ == a && s.engine_b@ == b && t.engine_a@ == b && t.engine_b@ == a,
        s.a_wins == t.b_wins && s.b_wins == t.a_wins,
        s.a_wins_as_mover == t.b_wins_as_mover && s.b_wins_as_mover == t.a_wins_as_mover,
        s.paired_positions == t.paired_positions,
{
}

/// The sum of the games of the first `m` phases, and of the wins of an engine in them.
pub open spec fn games_in(splits: Seq<PhaseSplit>, m: int) -> (int, int, int)
    decreases m,
{
    if m <= 0 {
        (0, 0, 0)
    } else {
        let x = games_in(splits, m - 1);
        (x.0 + splits[m - 1].games, x.1 + splits[m - 1].a_wins, x.2 + splits[m - 1].b_wins)
    }
}

/// The phases divide the games among them: their games and wins add up to all.
pub proof fn law_the_phases_add_up(
    s: GamesSummary,
    rows: Seq<JsonView>,
    a: Seq<char>,
    b: Seq<char>,
)
    requires
        games_ok(s, rows, a, b),
    ensures
        games_in(s.by_phase@, s.by_phase@.len() as int) == (
            s.games as int,
            s.a_wins as int,
            s.b_wins as int,
        ),
        forall|g: int, i: int|
            0 <= g < s.by_phase@.len() && 0 <= i < rows.len() && texts(
                (#[trigger] s.by_phase@[g]).key@,
            ) == seq![text_or(#[trigger] rows[i], "phase"@, ""@)] ==> s.by_phase@[g].games > 0,
{
    let n = rows.len() as int;
    lemma_phases(s.by_phase@, rows, n, a, b);
    assert forall|g: int, i: int|
        0 <= g < s.by_phase@.len() && 0 <= i < rows.len() && texts(
            (#[trigger] s.by_phase@[g]).key@,
        ) == seq![text_or(#[trigger] rows[i], "phase"@, ""@)] implies s.by_phase@[g].games > 0 by {
        assert(split_ok(s.by_phase@[g], rows, a, b));
        lemma_in_phase(rows, n, i, texts(s.by_phase@[g].key@));
    }
}

proof fn lemma_in_phase(rows: Seq<JsonView>, n: int, i: int, key: Seq<Seq<char>>)
    requires
        0 <= i < n <= rows.len(),
        key == seq![text_or(rows[i], "phase"@, ""@)],
    ensures
        tally(Tally::All, GroupBy::GamePhase, rows, n, key) > 0,
    decreases n,
{
    lemma_tally_bounds(Tally::All, GroupBy::GamePhase, rows, n - 1, key);
    if i < n - 1 {
        lemma_in_phase(rows, n - 1, i, key);
    }
}

proof fn lemma_tally_bounds(
    t: Tally,
    by: GroupBy,
    rows: Seq<JsonView>,
    n: int,
    key: Seq<Seq<char>>,
)
    requires
        n >= 0,
    ensures
        0 <= tally(t, by, rows, n, key) <= n,
    decreases n,
{
    if n > 0 {
        lemma_tally_bounds(t, by, rows, n - 1, key);
    }
}

/// What the splits would count of the first `n` games.
spec fn counted_in(
    splits: Seq<PhaseSplit>,
    m: int,
    rows: Seq<JsonView>,
    n: int,
    a: Seq<char>,
    b: Seq<char>,
) -> (int, int, int)
    decreases m,
{
    if m <= 0 {
        (0, 0, 0)
    } else {
        let x = counted_in(splits, m - 1, rows, n, a, b);
        let key = texts(splits[m - 1].key@);
        (
            x.0 + tally(Tally::All, GroupBy::GamePhase, rows, n, key),
            x.1 + wins_of(rows, n, a, Some(key), false),
            x.2 + wins_of(rows, n, b, Some(key), false),
        )
    }
}

proof fn lemma_counted_zero(
    splits: Seq<PhaseSplit>,
    m: int,
    rows: Seq<JsonView>,
    a: Seq<char>,
    b: Seq<char>,
)
    ensures
        counted_in(splits, m, rows, 0, a, b) == (0int, 0int, 0int),
    decreases m,
{
    if m > 0 {
        lemma_counted_zero(splits, m - 1, rows, a, b);
    }
}

proof fn lemma_counted_step(
    splits: Seq<PhaseSplit>,
    m: int,
    rows: Seq<JsonView>,
    n: int,
    a: Seq<char>,
    b: Seq<char>,
    g: int,
)
    requires
        0 < n <= rows.len(),
        0 <= m <= splits.len(),
        0 <= g < splits.len(),
        split_keys(splits)[g] == crate::bench::aggregate::key_of(GroupBy::GamePhase, rows[n - 1]),
        forall|i: int, j: int|
            0 <= i < j < splits.len() ==> split_keys(splits)[i] != split_keys(splits)[j],
    ensures
        ({
            let x = counted_in(splits, m, rows, n - 1, a, b);
            let y = counted_in(splits, m, rows, n, a, b);
            let here = one_if(g < m);
            &&& y.0 == x.0 + here
            &&& y.1 == x.1 + if text_at(rows[n - 1], "winner"@) == Some(a) {
                here
            } else {
                0
            }
            &&& y.2 == x.2 + if text_at(rows[n - 1], "winner"@) == Some(b) {
                here
            } else {
                0
            }
        }),
    decreases m,
{
    if m > 0 {
        lemma_counted_step(splits, m - 1, rows, n, a, b, g);
        let keys = split_keys(splits);
        assert(keys[m - 1] == texts(splits[m - 1].key@));
        if m - 1 < g {
            assert(keys[m - 1] != keys[g]);
        } else if m - 1 > g {
            assert(keys[g] != keys[m - 1]);
        }
    }
}

proof fn lemma_counted_all(
    splits: Seq<PhaseSplit>,
    rows: Seq<JsonView>,
    n: int,
    a: Seq<char>,
    b: Seq<char>,
)
    requires
        0 <= n <= rows.len(),
        forall|i: int, j: int|
            0 <= i < j < splits.len() ==> split_keys(splits)[i] != split_keys(splits)[j],
        forall|i: int|
            0 <= i < rows.len() ==> split_keys(splits).contains(
                crate::bench::aggregate::key_of(GroupBy::GamePhase, #[trigger] rows[i]),
            ),
    ensures
        counted_in(splits, splits.len() as int, rows, n, a, b) == (
            n,
            wins_of(rows, n, a, None, false),
            wins_of(rows, n, b, None, false),
        ),
    decreases n,
{
    if n == 0 {
        lemma_counted_zero(splits, splits.len() as int, rows, a, b);
    } else {
        lemma_counted_all(splits, rows, n - 1, a, b);
        let key = crate::bench::aggregate::key_of(GroupBy::GamePhase, rows[n - 1]);
        assert(split_keys(splits).contains(key));
        let keys = split_keys(splits);
        let g = choose|g: int| 0 <= g < keys.len() && keys[g] == key;
        lemma_counted_step(splits, splits.len() as int, rows, n, a, b, g);
    }
}

proof fn lemma_counted_is_shown(
    splits: Seq<PhaseSplit>,
    m: int,
    rows: Seq<JsonView>,
    a: Seq<char>,
    b: Seq<char>,
)
    requires
        0 <= m <= splits.len(),
        forall|g: int| 0 <= g < splits.len() ==> #[trigger] split_ok(splits[g], rows, a, b),
    ensures
        games_in(splits, m) == counted_in(splits, m, rows, rows.len() as int, a, b),
    decreases m,
{
    if m > 0 {
        lemma_counted_is_shown(splits, m - 1, rows, a, b);
        assert(split_ok(splits[m - 1], rows, a, b));
    }
}

proof fn lemma_phases(
    splits: Seq<PhaseSplit>,
    rows: Seq<JsonView>,
    n: int,
    a: Seq<char>,
    b: Seq<char>,
)
    requires
        n == rows.len(),
        crate::bench::aggregate::keys_sorted(split_keys(splits)),
        forall|g: int| 0 <= g < splits.len() ==> #[trigger] split_ok(splits[g], rows, a, b),
        forall|i: int|
            0 <= i < rows.len() ==> split_keys(splits).contains(
                crate::bench::aggregate::key_of(GroupBy::GamePhase, #[trigger] rows[i]),
            ),
    ensures
        games_in(splits, splits.len() as int) == (
            n,
            wins_of(rows, n, a, None, false),
            wins_of(rows, n, b, None, false),
        ),
{
    lemma_counted_all(splits, rows, n, a, b);
    lemma_counted_is_shown(splits, splits.len() as int, rows, a, b);
}

/// A game that comes to an end is a line of legal moves to a finished board. The engine that
/// would have to move there has lost: the responder wins where it is the turn of the side that
/// the mover had at the start, else the mover.
pub proof fn law_who_has_to_move_has_lost<A: EngineAdapter, B: EngineAdapter>(
    mover: A,
    responder: B,
    b: Seq<u16>,
    seed: u64,
    winner: Seq<char>,
    plies: nat,
)
    requires
        b.len() == 8,
        to_move(b) is Some,
        game_played(
            mover,
            responder,
            b,
            seed,
            Ok::<(Seq<char>, nat), Seq<char>>((winner, plies)),
        ),
    ensures
        exists|line: Seq<Move>|
            {
                let end = after_line(b, line);
                &&& #[trigger] legal_line(b, line)
                &&& line.len() == plies
                &&& finished(end)
                &&& to_move(end) == to_move(b) ==> winner == responder.named()
                &&& to_move(end) != to_move(b) ==> winner == mover.named()
            },
{
    lemma_game_ends(mover, responder, true, b, seed, 16, 0, winner, plies, to_move(b)->0);
}

proof fn lemma_game_ends<A: EngineAdapter, B: EngineAdapter>(
    mover: A,
    responder: B,
    movers_turn: bool,
    b: Seq<u16>,
    seed: u64,
    room: nat,
    done: nat,
    winner: Seq<char>,
    plies: nat,
    side: u8,
)
    requires
        b.len() == 8,
        to_move(b) is Some,
        movers_turn <==> to_move(b) == Some(side),
        side < 2,
        game_ends(
            mover,
            responder,
            movers_turn,
            b,
            seed,
            room,
            done,
            Ok::<(Seq<char>, nat), Seq<char>>((winner, plies)),
        ),
    ensures
        exists|line: Seq<Move>|
            {
                let end = after_line(b, line);
                &&& #[trigger] legal_line(b, line)
                &&& line.len() + done == plies
                &&& finished(end)
                &&& to_move(end) == Some(side) ==> winner == responder.named()
                &&& to_move(end) != Some(side) ==> winner == mover.named()
            },
    decreases room,
{
    let r = Ok::<(Seq<char>, nat), Seq<char>>((winner, plies));
    if finished(b) {
        let line: Seq<Move> = Seq::empty();
        assert(legal_line(b, line));
        assert(after_line(b, line) == b);
    } else {
        let c = choose|c: Result<(Move, RawMetrics), String>| #[trigger]
            choice_in_turn(mover, responder, movers_turn, b, seed, c) && match c {
                Err(e) => r == Err::<(Seq<char>, nat), Seq<char>>(e@),
                Ok((mv, _)) => game_ends(
                    mover,
                    responder,
                    !movers_turn,
                    applied(b, mv),
                    seed,
                    (room - 1) as nat,
                    done + 1,
                    r,
                ),
            };
        let m = c->Ok_0.0;
        assert(legal_move(b, m));
        lemma_legal_move_step(b, m);
        let after = applied(b, m);
        lemma_game_ends(
            mover,
            responder,
            !movers_turn,
            after,
            seed,
            (room - 1) as nat,
            done + 1,
            winner,
            plies,
            side,
        );
        let rest = choose|line: Seq<Move>|
            {
                let end = after_line(after, line);
                &&& #[trigger] legal_line(after, line)
                &&& line.len() + (done + 1) == plies
                &&& finished(end)
                &&& to_move(end) == Some(side) ==> winner == responder.named()
                &&& to_move(end) != Some(side) ==> winner == mover.named()
            };
        lemma_line_prepend(b, m, rest);
        let line = seq![m] + rest;
        assert(line.drop_first() =~= rest);
        assert(after_line(b, line) == after_line(after, rest));
        assert(legal_line(b, line));
    }
}

/// The mover chooses on the board from which a game begins, and the responder on the board
/// after that.
pub proof fn law_the_mover_chooses_first<A: EngineAdapter, B: EngineAdapter>(
    mover: A,
    responder: B,
    b: Seq<u16>,
    seed: u64,
    r: Result<(Seq<char>, nat), Seq<char>>,
)
    requires
        to_move(b) is Some,
        !finished(b),
        game_played(mover, responder, b, seed, r),
    ensures
        exists|c: Result<(Move, RawMetrics), String>|
            {
                &&& #[trigger] choice_made(mover, b, Some(seed), c)
                &&& c matches Err(e) ==> r == Err::<(Seq<char>, nat), Seq<char>>(e@)
                &&& c matches Ok((m, _)) ==> !finished(applied(b, m)) ==> exists|
                    d: Result<(Move, RawMetrics), String>,
                | #[trigger]
                    choice_made(responder, applied(b, m), Some(seed), d)
            },
{
    let c = choose|c: Result<(Move, RawMetrics), String>| #[trigger]
        choice_in_turn(mover, responder, true, b, seed, c) && match c {
            Err(e) => r == Err::<(Seq<char>, nat), Seq<char>>(e@),
            Ok((mv, _)) => game_ends(mover, responder, false, applied(b, mv), seed, 15, 1, r),
        };
    assert(choice_made(mover, b, Some(seed), c));
    if c is Ok && !finished(applied(b, c->Ok_0.0)) {
        let after = applied(b, c->Ok_0.0);
        let d = choose|d: Result<(Move, RawMetrics), String>| #[trigger]
            choice_in_turn(mover, responder, false, after, seed, d) && match d {
                Err(e) => r == Err::<(Seq<char>, nat), Seq<char>>(e@),
                Ok((mv, _)) => game_ends(mover, responder, true, applied(after, mv), seed, 14, 2, r),
            };
        assert(choice_made(responder, after, Some(seed), d));
    }
}

/// The record of a game names who moved first, who replied, who won, and the position.
pub proof fn law_records_name_the_players(
    position: JsonView,
    mover: Seq<char>,
    responder: Seq<char>,
    seed: u64,
    winner: Seq<char>,
    plies: u32,
)
    ensures
        ({
            let row = record_view(position, mover, responder, seed, winner, plies);
            &&& text_at(row, "mover"@) == Some(mover)
            &&& text_at(row, "responder"@) == Some(responder)
            &&& text_at(row, "winner"@) == Some(winner)
            &&& text_at(row, "position_id"@) == Some(text_or(position, "id"@, ""@))
            &&& at(row, "phase"@) == at(position, "phase"@)
            &&& at(row, "seed"@) == JsonView::Unsigned(seed)
            &&& at(row, "plies"@) == JsonView::Unsigned(plies as u64)
        }),
{
    let o = record_view(position, mover, responder, seed, winner, plies)->Object_0;
    reveal_strlit("mover");
    reveal_strlit("phase");
    reveal_strlit("plies");
    reveal_strlit("position_id");
    reveal_strlit("responder");
    reveal_strlit("seed");
    reveal_strlit("winner");
    assert("mover"@.len() == 5 && "phase"@.len() == 5 && "plies"@.len() == 5);
    assert("position_id"@.len() == 11 && "responder"@.len() == 9 && "seed"@.len() == 4);
    assert("winner"@.len() == 6);
    assert("phase"@[1] == 'h' && "plies"@[1] == 'l' && "mover"@[0] == 'm');
    lemma_member_at(o, "mover"@, 0);
    lemma_member_at(o, "phase"@, 1);
    lemma_member_at(o, "plies"@, 2);
    lemma_member_at(o, "position_id"@, 3);
    lemma_member_at(o, "responder"@, 4);
    lemma_member_at(o, "seed"@, 5);
    lemma_member_at(o, "winner"@, 6);
}

/// In a task the first engine moves first exactly if the task says so: the record of the game
/// names it as the mover.
pub proof fn law_tasks_say_who_moves_first<A: EngineAdapter, B: EngineAdapter>(
    a: A,
    b: B,
    positions: Seq<JsonView>,
    t: H2hTask,
    row: JsonView,
)
    requires
        task_made(a, b, positions, t, Ok::<JsonView, Seq<char>>(row)),
    ensures
        t.a_moves ==> text_at(row, "mover"@) == Some(a.named()) && text_at(row, "responder"@)
            == Some(b.named()),
        !t.a_moves ==> text_at(row, "mover"@) == Some(b.named()) && text_at(row, "responder"@)
            == Some(a.named()),
        at(row, "seed"@) == JsonView::Unsigned(t.seed),
        text_at(row, "position_id"@) == Some(
            text_or(positions[t.position as int], "id"@, ""@),
        ),
{
    let position = positions[t.position as int];
    if t.a_moves {
        lemma_made_names(a, b, position, t.seed, row);
    } else {
        lemma_made_names(b, a, position, t.seed, row);
    }
}

proof fn lemma_made_names<A: EngineAdapter, B: EngineAdapter>(
    mover: A,
    responder: B,
    position: JsonView,
    seed: u64,
    row: JsonView,
)
    requires
        game_made(mover, responder, position, seed, Ok::<JsonView, Seq<char>>(row)),
    ensures
        text_at(row, "mover"@) == Some(mover.named()),
        text_at(row, "responder"@) == Some(responder.named()),
        at(row, "seed"@) == JsonView::Unsigned(seed),
        text_at(row, "position_id"@) == Some(text_or(position, "id"@, ""@)),
{
    let board = crate::qfen::qfen_board(text_or(position, "qfen"@, ""@));
    let r = Ok::<JsonView, Seq<char>>(row);
    let g = choose|g: Result<(Seq<char>, nat), Seq<char>>| #[trigger]
        game_played(mover, responder, board, seed, g) && match g {
            Err(e) => r == Err::<JsonView, Seq<char>>(e),
            Ok((winner, plies)) => r == Ok::<JsonView, Seq<char>>(
                record_view(
                    position,
                    mover.named(),
                    responder.named(),
                    seed,
                    winner,
                    plies as u32,
                ),
            ),
        };
    let (winner, plies) = g->Ok_0;
    law_records_name_the_players(
        position,
        mover.named(),
        responder.named(),
        seed,
        winner,
        plies as u32,
    );
}

/// The engine, the configuration and the phase of a row.
pub open spec fn named_by(row: JsonView) -> Seq<Seq<char>> {
    seq![
        text_or(row, "engine"@, ""@),
        text_or(row, "config_label"@, ""@),
        text_or(row, "phase"@, ""@),
    ]
}

/// What one more row adds to the agreement of an engine in a phase: it counts where it has a
/// reference, as a hit where the move is optimal, and only for its own engine, configuration
/// and phase.
pub proof fn law_one_more_choice(
    x: Seq<AgreementGroup>,
    y: Seq<AgreementGroup>,
    rows: Seq<JsonView>,
    row: JsonView,
    g: int,
    h: int,
)
    requires
        agreement_ok(x, rows),
        agreement_ok(y, rows.push(row)),
        0 <= g < x.len(),
        0 <= h < y.len(),
        texts(x[g].key@) == texts(y[h].key@),
    ensures
        y[h].n == x[g].n + one_if(
            named_by(row) == texts(x[g].key@) && !(at(row, "hit"@) is Null),
        ),
        y[h].hits == x[g].hits + one_if(
            named_by(row) == texts(x[g].key@) && at(row, "hit"@) == JsonView::Bool(true),
        ),
        0 <= x[g].hits <= x[g].n,
{
    let key = texts(x[g].key@);
    let n = rows.len() as int;
    let more = rows.push(row);
    lemma_tally_same(Tally::Solved, GroupBy::Phase, rows, more, n, key);
    lemma_tally_same(Tally::Hits, GroupBy::Phase, rows, more, n, key);
    lemma_hits_are_solved(rows, n, key);
    assert(more[n] == row);
}

proof fn lemma_tally_same(
    t: Tally,
    by: GroupBy,
    x: Seq<JsonView>,
    y: Seq<JsonView>,
    n: int,
    key: Seq<Seq<char>>,
)
    requires
        0 <= n <= x.len() <= y.len(),
        forall|i: int| 0 <= i < x.len() ==> x[i] == y[i],
    ensures
        tally(t, by, x, n, key) == tally(t, by, y, n, key),
        0 <= tally(t, by, x, n, key) <= n,
    decreases n,
{
    if n > 0 {
        lemma_tally_same(t, by, x, y, n - 1, key);
    }
}

proof fn lemma_hits_are_solved(rows: Seq<JsonView>, n: int, key: Seq<Seq<char>>)
    requires
        0 <= n <= rows.len(),
    ensures
        0 <= tally(Tally::Hits, GroupBy::Phase, rows, n, key) <= tally(
            Tally::Solved,
            GroupBy::Phase,
            rows,
            n,
            key,
        ),
        (forall|i: int|
            0 <= i < n && named_by(#[trigger] rows[i]) == key && !(at(rows[i], "hit"@) is Null)
                ==> at(rows[i], "hit"@) == JsonView::Bool(true)) ==> tally(
            Tally::Hits,
            GroupBy::Phase,
            rows,
            n,
            key,
        ) == tally(Tally::Solved, GroupBy::Phase, rows, n, key),
        (forall|i: int|
            0 <= i < n && named_by(#[trigger] rows[i]) == key ==> at(rows[i], "hit"@)
                != JsonView::Bool(true)) ==> tally(Tally::Hits, GroupBy::Phase, rows, n, key) == 0,
    decreases n,
{
    if n > 0 {
        lemma_hits_are_solved(rows, n - 1, key);
        assert(named_by(rows[n - 1]) == crate::bench::aggregate::key_of(
            GroupBy::Phase,
            rows[n - 1],
        ));
    }
}

/// An engine whose every choice with a reference is optimal agrees in all of them, and one with
/// no optimal choice in none.
pub proof fn law_full_and_no_agreement(groups: Seq<AgreementGroup>, rows: Seq<JsonView>, g: int)
    requires
        agreement_ok(groups, rows),
        0 <= g < groups.len(),
    ensures
        groups[g].n > 0,
        (forall|i: int|
            0 <= i < rows.len() && named_by(#[trigger] rows[i]) == texts(groups[g].key@) && !(at(
                rows[i],
                "hit"@,
            ) is Null) ==> at(rows[i], "hit"@) == JsonView::Bool(true)) ==> groups[g].hits
            == groups[g].n,
        (forall|i: int|
            0 <= i < rows.len() && named_by(#[trigger] rows[i]) == texts(groups[g].key@) ==> at(
                rows[i],
                "hit"@,
            ) != JsonView::Bool(true)) ==> groups[g].hits == 0,
{
    lemma_hits_are_solved(rows, rows.len() as int, texts(groups[g].key@));
}

/// A choice is a hit exactly if the reference of the position lists its move as optimal;
/// without a reference it is neither hit nor miss.
pub proof fn law_hits_are_optimal_moves(position: JsonView, mv: Seq<char>)
    ensures
        hit_view(position, mv) is Null <==> at(position, "reference"@) is Null,
        hit_view(position, mv) == JsonView::Bool(true) <==> at(
            at(position, "reference"@),
            "optimal_moves"@,
        ) is Array && at(at(position, "reference"@), "optimal_moves"@)->Array_0.contains(
            JsonView::Text(mv),
        ),
{
    let moves = at(at(position, "reference"@), "optimal_moves"@);
    if moves is Array {
        let items = moves->Array_0;
        lemma_lists_text(items, items.len() as int, mv);
        assert(items.take(items.len() as int) =~= items);
    }
    if at(position, "reference"@) is Null {
        assert(moves is Null);
    }
}

proof fn lemma_lists_text(items: Seq<JsonView>, n: int, mv: Seq<char>)
    requires
        0 <= n <= items.len(),
    ensures
        lists_text(items, n, mv) <==> items.take(n).contains(JsonView::Text(mv)),
{
    let head = items.take(n);
    if lists_text(items, n, mv) {
        let i = choose|i: int| 0 <= i < n && #[trigger] items[i] == JsonView::Text(mv);
        assert(head[i] == JsonView::Text(mv));
    }
    if head.contains(JsonView::Text(mv)) {
        let i = choose|i: int| 0 <= i < head.len() && head[i] == JsonView::Text(mv);
        assert(items[i] == JsonView::Text(mv));
    }
}

/// What one more row adds to the cost of an engine: a row, its time and its nodes at the end of
/// the lists where it has them, and its peak of memory where that is the largest.
pub proof fn law_one_more_cost(
    x: CostGroup,
    y: CostGroup,
    rows: Seq<JsonView>,
    row: JsonView,
)
    requires
        cost_group_ok(x, rows),
        cost_group_ok(y, rows.push(row)),
        texts(x.key@) == texts(y.key@),
        texts(x.key@) == seq![text_or(row, "engine"@, ""@), text_or(row, "config_label"@, ""@)],
    ensures
        y.n == x.n + 1,
        texts(y.wall_times@) == (match float_of(at(row, "wall_time_s"@)) {
            Some(t) => texts(x.wall_times@).push(t),
            None => texts(x.wall_times@),
        }),
        y.nodes@ == (match at(row, "nodes"@) {
            JsonView::Unsigned(c) => x.nodes@.push(c),
            _ => x.nodes@,
        }),
        at(row, "peak_memory_bytes"@) matches JsonView::Unsigned(c) ==> {
            &&& y.peak_memory_bytes is Some
            &&& y.peak_memory_bytes->0 >= c
            &&& x.peak_memory_bytes is Some ==> y.peak_memory_bytes->0 >= x.peak_memory_bytes->0
            &&& y.peak_memory_bytes == Some(c) || y.peak_memory_bytes == x.peak_memory_bytes
        },
        !(at(row, "peak_memory_bytes"@) is Unsigned) ==> y.peak_memory_bytes == x.peak_memory_bytes,
{
    let key = texts(x.key@);
    let n = rows.len() as int;
    let more = rows.push(row);
    lemma_tally_same(Tally::All, GroupBy::Engine, rows, more, n, key);
    lemma_costs_same(rows, more, n, key);
    assert(more[n] == row);
}

/// A row of another engine or configuration adds nothing to the cost of an engine.
pub proof fn law_another_engines_cost(
    x: CostGroup,
    y: CostGroup,
    rows: Seq<JsonView>,
    row: JsonView,
)
    requires
        cost_group_ok(x, rows),
        cost_group_ok(y, rows.push(row)),
        texts(x.key@) == texts(y.key@),
        texts(x.key@) != seq![text_or(row, "engine"@, ""@), text_or(row, "config_label"@, ""@)],
    ensures
        y.n == x.n,
        texts(y.wall_times@) == texts(x.wall_times@),
        y.nodes@ == x.nodes@,
        y.peak_memory_bytes == x.peak_memory_bytes,
{
    let key = texts(x.key@);
    let n = rows.len() as int;
    let more = rows.push(row);
    lemma_tally_same(Tally::All, GroupBy::Engine, rows, more, n, key);
    lemma_costs_same(rows, more, n, key);
    assert(more[n] == row);
}

proof fn lemma_costs_same(x: Seq<JsonView>, y: Seq<JsonView>, n: int, key: Seq<Seq<char>>)
    requires
        0 <= n <= x.len() <= y.len(),
        forall|i: int| 0 <= i < x.len() ==> x[i] == y[i],
    ensures
        times_of(x, n, key) == times_of(y, n, key),
        nodes_of(x, n, key) == nodes_of(y, n, key),
        peak_of(x, n, key) == peak_of(y, n, key),
    decreases n,
{
    if n > 0 {
        lemma_costs_same(x, y, n - 1, key);
    }
}

/// The steadiness of an engine in a position: no move was chosen more often than the count
/// says, and one was chosen that often; where every row chose the same move, all rows count,
/// and never more than there are.
pub proof fn law_steadiness_counts_the_most_frequent_move(
    group: StabilityGroup,
    rows: Seq<JsonView>,
    j: int,
    i: int,
)
    requires
        stability_group_ok(group, rows),
        0 <= j < group.positions@.len(),
        0 <= i < rows.len(),
        chose_in(rows[i], texts(group.key@).push(group.positions@[j]@)),
        texts(group.key@).len() == 2,
    ensures
        ({
            let place = texts(group.key@).push(group.positions@[j]@);
            let (most, all) = group.consistency@[j];
            &&& most >= chosen(rows, rows.len() as int, place, text_or(rows[i], "move"@, ""@))
            &&& exists|k: int|
                0 <= k < rows.len() && chose_in(#[trigger] rows[k], place) && most == chosen(
                    rows,
                    rows.len() as int,
                    place,
                    text_or(rows[k], "move"@, ""@),
                )
            &&& 1 <= most <= all
            &&& (forall|k: int|
                0 <= k < rows.len() && chose_in(#[trigger] rows[k], place) ==> text_or(
                    rows[k],
                    "move"@,
                    ""@,
                ) == text_or(rows[i], "move"@, ""@)) ==> most == all
        }),
{
    let n = rows.len() as int;
    let place = texts(group.key@).push(group.positions@[j]@);
    let mv = text_or(rows[i], "move"@, ""@);
    let (most, all) = group.consistency@[j];
    assert(group.consistency@[j].0 == modal_count(rows, n, place));
    lemma_modal(rows, n, place);
    lemma_chosen(rows, n, place, mv);
    let k = choose|k: int|
        0 <= k < n && chose_in(#[trigger] rows[k], place) && modal_count(rows, n, place)
            == move_count(rows, n, place, text_or(rows[k], "move"@, ""@));
    let best = text_or(rows[k], "move"@, ""@);
    lemma_chosen(rows, n, place, best);
    lemma_chosen_once(rows, n, place, i);
    assert(move_count(rows, n, place, mv) <= modal_count(rows, n, place));
}

/// Whether a row is of the engine, the configuration and the position.
pub open spec fn chose_in(row: JsonView, place: Seq<Seq<char>>) -> bool {
    seq![
        text_or(row, "engine"@, ""@),
        text_or(row, "config_label"@, ""@),
        text_or(row, "position_id"@, ""@),
    ] == place
}

/// How many of the first `n` rows at a place chose the move.
pub open spec fn chosen(rows: Seq<JsonView>, n: int, place: Seq<Seq<char>>, mv: Seq<char>) -> int
    decreases n,
{
    if n <= 0 {
        0
    } else {
        chosen(rows, n - 1, place, mv) + one_if(
            chose_in(rows[n - 1], place) && text_or(rows[n - 1], "move"@, ""@) == mv,
        )
    }
}

proof fn lemma_chosen(rows: Seq<JsonView>, n: int, place: Seq<Seq<char>>, mv: Seq<char>)
    requires
        0 <= n <= rows.len(),
    ensures
        chosen(rows, n, place, mv) == move_count(rows, n, place, mv),
        0 <= chosen(rows, n, place, mv) <= tally(Tally::All, GroupBy::Position, rows, n, place),
        (forall|k: int|
            0 <= k < rows.len() && chose_in(#[trigger] rows[k], place) ==> text_or(
                rows[k],
                "move"@,
                ""@,
            ) == mv) ==> chosen(rows, n, place, mv) == tally(
            Tally::All,
            GroupBy::Position,
            rows,
            n,
            place,
        ),
    decreases n,
{
    if n > 0 {
        lemma_chosen(rows, n - 1, place, mv);
        assert(chose_in(rows[n - 1], place) <==> crate::bench::aggregate::key_of(
            GroupBy::Position,
            rows[n - 1],
        ) == place);
    }
}

proof fn lemma_chosen_once(rows: Seq<JsonView>, n: int, place: Seq<Seq<char>>, i: int)
    requires
        0 <= i < n <= rows.len(),
        chose_in(rows[i], place),
    ensures
        chosen(rows, n, place, text_or(rows[i], "move"@, ""@)) >= 1,
    decreases n,
{
    let mv = text_or(rows[i], "move"@, ""@);
    lemma_chosen(rows, n - 1, place, mv);
    if i < n - 1 {
        lemma_chosen_once(rows, n - 1, place, i);
    }
}

proof fn lemma_modal(rows: Seq<JsonView>, n: int, place: Seq<Seq<char>>)
    requires
        0 <= n <= rows.len(),
    ensures
        modal_count(rows, n, place) >= 0,
        forall|k: int|
            0 <= k < n && chose_in(#[trigger] rows[k], place) ==> modal_count(rows, n, place)
                >= move_count(rows, rows.len() as int, place, text_or(rows[k], "move"@, ""@)),
        modal_count(rows, n, place) > 0 ==> exists|k: int|
            0 <= k < n && chose_in(#[trigger] rows[k], place) && modal_count(rows, n, place)
                == move_count(rows, rows.len() as int, place, text_or(rows[k], "move"@, ""@)),
        (exists|k: int| 0 <= k < n && chose_in(#[trigger] rows[k], place)) ==> modal_count(
            rows,
            n,
            place,
        ) > 0,
    decreases n,
{
    if n > 0 {
        lemma_modal(rows, n - 1, place);
        let last = rows[n - 1];
        assert(chose_in(last, place) <==> crate::bench::aggregate::key_of(GroupBy::Position, last)
            == place);
        let m = rows.len() as int;
        if chose_in(last, place) {
            lemma_chosen(rows, m, place, text_or(last, "move"@, ""@));
            lemma_chosen_once(rows, m, place, n - 1);
        }
        if modal_count(rows, n - 1, place) > 0 {
            let k = choose|k: int|
                0 <= k < n - 1 && chose_in(#[trigger] rows[k], place) && modal_count(
                    rows,
                    n - 1,
                    place,
                ) == move_count(rows, m, place, text_or(rows[k], "move"@, ""@));
            assert(chose_in(rows[k], place));
        }
        if modal_count(rows, n, place) > modal_count(rows, n - 1, place) {
            assert(chose_in(rows[n - 1], place));
        }
        if exists|k: int| 0 <= k < n && chose_in(#[trigger] rows[k], place) {
            let k = choose|k: int| 0 <= k < n && chose_in(#[trigger] rows[k], place);
            if k < n - 1 {
                assert(chose_in(rows[k], place));
            }
        }
    }
}

/// The choice of an engine that is accepted is a legal move on a board on which the game goes
/// on, and is what the engine answered; where the game is over, and where the engine answers
/// with a move that may not be played, there is an error.
pub proof fn law_accepted_choices_are_legal<A: EngineAdapter>(
    adapter: A,
    b: Seq<u16>,
    seed: Option<u64>,
    r: Result<(Move, RawMetrics), String>,
)
    requires
        choice_made(adapter, b, seed, r),
    ensures
        finished(b) ==> r is Err,
        r matches Ok((m, metrics)) ==> legal_move(b, m) && engine_says(adapter, b, seed, r),
        !finished(b) && (forall|raw: Result<(Move, RawMetrics), String>| #[trigger]
            engine_says(adapter, b, seed, raw) ==> raw is Ok && legal_move(b, raw->Ok_0.0))
            ==> r is Ok,
{
    if !finished(b) {
        let raw = choose|raw: Result<(Move, RawMetrics), String>| #[trigger]
            engine_says(adapter, b, seed, raw) && crate::bench::adapters::checked(
                adapter.named(),
                b,
                raw,
                r,
            );
        assert(engine_says(adapter, b, seed, raw));
    }
}

/// How many of the first `n` engines have choices that depend on the seed.
pub open spec fn by_seed(cs: Seq<Contender>, n: int) -> int
    decreases n,
{
    if n <= 0 {
        0
    } else {
        by_seed(cs, n - 1) + one_if(cs[n - 1].stochastic)
    }
}

/// An engine whose choices depend on the seed chooses in a position with every seed, and any
/// engine with the first: nothing that is not left out is missing, and a run from nothing makes
/// one choice for each position and each such seed.
pub proof fn law_every_engine_runs_with_its_seeds(
    cs: Seq<Contender>,
    positions: Seq<JsonView>,
    seeds: Seq<u64>,
    p: int,
    e: int,
    k: int,
)
    requires
        cs.len() <= usize::MAX,
        positions.len() <= usize::MAX,
        0 <= p < positions.len(),
        0 <= e < cs.len(),
        0 <= k < seeds.len(),
        cs[e].stochastic || k == 0,
    ensures
        ({
            let none = Seq::<RunKey>::empty();
            let n = positions.len() as int;
            let steps = steps_of(cs, positions, seeds, none, n);
            let s = by_seed(cs, cs.len() as int);
            &&& steps.contains(
                AgreementStep::Choose { position: p as usize, engine: e as usize, seed: seeds[k] },
            )
            &&& choices(steps) == (s * seeds.len() + (cs.len() - s)) * n
        }),
{
    let none = Seq::<RunKey>::empty();
    let n = positions.len() as int;
    law_the_choices_left_are_made(cs, positions, seeds, none, n);
    law_expected_rows(cs, positions, seeds, n);
    lemma_by_seed(cs, seeds.len() as int, cs.len() as int);
    let c = choice_of(p, e, seeds[k]);
    assert(is_new(cs, positions, none, c));
}

proof fn lemma_by_seed(cs: Seq<Contender>, seeds: int, n: int)
    requires
        0 <= n <= cs.len(),
    ensures
        rows_per_position(seeded_ones(cs), seeds, n) == by_seed(cs, n) * seeds + (n - by_seed(
            cs,
            n,
        )),
    decreases n,
{
    if n > 0 {
        lemma_by_seed(cs, seeds, n - 1);
        let s = by_seed(cs, n - 1);
        assert((s + 1) * seeds == s * seeds + seeds) by (nonlinear_arith);
        assert(seeded_ones(cs)[n - 1] == cs[n - 1].stochastic);
    } else {
        assert(0 * seeds == 0) by (nonlinear_arith);
    }
}

} // verus!
