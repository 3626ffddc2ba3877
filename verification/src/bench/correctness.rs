//! Checks on benchmark inputs and engines before a run.
use crate::bench::adapters::{
    choice_made, choose_move, law_choice_is_settled, settled_by_seed, EngineAdapter, RawMetrics,
};
use crate::bench::fields::{at, concat, concat3, text_in_or, text_or, texts};
use crate::bench::json::{items_view, Json, JsonView};
use crate::bench::reference::{key_of, move_key, parse_move_key, parsed_key};
use crate::bitboard::Bitboard;
use crate::game::has_winning_line;
use crate::game_value::finished;
use crate::moves::{generate_legal_moves, Move};
use crate::qfen::{qfen_board, qfen_complaint};
use crate::state::State;
use crate::text::{decimal, push_decimal, same_text};
use vstd::prelude::*;
use vstd::string::*;

verus! {

/// The id of a position; a question mark if it has none.
pub open spec fn id_or_mark(position: JsonView) -> Seq<char> {
    text_or(position, "id"@, "?"@)
}

/// The complaint about a position of a dataset.
pub open spec fn position_failure(position: JsonView) -> Option<Seq<char>> {
    let qfen = text_or(position, "qfen"@, ""@);
    match qfen_complaint(qfen) {
        Some(e) => Some("dataset: position "@ + id_or_mark(position) + " bad qfen: "@ + e),
        None => if finished(qfen_board(qfen)) {
            Some("dataset: position "@ + id_or_mark(position) + " is terminal"@)
        } else {
            None
        },
    }
}

/// The complaints about the first `n` positions.
pub open spec fn position_failures(positions: Seq<JsonView>, n: int) -> Seq<Seq<char>>
    decreases n,
{
    if n <= 0 {
        Seq::empty()
    } else {
        let before = position_failures(positions, n - 1);
        match position_failure(positions[n - 1]) {
            Some(m) => before.push(m),
            None => before,
        }
    }
}

/// The complaints about the positions of a dataset: bad texts and finished games.
pub fn check_positions(positions: &Vec<Json>) -> (failures: Vec<String>)
    ensures
        texts(failures@) == position_failures(items_view(positions@), positions@.len() as int),
{
    let ghost views = items_view(positions@);
    let mut failures: Vec<String> = Vec::new();
    let mut i: usize = 0;
    assert(texts(failures@) =~= Seq::empty());
    while i < positions.len()
        invariant
            i <= positions@.len(),
            views == items_view(positions@),
            texts(failures@) == position_failures(views, i as int),
        decreases positions@.len() - i,
    {
        let position = &positions[i];
        assert(views[i as int] == position.view());
        let ghost before = texts(failures@);
        let start = concat("dataset: position ", text_in_or(position, "id", "?"));
        match State::from_qfen(text_in_or(position, "qfen", "")) {
            Ok(state) => {
                if has_winning_line(&state.bb) || generate_legal_moves(&state.bb).len() == 0 {
                    let m = concat(start.as_str(), " is terminal");
                    let ghost shown = m@;
                    failures.push(m);
                    assert(texts(failures@) =~= before.push(shown));
                }
            },
            Err(e) => {
                let m = concat3(start.as_str(), " bad qfen: ", e.as_str());
                let ghost shown = m@;
                failures.push(m);
                assert(texts(failures@) =~= before.push(shown));
            },
        }
        i = i + 1;
    }
    failures
}

/// The start of a complaint about an engine in a position.
pub open spec fn on(name: Seq<char>, id: Seq<char>) -> Seq<char> {
    name + " on "@ + id
}

/// The complaint about the mover of a move.
pub open spec fn mover_failure(
    name: Seq<char>,
    id: Seq<char>,
    side: int,
    first: Seq<char>,
) -> Seq<Seq<char>> {
    match parsed_key(first) {
        Ok(key) => if key.0 != side {
            seq![
                on(name, id) + ": moved for player "@ + decimal(key.0 as nat)
                    + ", but side to move is "@ + decimal(side as nat),
            ]
        } else {
            Seq::empty()
        },
        Err(e) => seq![on(name, id) + ": "@ + e],
    }
}

/// The complaint about a second choice under the same settings.
pub open spec fn repeat_failure(
    name: Seq<char>,
    id: Seq<char>,
    first: Seq<char>,
    second: Result<Seq<char>, Seq<char>>,
) -> Seq<Seq<char>> {
    match second {
        Ok(s) => if s != first {
            seq![
                on(name, id) + ": non-deterministic under identical settings and seed ("@ + first
                    + " vs "@ + s + ")"@,
            ]
        } else {
            Seq::empty()
        },
        Err(e) => seq![on(name, id) + " reproducibility check: "@ + e],
    }
}

/// What a choice came to: the key of a move, or an error.
pub open spec fn choice_view(c: Result<String, String>) -> Result<Seq<char>, Seq<char>> {
    match c {
        Ok(s) => Ok(s@),
        Err(e) => Err(e@),
    }
}

/// The complaints about two choices of an engine in a position: the first must be a
/// move of the side to move, and the second the same move.
pub fn probe_report(
    name: &str,
    id: &str,
    side_to_move: u8,
    first: &str,
    second: &Result<String, String>,
) -> (failures: Vec<String>)
    ensures
        texts(failures@) == mover_failure(name@, id@, side_to_move as int, first@)
            + repeat_failure(name@, id@, first@, choice_view(*second)),
{
    let start = concat3(name, " on ", id);
    let mut failures: Vec<String> = Vec::new();
    match parse_move_key(first) {
        Ok((mover, _, _)) => {
            if mover != side_to_move {
                let mut m = concat(start.as_str(), ": moved for player ");
                push_decimal(&mut m, mover as u64);
                m.append(", but side to move is ");
                push_decimal(&mut m, side_to_move as u64);
                failures.push(m);
            }
        },
        Err(e) => failures.push(concat3(start.as_str(), ": ", e.as_str())),
    }
    assert(texts(failures@) =~= mover_failure(name@, id@, side_to_move as int, first@));
    let ghost before = texts(failures@);
    match second {
        Ok(s) => {
            if !same_text(s.as_str(), first) {
                let mut m = concat3(
                    start.as_str(),
                    ": non-deterministic under identical settings and seed (",
                    first,
                );
                m.append(" vs ");
                m.append(s.as_str());
                m.append(")");
                failures.push(m);
            }
        },
        Err(e) => failures.push(concat3(start.as_str(), " reproducibility check: ", e.as_str())),
    }
    assert(texts(failures@) =~= before + repeat_failure(
        name@,
        id@,
        first@,
        choice_view(*second),
    ));
    failures
}

/// The side to move that a position names; player 0 if it names none.
pub open spec fn named_side(position: JsonView) -> int {
    match at(position, "side_to_move"@) {
        JsonView::Unsigned(n) => (n % 256) as int,
        _ => 0,
    }
}

fn side_in(position: &Json) -> (s: u8)
    ensures
        s == named_side(position.view()),
{
    match position.get("side_to_move") {
        Some(v) => match v {
            Json::Unsigned(n) => (*n % 256) as u8,
            _ => 0,
        },
        None => 0,
    }
}

/// Whether `r` may be the key of the move that the engine chooses, or its error.
pub open spec fn key_chosen<A: EngineAdapter>(
    adapter: A,
    b: Seq<u16>,
    seed: u64,
    r: Result<Seq<char>, Seq<char>>,
) -> bool {
    exists|c: Result<(Move, RawMetrics), String>| #[trigger]
        choice_made(adapter, b, Some(seed), c) && r == match c {
            Ok((mv, _)) => Ok::<Seq<char>, Seq<char>>(key_of(mv)),
            Err(e) => Err::<Seq<char>, Seq<char>>(e@),
        }
}

fn choice<A: EngineAdapter>(adapter: &A, bb: &Bitboard, seed: u64) -> (r: Result<String, String>)
    requires
        adapter.ready(),
    ensures
        key_chosen(*adapter, bb@, seed, choice_view(r)),
{
    let chosen = choose_move(adapter, bb, Some(seed));
    assert(choice_made(*adapter, bb@, Some(seed), chosen));
    match chosen {
        Ok((mv, _)) => Ok(move_key(&mv)),
        Err(m) => Err(m),
    }
}

/// Whether `part` may be what is said of an engine in a position, where it chooses
/// twice: that the position is malformed, that the engine failed, or what is wrong with
/// its choices.
pub open spec fn probe_outcome<A: EngineAdapter>(
    adapter: A,
    position: JsonView,
    seed: u64,
    part: Seq<Seq<char>>,
) -> bool {
    let qfen = text_or(position, "qfen"@, ""@);
    let id = id_or_mark(position);
    let name = adapter.named();
    let b = qfen_board(qfen);
    match qfen_complaint(qfen) {
        Some(e) => part == seq![on(name, id) + ": bad qfen: "@ + e],
        None => {
            exists|first: Result<Seq<char>, Seq<char>>| #[trigger]
                key_chosen(adapter, b, seed, first) && match first {
                    Err(e) => part == seq![on(name, id) + ": "@ + e],
                    Ok(key) => exists|second: Result<Seq<char>, Seq<char>>| #[trigger]
                        key_chosen(adapter, b, seed, second) && part == mover_failure(
                            name,
                            id,
                            named_side(position),
                            key,
                        ) + repeat_failure(name, id, key, second),
                }
        },
    }
}

/// The complaints about an engine in a position, where it chooses twice.
pub fn probe_adapter<A: EngineAdapter>(adapter: &A, position: &Json, seed: u64) -> (failures: Vec<
    String,
>)
    requires
        adapter.ready(),
    ensures
        probe_outcome(*adapter, position.view(), seed, texts(failures@)),
{
    let id = text_in_or(position, "id", "?");
    let start = concat3(adapter.name(), " on ", id);
    let bb = match State::from_qfen(text_in_or(position, "qfen", "")) {
        Ok(state) => state.bb,
        Err(e) => {
            let failures: Vec<String> = vec![concat3(start.as_str(), ": bad qfen: ", e.as_str())];
            let ghost qfen = text_or(position.view(), "qfen"@, ""@);
            assert(texts(failures@) =~= seq![
                on(adapter.named(), id_or_mark(position.view())) + ": bad qfen: "@
                    + qfen_complaint(qfen)->0,
            ]);
            return failures;
        },
    };
    let asked = choice(adapter, &bb, seed);
    assert(key_chosen(*adapter, bb@, seed, choice_view(asked)));
    let first = match asked {
        Ok(key) => key,
        Err(e) => {
            let failures: Vec<String> = vec![concat3(start.as_str(), ": ", e.as_str())];
            assert(texts(failures@) =~= seq![
                on(adapter.named(), id_or_mark(position.view())) + ": "@ + e@,
            ]);
            return failures;
        },
    };
    let second = choice(adapter, &bb, seed);
    assert(key_chosen(*adapter, bb@, seed, choice_view(second)));
    let side: u8 = side_in(position);
    let failures = probe_report(adapter.name(), id, side, first.as_str(), &second);
    assert(texts(failures@) == mover_failure(
        adapter.named(),
        id_or_mark(position.view()),
        named_side(position.view()),
        first@,
    ) + repeat_failure(
        adapter.named(),
        id_or_mark(position.view()),
        first@,
        choice_view(second),
    ));
    failures
}

/// An engine whose answers are settled by the board and the seed repeats its choice: nothing
/// but its error, or a move for the wrong player, is said of it.
pub proof fn law_settled_engines_repeat<A: EngineAdapter>(
    adapter: A,
    position: JsonView,
    seed: u64,
    part: Seq<Seq<char>>,
)
    requires
        settled_by_seed(adapter),
        probe_outcome(adapter, position, seed, part),
        qfen_complaint(text_or(position, "qfen"@, ""@)) is None,
    ensures
        exists|first: Result<Seq<char>, Seq<char>>| #[trigger]
            key_chosen(adapter, qfen_board(text_or(position, "qfen"@, ""@)), seed, first) && part
                == match first {
                Err(e) => seq![on(adapter.named(), id_or_mark(position)) + ": "@ + e],
                Ok(key) => mover_failure(
                    adapter.named(),
                    id_or_mark(position),
                    named_side(position),
                    key,
                ),
            },
{
    let b = qfen_board(text_or(position, "qfen"@, ""@));
    let (name, id) = (adapter.named(), id_or_mark(position));
    let first = choose|first: Result<Seq<char>, Seq<char>>| #[trigger]
        key_chosen(adapter, b, seed, first) && match first {
            Err(e) => part == seq![on(name, id) + ": "@ + e],
            Ok(key) => exists|second: Result<Seq<char>, Seq<char>>| #[trigger]
                key_chosen(adapter, b, seed, second) && part == mover_failure(
                    name,
                    id,
                    named_side(position),
                    key,
                ) + repeat_failure(name, id, key, second),
        };
    assert(key_chosen(adapter, b, seed, first));
    if let Ok(key) = first {
        let second = choose|second: Result<Seq<char>, Seq<char>>| #[trigger]
            key_chosen(adapter, b, seed, second) && part == mover_failure(
                name,
                id,
                named_side(position),
                key,
            ) + repeat_failure(name, id, key, second);
        let c = choose|c: Result<(Move, RawMetrics), String>| #[trigger]
            choice_made(adapter, b, Some(seed), c) && first == match c {
                Ok((mv, _)) => Ok::<Seq<char>, Seq<char>>(key_of(mv)),
                Err(e) => Err::<Seq<char>, Seq<char>>(e@),
            };
        let d = choose|d: Result<(Move, RawMetrics), String>| #[trigger]
            choice_made(adapter, b, Some(seed), d) && second == match d {
                Ok((mv, _)) => Ok::<Seq<char>, Seq<char>>(key_of(mv)),
                Err(e) => Err::<Seq<char>, Seq<char>>(e@),
            };
        law_choice_is_settled(adapter, b, seed, c, d);
        assert(repeat_failure(name, id, key, second) =~= Seq::empty());
        assert(part =~= mover_failure(name, id, named_side(position), key));
    }
}

/// The positions in which each engine is probed.
pub const PROBED_POSITIONS: usize = 3;

/// Parts one after the other.
pub open spec fn in_turn(parts: Seq<Seq<Seq<char>>>) -> Seq<Seq<char>>
    decreases parts.len(),
{
    if parts.len() == 0 {
        Seq::empty()
    } else {
        in_turn(parts.drop_last()) + parts.last()
    }
}

/// The number of positions in which each engine is probed.
pub open spec fn probed(positions: Seq<JsonView>) -> int {
    if positions.len() < PROBED_POSITIONS {
        positions.len() as int
    } else {
        PROBED_POSITIONS as int
    }
}

/// Whether the parts are those of the engines, each in the probed positions.
pub open spec fn probes_ok<A: EngineAdapter>(
    adapters: Seq<A>,
    positions: Seq<JsonView>,
    parts: Seq<Seq<Seq<char>>>,
) -> bool {
    forall|i: int|
        0 <= i < parts.len() ==> probe_outcome(
            adapters[i / probed(positions)],
            positions[i % probed(positions)],
            0,
            #[trigger] parts[i],
        )
}

/// All complaints about the positions of a dataset and about the engines in the
/// first of them; none means that all is well.
pub fn run_preflight<A: EngineAdapter>(adapters: &Vec<A>, positions: &Vec<Json>) -> (failures: Vec<
    String,
>)
    requires
        forall|i: int| 0 <= i < adapters@.len() ==> (#[trigger] adapters@[i]).ready(),
    ensures
        exists|parts: Seq<Seq<Seq<char>>>| #[trigger]
            probes_ok(adapters@, items_view(positions@), parts) && parts.len()
                == adapters@.len() * probed(items_view(positions@)) && texts(failures@)
                == position_failures(items_view(positions@), positions@.len() as int) + in_turn(
                parts,
            ),
{
    let mut failures = check_positions(positions);
    let ghost found = texts(failures@);
    let ghost views = items_view(positions@);
    let ghost width = probed(views);
    let ghost mut parts: Seq<Seq<Seq<char>>> = Seq::empty();
    let mut a: usize = 0;
    assert(found + in_turn(parts) =~= found);
    assert(0 * width == 0) by (nonlinear_arith);
    while a < adapters.len()
        invariant
            a <= adapters@.len(),
            forall|i: int| 0 <= i < adapters@.len() ==> (#[trigger] adapters@[i]).ready(),
            views == items_view(positions@),
            width == probed(views),
            probes_ok(adapters@, views, parts),
            parts.len() == a * width,
            texts(failures@) == found + in_turn(parts),
        decreases adapters@.len() - a,
    {
        let mut p: usize = 0;
        while p < positions.len() && p < PROBED_POSITIONS
            invariant
                a < adapters@.len(),
                p <= width,
                forall|i: int| 0 <= i < adapters@.len() ==> (#[trigger] adapters@[i]).ready(),
                views == items_view(positions@),
                    width == probed(views),
                probes_ok(adapters@, views, parts),
                parts.len() == a * width + p,
                texts(failures@) == found + in_turn(parts),
            decreases positions@.len() - p,
        {
            let more = probe_adapter(&adapters[a], &positions[p], 0);
            let ghost start = texts(failures@);
            let ghost part = texts(more@);
            let mut k: usize = 0;
            assert(start + part.take(0) =~= start);
            while k < more.len()
                invariant
                    k <= more@.len(),
                    part == texts(more@),
                    texts(failures@) == start + part.take(k as int),
                decreases more@.len() - k,
            {
                let ghost before = texts(failures@);
                let m = more[k].clone();
                let ghost shown = m@;
                failures.push(m);
                proof {
                    assert(texts(failures@) =~= before.push(shown));
                    assert(part[k as int] == shown);
                    assert(start + part.take(k + 1) =~= (start + part.take(k as int)).push(shown));
                }
                k = k + 1;
            }
            proof {
                assert(part.take(k as int) =~= part);
                let i = parts.len() as int;
                let longer = parts.push(part);
                assert(longer.drop_last() =~= parts);
                assert(found + in_turn(longer) =~= start + part);
                assert(i / width == a && i % width == p) by (nonlinear_arith)
                    requires
                        i == a * width + p,
                        0 <= p < width,
                ;
                assert(views[p as int] == positions@[p as int].view());
                assert(probes_ok(adapters@, views, longer));
                parts = longer;
            }
            p = p + 1;
        }
        proof {
            assert(a * width + width == (a + 1) * width) by (nonlinear_arith);
        }
        a = a + 1;
    }
    failures
}

} // verus!
