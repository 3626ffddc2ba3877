//! Benchmark artifacts as rows for training and analytics.
use crate::bench::actions::{
    action_index, action_legal, board_complaint, canonical_key_hex, law_mask_marks_legal_actions,
    law_valid_boards, legal_action_mask, mask_bit, mask_of,
};
use crate::bench::canonical::{
    canonical_json, digits_value, is_scientific, json_text, place_of_e, within_unit,
};
use crate::bench::contracts::{
    GAME_RESULT_CONTRACT_VERSION, GAME_RESULT_SCHEMA, OBSERVATION_CONTRACT_VERSION,
    OBSERVATION_SCHEMA, SEARCH_SUMMARY_CONTRACT_VERSION, SEARCH_SUMMARY_SCHEMA,
};
use crate::bench::fields::{
    actions_items_complaint, as_float, at, complain, concat, copy_of, either, float_of, is_blank,
    is_white, numbers_field, numbers_items_complaint, text_at, text_in, text_in_or, text_or,
};
use crate::bench::game_result::{
    actions_json, actions_view, game_result_complaint, game_result_of,
};
use crate::bench::json::{
    field, find_member, items_view, lemma_member_at, lemma_member_push, member, members_view,
    number_or_null, Json, JsonView,
};
use crate::bench::observation::{
    illegal_visits_complaint, numbers_json, numbers_view, observation_complaint, observation_of,
    plane_items_complaint, planes_field,
};
use crate::bench::reference::{parse_move_key, parsed_key};
use crate::bench::selfplay::{planes_json, planes_view};
use crate::bitboard::{lemma_popcount, taken, Bitboard};
use crate::constants::PACKAGE_VERSION;
use crate::game::{current_player, to_move, total_pieces};
use crate::game_value::lemma_pieces_fill_cells;
use crate::moves::Move;
use crate::qfen::{disjoint_planes, is_qfen, qfen_board, qfen_complaint, qfen_describes};
use crate::search_telemetry::{Ratio, RootMoveStat, SearchTelemetry};
use crate::state::{canonical_key_of, State};
use crate::text::{
    decimal, hex_char, hex_of, number_of, padded, push_decimal, push_padded, same_text, split_text,
};
use vstd::prelude::*;
use vstd::string::*;

verus! {

/// The last of the first `n` positions whose `id` is `id`.
pub open spec fn position_with(items: Seq<JsonView>, n: int, id: Seq<char>) -> Option<JsonView>
    decreases n,
{
    if n <= 0 {
        None
    } else if text_at(items[n - 1], "id"@) == Some(id) {
        Some(items[n - 1])
    } else {
        position_with(items, n - 1, id)
    }
}

/// Why a dataset's positions cannot be looked up.
pub open spec fn lookup_complaint(dataset: JsonView) -> Option<Seq<char>> {
    match at(dataset, "positions"@) {
        JsonView::Array(items) => complain(
            exists|i: int| 0 <= i < items.len() && text_at(#[trigger] items[i], "id"@) is None,
            "dataset position missing id"@,
        ),
        _ => Some("dataset has no positions"@),
    }
}

/// The positions of a dataset by their ids. Of several with one id the last
/// counts.
pub fn position_lookup(dataset_payload: &Json) -> (r: Result<Vec<(String, Json)>, String>)
    ensures
        match r {
            Ok(by_id) => {
                &&& lookup_complaint(dataset_payload.view()) is None
                &&& forall|id: Seq<char>| #[trigger]
                    member(members_view(by_id@), id) == position_with(
                        at(dataset_payload.view(), "positions"@)->Array_0,
                        at(dataset_payload.view(), "positions"@)->Array_0.len() as int,
                        id,
                    )
            },
            Err(m) => lookup_complaint(dataset_payload.view()) == Some(m@),
        },
{
    let items = match dataset_payload.get("positions") {
        Some(v) => match v {
            Json::Array(items) => items,
            _ => return Err("dataset has no positions".to_owned()),
        },
        None => return Err("dataset has no positions".to_owned()),
    };
    let ghost views = items_view(items@);
    let n: usize = items.len();
    let mut by_id: Vec<(String, Json)> = Vec::new();
    let mut i: usize = n;
    assert(members_view(by_id@) =~= Seq::empty());
    while i > 0
        invariant
            i <= n,
            n == items@.len(),
            views == items_view(items@),
            at(dataset_payload.view(), "positions"@) == JsonView::Array(views),
            forall|k: int| i <= k < n ==> text_at(#[trigger] views[k], "id"@) is Some,
            forall|id: Seq<char>| #[trigger]
                position_with(views, n as int, id) == (match member(members_view(by_id@), id) {
                    Some(v) => Some(v),
                    None => position_with(views, i as int, id),
                }),
        decreases i,
    {
        let ghost before = members_view(by_id@);
        assert(views[i - 1] == items@[i - 1].view());
        let id = match text_in(&items[i - 1], "id") {
            Some(id) => id,
            None => {
                assert(text_at(views[i - 1], "id"@) is None);
                return Err("dataset position missing id".to_owned());
            },
        };
        let ghost name = id@;
        by_id.push((id.to_owned(), items[i - 1].copy()));
        let ghost after = members_view(by_id@);
        proof {
            assert(after =~= before.push((name, views[i - 1])));
            assert forall|id: Seq<char>| #[trigger] position_with(views, n as int, id) == (
            match member(after, id) {
                Some(v) => Some(v),
                None => position_with(views, i - 1, id),
            }) by {
                lemma_member_push(before, (name, views[i - 1]), id);
            }
        }
        i = i - 1;
    }
    proof {
        assert forall|id: Seq<char>| #[trigger]
            member(members_view(by_id@), id) == position_with(views, n as int, id) by {
            let p = position_with(views, n as int, id);
        }
    }
    Ok(by_id)
}

/// The move of a benchmark row, if it names one.
pub open spec fn row_move(row: JsonView) -> Option<Seq<char>> {
    text_at(row, "move"@)
}

/// Whether a move key, if it can be read, names one of the sixty-four actions.
pub open spec fn names_action(key: Seq<char>) -> bool {
    let parts = split_text(key, ':');
    parts.len() == 3 ==> match (number_of(parts[1], 255), number_of(parts[2], 255)) {
        (Ok(shape), Ok(position)) => shape * 16 + position < 64,
        _ => true,
    }
}

/// Whether the move of a benchmark row, if it has one, names an action.
pub open spec fn row_names_action(row: JsonView) -> bool {
    row_move(row) matches Some(key) ==> names_action(key)
}

/// The first thing that keeps a benchmark row from becoming an observation.
pub open spec fn projection_complaint(row: JsonView, position: JsonView) -> Option<Seq<char>> {
    match text_at(position, "qfen"@) {
        None => Some("dataset position missing qfen"@),
        Some(qfen) => either(
            qfen_complaint(qfen),
            match row_move(row) {
                None => Some("benchmark observation missing move"@),
                Some(key) => match parsed_key(key) {
                    Err(e) => Some(e),
                    Ok(_) => complain(
                        to_move(qfen_board(qfen)) is None,
                        "inconsistent side to move"@,
                    ),
                },
            },
        ),
    }
}

/// The action that a benchmark row selected.
pub open spec fn row_action(row: JsonView) -> int {
    let key = parsed_key(row_move(row)->0)->Ok_0;
    key.1 * 16 + key.2
}

/// Whether a benchmark row says that its score is exact.
pub open spec fn is_exact(row: JsonView) -> bool {
    at(row, "exact"@) == JsonView::Bool(true)
}

/// The score of a benchmark row; zero if it has none.
pub open spec fn score_or_zero(row: JsonView) -> Seq<char> {
    match float_of(at(row, "score"@)) {
        Some(s) => s,
        None => "0e0"@,
    }
}

/// One visit of action `a` and none of the others.
pub open spec fn one_visit(a: int) -> JsonView {
    JsonView::Array(
        Seq::new(
            64,
            |i: int|
                JsonView::Unsigned(
                    if i == a {
                        1
                    } else {
                        0
                    },
                ),
        ),
    )
}

/// `value` for action `a` and zero for the others.
pub open spec fn one_value(a: int, value: Seq<char>) -> JsonView {
    JsonView::Array(
        Seq::new(
            64,
            |i: int|
                JsonView::Float(
                    if i == a {
                        value
                    } else {
                        "0e0"@
                    },
                ),
        ),
    )
}

fn one_visit_json(a: usize) -> (j: Json)
    ensures
        j.view() == one_visit(a as int),
{
    let mut items: Vec<Json> = Vec::new();
    let mut i: usize = 0;
    while i < 64
        invariant
            i <= 64,
            items@.len() == i,
            forall|k: int|
                0 <= k < i ==> (#[trigger] items@[k]).view() == one_visit(a as int)->Array_0[k],
        decreases 64 - i,
    {
        items.push(
            Json::Unsigned(
                if i == a {
                    1
                } else {
                    0
                },
            ),
        );
        i = i + 1;
    }
    assert(items_view(items@) =~= one_visit(a as int)->Array_0);
    Json::Array(items)
}

fn one_value_json(a: usize, value: &str) -> (j: Json)
    ensures
        j.view() == one_value(a as int, value@),
{
    let mut items: Vec<Json> = Vec::new();
    let mut i: usize = 0;
    while i < 64
        invariant
            i <= 64,
            items@.len() == i,
            forall|k: int|
                0 <= k < i ==> (#[trigger] items@[k]).view() == one_value(
                    a as int,
                    value@,
                )->Array_0[k],
        decreases 64 - i,
    {
        if i == a {
            items.push(Json::Float(value.to_owned()));
        } else {
            items.push(Json::Float("0e0".to_owned()));
        }
        i = i + 1;
    }
    assert(items_view(items@) =~= one_value(a as int, value@)->Array_0);
    Json::Array(items)
}

/// The observation that a benchmark row becomes.
pub open spec fn projected_observation(
    row_id: u64,
    run_id: Seq<char>,
    row: JsonView,
    position: JsonView,
    elapsed_ms: u64,
) -> JsonView {
    let qfen = text_at(position, "qfen"@)->0;
    let b = qfen_board(qfen);
    JsonView::Object(
        seq![
            ("beam_width"@, JsonView::Null),
            ("bitboards"@, planes_view(b)),
            ("contract_version"@, JsonView::Text(OBSERVATION_CONTRACT_VERSION@)),
            ("elapsed_ms"@, JsonView::Unsigned(elapsed_ms)),
            ("engine_checkpoint"@, JsonView::Null),
            (
                "engine_kind"@,
                JsonView::Text(
                    match text_at(row, "engine"@) {
                        Some(s) => s,
                        None => "unknown"@,
                    },
                ),
            ),
            ("engine_version"@, JsonView::Text(PACKAGE_VERSION@)),
            ("legal_action_mask"@, JsonView::Unsigned(mask_of(b))),
            ("node_budget"@, at(row, "nodes"@)),
            ("ply"@, JsonView::Unsigned(total_pieces(b) as u64)),
            ("policy_priors"@, JsonView::Null),
            ("policy_visits"@, one_visit(row_action(row))),
            ("position_key"@, JsonView::Text(hex_of(canonical_key_of(b)))),
            ("principal_variation"@, JsonView::Null),
            ("qfen"@, JsonView::Text(qfen)),
            ("rollouts"@, at(row, "iterations"@)),
            ("root_q_values"@, one_value(row_action(row), score_or_zero(row))),
            ("row_id"@, JsonView::Unsigned(row_id)),
            ("run_id"@, JsonView::Text(run_id)),
            ("schema"@, JsonView::Text(OBSERVATION_SCHEMA@)),
            ("search_depth"@, at(row, "depth_reached"@)),
            ("seed"@, at(row, "seed"@)),
            ("side_to_move"@, JsonView::Unsigned(to_move(b)->0 as u64)),
            (
                "source_confidence"@,
                JsonView::Float(
                    if is_exact(row) {
                        "1e0"@
                    } else {
                        "5e-1"@
                    },
                ),
            ),
            ("time_budget_ms"@, JsonView::Null),
            ("value"@, JsonView::Float(score_or_zero(row))),
            (
                "value_source"@,
                JsonView::Text(
                    if is_exact(row) {
                        "exact"@
                    } else {
                        "heuristic"@
                    },
                ),
            ),
        ],
    )
}

/// The number of pieces on a board.
fn ply_of(bb: &Bitboard) -> (n: u64)
    ensures
        n == total_pieces(bb@),
        n <= 256,
{
    bb.player_piece_count(0) as u64 + bb.player_piece_count(1) as u64
}

/// A benchmark row as an observation. `elapsed_ms` is the row's wall-clock time
/// in milliseconds.
pub fn observation_v1_row(
    row_id: u64,
    run_id: &str,
    benchmark_row: &Json,
    position: &Json,
    elapsed_ms: u64,
) -> (r: Result<Json, String>)
    requires
        row_names_action(benchmark_row.view()),
    ensures
        match r {
            Ok(j) => projection_complaint(benchmark_row.view(), position.view()) is None
                && j.view() == projected_observation(
                row_id,
                run_id@,
                benchmark_row.view(),
                position.view(),
                elapsed_ms,
            ),
            Err(m) => projection_complaint(benchmark_row.view(), position.view()) == Some(m@),
        },
{
    let qfen = match text_in(position, "qfen") {
        Some(q) => q,
        None => return Err("dataset position missing qfen".to_owned()),
    };
    let state = State::from_qfen(qfen)?;
    let bb = state.bb;
    let key = match text_in(benchmark_row, "move") {
        Some(k) => k,
        None => return Err("benchmark observation missing move".to_owned()),
    };
    let (_, shape, cell) = parse_move_key(key)?;
    let action: usize = action_index(shape, cell) as usize;
    let score = match benchmark_row.get("score") {
        Some(v) => as_float(v),
        None => None,
    };
    let score: String = match score {
        Some(s) => s,
        None => "0e0".to_owned(),
    };
    let exact: bool = match benchmark_row.get("exact") {
        Some(v) => match v {
            Json::Bool(b) => *b,
            _ => false,
        },
        None => false,
    };
    let engine: &str = match text_in(benchmark_row, "engine") {
        Some(s) => s,
        None => "unknown",
    };
    let side: u8 = match current_player(&bb) {
        Some(p) => p,
        None => return Err("inconsistent side to move".to_owned()),
    };
    let confidence: &str = if exact {
        "1e0"
    } else {
        "5e-1"
    };
    let source: &str = if exact {
        "exact"
    } else {
        "heuristic"
    };
    let members: Vec<(String, Json)> = vec![
        field("beam_width", Json::Null),
        field("bitboards", planes_json(&bb)),
        field("contract_version", Json::text(OBSERVATION_CONTRACT_VERSION)),
        field("elapsed_ms", Json::Unsigned(elapsed_ms)),
        field("engine_checkpoint", Json::Null),
        field("engine_kind", Json::text(engine)),
        field("engine_version", Json::text(PACKAGE_VERSION)),
        field("legal_action_mask", Json::Unsigned(legal_action_mask(&bb))),
        field("node_budget", copy_of(benchmark_row, "nodes")),
        field("ply", Json::Unsigned(ply_of(&bb))),
        field("policy_priors", Json::Null),
        field("policy_visits", one_visit_json(action)),
        field("position_key", Json::Text(canonical_key_hex(&state))),
        field("principal_variation", Json::Null),
        field("qfen", Json::text(qfen)),
        field("rollouts", copy_of(benchmark_row, "iterations")),
        field("root_q_values", one_value_json(action, score.as_str())),
        field("row_id", Json::Unsigned(row_id)),
        field("run_id", Json::text(run_id)),
        field("schema", Json::text(OBSERVATION_SCHEMA)),
        field("search_depth", copy_of(benchmark_row, "depth_reached")),
        field("seed", copy_of(benchmark_row, "seed")),
        field("side_to_move", Json::Unsigned(side as u64)),
        field("source_confidence", Json::Float(confidence.to_owned())),
        field("time_budget_ms", Json::Null),
        field("value", Json::Float(score)),
        field("value_source", Json::text(source)),
    ];
    assert(members_view(members@) =~= projected_observation(
        row_id,
        run_id@,
        benchmark_row.view(),
        position.view(),
        elapsed_ms,
    )->Object_0);
    Ok(Json::Object(members))
}

/// The first thing that keeps a record of a game from becoming a game result.
pub open spec fn result_complaint(record: JsonView, position: JsonView) -> Option<Seq<char>> {
    match text_at(position, "qfen"@) {
        None => Some("dataset position missing qfen"@),
        Some(qfen) => either(
            qfen_complaint(qfen),
            either(
                complain(to_move(qfen_board(qfen)) is None, "inconsistent side to move"@),
                either(
                    complain(text_at(record, "mover"@) is None, "h2h missing mover"@),
                    either(
                        complain(text_at(record, "responder"@) is None, "h2h missing responder"@),
                        complain(text_at(record, "winner"@) is None, "h2h missing winner"@),
                    ),
                ),
            ),
        ),
    }
}

/// The engine that plays `player`: the mover has the side to move.
pub open spec fn engine_of(record: JsonView, side: u8, player: u8) -> Seq<char> {
    if side == player {
        text_at(record, "mover"@)->0
    } else {
        text_at(record, "responder"@)->0
    }
}

/// The game result that a record of a game becomes.
pub open spec fn projected_result(
    row_id: u64,
    run_id: Seq<char>,
    started_at: Seq<char>,
    record: JsonView,
    position: JsonView,
) -> JsonView {
    let qfen = text_at(position, "qfen"@)->0;
    let b = qfen_board(qfen);
    let side = to_move(b)->0;
    JsonView::Object(
        seq![
            ("contract_version"@, JsonView::Text(GAME_RESULT_CONTRACT_VERSION@)),
            ("game_id"@, JsonView::Text(run_id + seq!['-'] + padded(row_id as nat, 8))),
            ("hardware"@, JsonView::Null),
            ("initial_position_key"@, JsonView::Text(hex_of(canonical_key_of(b)))),
            (
                "move_action_indices"@,
                match at(record, "move_action_indices"@) {
                    JsonView::Array(items) => JsonView::Array(items),
                    _ => JsonView::Array(Seq::empty()),
                },
            ),
            ("node_budget_per_move"@, JsonView::Null),
            ("opening_book_id"@, JsonView::Null),
            ("p0_engine_checkpoint"@, JsonView::Null),
            ("p0_engine_kind"@, JsonView::Text(engine_of(record, side, 0))),
            ("p0_engine_version"@, JsonView::Text(PACKAGE_VERSION@)),
            ("p1_engine_checkpoint"@, JsonView::Null),
            ("p1_engine_kind"@, JsonView::Text(engine_of(record, side, 1))),
            ("p1_engine_version"@, JsonView::Text(PACKAGE_VERSION@)),
            ("plies"@, at(record, "plies"@)),
            ("position_keys"@, JsonView::Null),
            ("run_id"@, JsonView::Text(run_id)),
            ("schema"@, JsonView::Text(GAME_RESULT_SCHEMA@)),
            ("seed"@, at(record, "seed"@)),
            ("started_at"@, JsonView::Text(started_at)),
            ("terminal_reason"@, JsonView::Text("win_condition_or_no_legal_moves"@)),
            ("time_budget_ms_per_move"@, JsonView::Null),
            (
                "winner"@,
                JsonView::Unsigned(
                    if text_at(record, "winner"@)->0 == engine_of(record, side, 0) {
                        0
                    } else {
                        1
                    },
                ),
            ),
        ],
    )
}

/// A record of a game between two engines as a game result.
pub fn game_result_v1_row(
    row_id: u64,
    run_id: &str,
    started_at: &str,
    h2h_record: &Json,
    position: &Json,
) -> (r: Result<Json, String>)
    ensures
        match r {
            Ok(j) => result_complaint(h2h_record.view(), position.view()) is None && j.view()
                == projected_result(
                row_id,
                run_id@,
                started_at@,
                h2h_record.view(),
                position.view(),
            ),
            Err(m) => result_complaint(h2h_record.view(), position.view()) == Some(m@),
        },
{
    let qfen = match text_in(position, "qfen") {
        Some(q) => q,
        None => return Err("dataset position missing qfen".to_owned()),
    };
    let state = State::from_qfen(qfen)?;
    let side: u8 = match current_player(&state.bb) {
        Some(p) => p,
        None => return Err("inconsistent side to move".to_owned()),
    };
    let mover = match text_in(h2h_record, "mover") {
        Some(s) => s,
        None => return Err("h2h missing mover".to_owned()),
    };
    let responder = match text_in(h2h_record, "responder") {
        Some(s) => s,
        None => return Err("h2h missing responder".to_owned()),
    };
    let (p0_engine, p1_engine) = if side == 0 {
        (mover, responder)
    } else {
        (responder, mover)
    };
    let winner_engine = match text_in(h2h_record, "winner") {
        Some(s) => s,
        None => return Err("h2h missing winner".to_owned()),
    };
    let winner: u64 = if same_text(winner_engine, p0_engine) {
        0
    } else {
        1
    };
    let actions = match copy_of(h2h_record, "move_action_indices") {
        Json::Array(items) => Json::Array(items),
        _ => {
            let none: Vec<Json> = Vec::new();
            assert(items_view(none@) =~= Seq::empty());
            Json::Array(none)
        },
    };
    let mut game_id = concat(run_id, "-");
    proof {
        reveal_strlit("-");
        assert("-"@ =~= seq!['-']);
    }
    push_padded(&mut game_id, row_id, 8);
    let members: Vec<(String, Json)> = vec![
        field("contract_version", Json::text(GAME_RESULT_CONTRACT_VERSION)),
        field("game_id", Json::Text(game_id)),
        field("hardware", Json::Null),
        field("initial_position_key", Json::Text(canonical_key_hex(&state))),
        field("move_action_indices", actions),
        field("node_budget_per_move", Json::Null),
        field("opening_book_id", Json::Null),
        field("p0_engine_checkpoint", Json::Null),
        field("p0_engine_kind", Json::text(p0_engine)),
        field("p0_engine_version", Json::text(PACKAGE_VERSION)),
        field("p1_engine_checkpoint", Json::Null),
        field("p1_engine_kind", Json::text(p1_engine)),
        field("p1_engine_version", Json::text(PACKAGE_VERSION)),
        field("plies", copy_of(h2h_record, "plies")),
        field("position_keys", Json::Null),
        field("run_id", Json::text(run_id)),
        field("schema", Json::text(GAME_RESULT_SCHEMA)),
        field("seed", copy_of(h2h_record, "seed")),
        field("started_at", Json::text(started_at)),
        field("terminal_reason", Json::text("win_condition_or_no_legal_moves")),
        field("time_budget_ms_per_move", Json::Null),
        field("winner", Json::Unsigned(winner)),
    ];
    assert(members_view(members@) =~= projected_result(
        row_id,
        run_id@,
        started_at@,
        h2h_record.view(),
        position.view(),
    )->Object_0);
    Ok(Json::Object(members))
}

/// The configuration of an engine run that a search summary repeats.
pub struct SearchSummaryRunConfig<'a> {
    pub config_label: &'a str,
    pub search_depth: Option<u32>,
    pub rollouts: Option<u64>,
    pub beam_width: Option<u64>,
    pub node_budget: Option<u64>,
    pub time_budget_ms: Option<u64>,
}

/// The mass of the last of the first `n` root moves with action `a`; zero if
/// there is none.
pub open spec fn mass_of(stats: Seq<RootMoveStat>, n: int, a: int) -> u64
    decreases n,
{
    if n <= 0 {
        0
    } else if stats[n - 1].action_index == a {
        stats[n - 1].policy_mass
    } else {
        mass_of(stats, n - 1, a)
    }
}

/// The value of the last of the first `n` root moves with action `a` that has
/// one.
pub open spec fn value_of(stats: Seq<RootMoveStat>, n: int, a: int) -> Option<Ratio>
    decreases n,
{
    if n <= 0 {
        None
    } else if stats[n - 1].action_index == a && stats[n - 1].q is Some {
        stats[n - 1].q
    } else {
        value_of(stats, n - 1, a)
    }
}

/// The complaint about the action numbers of the root moves from the one at `i`
/// on.
pub open spec fn stats_complaint(stats: Seq<RootMoveStat>, i: int) -> Option<Seq<char>>
    decreases stats.len() - i,
{
    if i < 0 || i >= stats.len() {
        None
    } else {
        either(
            complain(
                stats[i].action_index >= 64,
                "root move action_index "@ + decimal(stats[i].action_index as nat)
                    + " out of range (must be < 64)"@,
            ),
            stats_complaint(stats, i + 1),
        )
    }
}

/// The first thing that keeps a search from being summarised.
pub open spec fn summary_complaint(qfen: Seq<char>, stats: Seq<RootMoveStat>) -> Option<Seq<char>> {
    either(
        qfen_complaint(qfen),
        either(
            complain(to_move(qfen_board(qfen)) is None, "inconsistent side to move"@),
            stats_complaint(stats, 0),
        ),
    )
}

/// Whether `v` is how `write` puts an optional value: null for none, else a
/// floating number.
pub open spec fn written<F: Fn(Ratio) -> String>(write: F, q: Option<Ratio>, v: JsonView) -> bool {
    match q {
        None => v is Null,
        Some(q) => exists|t: String| call_ensures(write, (q,), t) && v == JsonView::Float(t@),
    }
}

/// A search summary, given the root value and the values of the actions as JSON.
pub open spec fn summary_record(
    row_id: u64,
    run_id: Seq<char>,
    qfen: Seq<char>,
    t: SearchTelemetry,
    config: SearchSummaryRunConfig,
    root_value: JsonView,
    q_values: Seq<JsonView>,
) -> JsonView {
    let b = qfen_board(qfen);
    JsonView::Object(
        seq![
            ("beam_width"@, number_or_null(config.beam_width)),
            ("bitboards"@, planes_view(b)),
            ("canonical_dedup_hits"@, JsonView::Unsigned(t.counters.canonical_dedup_hits)),
            ("config_label"@, JsonView::Text(config.config_label@)),
            ("contract_version"@, JsonView::Text(SEARCH_SUMMARY_CONTRACT_VERSION@)),
            ("depth_reached"@, JsonView::Unsigned(t.depth_reached as u64)),
            ("elapsed_ms"@, JsonView::Unsigned(t.elapsed_ms)),
            ("engine_checkpoint"@, JsonView::Null),
            ("engine_kind"@, JsonView::Text(t.engine_kind.label())),
            ("engine_version"@, JsonView::Text(PACKAGE_VERSION@)),
            ("expanded_nodes"@, JsonView::Unsigned(t.counters.expanded_nodes)),
            ("generated_nodes"@, JsonView::Unsigned(t.counters.generated_nodes)),
            ("legal_action_mask"@, JsonView::Unsigned(mask_of(b))),
            ("node_budget"@, number_or_null(config.node_budget)),
            ("ply"@, JsonView::Unsigned(total_pieces(b) as u64)),
            ("policy_mass_kind"@, JsonView::Text(t.policy_mass_kind.label())),
            (
                "policy_visits"@,
                numbers_view(
                    Seq::new(64, |a: int| mass_of(t.root_moves@, t.root_moves@.len() as int, a)),
                ),
            ),
            ("position_key"@, JsonView::Text(hex_of(canonical_key_of(b)))),
            (
                "principal_variation"@,
                actions_view(
                    t.principal_variation@.map_values(
                        |m: Move| (m.shape * 16 + m.position) as u8,
                    ),
                ),
            ),
            ("qfen"@, JsonView::Text(qfen)),
            ("rollouts"@, number_or_null(config.rollouts)),
            ("root_q_values"@, JsonView::Array(q_values)),
            ("root_value"@, root_value),
            ("row_id"@, JsonView::Unsigned(row_id)),
            ("run_id"@, JsonView::Text(run_id)),
            ("schema"@, JsonView::Text(SEARCH_SUMMARY_SCHEMA@)),
            (
                "search_depth"@,
                match config.search_depth {
                    Some(d) => JsonView::Unsigned(d as u64),
                    None => JsonView::Null,
                },
            ),
            ("seed"@, number_or_null(t.seed)),
            ("side_to_move"@, JsonView::Unsigned(to_move(b)->0 as u64)),
            ("tablebase_hits"@, JsonView::Unsigned(t.counters.tablebase_hits)),
            ("terminal_hits"@, JsonView::Unsigned(t.counters.terminal_hits)),
            ("time_budget_ms"@, number_or_null(config.time_budget_ms)),
            ("transposition_hits"@, JsonView::Unsigned(t.counters.transposition_hits)),
        ],
    )
}

/// The masses and values of the actions of a search.
fn spread_stats(stats: &Vec<RootMoveStat>) -> (r: Result<
    (Vec<u64>, Vec<Option<Ratio>>),
    String,
>)
    ensures
        match r {
            Ok((masses, values)) => {
                &&& stats_complaint(stats@, 0) is None
                &&& masses@.len() == 64
                &&& values@.len() == 64
                &&& forall|a: int|
                    0 <= a < 64 ==> #[trigger] masses@[a] == mass_of(
                        stats@,
                        stats@.len() as int,
                        a,
                    )
                &&& forall|a: int|
                    0 <= a < 64 ==> #[trigger] values@[a] == value_of(
                        stats@,
                        stats@.len() as int,
                        a,
                    )
            },
            Err(m) => stats_complaint(stats@, 0) == Some(m@),
        },
{
    let mut masses: Vec<u64> = Vec::new();
    let mut values: Vec<Option<Ratio>> = Vec::new();
    let mut a: usize = 0;
    while a < 64
        invariant
            a <= 64,
            masses@.len() == a,
            values@.len() == a,
            forall|k: int| 0 <= k < a ==> #[trigger] masses@[k] == 0,
            forall|k: int| 0 <= k < a ==> #[trigger] values@[k] is None,
        decreases 64 - a,
    {
        masses.push(0);
        values.push(None);
        a = a + 1;
    }
    let mut i: usize = 0;
    while i < stats.len()
        invariant
            i <= stats@.len(),
            masses@.len() == 64,
            values@.len() == 64,
            stats_complaint(stats@, 0) == stats_complaint(stats@, i as int),
            forall|k: int| 0 <= k < 64 ==> #[trigger] masses@[k] == mass_of(stats@, i as int, k),
            forall|k: int| 0 <= k < 64 ==> #[trigger] values@[k] == value_of(stats@, i as int, k),
        decreases stats@.len() - i,
    {
        let stat = stats[i];
        let idx: usize = stat.action_index as usize;
        if idx >= 64 {
            let mut m = "root move action_index ".to_owned();
            push_decimal(&mut m, idx as u64);
            m.append(" out of range (must be < 64)");
            return Err(m);
        }
        masses[idx] = stat.policy_mass;
        if stat.q.is_some() {
            values[idx] = stat.q;
        }
        i = i + 1;
    }
    Ok((masses, values))
}

/// One row for a single finished search, or nothing where merging may have
/// collapsed root moves onto shared statistics. `write` puts a ratio as a
/// floating number in shortest scientific notation.
pub fn search_summary_row<F: Fn(Ratio) -> String>(
    row_id: u64,
    run_id: &str,
    qfen: &str,
    telemetry: &SearchTelemetry,
    run_config: &SearchSummaryRunConfig,
    write: &F,
) -> (r: Result<Option<Json>, String>)
    requires
        forall|q: Ratio| #[trigger] call_requires(*write, (q,)),
        forall|i: int|
            0 <= i < telemetry.principal_variation@.len() ==> (
            #[trigger] telemetry.principal_variation@[i]).in_range(),
    ensures
        !telemetry.root_identity_preserved ==> r == Ok::<Option<Json>, String>(None),
        telemetry.root_identity_preserved ==> match r {
            Ok(Some(j)) => {
                &&& summary_complaint(qfen@, telemetry.root_moves@) is None
                &&& exists|root_value: JsonView, q_values: Seq<JsonView>|
                    {
                        &&& j.view() == #[trigger] summary_record(
                            row_id,
                            run_id@,
                            qfen@,
                            *telemetry,
                            *run_config,
                            root_value,
                            q_values,
                        )
                        &&& written(*write, Some(telemetry.root_value), root_value)
                        &&& q_values.len() == 64
                        &&& forall|a: int|
                            0 <= a < 64 ==> written(
                                *write,
                                value_of(
                                    telemetry.root_moves@,
                                    telemetry.root_moves@.len() as int,
                                    a,
                                ),
                                #[trigger] q_values[a],
                            )
                    }
            },
            Ok(None) => false,
            Err(m) => summary_complaint(qfen@, telemetry.root_moves@) == Some(m@),
        },
{
    if !telemetry.root_identity_preserved {
        return Ok(None);
    }
    let state = State::from_qfen(qfen)?;
    let bb = state.bb;
    let side: u8 = match current_player(&bb) {
        Some(p) => p,
        None => return Err("inconsistent side to move".to_owned()),
    };
    let (masses, values) = spread_stats(&telemetry.root_moves)?;
    let ghost stats = telemetry.root_moves@;
    let mut q_values: Vec<Json> = Vec::new();
    let mut a: usize = 0;
    while a < 64
        invariant
            a <= 64,
            values@.len() == 64,
            q_values@.len() == a,
            forall|q: Ratio| #[trigger] call_requires(*write, (q,)),
            forall|k: int|
                0 <= k < a ==> written(*write, values@[k], (#[trigger] q_values@[k]).view()),
        decreases 64 - a,
    {
        match values[a] {
            Some(q) => {
                let text = write(q);
                q_values.push(Json::Float(text));
            },
            None => q_values.push(Json::Null),
        }
        a = a + 1;
    }
    let mut line: Vec<u8> = Vec::new();
    let mut i: usize = 0;
    while i < telemetry.principal_variation.len()
        invariant
            i <= telemetry.principal_variation@.len(),
            line@.len() == i,
            forall|k: int|
                0 <= k < telemetry.principal_variation@.len() ==> (
                #[trigger] telemetry.principal_variation@[k]).in_range(),
            forall|k: int|
                0 <= k < i ==> #[trigger] line@[k] == (telemetry.principal_variation@[k].shape * 16
                    + telemetry.principal_variation@[k].position) as u8,
        decreases telemetry.principal_variation@.len() - i,
    {
        let mv = telemetry.principal_variation[i];
        assert(telemetry.principal_variation@[i as int].in_range());
        line.push(action_index(mv.shape, mv.position));
        i = i + 1;
    }
    let root_value = Json::Float(write(telemetry.root_value));
    let ghost q_views = items_view(q_values@);
    let ghost root_view = root_value.view();
    proof {
        assert(masses@ =~= Seq::new(64, |a: int| mass_of(stats, stats.len() as int, a)));
        assert(line@ =~= telemetry.principal_variation@.map_values(
            |m: Move| (m.shape * 16 + m.position) as u8,
        ));
    }
    let search_depth: Option<u64> = match run_config.search_depth {
        Some(d) => Some(d as u64),
        None => None,
    };
    let members: Vec<(String, Json)> = vec![
        field("beam_width", Json::optional_number(run_config.beam_width)),
        field("bitboards", planes_json(&bb)),
        field("canonical_dedup_hits", Json::Unsigned(telemetry.counters.canonical_dedup_hits)),
        field("config_label", Json::text(run_config.config_label)),
        field("contract_version", Json::text(SEARCH_SUMMARY_CONTRACT_VERSION)),
        field("depth_reached", Json::Unsigned(telemetry.depth_reached as u64)),
        field("elapsed_ms", Json::Unsigned(telemetry.elapsed_ms)),
        field("engine_checkpoint", Json::Null),
        field("engine_kind", Json::text(telemetry.engine_kind.as_str())),
        field("engine_version", Json::text(PACKAGE_VERSION)),
        field("expanded_nodes", Json::Unsigned(telemetry.counters.expanded_nodes)),
        field("generated_nodes", Json::Unsigned(telemetry.counters.generated_nodes)),
        field("legal_action_mask", Json::Unsigned(legal_action_mask(&bb))),
        field("node_budget", Json::optional_number(run_config.node_budget)),
        field("ply", Json::Unsigned(ply_of(&bb))),
        field("policy_mass_kind", Json::text(telemetry.policy_mass_kind.as_str())),
        field("policy_visits", numbers_json(&masses)),
        field("position_key", Json::Text(canonical_key_hex(&state))),
        field("principal_variation", actions_json(&line)),
        field("qfen", Json::text(qfen)),
        field("rollouts", Json::optional_number(run_config.rollouts)),
        field("root_q_values", Json::Array(q_values)),
        field("root_value", root_value),
        field("row_id", Json::Unsigned(row_id)),
        field("run_id", Json::text(run_id)),
        field("schema", Json::text(SEARCH_SUMMARY_SCHEMA)),
        field("search_depth", Json::optional_number(search_depth)),
        field("seed", Json::optional_number(telemetry.seed)),
        field("side_to_move", Json::Unsigned(side as u64)),
        field("tablebase_hits", Json::Unsigned(telemetry.counters.tablebase_hits)),
        field("terminal_hits", Json::Unsigned(telemetry.counters.terminal_hits)),
        field("time_budget_ms", Json::optional_number(run_config.time_budget_ms)),
        field("transposition_hits", Json::Unsigned(telemetry.counters.transposition_hits)),
    ];
    proof {
        let record = summary_record(
            row_id,
            run_id@,
            qfen@,
            *telemetry,
            *run_config,
            root_view,
            q_views,
        );
        assert(members_view(members@) =~= record->Object_0);
    }
    Ok(Some(Json::Object(members)))
}

/// The lines that were exported, and why the export stopped before the end.
#[derive(Debug)]
pub struct ExportedLines {
    pub lines: Vec<String>,
    pub failure: Option<String>,
}

/// Whether the lines are the canonical texts of `rows`, up to the first that is
/// none.
pub open spec fn exports(e: ExportedLines, rows: Seq<Result<JsonView, Seq<char>>>) -> bool {
    &&& e.lines@.len() <= rows.len()
    &&& forall|k: int|
        0 <= k < e.lines@.len() ==> (#[trigger] rows[k]) is Ok && e.lines@[k]@ == json_text(
            rows[k]->Ok_0,
        )
    &&& match e.failure {
        None => e.lines@.len() == rows.len(),
        Some(m) => e.lines@.len() < rows.len() && rows[e.lines@.len() as int] == Err::<
            JsonView,
            Seq<char>,
        >(m@),
    }
}

/// The position of a dataset that a row names, or why there is none.
pub open spec fn named_position(
    dataset: JsonView,
    row: JsonView,
    missing: Seq<char>,
) -> Result<JsonView, Seq<char>> {
    let items = at(dataset, "positions"@)->Array_0;
    match text_at(row, "position_id"@) {
        None => Err(missing),
        Some(id) => match position_with(items, items.len() as int, id) {
            None => Err("dataset missing position "@ + id),
            Some(p) => Ok(p),
        },
    }
}

/// The observation that the row at `k` becomes, or why it becomes none.
pub open spec fn observation_outcome(
    run_id: Seq<char>,
    rows: Seq<JsonView>,
    dataset: JsonView,
    elapsed_ms: Seq<u64>,
    k: int,
) -> Result<JsonView, Seq<char>> {
    match named_position(dataset, rows[k], "observation missing position_id"@) {
        Err(e) => Err(e),
        Ok(p) => match projection_complaint(rows[k], p) {
            Some(e) => Err(e),
            None => Ok(projected_observation(k as u64, run_id, rows[k], p, elapsed_ms[k])),
        },
    }
}

/// The observations that the rows become.
pub open spec fn observation_outcomes(
    run_id: Seq<char>,
    rows: Seq<JsonView>,
    dataset: JsonView,
    elapsed_ms: Seq<u64>,
) -> Seq<Result<JsonView, Seq<char>>> {
    Seq::new(rows.len(), |k: int| observation_outcome(run_id, rows, dataset, elapsed_ms, k))
}

/// Why the observations of a bundle cannot be exported at all.
pub open spec fn observations_complaint(bundle: JsonView, dataset: JsonView) -> Option<Seq<char>> {
    either(
        lookup_complaint(dataset),
        complain(
            !(at(bundle, "observations"@) is Array),
            "bundle has no observations array"@,
        ),
    )
}

fn find_position<'a>(by_id: &'a Vec<(String, Json)>, row: &Json, missing: &str) -> (r: Result<
    &'a Json,
    String,
>)
    ensures
        match text_at(row.view(), "position_id"@) {
            None => r matches Err(m) && m@ == missing@,
            Some(id) => match (r, member(members_view(by_id@), id)) {
                (Ok(p), Some(v)) => p.view() == v,
                (Err(m), None) => m@ == "dataset missing position "@ + id,
                _ => false,
            },
        },
{
    match text_in(row, "position_id") {
        None => Err(missing.to_owned()),
        Some(id) => match find_member(by_id, id) {
            Some(p) => Ok(p),
            None => Err(concat("dataset missing position ", id)),
        },
    }
}

/// The observations of a bundle as lines of canonical JSON. `elapsed_ms` holds the
/// wall-clock times of the rows in milliseconds.
pub fn export_observation_rows(
    bundle: &Json,
    dataset_payload: &Json,
    elapsed_ms: &Vec<u64>,
) -> (r: Result<ExportedLines, String>)
    requires
        at(bundle.view(), "observations"@) matches JsonView::Array(rows) ==> rows.len()
            == elapsed_ms@.len() && forall|k: int|
            0 <= k < rows.len() ==> row_names_action(#[trigger] rows[k]),
    ensures
        match r {
            Ok(e) => {
                &&& observations_complaint(bundle.view(), dataset_payload.view()) is None
                &&& exports(
                    e,
                    observation_outcomes(
                        text_or(bundle.view(), "started_at"@, "benchmark-run"@),
                        at(bundle.view(), "observations"@)->Array_0,
                        dataset_payload.view(),
                        elapsed_ms@,
                    ),
                )
            },
            Err(m) => observations_complaint(bundle.view(), dataset_payload.view()) == Some(m@),
        },
{
    let by_id = position_lookup(dataset_payload)?;
    let run_id = text_in_or(bundle, "started_at", "benchmark-run");
    let rows = match bundle.get("observations") {
        Some(v) => match v {
            Json::Array(rows) => rows,
            _ => return Err("bundle has no observations array".to_owned()),
        },
        None => return Err("bundle has no observations array".to_owned()),
    };
    let ghost views = items_view(rows@);
    let ghost dataset = dataset_payload.view();
    let ghost outcome = observation_outcomes(run_id@, views, dataset, elapsed_ms@);
    let mut e = ExportedLines { lines: Vec::new(), failure: None };
    let mut i: usize = 0;
    while i < rows.len()
        invariant
            i <= rows@.len(),
            views == items_view(rows@),
            elapsed_ms@.len() == rows@.len(),
            forall|k: int| 0 <= k < views.len() ==> row_names_action(#[trigger] views[k]),
            forall|id: Seq<char>| #[trigger]
                member(members_view(by_id@), id) == position_with(
                    at(dataset, "positions"@)->Array_0,
                    at(dataset, "positions"@)->Array_0.len() as int,
                    id,
                ),
            outcome == observation_outcomes(run_id@, views, dataset, elapsed_ms@),
            e.lines@.len() == i,
            e.failure is None,
            forall|k: int|
                0 <= k < i ==> (#[trigger] outcome[k]) is Ok && e.lines@[k]@ == json_text(
                    outcome[k]->Ok_0,
                ),
            observations_complaint(bundle.view(), dataset_payload.view()) is None,
            at(bundle.view(), "observations"@) == JsonView::Array(views),
            run_id@ == text_or(bundle.view(), "started_at"@, "benchmark-run"@),
            dataset == dataset_payload.view(),
        decreases rows@.len() - i,
    {
        assert(views[i as int] == rows@[i as int].view());
        assert(outcome[i as int] == observation_outcome(
            run_id@,
            views,
            dataset,
            elapsed_ms@,
            i as int,
        ));
        let position = match find_position(&by_id, &rows[i], "observation missing position_id") {
            Ok(p) => p,
            Err(m) => {
                e.failure = Some(m);
                return Ok(e);
            },
        };
        match observation_v1_row(i as u64, run_id, &rows[i], position, elapsed_ms[i]) {
            Ok(row) => e.lines.push(canonical_json(&row)),
            Err(m) => {
                e.failure = Some(m);
                return Ok(e);
            },
        }
        i = i + 1;
    }
    Ok(e)
}

/// The records of the games of a bundle.
pub open spec fn game_records(bundle: JsonView) -> JsonView {
    at(at(bundle, "head_to_head"@), "records"@)
}

/// The game result that the record at `k` becomes, or why it becomes none.
pub open spec fn result_outcome(
    run_id: Seq<char>,
    started_at: Seq<char>,
    rows: Seq<JsonView>,
    dataset: JsonView,
    k: int,
) -> Result<JsonView, Seq<char>> {
    match named_position(dataset, rows[k], "h2h record missing position_id"@) {
        Err(e) => Err(e),
        Ok(p) => match result_complaint(rows[k], p) {
            Some(e) => Err(e),
            None => Ok(projected_result(k as u64, run_id, started_at, rows[k], p)),
        },
    }
}

/// The game results that the records become.
pub open spec fn result_outcomes(
    run_id: Seq<char>,
    started_at: Seq<char>,
    rows: Seq<JsonView>,
    dataset: JsonView,
) -> Seq<Result<JsonView, Seq<char>>> {
    Seq::new(rows.len(), |k: int| result_outcome(run_id, started_at, rows, dataset, k))
}

/// Why the games of a bundle cannot be exported at all.
pub open spec fn results_complaint(bundle: JsonView, dataset: JsonView) -> Option<Seq<char>> {
    either(
        lookup_complaint(dataset),
        complain(
            !(game_records(bundle) is Array),
            "bundle has no head_to_head.records array"@,
        ),
    )
}

fn records_of(bundle: &Json) -> (r: Option<&Vec<Json>>)
    ensures
        match r {
            Some(rows) => game_records(bundle.view()) == JsonView::Array(items_view(rows@)),
            None => !(game_records(bundle.view()) is Array),
        },
{
    match bundle.get("head_to_head") {
        Some(h) => match h.get("records") {
            Some(v) => match v {
                Json::Array(rows) => Some(rows),
                _ => None,
            },
            None => None,
        },
        None => None,
    }
}

/// The games of a bundle as lines of canonical JSON.
pub fn export_game_result_rows(bundle: &Json, dataset_payload: &Json) -> (r: Result<
    ExportedLines,
    String,
>)
    ensures
        match r {
            Ok(e) => {
                &&& results_complaint(bundle.view(), dataset_payload.view()) is None
                &&& exports(
                    e,
                    result_outcomes(
                        text_or(bundle.view(), "started_at"@, "benchmark-run"@),
                        text_or(bundle.view(), "started_at"@, "unknown"@),
                        game_records(bundle.view())->Array_0,
                        dataset_payload.view(),
                    ),
                )
            },
            Err(m) => results_complaint(bundle.view(), dataset_payload.view()) == Some(m@),
        },
{
    let by_id = position_lookup(dataset_payload)?;
    let run_id = text_in_or(bundle, "started_at", "benchmark-run");
    let started_at = text_in_or(bundle, "started_at", "unknown");
    let rows = match records_of(bundle) {
        Some(rows) => rows,
        None => return Err("bundle has no head_to_head.records array".to_owned()),
    };
    let ghost views = items_view(rows@);
    let ghost dataset = dataset_payload.view();
    let ghost outcome = result_outcomes(run_id@, started_at@, views, dataset);
    let mut e = ExportedLines { lines: Vec::new(), failure: None };
    let mut i: usize = 0;
    while i < rows.len()
        invariant
            i <= rows@.len(),
            views == items_view(rows@),
            forall|id: Seq<char>| #[trigger]
                member(members_view(by_id@), id) == position_with(
                    at(dataset, "positions"@)->Array_0,
                    at(dataset, "positions"@)->Array_0.len() as int,
                    id,
                ),
            outcome == result_outcomes(run_id@, started_at@, views, dataset),
            e.lines@.len() == i,
            e.failure is None,
            forall|k: int|
                0 <= k < i ==> (#[trigger] outcome[k]) is Ok && e.lines@[k]@ == json_text(
                    outcome[k]->Ok_0,
                ),
            results_complaint(bundle.view(), dataset_payload.view()) is None,
            game_records(bundle.view()) == JsonView::Array(views),
            run_id@ == text_or(bundle.view(), "started_at"@, "benchmark-run"@),
            started_at@ == text_or(bundle.view(), "started_at"@, "unknown"@),
            dataset == dataset_payload.view(),
        decreases rows@.len() - i,
    {
        assert(views[i as int] == rows@[i as int].view());
        assert(outcome[i as int] == result_outcome(run_id@, started_at@, views, dataset, i as int));
        let position = match find_position(&by_id, &rows[i], "h2h record missing position_id") {
            Ok(p) => p,
            Err(m) => {
                e.failure = Some(m);
                return Ok(e);
            },
        };
        match game_result_v1_row(i as u64, run_id, started_at, &rows[i], position) {
            Ok(row) => e.lines.push(canonical_json(&row)),
            Err(m) => {
                e.failure = Some(m);
                return Ok(e);
            },
        }
        i = i + 1;
    }
    Ok(e)
}

pub(crate) proof fn lemma_projected_fields(
    row_id: u64,
    run_id: Seq<char>,
    row: JsonView,
    position: JsonView,
    elapsed_ms: u64,
)
    ensures
        ({
            let j = projected_observation(row_id, run_id, row, position, elapsed_ms);
            let o = j->Object_0;
            &&& j.get("bitboards"@) == Some(o[1].1)
            &&& j.get("contract_version"@) == Some(o[2].1)
            &&& j.get("elapsed_ms"@) == Some(o[3].1)
            &&& j.get("engine_kind"@) == Some(o[5].1)
            &&& j.get("engine_version"@) == Some(o[6].1)
            &&& j.get("legal_action_mask"@) == Some(o[7].1)
            &&& j.get("ply"@) == Some(o[9].1)
            &&& j.get("policy_visits"@) == Some(o[11].1)
            &&& j.get("position_key"@) == Some(o[12].1)
            &&& j.get("qfen"@) == Some(o[14].1)
            &&& j.get("row_id"@) == Some(o[17].1)
            &&& j.get("run_id"@) == Some(o[18].1)
            &&& j.get("schema"@) == Some(o[19].1)
            &&& j.get("side_to_move"@) == Some(o[22].1)
            &&& j.get("source_confidence"@) == Some(o[23].1)
            &&& j.get("value"@) == Some(o[25].1)
            &&& j.get("value_source"@) == Some(o[26].1)
        }),
{
    reveal_strlit("beam_width");
    reveal_strlit("bitboards");
    reveal_strlit("contract_version");
    reveal_strlit("elapsed_ms");
    reveal_strlit("engine_checkpoint");
    reveal_strlit("engine_kind");
    reveal_strlit("engine_version");
    reveal_strlit("legal_action_mask");
    reveal_strlit("node_budget");
    reveal_strlit("ply");
    reveal_strlit("policy_priors");
    reveal_strlit("policy_visits");
    reveal_strlit("position_key");
    reveal_strlit("principal_variation");
    reveal_strlit("qfen");
    reveal_strlit("rollouts");
    reveal_strlit("root_q_values");
    reveal_strlit("row_id");
    reveal_strlit("run_id");
    reveal_strlit("schema");
    reveal_strlit("search_depth");
    reveal_strlit("seed");
    reveal_strlit("side_to_move");
    reveal_strlit("source_confidence");
    reveal_strlit("time_budget_ms");
    reveal_strlit("value");
    reveal_strlit("value_source");
    assert("beam_width"@.len() == 10);
    assert("bitboards"@.len() == 9);
    assert("contract_version"@.len() == 16);
    assert("elapsed_ms"@.len() == 10);
    assert("engine_checkpoint"@.len() == 17);
    assert("engine_kind"@.len() == 11);
    assert("engine_version"@.len() == 14);
    assert("legal_action_mask"@.len() == 17);
    assert("node_budget"@.len() == 11);
    assert("ply"@.len() == 3);
    assert("policy_priors"@.len() == 13);
    assert("policy_visits"@.len() == 13);
    assert("position_key"@.len() == 12);
    assert("principal_variation"@.len() == 19);
    assert("qfen"@.len() == 4);
    assert("rollouts"@.len() == 8);
    assert("root_q_values"@.len() == 13);
    assert("row_id"@.len() == 6);
    assert("run_id"@.len() == 6);
    assert("schema"@.len() == 6);
    assert("search_depth"@.len() == 12);
    assert("seed"@.len() == 4);
    assert("side_to_move"@.len() == 12);
    assert("source_confidence"@.len() == 17);
    assert("time_budget_ms"@.len() == 14);
    assert("value"@.len() == 5);
    assert("value_source"@.len() == 12);
    assert("elapsed_ms"@[0] != "beam_width"@[0]);
    assert("legal_action_mask"@[0] != "engine_checkpoint"@[0]);
    assert("policy_visits"@[7] != "policy_priors"@[7]);
    assert("run_id"@[1] != "row_id"@[1]);
    assert("schema"@[0] != "row_id"@[0]);
    assert("schema"@[0] != "run_id"@[0]);
    assert("side_to_move"@[0] != "position_key"@[0]);
    assert("side_to_move"@[1] != "search_depth"@[1]);
    assert("source_confidence"@[0] != "engine_checkpoint"@[0]);
    assert("source_confidence"@[0] != "legal_action_mask"@[0]);
    assert("value_source"@[0] != "position_key"@[0]);
    assert("value_source"@[0] != "search_depth"@[0]);
    assert("value_source"@[0] != "side_to_move"@[0]);
    let o = projected_observation(row_id, run_id, row, position, elapsed_ms)->Object_0;
    lemma_member_at(o, "bitboards"@, 1);
    lemma_member_at(o, "contract_version"@, 2);
    lemma_member_at(o, "elapsed_ms"@, 3);
    lemma_member_at(o, "engine_kind"@, 5);
    lemma_member_at(o, "engine_version"@, 6);
    lemma_member_at(o, "legal_action_mask"@, 7);
    lemma_member_at(o, "ply"@, 9);
    lemma_member_at(o, "policy_visits"@, 11);
    lemma_member_at(o, "position_key"@, 12);
    lemma_member_at(o, "qfen"@, 14);
    lemma_member_at(o, "row_id"@, 17);
    lemma_member_at(o, "run_id"@, 18);
    lemma_member_at(o, "schema"@, 19);
    lemma_member_at(o, "side_to_move"@, 22);
    lemma_member_at(o, "source_confidence"@, 23);
    lemma_member_at(o, "value"@, 25);
    lemma_member_at(o, "value_source"@, 26);
}

proof fn lemma_numbers_accepted(f: Seq<char>, items: Seq<JsonView>, i: int)
    requires
        0 <= i <= items.len(),
        forall|k: int| 0 <= k < items.len() ==> (#[trigger] items[k]) is Unsigned,
    ensures
        numbers_items_complaint(f, items, i) is None,
    decreases items.len() - i,
{
    if i < items.len() {
        assert(items[i] is Unsigned);
        lemma_numbers_accepted(f, items, i + 1);
    }
}

proof fn lemma_planes_accepted(f: Seq<char>, b: Seq<u16>, i: int)
    requires
        0 <= i <= b.len(),
    ensures
        plane_items_complaint(f, planes_view(b)->Array_0, i) is None,
    decreases b.len() - i,
{
    let items = planes_view(b)->Array_0;
    if i < b.len() {
        assert(items[i] == JsonView::Unsigned(b[i] as u64));
        lemma_planes_accepted(f, b, i + 1);
    }
}

proof fn lemma_visits_accepted(visits: Seq<u64>, mask: u64, a: int, i: int)
    requires
        visits.len() == 64,
        0 <= i <= 64,
        forall|k: int| 0 <= k < 64 ==> #[trigger] visits[k] == if k == a {
            1u64
        } else {
            0u64
        },
        mask_bit(mask, a),
    ensures
        illegal_visits_complaint(visits, mask, i) is None,
    decreases 64 - i,
{
    if i < 64 {
        assert(visits[i] > 0 ==> i == a);
        lemma_visits_accepted(visits, mask, a, i + 1);
    }
}

/// A benchmark row of a legal move in a valid position becomes an observation
/// that is accepted, with one visit of the selected action.
pub proof fn law_projected_observation_is_accepted(
    row_id: u64,
    run_id: Seq<char>,
    row: JsonView,
    position: JsonView,
    elapsed_ms: u64,
)
    requires
        projection_complaint(row, position) is None,
        board_complaint(qfen_board(text_at(position, "qfen"@)->0)) is None,
        0 <= row_action(row) < 64,
        action_legal(qfen_board(text_at(position, "qfen"@)->0), row_action(row)),
        !is_blank(run_id),
        text_at(row, "engine"@) matches Some(s) ==> !is_blank(s),
        elapsed_ms <= u32::MAX,
    ensures
        ({
            let j = projected_observation(row_id, run_id, row, position, elapsed_ms);
            let seen = observation_of(j);
            &&& observation_complaint(j) is None
            &&& seen.run_id == run_id
            &&& seen.row_id == row_id
            &&& seen.bitboards == qfen_board(text_at(position, "qfen"@)->0)
            &&& seen.policy_visits.len() == 64
            &&& forall|a: int|
                0 <= a < 64 ==> #[trigger] seen.policy_visits[a] == if a == row_action(row) {
                    1u64
                } else {
                    0u64
                }
        }),
{
    let j = projected_observation(row_id, run_id, row, position, elapsed_ms);
    let qfen = text_at(position, "qfen"@)->0;
    let b = qfen_board(qfen);
    let a = row_action(row);
    lemma_projected_fields(row_id, run_id, row, position, elapsed_ms);
    let o = j->Object_0;
    reveal_strlit("1.2.0");
    reveal_strlit("0.1.0");
    reveal_strlit("observation.v1");
    reveal_strlit("unknown");
    reveal_strlit("exact");
    reveal_strlit("heuristic");
    assert(!is_white("1.2.0"@[0]) && !is_white("0.1.0"@[0]) && !is_white("observation.v1"@[0]));
    assert(!is_white("unknown"@[0]) && !is_white("exact"@[0]) && !is_white("heuristic"@[0]));
    assert(is_qfen(qfen));
    assert(!is_white(qfen[4]));
    assert(qfen_describes(qfen, b)) by {
        crate::qfen::lemma_qfen_shows_board(qfen);
    }
    assert(b.len() == 8);
    lemma_planes_accepted("bitboards"@, b, 0);
    assert(planes_field(j, "bitboards"@) =~= b);
    let visits = numbers_field(j, "policy_visits"@);
    lemma_numbers_accepted("policy_visits"@, one_visit(a)->Array_0, 0);
    law_mask_marks_legal_actions(b);
    assert(mask_bit(mask_of(b), a));
    lemma_visits_accepted(visits, mask_of(b), a, 0);
    assert(visits[a] > 0);
    law_valid_boards(b);
    lemma_total_small(b);
    let key = hex_of(canonical_key_of(b));
    assert(key.len() == 36 && !is_white(key[0])) by {
        lemma_key_visible(b);
    }
    reveal_strlit("1e0");
    reveal_strlit("5e-1");
    assert(within_unit("5e-1"@)) by {
        lemma_half();
    }
}

/// One half lies between zero and one.
proof fn lemma_half()
    ensures
        within_unit("5e-1"@),
{
    reveal_strlit("5e-1");
    let s = "5e-1"@;
    reveal_with_fuel(place_of_e, 3);
    assert(place_of_e(s, 0) == 1);
    assert(s.subrange(0, 1).len() == 1);
    let x = s.skip(2);
    assert(x.len() == 2 && x[0] == '-' && x[1] == '1');
    let d = x.skip(1);
    assert(d =~= seq!['1']);
    assert(d.drop_last() =~= Seq::empty());
    assert(digits_value(d.drop_last()) == 0);
    assert(digits_value(d) == 1);
    assert(is_scientific(s));
}

/// A valid board holds at most sixteen pieces.
proof fn lemma_total_small(b: Seq<u16>)
    requires
        b.len() == 8,
        disjoint_planes(b),
    ensures
        0 <= total_pieces(b) <= 16,
{
    lemma_pieces_fill_cells(b);
    lemma_popcount(taken(b), 0);
}

/// The text of a canonical key begins with a digit.
proof fn lemma_key_visible(b: Seq<u16>)
    ensures
        hex_of(canonical_key_of(b)).len() == 36,
        !is_white(hex_of(canonical_key_of(b))[0]),
{
    let key = canonical_key_of(b);
    lemma_hex_chars(key);
}

proof fn lemma_hex_chars(bytes: Seq<u8>)
    ensures
        hex_of(bytes).len() == 2 * bytes.len(),
        forall|i: int| 0 <= i < hex_of(bytes).len() ==> !is_white(#[trigger] hex_of(bytes)[i]),
    decreases bytes.len(),
{
    if bytes.len() > 0 {
        lemma_hex_chars(bytes.drop_last());
        let x = bytes.last() as int;
        assert(hex_char(x / 16) as int >= 48 && hex_char(x % 16) as int >= 48) by {
            assert((48 + x / 16) as char as int == 48 + x / 16);
            assert((48 + x % 16) as char as int == 48 + x % 16);
            assert((87 + x / 16) as char as int == 87 + x / 16);
            assert((87 + x % 16) as char as int == 87 + x % 16);
        }
        assert(hex_char(x / 16) as int <= 102 && hex_char(x % 16) as int <= 102);
    }
}

pub(crate) proof fn lemma_result_fields(
    row_id: u64,
    run_id: Seq<char>,
    started_at: Seq<char>,
    record: JsonView,
    position: JsonView,
)
    ensures
        ({
            let j = projected_result(row_id, run_id, started_at, record, position);
            let o = j->Object_0;
            &&& j.get("contract_version"@) == Some(o[0].1)
            &&& j.get("game_id"@) == Some(o[1].1)
            &&& j.get("initial_position_key"@) == Some(o[3].1)
            &&& j.get("move_action_indices"@) == Some(o[4].1)
            &&& j.get("p0_engine_kind"@) == Some(o[8].1)
            &&& j.get("p0_engine_version"@) == Some(o[9].1)
            &&& j.get("p1_engine_kind"@) == Some(o[11].1)
            &&& j.get("p1_engine_version"@) == Some(o[12].1)
            &&& j.get("plies"@) == Some(o[13].1)
            &&& j.get("run_id"@) == Some(o[15].1)
            &&& j.get("schema"@) == Some(o[16].1)
            &&& j.get("started_at"@) == Some(o[18].1)
            &&& j.get("terminal_reason"@) == Some(o[19].1)
            &&& j.get("winner"@) == Some(o[21].1)
        }),
{
    reveal_strlit("contract_version");
    reveal_strlit("game_id");
    reveal_strlit("hardware");
    reveal_strlit("initial_position_key");
    reveal_strlit("move_action_indices");
    reveal_strlit("node_budget_per_move");
    reveal_strlit("opening_book_id");
    reveal_strlit("p0_engine_checkpoint");
    reveal_strlit("p0_engine_kind");
    reveal_strlit("p0_engine_version");
    reveal_strlit("p1_engine_checkpoint");
    reveal_strlit("p1_engine_kind");
    reveal_strlit("p1_engine_version");
    reveal_strlit("plies");
    reveal_strlit("position_keys");
    reveal_strlit("run_id");
    reveal_strlit("schema");
    reveal_strlit("seed");
    reveal_strlit("started_at");
    reveal_strlit("terminal_reason");
    reveal_strlit("time_budget_ms_per_move");
    reveal_strlit("winner");
    assert("contract_version"@.len() == 16);
    assert("game_id"@.len() == 7);
    assert("hardware"@.len() == 8);
    assert("initial_position_key"@.len() == 20);
    assert("move_action_indices"@.len() == 19);
    assert("node_budget_per_move"@.len() == 20);
    assert("opening_book_id"@.len() == 15);
    assert("p0_engine_checkpoint"@.len() == 20);
    assert("p0_engine_kind"@.len() == 14);
    assert("p0_engine_version"@.len() == 17);
    assert("p1_engine_checkpoint"@.len() == 20);
    assert("p1_engine_kind"@.len() == 14);
    assert("p1_engine_version"@.len() == 17);
    assert("plies"@.len() == 5);
    assert("position_keys"@.len() == 13);
    assert("run_id"@.len() == 6);
    assert("schema"@.len() == 6);
    assert("seed"@.len() == 4);
    assert("started_at"@.len() == 10);
    assert("terminal_reason"@.len() == 15);
    assert("time_budget_ms_per_move"@.len() == 23);
    assert("winner"@.len() == 6);
    assert("p1_engine_kind"@[1] != "p0_engine_kind"@[1]);
    assert("p1_engine_version"@[1] != "p0_engine_version"@[1]);
    assert("schema"@[0] != "run_id"@[0]);
    assert("terminal_reason"@[0] != "opening_book_id"@[0]);
    assert("winner"@[0] != "run_id"@[0]);
    assert("winner"@[0] != "schema"@[0]);
    let o = projected_result(row_id, run_id, started_at, record, position)->Object_0;
    lemma_member_at(o, "contract_version"@, 0);
    lemma_member_at(o, "game_id"@, 1);
    lemma_member_at(o, "initial_position_key"@, 3);
    lemma_member_at(o, "move_action_indices"@, 4);
    lemma_member_at(o, "p0_engine_kind"@, 8);
    lemma_member_at(o, "p0_engine_version"@, 9);
    lemma_member_at(o, "p1_engine_kind"@, 11);
    lemma_member_at(o, "p1_engine_version"@, 12);
    lemma_member_at(o, "plies"@, 13);
    lemma_member_at(o, "run_id"@, 15);
    lemma_member_at(o, "schema"@, 16);
    lemma_member_at(o, "started_at"@, 18);
    lemma_member_at(o, "terminal_reason"@, 19);
    lemma_member_at(o, "winner"@, 21);
}

proof fn lemma_actions_accepted(f: Seq<char>, items: Seq<JsonView>, i: int)
    requires
        0 <= i <= items.len(),
        lists_actions(items),
    ensures
        actions_items_complaint(f, items, i) is None,
    decreases items.len() - i,
{
    if i < items.len() {
        assert(items[i] matches JsonView::Unsigned(n) && n < 64);
        lemma_actions_accepted(f, items, i + 1);
    }
}

/// Whether the items are numbers of actions.
pub open spec fn lists_actions(items: Seq<JsonView>) -> bool {
    forall|k: int|
        0 <= k < items.len() ==> (#[trigger] items[k] matches JsonView::Unsigned(n) && n < 64)
}

/// A record of a game with one action for each ply becomes a game result that is
/// accepted, with the engines as players and the winner among them.
pub proof fn law_projected_game_is_accepted(
    row_id: u64,
    run_id: Seq<char>,
    started_at: Seq<char>,
    record: JsonView,
    position: JsonView,
)
    requires
        result_complaint(record, position) is None,
        !is_blank(run_id),
        !is_blank(started_at),
        !is_blank(text_at(record, "mover"@)->0),
        !is_blank(text_at(record, "responder"@)->0),
        at(record, "move_action_indices"@) is Array,
        lists_actions(at(record, "move_action_indices"@)->Array_0),
        at(record, "plies"@) == JsonView::Unsigned(
            at(record, "move_action_indices"@)->Array_0.len() as u64,
        ),
        at(record, "move_action_indices"@)->Array_0.len() <= 65535,
    ensures
        ({
            let j = projected_result(row_id, run_id, started_at, record, position);
            let seen = game_result_of(j);
            let side = to_move(qfen_board(text_at(position, "qfen"@)->0))->0;
            &&& game_result_complaint(j) is None
            &&& seen.run_id == Some(run_id)
            &&& seen.started_at == started_at
            &&& seen.p0_engine_kind == engine_of(record, side, 0)
            &&& seen.p1_engine_kind == engine_of(record, side, 1)
            &&& seen.winner <= 1
            &&& seen.winner == 0 <==> text_at(record, "winner"@) == Some(
                engine_of(record, side, 0),
            )
            &&& seen.plies == seen.move_action_indices.len()
        }),
{
    let j = projected_result(row_id, run_id, started_at, record, position);
    let b = qfen_board(text_at(position, "qfen"@)->0);
    lemma_result_fields(row_id, run_id, started_at, record, position);
    reveal_strlit("1.2.0");
    reveal_strlit("0.1.0");
    reveal_strlit("game-result.v1");
    reveal_strlit("win_condition_or_no_legal_moves");
    assert(!is_white("1.2.0"@[0]) && !is_white("0.1.0"@[0]) && !is_white("game-result.v1"@[0]));
    assert(!is_white("win_condition_or_no_legal_moves"@[0]));
    let items = at(record, "move_action_indices"@)->Array_0;
    lemma_actions_accepted("move_action_indices"@, items, 0);
    lemma_key_visible(b);
    let id = run_id + seq!['-'] + padded(row_id as nat, 8);
    assert(id[run_id.len() as int] == '-');
    assert(!is_white('-'));
}

} // verus!
