//! Rows that record the results of games.
use crate::bench::contracts::{GAME_RESULT_CONTRACT_VERSION, GAME_RESULT_SCHEMA};
use crate::bench::fields::{
    actions_complaint, actions_field, complain, either, number8_complaint, number_complaint,
    number_field, option_text, optional_string, optional_text_complaint, optional_text_field,
    required_action_index_list, required_string, required_u64, required_u8, shape_complaint,
    text_complaint, text_field, validate_contract_shape,
};
use crate::bench::json::{field, items_view, lemma_member_at, members_view, Json, JsonView};
use crate::bench::observation::text_or_null;
use vstd::prelude::*;
use vstd::string::*;

verus! {

/// The result of a game. `move_action_indices` lists the actions that were
/// played.
#[derive(Debug)]
pub struct GameResultRow {
    pub game_id: String,
    pub started_at: String,
    pub p0_engine_kind: String,
    pub p0_engine_version: String,
    pub p1_engine_kind: String,
    pub p1_engine_version: String,
    pub initial_position_key: String,
    pub winner: u8,
    pub plies: u64,
    pub terminal_reason: String,
    pub move_action_indices: Vec<u8>,
    pub run_id: Option<String>,
}

/// What a game result says.
pub struct GameResultView {
    pub game_id: Seq<char>,
    pub started_at: Seq<char>,
    pub p0_engine_kind: Seq<char>,
    pub p0_engine_version: Seq<char>,
    pub p1_engine_kind: Seq<char>,
    pub p1_engine_version: Seq<char>,
    pub initial_position_key: Seq<char>,
    pub winner: u8,
    pub plies: u64,
    pub terminal_reason: Seq<char>,
    pub move_action_indices: Seq<u8>,
    pub run_id: Option<Seq<char>>,
}

impl GameResultRow {
    pub open spec fn view(&self) -> GameResultView {
        GameResultView {
            game_id: self.game_id@,
            started_at: self.started_at@,
            p0_engine_kind: self.p0_engine_kind@,
            p0_engine_version: self.p0_engine_version@,
            p1_engine_kind: self.p1_engine_kind@,
            p1_engine_version: self.p1_engine_version@,
            initial_position_key: self.initial_position_key@,
            winner: self.winner,
            plies: self.plies,
            terminal_reason: self.terminal_reason@,
            move_action_indices: self.move_action_indices@,
            run_id: option_text(self.run_id),
        }
    }
}

/// The complaint about the outcome of a game.
pub open spec fn outcome_complaint(j: JsonView) -> Option<Seq<char>> {
    either(
        shape_complaint(j, GAME_RESULT_SCHEMA@, GAME_RESULT_CONTRACT_VERSION@),
        either(
            text_complaint(j, "started_at"@),
            either(
                text_complaint(j, "p0_engine_version"@),
                either(
                    text_complaint(j, "p1_engine_version"@),
                    either(
                        number8_complaint(j, "winner"@),
                        either(
                            complain(
                                number_field(j, "winner"@) > 1,
                                "winner must be 0 or 1"@,
                            ),
                            either(
                                number_complaint(j, "plies"@),
                                complain(
                                    number_field(j, "plies"@) > 65535,
                                    "plies must fit in uint16"@,
                                ),
                            ),
                        ),
                    ),
                ),
            ),
        ),
    )
}

/// The complaint about the moves of a game and its names.
pub open spec fn moves_complaint(j: JsonView) -> Option<Seq<char>> {
    either(
        actions_complaint(j, "move_action_indices"@),
        either(
            complain(
                number_field(j, "plies"@) != actions_field(j, "move_action_indices"@).len(),
                "plies must match move_action_indices length"@,
            ),
            either(
                text_complaint(j, "game_id"@),
                either(
                    text_complaint(j, "p0_engine_kind"@),
                    either(
                        text_complaint(j, "p1_engine_kind"@),
                        either(
                            text_complaint(j, "initial_position_key"@),
                            either(
                                text_complaint(j, "terminal_reason"@),
                                optional_text_complaint(j, "run_id"@),
                            ),
                        ),
                    ),
                ),
            ),
        ),
    )
}

/// The first thing that is wrong with a JSON game result.
pub open spec fn game_result_complaint(j: JsonView) -> Option<Seq<char>> {
    if !(j is Object) {
        Some("game-result row must be a JSON object"@)
    } else {
        either(outcome_complaint(j), moves_complaint(j))
    }
}

/// The game result that a JSON row describes.
pub open spec fn game_result_of(j: JsonView) -> GameResultView {
    GameResultView {
        game_id: text_field(j, "game_id"@),
        started_at: text_field(j, "started_at"@),
        p0_engine_kind: text_field(j, "p0_engine_kind"@),
        p0_engine_version: text_field(j, "p0_engine_version"@),
        p1_engine_kind: text_field(j, "p1_engine_kind"@),
        p1_engine_version: text_field(j, "p1_engine_version"@),
        initial_position_key: text_field(j, "initial_position_key"@),
        winner: number_field(j, "winner"@) as u8,
        plies: number_field(j, "plies"@),
        terminal_reason: text_field(j, "terminal_reason"@),
        move_action_indices: actions_field(j, "move_action_indices"@),
        run_id: optional_text_field(j, "run_id"@),
    }
}

/// Read a JSON game result. The error is about the first thing that is wrong.
pub fn parse_game_result_row(value: &Json) -> (r: Result<GameResultRow, String>)
    ensures
        match r {
            Ok(row) => game_result_complaint(value.view()) is None && row.view() == game_result_of(
                value.view(),
            ),
            Err(m) => game_result_complaint(value.view()) == Some(m@),
        },
{
    match value {
        Json::Object(_) => {},
        _ => return Err("game-result row must be a JSON object".to_owned()),
    }
    validate_contract_shape(value, GAME_RESULT_SCHEMA, GAME_RESULT_CONTRACT_VERSION)?;
    let started_at = required_string(value, "started_at")?;
    let p0_engine_version = required_string(value, "p0_engine_version")?;
    let p1_engine_version = required_string(value, "p1_engine_version")?;
    let winner: u8 = required_u8(value, "winner")?;
    if winner > 1 {
        return Err("winner must be 0 or 1".to_owned());
    }
    let plies: u64 = required_u64(value, "plies")?;
    if plies > 65535 {
        return Err("plies must fit in uint16".to_owned());
    }
    let move_action_indices = required_action_index_list(value, "move_action_indices")?;
    if plies != move_action_indices.len() as u64 {
        return Err("plies must match move_action_indices length".to_owned());
    }
    let game_id = required_string(value, "game_id")?;
    let p0_engine_kind = required_string(value, "p0_engine_kind")?;
    let p1_engine_kind = required_string(value, "p1_engine_kind")?;
    let initial_position_key = required_string(value, "initial_position_key")?;
    let terminal_reason = required_string(value, "terminal_reason")?;
    let run_id = optional_string(value, "run_id")?;
    Ok(
        GameResultRow {
            game_id,
            started_at,
            p0_engine_kind,
            p0_engine_version,
            p1_engine_kind,
            p1_engine_version,
            initial_position_key,
            winner,
            plies,
            terminal_reason,
            move_action_indices,
            run_id,
        },
    )
}

/// Action numbers as a JSON list.
pub open spec fn actions_view(actions: Seq<u8>) -> JsonView {
    JsonView::Array(actions.map_values(|a: u8| JsonView::Unsigned(a as u64)))
}

/// Action numbers as a JSON list.
pub fn actions_json(actions: &Vec<u8>) -> (j: Json)
    ensures
        j.view() == actions_view(actions@),
{
    let mut items: Vec<Json> = Vec::new();
    let mut i: usize = 0;
    while i < actions.len()
        invariant
            i <= actions@.len(),
            items@.len() == i,
            forall|k: int|
                0 <= k < i ==> (#[trigger] items@[k]).view() == JsonView::Unsigned(
                    actions@[k] as u64,
                ),
        decreases actions@.len() - i,
    {
        items.push(Json::Unsigned(actions[i] as u64));
        i = i + 1;
    }
    assert(items_view(items@) =~= actions@.map_values(|a: u8| JsonView::Unsigned(a as u64)));
    Json::Array(items)
}

/// A game result as JSON.
pub open spec fn game_result_record(w: GameResultView) -> JsonView {
    labelled_record(GAME_RESULT_SCHEMA@, GAME_RESULT_CONTRACT_VERSION@, w)
}

/// A game result as JSON under the given schema and version.
pub open spec fn labelled_record(
    schema: Seq<char>,
    version: Seq<char>,
    w: GameResultView,
) -> JsonView {
    JsonView::Object(
        seq![
            ("contract_version"@, JsonView::Text(version)),
            ("game_id"@, JsonView::Text(w.game_id)),
            ("initial_position_key"@, JsonView::Text(w.initial_position_key)),
            ("move_action_indices"@, actions_view(w.move_action_indices)),
            ("p0_engine_kind"@, JsonView::Text(w.p0_engine_kind)),
            ("p0_engine_version"@, JsonView::Text(w.p0_engine_version)),
            ("p1_engine_kind"@, JsonView::Text(w.p1_engine_kind)),
            ("p1_engine_version"@, JsonView::Text(w.p1_engine_version)),
            ("plies"@, JsonView::Unsigned(w.plies)),
            ("run_id"@, text_or_null(w.run_id)),
            ("schema"@, JsonView::Text(schema)),
            ("started_at"@, JsonView::Text(w.started_at)),
            ("terminal_reason"@, JsonView::Text(w.terminal_reason)),
            ("winner"@, JsonView::Unsigned(w.winner as u64)),
        ],
    )
}

fn labelled_json(schema: &str, version: &str, row: &GameResultRow) -> (j: Json)
    ensures
        j.view() == labelled_record(schema@, version@, row.view()),
{
    let members: Vec<(String, Json)> = vec![
        field("contract_version", Json::text(version)),
        field("game_id", Json::text(row.game_id.as_str())),
        field("initial_position_key", Json::text(row.initial_position_key.as_str())),
        field("move_action_indices", actions_json(&row.move_action_indices)),
        field("p0_engine_kind", Json::text(row.p0_engine_kind.as_str())),
        field("p0_engine_version", Json::text(row.p0_engine_version.as_str())),
        field("p1_engine_kind", Json::text(row.p1_engine_kind.as_str())),
        field("p1_engine_version", Json::text(row.p1_engine_version.as_str())),
        field("plies", Json::Unsigned(row.plies)),
        field("run_id", Json::optional_text(&row.run_id)),
        field("schema", Json::text(schema)),
        field("started_at", Json::text(row.started_at.as_str())),
        field("terminal_reason", Json::text(row.terminal_reason.as_str())),
        field("winner", Json::Unsigned(row.winner as u64)),
    ];
    assert(members_view(members@) =~= labelled_record(schema@, version@, row.view())->Object_0);
    Json::Object(members)
}

/// A game result as JSON, if nothing is wrong with it.
pub fn game_result_record_from_row(row: &GameResultRow) -> (r: Result<Json, String>)
    ensures
        match r {
            Ok(j) => game_result_complaint(game_result_record(row.view())) is None && j.view()
                == game_result_record(row.view()),
            Err(m) => game_result_complaint(game_result_record(row.view())) == Some(m@),
        },
{
    let record = labelled_json(GAME_RESULT_SCHEMA, GAME_RESULT_CONTRACT_VERSION, row);
    parse_game_result_row(&record)?;
    Ok(record)
}

/// The complaint about the rows from the one at `i` on.
pub open spec fn results_complaint(rows: Seq<GameResultRow>, i: int) -> Option<Seq<char>>
    decreases rows.len() - i,
{
    if i < 0 || i >= rows.len() {
        None
    } else {
        either(
            game_result_complaint(game_result_record(rows[i].view())),
            results_complaint(rows, i + 1),
        )
    }
}

/// The lengths of the games, in the width of their column. The error is about the
/// first row that has something wrong with it.
pub fn game_result_plies(rows: &Vec<GameResultRow>) -> (r: Result<Vec<u16>, String>)
    ensures
        match r {
            Ok(plies) => {
                &&& results_complaint(rows@, 0) is None
                &&& plies@.len() == rows@.len()
                &&& forall|k: int| 0 <= k < rows@.len() ==> #[trigger] plies@[k] == rows@[k].plies
            },
            Err(m) => results_complaint(rows@, 0) == Some(m@),
        },
{
    let mut plies: Vec<u16> = Vec::new();
    let mut n: usize = 0;
    while n < rows.len()
        invariant
            n <= rows@.len(),
            plies@.len() == n,
            results_complaint(rows@, 0) == results_complaint(rows@, n as int),
            forall|k: int| 0 <= k < n ==> #[trigger] plies@[k] == rows@[k].plies,
        decreases rows@.len() - n,
    {
        game_result_record_from_row(&rows[n])?;
        proof {
            lemma_record_fields(
                GAME_RESULT_SCHEMA@,
                GAME_RESULT_CONTRACT_VERSION@,
                rows@[n as int].view(),
            );
        }
        plies.push(rows[n].plies as u16);
        n = n + 1;
    }
    Ok(plies)
}

/// The game result that the entries in the columns describe: `row` under the
/// labels that stand beside it. The error is about the first thing that is wrong.
pub fn game_result_from_entry(schema: &str, contract_version: &str, row: &GameResultRow) -> (r:
    Result<GameResultRow, String>)
    ensures
        ({
            let record = labelled_record(schema@, contract_version@, row.view());
            match r {
                Ok(row) => game_result_complaint(record) is None && row.view() == game_result_of(
                    record,
                ),
                Err(m) => game_result_complaint(record) == Some(m@),
            }
        }),
{
    parse_game_result_row(&labelled_json(schema, contract_version, row))
}

proof fn lemma_record_fields(schema: Seq<char>, version: Seq<char>, w: GameResultView)
    ensures
        ({
            let j = labelled_record(schema, version, w);
            &&& j.get("contract_version"@) == Some(JsonView::Text(version))
            &&& j.get("game_id"@) == Some(JsonView::Text(w.game_id))
            &&& j.get("initial_position_key"@) == Some(JsonView::Text(w.initial_position_key))
            &&& j.get("move_action_indices"@) == Some(actions_view(w.move_action_indices))
            &&& j.get("p0_engine_kind"@) == Some(JsonView::Text(w.p0_engine_kind))
            &&& j.get("p0_engine_version"@) == Some(JsonView::Text(w.p0_engine_version))
            &&& j.get("p1_engine_kind"@) == Some(JsonView::Text(w.p1_engine_kind))
            &&& j.get("p1_engine_version"@) == Some(JsonView::Text(w.p1_engine_version))
            &&& j.get("plies"@) == Some(JsonView::Unsigned(w.plies))
            &&& j.get("run_id"@) == Some(text_or_null(w.run_id))
            &&& j.get("schema"@) == Some(JsonView::Text(schema))
            &&& j.get("started_at"@) == Some(JsonView::Text(w.started_at))
            &&& j.get("terminal_reason"@) == Some(JsonView::Text(w.terminal_reason))
            &&& j.get("winner"@) == Some(JsonView::Unsigned(w.winner as u64))
        }),
{
    reveal_strlit("contract_version");
    reveal_strlit("game_id");
    reveal_strlit("initial_position_key");
    reveal_strlit("move_action_indices");
    reveal_strlit("p0_engine_kind");
    reveal_strlit("p0_engine_version");
    reveal_strlit("p1_engine_kind");
    reveal_strlit("p1_engine_version");
    reveal_strlit("plies");
    reveal_strlit("run_id");
    reveal_strlit("schema");
    reveal_strlit("started_at");
    reveal_strlit("terminal_reason");
    reveal_strlit("winner");
    assert("contract_version"@.len() == 16);
    assert("game_id"@.len() == 7);
    assert("initial_position_key"@.len() == 20);
    assert("move_action_indices"@.len() == 19);
    assert("p0_engine_kind"@.len() == 14);
    assert("p0_engine_version"@.len() == 17);
    assert("p1_engine_kind"@.len() == 14);
    assert("p1_engine_version"@.len() == 17);
    assert("plies"@.len() == 5);
    assert("run_id"@.len() == 6);
    assert("schema"@.len() == 6);
    assert("started_at"@.len() == 10);
    assert("terminal_reason"@.len() == 15);
    assert("winner"@.len() == 6);
    assert("p1_engine_kind"@[1] != "p0_engine_kind"@[1]);
    assert("p1_engine_version"@[1] != "p0_engine_version"@[1]);
    assert("schema"@[0] != "run_id"@[0]);
    assert("winner"@[0] != "run_id"@[0]);
    assert("winner"@[0] != "schema"@[0]);
    let o = labelled_record(schema, version, w)->Object_0;
    lemma_member_at(o, "contract_version"@, 0);
    lemma_member_at(o, "game_id"@, 1);
    lemma_member_at(o, "initial_position_key"@, 2);
    lemma_member_at(o, "move_action_indices"@, 3);
    lemma_member_at(o, "p0_engine_kind"@, 4);
    lemma_member_at(o, "p0_engine_version"@, 5);
    lemma_member_at(o, "p1_engine_kind"@, 6);
    lemma_member_at(o, "p1_engine_version"@, 7);
    lemma_member_at(o, "plies"@, 8);
    lemma_member_at(o, "run_id"@, 9);
    lemma_member_at(o, "schema"@, 10);
    lemma_member_at(o, "started_at"@, 11);
    lemma_member_at(o, "terminal_reason"@, 12);
    lemma_member_at(o, "winner"@, 13);
}

/// A game result with nothing wrong, written as JSON or to the columns, is read
/// back as it was.
pub proof fn law_game_result_round_trip(w: GameResultView)
    requires
        game_result_complaint(game_result_record(w)) is None,
    ensures
        game_result_of(game_result_record(w)) == w,
{
    let j = game_result_record(w);
    lemma_record_fields(GAME_RESULT_SCHEMA@, GAME_RESULT_CONTRACT_VERSION@, w);
    assert(actions_field(j, "move_action_indices"@) =~= w.move_action_indices);
}

} // verus!
