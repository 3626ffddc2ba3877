//! Rows that record what an engine saw and chose in a position.
use crate::bench::actions::{
    board_complaint, legal_action_mask, mask_bit, mask_holds, mask_of, validate_bitboard_state,
};
use crate::bench::canonical::{in_unit_interval, within_unit};
use crate::bench::contracts::{OBSERVATION_CONTRACT_VERSION, OBSERVATION_SCHEMA};
use crate::bench::fields::{
    complain, concat, either, float_complaint, float_field, item_field, item_name,
    number32_complaint, number8_complaint, number_complaint, number_field, numbers_complaint,
    numbers_field, option_text, optional_string, optional_text_complaint, optional_text_field,
    reports, required_f64, required_string, required_u32, required_u64, required_u64_list,
    required_u8, shape_complaint, text_complaint, text_field, validate_contract_shape,
};
use crate::bench::json::{field, items_view, lemma_member_at, members_view, Json, JsonView};
use crate::bench::selfplay::{planes_json, planes_view};
use crate::bitboard::Bitboard;
use crate::game::to_move;
use crate::qfen::{qfen_board, qfen_complaint};
use crate::state::State;
use vstd::prelude::*;
use vstd::string::*;

verus! {

/// One observation. `value` and `source_confidence` are floating numbers in
/// shortest scientific notation.
#[derive(Debug)]
pub struct ObservationRow {
    pub run_id: String,
    pub row_id: u64,
    pub position_key: String,
    pub ply: u64,
    pub side_to_move: u8,
    pub bitboards: Bitboard,
    pub legal_action_mask: u64,
    pub engine_kind: String,
    pub engine_version: String,
    pub elapsed_ms: u32,
    pub policy_visits: Vec<u64>,
    pub value: String,
    pub value_source: String,
    pub source_confidence: String,
    pub qfen: Option<String>,
}

/// What an observation says.
pub struct ObservationView {
    pub run_id: Seq<char>,
    pub row_id: u64,
    pub position_key: Seq<char>,
    pub ply: u64,
    pub side_to_move: u8,
    pub bitboards: Seq<u16>,
    pub legal_action_mask: u64,
    pub engine_kind: Seq<char>,
    pub engine_version: Seq<char>,
    pub elapsed_ms: u32,
    pub policy_visits: Seq<u64>,
    pub value: Seq<char>,
    pub value_source: Seq<char>,
    pub source_confidence: Seq<char>,
    pub qfen: Option<Seq<char>>,
}

impl ObservationRow {
    pub open spec fn view(&self) -> ObservationView {
        ObservationView {
            run_id: self.run_id@,
            row_id: self.row_id,
            position_key: self.position_key@,
            ply: self.ply,
            side_to_move: self.side_to_move,
            bitboards: self.bitboards@,
            legal_action_mask: self.legal_action_mask,
            engine_kind: self.engine_kind@,
            engine_version: self.engine_version@,
            elapsed_ms: self.elapsed_ms,
            policy_visits: self.policy_visits@,
            value: self.value@,
            value_source: self.value_source@,
            source_confidence: self.source_confidence@,
            qfen: option_text(self.qfen),
        }
    }
}

/// The complaint about the planes of a list from the one at `i` on.
pub open spec fn plane_items_complaint(
    f: Seq<char>,
    items: Seq<JsonView>,
    i: int,
) -> Option<Seq<char>>
    decreases items.len() - i,
{
    if i < 0 || i >= items.len() {
        None
    } else {
        match items[i] {
            JsonView::Unsigned(n) => either(
                complain(n > 65535, item_name(f, i) + " must be in 0..65535"@),
                plane_items_complaint(f, items, i + 1),
            ),
            _ => Some(item_name(f, i) + " must be an unsigned integer"@),
        }
    }
}

/// The complaint about a list of eight planes.
pub open spec fn planes_field_complaint(o: JsonView, f: Seq<char>) -> Option<Seq<char>> {
    match o.get(f) {
        None => Some(f + " is required"@),
        Some(v) => match v {
            JsonView::Array(items) => if items.len() != 8 {
                Some(f + " must contain exactly 8 uint16 planes"@)
            } else {
                plane_items_complaint(f, items, 0)
            },
            _ => Some(f + " must contain exactly 8 uint16 planes"@),
        },
    }
}

/// The planes in the field `f`.
pub open spec fn planes_field(o: JsonView, f: Seq<char>) -> Seq<u16> {
    o.get(f)->0->Array_0.map_values(|v: JsonView| v->Unsigned_0 as u16)
}

pub fn required_bitboards(object: &Json, field: &str) -> (r: Result<Bitboard, String>)
    ensures
        match r {
            Ok(bb) => planes_field_complaint(object.view(), field@) is None && bb@ == planes_field(
                object.view(),
                field@,
            ),
            Err(m) => planes_field_complaint(object.view(), field@) == Some(m@),
        },
{
    let items = match object.get(field) {
        None => return Err(concat(field, " is required")),
        Some(v) => match v {
            Json::Array(items) => items,
            _ => return Err(concat(field, " must contain exactly 8 uint16 planes")),
        },
    };
    let ghost views = items_view(items@);
    if items.len() != 8 {
        return Err(concat(field, " must contain exactly 8 uint16 planes"));
    }
    let mut planes: [u16; 8] = [0u16; 8];
    let mut i: usize = 0;
    while i < 8
        invariant
            i <= 8,
            items@.len() == 8,
            views == items_view(items@),
            forall|k: int| 0 <= k < i ==> #[trigger] planes@[k] == views[k]->Unsigned_0 as u16,
            planes_field_complaint(object.view(), field@) == plane_items_complaint(
                field@,
                views,
                0,
            ),
            plane_items_complaint(field@, views, 0) == plane_items_complaint(
                field@,
                views,
                i as int,
            ),
        decreases 8 - i,
    {
        assert(views[i as int] == items@[i as int].view());
        let name = item_field(field, i);
        match &items[i] {
            Json::Unsigned(n) => {
                if *n > 65535 {
                    return Err(concat(name.as_str(), " must be in 0..65535"));
                }
                planes[i] = *n as u16;
            },
            _ => return Err(concat(name.as_str(), " must be an unsigned integer")),
        }
        i = i + 1;
    }
    assert(planes@ =~= planes_field(object.view(), field@));
    Ok(Bitboard::new(planes))
}

/// The complaint about a QFEN text that stands beside a board.
pub open spec fn beside_complaint(qfen: Option<Seq<char>>, b: Seq<u16>) -> Option<Seq<char>> {
    match qfen {
        Some(q) => either(
            qfen_complaint(q),
            complain(qfen_board(q) != b, "qfen does not match bitboards"@),
        ),
        None => None,
    }
}

fn check_beside(qfen: &Option<String>, bb: &Bitboard) -> (r: Result<(), String>)
    ensures
        reports(r, beside_complaint(option_text(*qfen), bb@)),
{
    if let Some(text) = qfen {
        let state = State::from_qfen(text.as_str())?;
        if state.bb != *bb {
            return Err("qfen does not match bitboards".to_owned());
        }
    }
    Ok(())
}

/// The complaint about visits of illegal actions from the one at `i` on.
pub open spec fn illegal_visits_complaint(visits: Seq<u64>, mask: u64, i: int) -> Option<Seq<char>>
    decreases 64 - i,
{
    if i < 0 || i >= 64 {
        None
    } else {
        either(
            complain(
                visits[i] > 0 && !mask_bit(mask, i),
                item_name("policy_visits"@, i) + " is not legal"@,
            ),
            illegal_visits_complaint(visits, mask, i + 1),
        )
    }
}

/// Whether some action was visited.
pub open spec fn any_visit(visits: Seq<u64>) -> bool {
    exists|i: int| 0 <= i < visits.len() && #[trigger] visits[i] > 0
}

/// The complaint about the visits of all actions.
pub open spec fn visits_mask_complaint(visits: Seq<u64>, mask: u64) -> Option<Seq<char>> {
    either(
        complain(
            mask != 0 && !any_visit(visits),
            "policy_visits must contain at least one visit"@,
        ),
        illegal_visits_complaint(visits, mask, 0),
    )
}

fn check_visits(visits: &Vec<u64>, mask: u64) -> (r: Result<(), String>)
    requires
        visits@.len() == 64,
    ensures
        reports(r, visits_mask_complaint(visits@, mask)),
{
    let mut any: bool = false;
    let mut k: usize = 0;
    while k < 64
        invariant
            k <= 64,
            visits@.len() == 64,
            any <==> exists|i: int| 0 <= i < k && #[trigger] visits@[i] > 0,
        decreases 64 - k,
    {
        if visits[k] > 0 {
            any = true;
            assert(visits@[k as int] > 0);
        }
        k = k + 1;
    }
    if mask != 0 && !any {
        return Err("policy_visits must contain at least one visit".to_owned());
    }
    let mut i: usize = 0;
    while i < 64
        invariant
            i <= 64,
            visits@.len() == 64,
            visits_mask_complaint(visits@, mask) == illegal_visits_complaint(visits@, mask, 0),
            illegal_visits_complaint(visits@, mask, 0) == illegal_visits_complaint(
                visits@,
                mask,
                i as int,
            ),
        decreases 64 - i,
    {
        if visits[i] > 0 && !mask_holds(mask, i as u8) {
            let name = item_field("policy_visits", i);
            return Err(concat(name.as_str(), " is not legal"));
        }
        i = i + 1;
    }
    Ok(())
}

/// The complaint about the position of an observation.
pub open spec fn position_complaint(j: JsonView) -> Option<Seq<char>> {
    let side = number_field(j, "side_to_move"@);
    let b = planes_field(j, "bitboards"@);
    either(
        shape_complaint(j, OBSERVATION_SCHEMA@, OBSERVATION_CONTRACT_VERSION@),
        either(
            number_complaint(j, "row_id"@),
            either(
                number_complaint(j, "ply"@),
                either(
                    complain(number_field(j, "ply"@) > 65535, "ply must fit in uint16"@),
                    either(
                        number8_complaint(j, "side_to_move"@),
                        either(
                            complain(side > 1, "side_to_move must be 0 or 1"@),
                            either(
                                planes_field_complaint(j, "bitboards"@),
                                either(
                                    board_complaint(b),
                                    complain(
                                        to_move(b) is Some && to_move(b)->0 != side,
                                        "side_to_move does not match bitboards"@,
                                    ),
                                ),
                            ),
                        ),
                    ),
                ),
            ),
        ),
    )
}

/// The complaint about what the engine did in the position.
pub open spec fn search_complaint(j: JsonView) -> Option<Seq<char>> {
    let b = planes_field(j, "bitboards"@);
    let mask = number_field(j, "legal_action_mask"@);
    either(
        optional_text_complaint(j, "qfen"@),
        either(
            beside_complaint(optional_text_field(j, "qfen"@), b),
            either(
                number_complaint(j, "legal_action_mask"@),
                either(
                    complain(
                        mask != mask_of(b),
                        "legal_action_mask does not match bitboards"@,
                    ),
                    either(
                        number32_complaint(j, "elapsed_ms"@),
                        either(
                            numbers_complaint(j, "policy_visits"@, 64),
                            visits_mask_complaint(numbers_field(j, "policy_visits"@), mask),
                        ),
                    ),
                ),
            ),
        ),
    )
}

/// The complaint about the rest of an observation.
pub open spec fn source_complaint(j: JsonView) -> Option<Seq<char>> {
    either(
        float_complaint(j, "source_confidence"@),
        either(
            complain(
                !within_unit(float_field(j, "source_confidence"@)),
                "source_confidence must be in 0.0..1.0"@,
            ),
            either(
                text_complaint(j, "run_id"@),
                either(
                    text_complaint(j, "position_key"@),
                    either(
                        text_complaint(j, "engine_kind"@),
                        either(
                            text_complaint(j, "engine_version"@),
                            either(
                                float_complaint(j, "value"@),
                                text_complaint(j, "value_source"@),
                            ),
                        ),
                    ),
                ),
            ),
        ),
    )
}

/// The first thing that is wrong with a JSON observation.
pub open spec fn observation_complaint(j: JsonView) -> Option<Seq<char>> {
    if !(j is Object) {
        Some("observation row must be a JSON object"@)
    } else {
        either(position_complaint(j), either(search_complaint(j), source_complaint(j)))
    }
}

/// The observation that a JSON row describes.
pub open spec fn observation_of(j: JsonView) -> ObservationView {
    ObservationView {
        run_id: text_field(j, "run_id"@),
        row_id: number_field(j, "row_id"@),
        position_key: text_field(j, "position_key"@),
        ply: number_field(j, "ply"@),
        side_to_move: number_field(j, "side_to_move"@) as u8,
        bitboards: planes_field(j, "bitboards"@),
        legal_action_mask: number_field(j, "legal_action_mask"@),
        engine_kind: text_field(j, "engine_kind"@),
        engine_version: text_field(j, "engine_version"@),
        elapsed_ms: number_field(j, "elapsed_ms"@) as u32,
        policy_visits: numbers_field(j, "policy_visits"@),
        value: float_field(j, "value"@),
        value_source: text_field(j, "value_source"@),
        source_confidence: float_field(j, "source_confidence"@),
        qfen: optional_text_field(j, "qfen"@),
    }
}

/// Read a JSON observation. The error is about the first thing that is wrong.
pub fn parse_observation_row(value: &Json) -> (r: Result<ObservationRow, String>)
    ensures
        match r {
            Ok(row) => observation_complaint(value.view()) is None && row.view() == observation_of(
                value.view(),
            ) && row.policy_visits@.len() == 64,
            Err(m) => observation_complaint(value.view()) == Some(m@),
        },
{
    match value {
        Json::Object(_) => {},
        _ => return Err("observation row must be a JSON object".to_owned()),
    }
    validate_contract_shape(value, OBSERVATION_SCHEMA, OBSERVATION_CONTRACT_VERSION)?;
    let row_id: u64 = required_u64(value, "row_id")?;
    let ply: u64 = required_u64(value, "ply")?;
    if ply > 65535 {
        return Err("ply must fit in uint16".to_owned());
    }
    let side_to_move: u8 = required_u8(value, "side_to_move")?;
    if side_to_move > 1 {
        return Err("side_to_move must be 0 or 1".to_owned());
    }
    let bitboards = required_bitboards(value, "bitboards")?;
    let expected_side: u8 = validate_bitboard_state(&bitboards)?;
    if expected_side != side_to_move {
        return Err("side_to_move does not match bitboards".to_owned());
    }
    let qfen = optional_string(value, "qfen")?;
    check_beside(&qfen, &bitboards)?;
    let mask: u64 = required_u64(value, "legal_action_mask")?;
    if mask != legal_action_mask(&bitboards) {
        return Err("legal_action_mask does not match bitboards".to_owned());
    }
    let elapsed_ms: u32 = required_u32(value, "elapsed_ms")?;
    let policy_visits = required_u64_list(value, "policy_visits", 64)?;
    check_visits(&policy_visits, mask)?;
    let source_confidence = required_f64(value, "source_confidence")?;
    if !in_unit_interval(source_confidence.as_str()) {
        return Err("source_confidence must be in 0.0..1.0".to_owned());
    }
    let run_id = required_string(value, "run_id")?;
    let position_key = required_string(value, "position_key")?;
    let engine_kind = required_string(value, "engine_kind")?;
    let engine_version = required_string(value, "engine_version")?;
    let outcome = required_f64(value, "value")?;
    let value_source = required_string(value, "value_source")?;
    Ok(
        ObservationRow {
            run_id,
            row_id,
            position_key,
            ply,
            side_to_move,
            bitboards,
            legal_action_mask: mask,
            engine_kind,
            engine_version,
            elapsed_ms,
            policy_visits,
            value: outcome,
            value_source,
            source_confidence,
            qfen,
        },
    )
}

/// Unsigned numbers as a JSON list.
pub open spec fn numbers_view(numbers: Seq<u64>) -> JsonView {
    JsonView::Array(numbers.map_values(|x: u64| JsonView::Unsigned(x)))
}

/// Unsigned numbers as a JSON list.
pub fn numbers_json(numbers: &Vec<u64>) -> (j: Json)
    ensures
        j.view() == numbers_view(numbers@),
{
    let mut items: Vec<Json> = Vec::new();
    let mut i: usize = 0;
    while i < numbers.len()
        invariant
            i <= numbers@.len(),
            items@.len() == i,
            forall|k: int|
                0 <= k < i ==> (#[trigger] items@[k]).view() == JsonView::Unsigned(numbers@[k]),
        decreases numbers@.len() - i,
    {
        items.push(Json::Unsigned(numbers[i]));
        i = i + 1;
    }
    assert(items_view(items@) =~= numbers@.map_values(|x: u64| JsonView::Unsigned(x)));
    Json::Array(items)
}

/// An optional text as JSON.
pub open spec fn text_or_null(s: Option<Seq<char>>) -> JsonView {
    match s {
        Some(s) => JsonView::Text(s),
        None => JsonView::Null,
    }
}

/// An observation as JSON.
pub open spec fn observation_record(w: ObservationView) -> JsonView {
    labelled_record(OBSERVATION_SCHEMA@, OBSERVATION_CONTRACT_VERSION@, w)
}

/// An observation as JSON under the given schema and version.
pub open spec fn labelled_record(
    schema: Seq<char>,
    version: Seq<char>,
    w: ObservationView,
) -> JsonView {
    JsonView::Object(
        seq![
            ("bitboards"@, planes_view(w.bitboards)),
            ("contract_version"@, JsonView::Text(version)),
            ("elapsed_ms"@, JsonView::Unsigned(w.elapsed_ms as u64)),
            ("engine_kind"@, JsonView::Text(w.engine_kind)),
            ("engine_version"@, JsonView::Text(w.engine_version)),
            ("legal_action_mask"@, JsonView::Unsigned(w.legal_action_mask)),
            ("ply"@, JsonView::Unsigned(w.ply)),
            ("policy_visits"@, numbers_view(w.policy_visits)),
            ("position_key"@, JsonView::Text(w.position_key)),
            ("qfen"@, text_or_null(w.qfen)),
            ("row_id"@, JsonView::Unsigned(w.row_id)),
            ("run_id"@, JsonView::Text(w.run_id)),
            ("schema"@, JsonView::Text(schema)),
            ("side_to_move"@, JsonView::Unsigned(w.side_to_move as u64)),
            ("source_confidence"@, JsonView::Float(w.source_confidence)),
            ("value"@, JsonView::Float(w.value)),
            ("value_source"@, JsonView::Text(w.value_source)),
        ],
    )
}

/// An observation as JSON, if nothing is wrong with it.
pub fn observation_record_from_row(row: &ObservationRow) -> (r: Result<Json, String>)
    ensures
        match r {
            Ok(j) => observation_complaint(observation_record(row.view())) is None && j.view()
                == observation_record(row.view()),
            Err(m) => observation_complaint(observation_record(row.view())) == Some(m@),
        },
{
    let members: Vec<(String, Json)> = vec![
        field("bitboards", planes_json(&row.bitboards)),
        field("contract_version", Json::text(OBSERVATION_CONTRACT_VERSION)),
        field("elapsed_ms", Json::Unsigned(row.elapsed_ms as u64)),
        field("engine_kind", Json::text(row.engine_kind.as_str())),
        field("engine_version", Json::text(row.engine_version.as_str())),
        field("legal_action_mask", Json::Unsigned(row.legal_action_mask)),
        field("ply", Json::Unsigned(row.ply)),
        field("policy_visits", numbers_json(&row.policy_visits)),
        field("position_key", Json::text(row.position_key.as_str())),
        field("qfen", Json::optional_text(&row.qfen)),
        field("row_id", Json::Unsigned(row.row_id)),
        field("run_id", Json::text(row.run_id.as_str())),
        field("schema", Json::text(OBSERVATION_SCHEMA)),
        field("side_to_move", Json::Unsigned(row.side_to_move as u64)),
        field("source_confidence", Json::Float(row.source_confidence.clone())),
        field("value", Json::Float(row.value.clone())),
        field("value_source", Json::text(row.value_source.as_str())),
    ];
    assert(members_view(members@) =~= observation_record(row.view())->Object_0);
    let record = Json::Object(members);
    parse_observation_row(&record)?;
    Ok(record)
}

/// The complaint about visits that are to be stored in 32 bits.
pub open spec fn narrow_complaint(visits: Seq<u64>) -> Option<Seq<char>> {
    either(
        complain(
            visits.len() != 64,
            "policy_visits must contain exactly 64 unsigned integers"@,
        ),
        complain(
            exists|i: int| 0 <= i < visits.len() && #[trigger] visits[i] > u32::MAX,
            "policy_visits entries must fit in uint32"@,
        ),
    )
}

pub fn observation_policy_visits_u32(policy_visits: &Vec<u64>) -> (r: Result<Vec<u32>, String>)
    ensures
        match r {
            Ok(v) => narrow_complaint(policy_visits@) is None && v@.len() == 64 && forall|i: int|
                0 <= i < 64 ==> #[trigger] v@[i] == policy_visits@[i],
            Err(m) => narrow_complaint(policy_visits@) == Some(m@),
        },
{
    if policy_visits.len() != 64 {
        return Err("policy_visits must contain exactly 64 unsigned integers".to_owned());
    }
    let mut narrow: Vec<u32> = Vec::new();
    let mut i: usize = 0;
    while i < 64
        invariant
            i <= 64,
            policy_visits@.len() == 64,
            narrow@.len() == i,
            forall|k: int| 0 <= k < i ==> #[trigger] narrow@[k] == policy_visits@[k],
            forall|k: int| 0 <= k < i ==> #[trigger] policy_visits@[k] <= u32::MAX,
        decreases 64 - i,
    {
        let v: u64 = policy_visits[i];
        if v > 0xFFFF_FFFF {
            assert(policy_visits@[i as int] > u32::MAX);
            return Err("policy_visits entries must fit in uint32".to_owned());
        }
        narrow.push(v as u32);
        i = i + 1;
    }
    Ok(narrow)
}

/// The entries of one observation, as they stand in the columns.
#[derive(Debug)]
pub struct ObservationEntry {
    pub schema: String,
    pub contract_version: String,
    pub run_id: String,
    pub row_id: u64,
    pub position_key: String,
    pub ply: u16,
    pub side_to_move: u8,
    pub bitboards: Bitboard,
    pub qfen: Option<String>,
    pub legal_action_mask: u64,
    pub engine_kind: String,
    pub engine_version: String,
    pub elapsed_ms: u32,
    pub policy_visits: Vec<u32>,
    pub value: String,
    pub value_source: String,
    pub source_confidence: String,
}

impl ObservationEntry {
    /// The observation that the entries describe, apart from its labels.
    pub open spec fn observation(&self) -> ObservationView {
        ObservationView {
            run_id: self.run_id@,
            row_id: self.row_id,
            position_key: self.position_key@,
            ply: self.ply as u64,
            side_to_move: self.side_to_move,
            bitboards: self.bitboards@,
            legal_action_mask: self.legal_action_mask,
            engine_kind: self.engine_kind@,
            engine_version: self.engine_version@,
            elapsed_ms: self.elapsed_ms,
            policy_visits: self.policy_visits@.map_values(|x: u32| x as u64),
            value: self.value@,
            value_source: self.value_source@,
            source_confidence: self.source_confidence@,
            qfen: option_text(self.qfen),
        }
    }
}

/// The first thing that keeps an observation out of the columns.
pub open spec fn stored_complaint(w: ObservationView) -> Option<Seq<char>> {
    either(observation_complaint(observation_record(w)), narrow_complaint(w.policy_visits))
}

/// The complaint about the rows from the one at `i` on.
pub open spec fn stored_rows_complaint(rows: Seq<ObservationRow>, i: int) -> Option<Seq<char>>
    decreases rows.len() - i,
{
    if i < 0 || i >= rows.len() {
        None
    } else {
        either(stored_complaint(rows[i].view()), stored_rows_complaint(rows, i + 1))
    }
}

fn copy_option(s: &Option<String>) -> (r: Option<String>)
    ensures
        option_text(r) == option_text(*s),
{
    match s {
        Some(s) => Some(s.clone()),
        None => None,
    }
}

/// Whether `e` holds the entries of the observation `w`.
pub open spec fn entry_holds(e: ObservationEntry, w: ObservationView) -> bool {
    &&& e.schema@ == OBSERVATION_SCHEMA@
    &&& e.contract_version@ == OBSERVATION_CONTRACT_VERSION@
    &&& e.observation() == w
}

/// The entries of an observation in the columns.
pub fn observation_entry(row: &ObservationRow) -> (r: Result<ObservationEntry, String>)
    ensures
        match r {
            Ok(e) => stored_complaint(row.view()) is None && entry_holds(e, row.view()),
            Err(m) => stored_complaint(row.view()) == Some(m@),
        },
{
    observation_record_from_row(row)?;
    let narrow = observation_policy_visits_u32(&row.policy_visits)?;
    proof {
        lemma_record_fields(OBSERVATION_SCHEMA@, OBSERVATION_CONTRACT_VERSION@, row.view());
    }
    let e = ObservationEntry {
        schema: OBSERVATION_SCHEMA.to_owned(),
        contract_version: OBSERVATION_CONTRACT_VERSION.to_owned(),
        run_id: row.run_id.clone(),
        row_id: row.row_id,
        position_key: row.position_key.clone(),
        ply: row.ply as u16,
        side_to_move: row.side_to_move,
        bitboards: row.bitboards,
        qfen: copy_option(&row.qfen),
        legal_action_mask: row.legal_action_mask,
        engine_kind: row.engine_kind.clone(),
        engine_version: row.engine_version.clone(),
        elapsed_ms: row.elapsed_ms,
        policy_visits: narrow,
        value: row.value.clone(),
        value_source: row.value_source.clone(),
        source_confidence: row.source_confidence.clone(),
    };
    assert(e.policy_visits@.map_values(|x: u32| x as u64) =~= row.policy_visits@);
    Ok(e)
}

/// The entries of all observations. The error is about the first row that has
/// something wrong with it.
pub fn observation_entries(rows: &Vec<ObservationRow>) -> (r: Result<
    Vec<ObservationEntry>,
    String,
>)
    ensures
        match r {
            Ok(entries) => {
                &&& stored_rows_complaint(rows@, 0) is None
                &&& entries@.len() == rows@.len()
                &&& forall|k: int|
                    0 <= k < rows@.len() ==> entry_holds(
                        #[trigger] entries@[k],
                        rows@[k].view(),
                    )
            },
            Err(m) => stored_rows_complaint(rows@, 0) == Some(m@),
        },
{
    let mut entries: Vec<ObservationEntry> = Vec::new();
    let mut n: usize = 0;
    while n < rows.len()
        invariant
            n <= rows@.len(),
            entries@.len() == n,
            stored_rows_complaint(rows@, 0) == stored_rows_complaint(rows@, n as int),
            forall|k: int| 0 <= k < n ==> entry_holds(#[trigger] entries@[k], rows@[k].view()),
        decreases rows@.len() - n,
    {
        let e = observation_entry(&rows[n])?;
        entries.push(e);
        n = n + 1;
    }
    Ok(entries)
}

fn widened(counts: &Vec<u32>) -> (r: Vec<u64>)
    ensures
        r@ == counts@.map_values(|x: u32| x as u64),
{
    let mut r: Vec<u64> = Vec::new();
    let mut i: usize = 0;
    while i < counts.len()
        invariant
            i <= counts@.len(),
            r@.len() == i,
            forall|k: int| 0 <= k < i ==> #[trigger] r@[k] == counts@[k] as u64,
        decreases counts@.len() - i,
    {
        r.push(counts[i] as u64);
        i = i + 1;
    }
    assert(r@ =~= counts@.map_values(|x: u32| x as u64));
    r
}

/// The observation that the entries in the columns describe. The error is about
/// the first thing that is wrong.
pub fn observation_row_from_entry(e: &ObservationEntry) -> (r: Result<ObservationRow, String>)
    ensures
        ({
            let record = labelled_record(e.schema@, e.contract_version@, e.observation());
            match r {
                Ok(row) => observation_complaint(record) is None && row.view() == observation_of(
                    record,
                ),
                Err(m) => observation_complaint(record) == Some(m@),
            }
        }),
{
    let visits = widened(&e.policy_visits);
    let members: Vec<(String, Json)> = vec![
        field("bitboards", planes_json(&e.bitboards)),
        field("contract_version", Json::text(e.contract_version.as_str())),
        field("elapsed_ms", Json::Unsigned(e.elapsed_ms as u64)),
        field("engine_kind", Json::text(e.engine_kind.as_str())),
        field("engine_version", Json::text(e.engine_version.as_str())),
        field("legal_action_mask", Json::Unsigned(e.legal_action_mask)),
        field("ply", Json::Unsigned(e.ply as u64)),
        field("policy_visits", numbers_json(&visits)),
        field("position_key", Json::text(e.position_key.as_str())),
        field("qfen", Json::optional_text(&e.qfen)),
        field("row_id", Json::Unsigned(e.row_id)),
        field("run_id", Json::text(e.run_id.as_str())),
        field("schema", Json::text(e.schema.as_str())),
        field("side_to_move", Json::Unsigned(e.side_to_move as u64)),
        field("source_confidence", Json::Float(e.source_confidence.clone())),
        field("value", Json::Float(e.value.clone())),
        field("value_source", Json::text(e.value_source.as_str())),
    ];
    assert(members_view(members@) =~= labelled_record(
        e.schema@,
        e.contract_version@,
        e.observation(),
    )->Object_0);
    parse_observation_row(&Json::Object(members))
}

proof fn lemma_record_fields(schema: Seq<char>, version: Seq<char>, w: ObservationView)
    ensures
        ({
            let j = labelled_record(schema, version, w);
            &&& j.get("bitboards"@) == Some(planes_view(w.bitboards))
            &&& j.get("contract_version"@) == Some(JsonView::Text(version))
            &&& j.get("elapsed_ms"@) == Some(JsonView::Unsigned(w.elapsed_ms as u64))
            &&& j.get("engine_kind"@) == Some(JsonView::Text(w.engine_kind))
            &&& j.get("engine_version"@) == Some(JsonView::Text(w.engine_version))
            &&& j.get("legal_action_mask"@) == Some(JsonView::Unsigned(w.legal_action_mask))
            &&& j.get("ply"@) == Some(JsonView::Unsigned(w.ply))
            &&& j.get("policy_visits"@) == Some(numbers_view(w.policy_visits))
            &&& j.get("position_key"@) == Some(JsonView::Text(w.position_key))
            &&& j.get("qfen"@) == Some(text_or_null(w.qfen))
            &&& j.get("row_id"@) == Some(JsonView::Unsigned(w.row_id))
            &&& j.get("run_id"@) == Some(JsonView::Text(w.run_id))
            &&& j.get("schema"@) == Some(JsonView::Text(schema))
            &&& j.get("side_to_move"@) == Some(JsonView::Unsigned(w.side_to_move as u64))
            &&& j.get("source_confidence"@) == Some(JsonView::Float(w.source_confidence))
            &&& j.get("value"@) == Some(JsonView::Float(w.value))
            &&& j.get("value_source"@) == Some(JsonView::Text(w.value_source))
        }),
{
    reveal_strlit("bitboards");
    reveal_strlit("contract_version");
    reveal_strlit("elapsed_ms");
    reveal_strlit("engine_kind");
    reveal_strlit("engine_version");
    reveal_strlit("legal_action_mask");
    reveal_strlit("ply");
    reveal_strlit("policy_visits");
    reveal_strlit("position_key");
    reveal_strlit("qfen");
    reveal_strlit("row_id");
    reveal_strlit("run_id");
    reveal_strlit("schema");
    reveal_strlit("side_to_move");
    reveal_strlit("source_confidence");
    reveal_strlit("value");
    reveal_strlit("value_source");
    assert("bitboards"@.len() == 9);
    assert("contract_version"@.len() == 16);
    assert("elapsed_ms"@.len() == 10);
    assert("engine_kind"@.len() == 11);
    assert("engine_version"@.len() == 14);
    assert("legal_action_mask"@.len() == 17);
    assert("ply"@.len() == 3);
    assert("policy_visits"@.len() == 13);
    assert("position_key"@.len() == 12);
    assert("qfen"@.len() == 4);
    assert("row_id"@.len() == 6);
    assert("run_id"@.len() == 6);
    assert("schema"@.len() == 6);
    assert("side_to_move"@.len() == 12);
    assert("source_confidence"@.len() == 17);
    assert("value"@.len() == 5);
    assert("value_source"@.len() == 12);
    assert("run_id"@[1] != "row_id"@[1]);
    assert("schema"@[0] != "row_id"@[0]);
    assert("schema"@[0] != "run_id"@[0]);
    assert("side_to_move"@[0] != "position_key"@[0]);
    assert("source_confidence"@[0] != "legal_action_mask"@[0]);
    assert("value_source"@[0] != "position_key"@[0]);
    assert("value_source"@[0] != "side_to_move"@[0]);
    let o = labelled_record(schema, version, w)->Object_0;
    lemma_member_at(o, "bitboards"@, 0);
    lemma_member_at(o, "contract_version"@, 1);
    lemma_member_at(o, "elapsed_ms"@, 2);
    lemma_member_at(o, "engine_kind"@, 3);
    lemma_member_at(o, "engine_version"@, 4);
    lemma_member_at(o, "legal_action_mask"@, 5);
    lemma_member_at(o, "ply"@, 6);
    lemma_member_at(o, "policy_visits"@, 7);
    lemma_member_at(o, "position_key"@, 8);
    lemma_member_at(o, "qfen"@, 9);
    lemma_member_at(o, "row_id"@, 10);
    lemma_member_at(o, "run_id"@, 11);
    lemma_member_at(o, "schema"@, 12);
    lemma_member_at(o, "side_to_move"@, 13);
    lemma_member_at(o, "source_confidence"@, 14);
    lemma_member_at(o, "value"@, 15);
    lemma_member_at(o, "value_source"@, 16);
}

/// An observation with nothing wrong, written as JSON, is read back as it was.
pub proof fn law_observation_json_round_trip(w: ObservationView)
    requires
        w.bitboards.len() == 8,
        observation_complaint(observation_record(w)) is None,
    ensures
        observation_of(observation_record(w)) == w,
{
    let j = observation_record(w);
    lemma_record_fields(OBSERVATION_SCHEMA@, OBSERVATION_CONTRACT_VERSION@, w);
    assert(planes_field(j, "bitboards"@) =~= w.bitboards);
    assert(numbers_field(j, "policy_visits"@) =~= w.policy_visits);
}

/// What is written to the columns is read back from them: the entries of an
/// observation are accepted and describe that observation.
pub proof fn law_observation_columns_round_trip(e: ObservationEntry, w: ObservationView)
    requires
        w.bitboards.len() == 8,
        stored_complaint(w) is None,
        entry_holds(e, w),
    ensures
        ({
            let record = labelled_record(e.schema@, e.contract_version@, e.observation());
            observation_complaint(record) is None && observation_of(record) == w
        }),
{
    law_observation_json_round_trip(w);
}

} // verus!
