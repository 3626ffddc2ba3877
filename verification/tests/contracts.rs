use quantik_core::bench::canonical::canonical_json;
use quantik_core::bench::contracts::{
    action_index, canonical_key_hex, game_result_v1_row, legal_action_mask, observation_v1_row,
    parse_game_result_row, parse_model_checkpoint_manifest, parse_observation_row,
    parse_selfplay_row, position_lookup, search_summary_row, selfplay_arrow_parquet_record,
    selfplay_dense_policy_visits, selfplay_v1_row, ModelCheckpointManifest,
    SearchSummaryRunConfig, SelfPlayPolicyVisit, GAME_RESULT_CONTRACT_VERSION,
    GAME_RESULT_SCHEMA, MODEL_CHECKPOINT_CONTRACT_VERSION, MODEL_CHECKPOINT_SCHEMA,
    OBSERVATION_CONTRACT_VERSION, OBSERVATION_SCHEMA, SEARCH_SUMMARY_SCHEMA,
    SELFPLAY_CONTRACT_VERSION, SELFPLAY_SCHEMA,
};
use quantik_core::bench::json::{parse_json, set_member, Json};
use quantik_core::bitboard::Bitboard;
use quantik_core::constants::PACKAGE_VERSION;
use quantik_core::mcts::{MCTSConfig, MCTSEngine};
use quantik_core::moves::generate_legal_moves;
use quantik_core::search_telemetry::Ratio;
use quantik_core::state::State;

fn json(text: &str) -> Json {
    parse_json(text).unwrap()
}

fn text<'a>(value: &'a Json, name: &str) -> &'a str {
    value.get(name).unwrap().as_text().unwrap()
}

fn number(value: &Json, name: &str) -> u64 {
    value.get(name).unwrap().as_unsigned().unwrap()
}

fn items<'a>(value: &'a Json, name: &str) -> &'a Vec<Json> {
    match value.get(name) {
        Some(Json::Array(items)) => items,
        other => panic!("{name}: {other:?}"),
    }
}

/// The object with the members of another put into it.
fn patched(valid: &Json, patch: &str) -> Json {
    let mut candidate = valid.copy();
    match json(patch) {
        Json::Object(members) => {
            for (name, value) in members {
                candidate = set_member(&candidate, &name, value);
            }
        }
        other => panic!("{other:?}"),
    }
    candidate
}

fn ucb(wins: u32, visits: u32, parent: u32) -> i64 {
    let n = f64::from(visits);
    let explore = std::f64::consts::SQRT_2 * (f64::from(parent).ln() / n).sqrt();
    ((f64::from(wins) / n + explore) * 1e15) as i64
}

fn write(q: Ratio) -> String {
    format!("{:e}", q.num as f64 / q.den as f64)
}

fn position() -> Json {
    let dataset = json(
        r#"{"positions": [{"id": "p0000", "qfen": "..../..../..../....", "phase": "opening"}]}"#,
    );
    let lookup = position_lookup(&dataset).unwrap();
    assert_eq!(lookup.len(), 1);
    assert_eq!(lookup[0].0, "p0000");
    lookup[0].1.copy()
}

fn benchmark_row() -> Json {
    json(
        r#"{"position_id": "p0000", "engine": "minimax", "move": "0:1:2", "wall_time_s": 0.25,
            "exact": true, "seed": null, "nodes": 10, "iterations": null, "depth_reached": 4,
            "score": 1.0}"#,
    )
}

fn game_record() -> Json {
    json(
        r#"{"position_id": "p0000", "mover": "mcts", "responder": "minimax",
            "winner": "minimax", "plies": 3, "seed": 7, "move_action_indices": [0, 17, 2]}"#,
    )
}

#[test]
fn legal_mask_empty_board_covers_all_actions() {
    assert_eq!(legal_action_mask(&Bitboard::empty()), u64::MAX);
}

#[test]
fn masks_and_keys_of_a_board() {
    let bb = Bitboard::empty().with_move(0, 0, 0);
    let mask = legal_action_mask(&bb);
    assert_eq!(mask.count_ones(), 53);
    assert_eq!(mask & 1, 0);
    assert_eq!(action_index(3, 15), 63);
    assert_eq!(
        canonical_key_hex(&State::new(bb)),
        "010200000000000000100000000000000000"
    );
}

fn run_config(label: &str) -> SearchSummaryRunConfig<'_> {
    SearchSummaryRunConfig {
        config_label: label,
        search_depth: None,
        rollouts: Some(50),
        beam_width: None,
        node_budget: None,
        time_budget_ms: None,
    }
}

#[test]
fn search_summary_row_shape_and_mask_consistency() {
    let empty_qfen = State::new(Bitboard::empty()).to_qfen();
    let mut engine = MCTSEngine::new(MCTSConfig {
        max_iterations: 50,
        seed: Some(7),
        use_transposition_table: false,
        ..Default::default()
    });
    engine.search(&Bitboard::empty(), &ucb).unwrap();
    let telemetry = engine.telemetry().unwrap();
    let row = search_summary_row(
        0,
        "run-test",
        &empty_qfen,
        &telemetry,
        &run_config("test-mcts"),
        &write,
    )
    .unwrap()
    .expect("rows with one entry per move are emitted");
    assert_eq!(text(&row, "schema"), SEARCH_SUMMARY_SCHEMA);
    assert_eq!(text(&row, "engine_kind"), "mcts");
    assert_eq!(items(&row, "policy_visits").len(), 64);
    assert_eq!(items(&row, "root_q_values").len(), 64);
    let mask = number(&row, "legal_action_mask");
    for (i, v) in items(&row, "policy_visits").iter().enumerate() {
        if v.as_unsigned().unwrap() > 0 {
            assert!(mask & (1u64 << i) != 0);
        }
    }
    assert!(number(&row, "expanded_nodes") > 0);
}

#[test]
fn search_summary_row_skips_unpreserved_identity() {
    let empty_qfen = State::new(Bitboard::empty()).to_qfen();
    let mut engine = MCTSEngine::new(MCTSConfig {
        max_iterations: 50,
        seed: Some(7),
        ..Default::default()
    });
    engine.search(&Bitboard::empty(), &ucb).unwrap();
    let telemetry = engine.telemetry().unwrap();
    let row = search_summary_row(
        0,
        "run-test",
        &empty_qfen,
        &telemetry,
        &run_config("test-mcts-tt"),
        &write,
    )
    .unwrap();
    assert!(row.is_none());
}

#[test]
fn observation_projection_has_contract_shape() {
    let projected = observation_v1_row(0, "run", &benchmark_row(), &position(), 250).unwrap();
    assert_eq!(text(&projected, "schema"), OBSERVATION_SCHEMA);
    assert_eq!(
        text(&projected, "contract_version"),
        OBSERVATION_CONTRACT_VERSION
    );
    assert_eq!(items(&projected, "policy_visits")[18].as_unsigned(), Some(1));
    assert_eq!(number(&projected, "legal_action_mask"), u64::MAX);
    assert_eq!(text(&projected, "value_source"), "exact");
}

#[test]
fn observation_projection_round_trips_through_contract_parser() {
    let projected = observation_v1_row(7, "run", &benchmark_row(), &position(), 250).unwrap();
    let parsed = parse_observation_row(&projected).unwrap();

    assert_eq!(parsed.run_id, "run");
    assert_eq!(parsed.row_id, 7);
    assert_eq!(parsed.side_to_move, 0);
    assert_eq!(parsed.policy_visits[18], 1);
    assert_eq!(parsed.legal_action_mask, u64::MAX);
    assert_eq!(parsed.elapsed_ms, 250);
}

#[test]
fn observation_parser_rejects_drifted_or_inconsistent_rows() {
    let valid = observation_v1_row(0, "run", &benchmark_row(), &position(), 250).unwrap();
    let cases = [
        ("bad version", r#"{"contract_version": "1.0.0"}"#),
        ("bad schema", r#"{"schema": "game-result.v1"}"#),
        ("bad mask", r#"{"legal_action_mask": 0}"#),
        ("bad confidence", r#"{"source_confidence": 1.5}"#),
    ];
    for (label, patch) in cases {
        let error = parse_observation_row(&patched(&valid, patch)).expect_err(label);
        assert!(!error.is_empty(), "expected validation error for {label}");
    }
}

#[test]
fn observation_parser_rejects_policy_on_illegal_action() {
    let bitboards = Bitboard::empty().with_move(0, 0, 0);
    let mut visits = vec!["0"; 64];
    visits[0] = "1";
    let row = json(&format!(
        r#"{{"schema": "{OBSERVATION_SCHEMA}", "contract_version": "{OBSERVATION_CONTRACT_VERSION}",
            "run_id": "run", "row_id": 0, "position_key": "key", "ply": 1, "side_to_move": 1,
            "bitboards": [1, 0, 0, 0, 0, 0, 0, 0], "qfen": "A.../..../..../....",
            "legal_action_mask": {}, "engine_kind": "minimax", "engine_version": "test",
            "elapsed_ms": 0, "policy_visits": [{}], "value": 0.0, "value_source": "heuristic",
            "source_confidence": 0.5}}"#,
        legal_action_mask(&bitboards),
        visits.join(",")
    ));
    let error = parse_observation_row(&row).unwrap_err();
    assert!(error.contains("policy_visits[0] is not legal"), "{error}");
}

#[test]
fn game_result_projection_maps_engines_to_players() {
    let projected = game_result_v1_row(
        0,
        "run",
        "2026-07-14T00:00:00+0200",
        &game_record(),
        &position(),
    )
    .unwrap();
    assert_eq!(text(&projected, "schema"), GAME_RESULT_SCHEMA);
    assert_eq!(
        text(&projected, "contract_version"),
        GAME_RESULT_CONTRACT_VERSION
    );
    assert_eq!(text(&projected, "p0_engine_kind"), "mcts");
    assert_eq!(text(&projected, "p1_engine_kind"), "minimax");
    assert_eq!(number(&projected, "winner"), 1);
    assert_eq!(items(&projected, "move_action_indices").len(), 3);
}

#[test]
fn game_result_projection_round_trips_through_contract_parser() {
    let projected = game_result_v1_row(
        2,
        "run",
        "2026-07-14T00:00:00+0200",
        &game_record(),
        &position(),
    )
    .unwrap();
    let parsed = parse_game_result_row(&projected).unwrap();

    assert_eq!(parsed.game_id, "run-00000002");
    assert_eq!(parsed.started_at, "2026-07-14T00:00:00+0200");
    assert_eq!(parsed.p0_engine_version, PACKAGE_VERSION);
    assert_eq!(parsed.p1_engine_version, PACKAGE_VERSION);
    assert_eq!(parsed.winner, 1);
    assert_eq!(parsed.plies, 3);
    assert_eq!(parsed.move_action_indices, vec![0, 17, 2]);
    assert_eq!(parsed.run_id.as_deref(), Some("run"));
}

#[test]
fn game_result_parser_rejects_drifted_or_inconsistent_rows() {
    let valid = game_result_v1_row(
        0,
        "run",
        "2026-07-14T00:00:00+0200",
        &game_record(),
        &position(),
    )
    .unwrap();
    let cases = [
        ("bad version", r#"{"contract_version": "1.0.0"}"#),
        ("bad schema", r#"{"schema": "observation.v1"}"#),
        ("bad winner", r#"{"winner": 2}"#),
        ("bad plies", r#"{"plies": 4}"#),
        ("bad action", r#"{"move_action_indices": [64]}"#),
    ];
    for (label, patch) in cases {
        let error = parse_game_result_row(&patched(&valid, patch)).expect_err(label);
        assert!(!error.is_empty(), "expected validation error for {label}");
    }
}

#[test]
fn selfplay_row_parses_current_release_fixture_shape() {
    let row = json(&format!(
        r#"{{"schema": "{SELFPLAY_SCHEMA}", "contract_version": "{SELFPLAY_CONTRACT_VERSION}",
            "game_id": 0, "ply": 1, "qfen": "A.../..../..../....", "side_to_move": 1,
            "policy": [{{"shape": 0, "position": 10, "visits": 2}},
                       {{"shape": 1, "position": 1, "visits": 6}}],
            "value": -1.0}}"#
    ));
    let parsed = parse_selfplay_row(&row).unwrap();

    assert_eq!(parsed.game_id, 0);
    assert_eq!(parsed.ply, 1);
    assert_eq!(parsed.side_to_move, 1);
    assert_eq!(parsed.policy[0].action_index(), 10);
    assert_eq!(parsed.policy[1].action_index(), 17);
    assert_eq!(parsed.value, -1);

    let dense = selfplay_dense_policy_visits(&parsed.policy).unwrap();
    assert_eq!(dense[10], 2);
    assert_eq!(dense[17], 6);
    assert_eq!(dense.iter().sum::<u32>(), 8);

    let physical = selfplay_arrow_parquet_record(&parsed).unwrap();
    assert_eq!(text(&physical, "logical_schema"), SELFPLAY_SCHEMA);
    assert_eq!(
        text(&physical, "contract_version"),
        SELFPLAY_CONTRACT_VERSION
    );
    assert_eq!(number(&physical, "ply"), 1);
    let planes: Vec<u64> = items(&physical, "bitboards")
        .iter()
        .map(|v| v.as_unsigned().unwrap())
        .collect();
    assert_eq!(planes, vec![1, 0, 0, 0, 0, 0, 0, 0]);
    assert_eq!(items(&physical, "policy_visits")[10].as_unsigned(), Some(2));
    assert_eq!(items(&physical, "policy_visits")[17].as_unsigned(), Some(6));
    assert!(matches!(physical.get("value"), Some(Json::Negative(-1))));
}

fn visit(shape: u8, position: u8, visits: u32) -> SelfPlayPolicyVisit {
    SelfPlayPolicyVisit {
        shape,
        position,
        visits,
    }
}

#[test]
fn selfplay_row_builder_emits_release_1_1_0_contract_json() {
    let row =
        selfplay_v1_row(7, 0, "..../..../..../....", 0, &vec![visit(0, 0, 3)], 1).unwrap();
    assert_eq!(text(&row, "schema"), SELFPLAY_SCHEMA);
    assert_eq!(text(&row, "contract_version"), SELFPLAY_CONTRACT_VERSION);
    assert_eq!(number(&row, "game_id"), 7);
    assert_eq!(number(&items(&row, "policy")[0], "visits"), 3);
    parse_selfplay_row(&row).unwrap();
}

#[test]
fn selfplay_rust_smoke_fixture_is_builder_output() {
    let rows = [
        selfplay_v1_row(
            0,
            0,
            "..../..../..../....",
            0,
            &vec![visit(0, 0, 3), visit(1, 5, 1)],
            1,
        )
        .unwrap(),
        selfplay_v1_row(
            0,
            1,
            "A.../..../..../....",
            1,
            &vec![visit(0, 10, 2), visit(1, 1, 6)],
            -1,
        )
        .unwrap(),
    ];
    let generated = rows
        .iter()
        .map(canonical_json)
        .collect::<Vec<_>>()
        .join("\n")
        + "\n";
    let expected = concat_lines(&[
        r#"{"contract_version":"1.2.0","game_id":0,"ply":0,"policy":[{"position":0,"shape":0,"visits":3},{"position":5,"shape":1,"visits":1}],"qfen":"..../..../..../....","schema":"selfplay.v1","side_to_move":0,"value":1.0}"#,
        r#"{"contract_version":"1.2.0","game_id":0,"ply":1,"policy":[{"position":10,"shape":0,"visits":2},{"position":1,"shape":1,"visits":6}],"qfen":"A.../..../..../....","schema":"selfplay.v1","side_to_move":1,"value":-1.0}"#,
    ]);
    assert_eq!(generated, expected);
    for line in generated.lines() {
        parse_selfplay_row(&json(line)).unwrap();
    }
}

fn concat_lines(lines: &[&str]) -> String {
    lines.join("\n") + "\n"
}

#[test]
fn selfplay_parser_rejects_drifted_or_inconsistent_rows() {
    let valid = json(&format!(
        r#"{{"schema": "{SELFPLAY_SCHEMA}", "contract_version": "{SELFPLAY_CONTRACT_VERSION}",
            "game_id": 0, "ply": 0, "qfen": "..../..../..../....", "side_to_move": 0,
            "policy": [{{"shape": 0, "position": 0, "visits": 1}}], "value": 1.0}}"#
    ));
    parse_selfplay_row(&valid).unwrap();
    let cases = [
        ("bad schema", r#"{"schema": "selfplay.v2"}"#),
        ("bad version", r#"{"contract_version": "9.9.9"}"#),
        ("bad side", r#"{"side_to_move": 1}"#),
        ("bad value", r#"{"value": 0.0}"#),
        ("empty policy", r#"{"policy": []}"#),
        (
            "illegal policy action",
            r#"{"qfen": "A.../..../..../....", "side_to_move": 1,
                "policy": [{"shape": 0, "position": 1, "visits": 1}]}"#,
        ),
        (
            "duplicate policy action",
            r#"{"policy": [{"shape": 0, "position": 0, "visits": 1},
                           {"shape": 0, "position": 0, "visits": 2}]}"#,
        ),
    ];
    for (label, patch) in cases {
        let error = parse_selfplay_row(&patched(&valid, patch)).expect_err(label);
        assert!(!error.is_empty(), "expected validation error for {label}");
    }
}

fn valid_model_checkpoint_manifest() -> Json {
    json(&format!(
        r#"{{"schema": "{MODEL_CHECKPOINT_SCHEMA}",
            "contract_version": "{MODEL_CHECKPOINT_CONTRACT_VERSION}",
            "model_id": "quantik-policy-value-20260714", "model_family": "policy-value",
            "created_at": "2026-07-14T12:00:00Z", "input_contracts": ["observation.v1"],
            "output_contract": "policy-value.v1", "weights_format": "safetensors",
            "weights_hash": "sha256:0123456789abcdef", "size_bytes": 1024,
            "training_data_manifest": "training-data-20260714.json",
            "calibration_report": "calibration-20260714.json",
            "feature_hash": "sha256:abcdef0123456789", "quantization": "float32",
            "parameter_count": 123456, "architecture": "tiny-transformer",
            "legal_action_mask_required": true, "recommended_engine_order": ["rust", "python"],
            "notes": "fixture manifest"}}"#
    ))
}

#[test]
fn model_checkpoint_manifest_parses_and_validates_contract_shape() {
    let manifest =
        ModelCheckpointManifest::from_json_value(&valid_model_checkpoint_manifest()).unwrap();

    assert_eq!(manifest.schema, MODEL_CHECKPOINT_SCHEMA);
    assert_eq!(manifest.contract_version, MODEL_CHECKPOINT_CONTRACT_VERSION);
    assert_eq!(manifest.input_contracts, vec!["observation.v1"]);
    assert_eq!(manifest.weights_format, "safetensors");
    assert_eq!(manifest.size_bytes, 1024);
    assert_eq!(manifest.parameter_count, Some(123456));
    assert_eq!(manifest.legal_action_mask_required, Some(true));
    assert_eq!(
        manifest.recommended_engine_order,
        Some(vec!["rust".to_string(), "python".to_string()])
    );
    assert!(manifest.validate().is_ok());
}

#[test]
fn model_checkpoint_manifest_accepts_opening_book_input_contract() {
    let manifest = patched(
        &valid_model_checkpoint_manifest(),
        r#"{"input_contracts": ["opening-book.v1"]}"#,
    );
    let parsed = ModelCheckpointManifest::from_json_value(&manifest).unwrap();
    assert_eq!(parsed.input_contracts, vec!["opening-book.v1"]);
}

#[test]
fn model_checkpoint_manifest_accepts_opening_book_summary_input_contract() {
    let manifest = patched(
        &valid_model_checkpoint_manifest(),
        r#"{"input_contracts": ["opening-book-summary.v1"]}"#,
    );
    let parsed = ModelCheckpointManifest::from_json_value(&manifest).unwrap();
    assert_eq!(parsed.input_contracts, vec!["opening-book-summary.v1"]);
}

#[test]
fn model_checkpoint_manifest_rejects_invalid_required_fields() {
    let cases = [
        ("wrong schema", r#"{"schema": "observation.v1"}"#),
        ("wrong contract version", r#"{"contract_version": "1.0.0"}"#),
        ("empty model id", r#"{"model_id": ""}"#),
        ("empty input contracts", r#"{"input_contracts": []}"#),
        ("empty input contract value", r#"{"input_contracts": [""]}"#),
        ("unsupported input contract", r#"{"input_contracts": ["unknown.v1"]}"#),
        ("empty output contract", r#"{"output_contract": ""}"#),
        ("unsupported weights format", r#"{"weights_format": "pickle"}"#),
        ("empty weights hash", r#"{"weights_hash": ""}"#),
        ("zero size", r#"{"size_bytes": 0}"#),
        ("empty training data manifest", r#"{"training_data_manifest": ""}"#),
        ("empty calibration report", r#"{"calibration_report": ""}"#),
    ];
    for (label, patch) in cases {
        let manifest = patched(&valid_model_checkpoint_manifest(), patch);
        let error = ModelCheckpointManifest::from_json_value(&manifest).expect_err(label);
        assert!(!error.is_empty(), "expected validation error for {label}");
    }
}

#[test]
fn model_checkpoint_manifest_rejects_mistyped_optional_fields() {
    let cases = [
        ("feature_hash", r#"{"feature_hash": 42}"#),
        ("quantization", r#"{"quantization": true}"#),
        ("parameter_count", r#"{"parameter_count": "many"}"#),
        ("architecture", r#"{"architecture": ["tiny"]}"#),
        ("legal_action_mask_required", r#"{"legal_action_mask_required": "yes"}"#),
        ("recommended_engine_order", r#"{"recommended_engine_order": ["rust", 7]}"#),
        ("notes", r#"{"notes": false}"#),
    ];
    for (field, patch) in cases {
        let manifest = patched(&valid_model_checkpoint_manifest(), patch);
        let error = ModelCheckpointManifest::from_json_value(&manifest).expect_err(field);
        assert!(error.contains(field), "expected {field} in {error}");
    }
}

#[test]
fn model_checkpoint_fixture_parses() {
    let document = canonical_json(&valid_model_checkpoint_manifest());
    let manifest = parse_model_checkpoint_manifest(&document).unwrap();

    assert_eq!(manifest.schema, MODEL_CHECKPOINT_SCHEMA);
    assert_eq!(manifest.contract_version, "1.2.0");
    assert_eq!(manifest.weights_format, "safetensors");
}

#[test]
fn masks_have_a_bit_for_each_legal_move() {
    for qfen in ["..../..../..../....", "AbC./..../..../....", "AA../bb../..../...."] {
        let bb = State::from_qfen(qfen).unwrap().bb;
        assert_eq!(
            legal_action_mask(&bb).count_ones() as usize,
            generate_legal_moves(&bb).len()
        );
    }
}
