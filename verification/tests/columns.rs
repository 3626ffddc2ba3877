use quantik_core::bench::columns::{
    contract_arrow_metadata, game_result_parquet_schema, observation_parquet_schema,
    selfplay_arrow_parquet_metadata, selfplay_arrow_parquet_schema,
    validate_contract_parquet_metadata, validate_game_result_arrow_schema,
    validate_observation_arrow_schema, validate_selfplay_arrow_parquet_metadata,
    validate_selfplay_arrow_schema, ColumnKind,
};
use quantik_core::bench::canonical::canonical_json;
use quantik_core::bench::contracts::{
    export_game_result_rows, export_observation_rows, parse_game_result_row,
    parse_observation_row, parse_selfplay_row, selfplay_v1_row, SelfPlayPolicyVisit,
    GAME_RESULT_CONTRACT_VERSION, GAME_RESULT_SCHEMA, OBSERVATION_CONTRACT_VERSION,
    OBSERVATION_SCHEMA, SELFPLAY_CONTRACT_VERSION, SELFPLAY_SCHEMA,
};
use quantik_core::bench::game_result::{game_result_from_entry, game_result_plies};
use quantik_core::bench::json::{parse_json, Json};
use quantik_core::bench::observation::{
    observation_entry, observation_policy_visits_u32, observation_row_from_entry,
};
use quantik_core::bench::selfplay::sparse_policy;
use quantik_core::bench::selfplay_columns::{
    selfplay_columns, selfplay_row_from_entry, SelfPlayEntry,
};

fn json(text: &str) -> Json {
    parse_json(text).unwrap()
}

fn visit(shape: u8, position: u8, visits: u32) -> SelfPlayPolicyVisit {
    SelfPlayPolicyVisit {
        shape,
        position,
        visits,
    }
}

fn entry(qfen: Option<&str>) -> SelfPlayEntry {
    let mut policy_visits = vec![0; 64];
    policy_visits[10] = 2;
    policy_visits[17] = 6;
    SelfPlayEntry {
        logical_schema: SELFPLAY_SCHEMA.to_string(),
        contract_version: SELFPLAY_CONTRACT_VERSION.to_string(),
        game_id: 0,
        ply: 1,
        side_to_move: 1,
        bitboards: [1, 0, 0, 0, 0, 0, 0, 0],
        policy_visits,
        value: -1,
        qfen: qfen.map(|q| q.to_string()),
    }
}

#[test]
fn selfplay_arrow_parquet_round_trips_fixture_shape_rows() {
    let first =
        selfplay_v1_row(0, 0, "..../..../..../....", 0, &vec![visit(0, 0, 3)], 1).unwrap();
    let second = selfplay_v1_row(
        0,
        1,
        "A.../..../..../....",
        1,
        &vec![visit(0, 10, 2), visit(1, 1, 6)],
        -1,
    )
    .unwrap();
    let rows = vec![
        parse_selfplay_row(&first).unwrap(),
        parse_selfplay_row(&second).unwrap(),
    ];
    let columns = selfplay_columns(&rows).unwrap();
    assert_eq!(columns.ply, vec![0, 1]);
    assert_eq!(columns.bitboards.len(), 16);
    assert_eq!(columns.policy_visits[64 + 17], 6);
    let read = selfplay_row_from_entry(&SelfPlayEntry {
        logical_schema: columns.logical_schema[1].clone(),
        contract_version: columns.contract_version[1].clone(),
        game_id: columns.game_id[1],
        ply: columns.ply[1],
        side_to_move: columns.side_to_move[1],
        bitboards: [1, 0, 0, 0, 0, 0, 0, 0],
        policy_visits: columns.policy_visits[64..].to_vec(),
        value: columns.value[1],
        qfen: Some(columns.qfen[1].clone()),
    })
    .unwrap();
    assert_eq!(read.qfen, rows[1].qfen);
    assert_eq!(read.policy, rows[1].policy);
    assert_eq!(read.value, -1);
}

#[test]
fn selfplay_arrow_parquet_reader_accepts_nullable_qfen() {
    let read = selfplay_row_from_entry(&entry(None)).unwrap();
    assert_eq!(read.qfen, "A.../..../..../....");
    assert_eq!(read.policy, vec![visit(0, 10, 2), visit(1, 1, 6)]);
    let wrong = entry(Some("..../..../..../...."));
    assert_eq!(
        selfplay_row_from_entry(&wrong).unwrap_err(),
        "qfen does not match bitboards"
    );
}

#[test]
fn selfplay_arrow_parquet_reader_rejects_drifted_metadata() {
    assert!(validate_selfplay_arrow_parquet_metadata(&None).is_err());
    let own = Some(selfplay_arrow_parquet_metadata());
    validate_selfplay_arrow_parquet_metadata(&own).unwrap();
    let mut drifted = selfplay_arrow_parquet_metadata();
    for label in &mut drifted {
        if label.1.as_deref() == Some(SELFPLAY_SCHEMA) {
            label.1 = Some("selfplay.v2".to_string());
        }
    }
    let error = validate_selfplay_arrow_parquet_metadata(&Some(drifted)).unwrap_err();
    assert!(error.contains("selfplay.v2"), "{error}");
    let mut other = entry(None);
    other.logical_schema = "selfplay.v2".to_string();
    assert_eq!(
        selfplay_row_from_entry(&other).unwrap_err(),
        "logical_schema must be selfplay.v1, got selfplay.v2"
    );
}

#[test]
fn selfplay_arrow_parquet_reader_rejects_drifted_physical_shape() {
    let good = selfplay_arrow_parquet_schema();
    validate_selfplay_arrow_schema(&good).unwrap();
    let mut drifted = selfplay_arrow_parquet_schema();
    for column in &mut drifted {
        if column.name == "bitboards" {
            column.kind = ColumnKind::FixedUInt16(7);
        }
    }
    assert!(validate_selfplay_arrow_schema(&drifted).is_err());
}

#[test]
fn observation_parquet_reader_rejects_drifted_metadata() {
    let own = Some(contract_arrow_metadata(
        OBSERVATION_SCHEMA,
        OBSERVATION_CONTRACT_VERSION,
    ));
    validate_contract_parquet_metadata(&own, OBSERVATION_SCHEMA, OBSERVATION_CONTRACT_VERSION)
        .unwrap();
    let drifted = Some(contract_arrow_metadata(
        "observation.v2",
        OBSERVATION_CONTRACT_VERSION,
    ));
    let error = validate_contract_parquet_metadata(
        &drifted,
        OBSERVATION_SCHEMA,
        OBSERVATION_CONTRACT_VERSION,
    )
    .unwrap_err();
    assert!(error.contains("observation.v2"), "{error}");
}

#[test]
fn game_result_parquet_reader_rejects_drifted_metadata() {
    let drifted = Some(contract_arrow_metadata(
        "game-result.v2",
        GAME_RESULT_CONTRACT_VERSION,
    ));
    let error = validate_contract_parquet_metadata(
        &drifted,
        GAME_RESULT_SCHEMA,
        GAME_RESULT_CONTRACT_VERSION,
    )
    .unwrap_err();
    assert!(error.contains("game-result.v2"), "{error}");
}

#[test]
fn column_lists_are_accepted_as_they_are_written() {
    validate_observation_arrow_schema(&observation_parquet_schema()).unwrap();
    validate_game_result_arrow_schema(&game_result_parquet_schema()).unwrap();
    assert!(validate_observation_arrow_schema(&game_result_parquet_schema()).is_err());
    assert!(validate_game_result_arrow_schema(&vec![]).is_err());
}

fn dataset() -> Json {
    json(r#"{"positions": [{"id": "p0000", "qfen": "..../..../..../....", "phase": "opening"}]}"#)
}

fn bundle() -> Json {
    json(
        r#"{"started_at": "2026-07-14T00:00:00+0200",
            "observations": [{"position_id": "p0000", "engine": "minimax", "move": "0:1:2",
                "wall_time_s": 0.25, "exact": true, "seed": null, "nodes": 10,
                "iterations": null, "depth_reached": 4, "score": 1.0}],
            "head_to_head": {"records": [{"position_id": "p0000", "mover": "mcts",
                "responder": "minimax", "winner": "minimax", "plies": 3, "seed": 7,
                "move_action_indices": [0, 17, 2]}], "aggregates": []}}"#,
    )
}

#[test]
fn observation_parquet_round_trips_contract_surface() {
    let lines = export_observation_rows(&bundle(), &dataset(), &vec![250]).unwrap();
    assert!(lines.failure.is_none());
    assert_eq!(lines.lines.len(), 1);
    let row = parse_observation_row(&json(&lines.lines[0])).unwrap();
    let stored = observation_entry(&row).unwrap();
    assert_eq!(stored.policy_visits[18], 1);
    let read = observation_row_from_entry(&stored).unwrap();
    assert_eq!(read.policy_visits, row.policy_visits);
    assert_eq!(read.value, row.value);
    assert_eq!(read.position_key, row.position_key);
    assert_eq!(read.elapsed_ms, 250);
    assert!(observation_policy_visits_u32(&vec![u64::MAX; 64]).is_err());
}

#[test]
fn game_result_parquet_round_trips_contract_surface() {
    let lines = export_game_result_rows(&bundle(), &dataset()).unwrap();
    assert!(lines.failure.is_none());
    let row = parse_game_result_row(&json(&lines.lines[0])).unwrap();
    let rows = vec![row];
    assert_eq!(game_result_plies(&rows).unwrap(), vec![3]);
    let read =
        game_result_from_entry(GAME_RESULT_SCHEMA, GAME_RESULT_CONTRACT_VERSION, &rows[0])
            .unwrap();
    assert_eq!(read.move_action_indices, vec![0, 17, 2]);
    assert_eq!(read.winner, 1);
    assert!(game_result_from_entry("game-result.v2", GAME_RESULT_CONTRACT_VERSION, &rows[0]).is_err());
}

#[test]
fn dense_policies_list_their_actions() {
    let mut dense = vec![0u32; 64];
    dense[0] = 3;
    dense[63] = 1;
    assert_eq!(sparse_policy(&dense), vec![visit(0, 0, 3), visit(3, 15, 1)]);
}

#[test]
fn unknown_positions_stop_an_export() {
    let empty = json(r#"{"positions": []}"#);
    let refused = match export_observation_rows(&bundle(), &empty, &vec![250]) {
        Ok(lines) => lines.failure.is_some() && lines.lines.is_empty(),
        Err(_) => true,
    };
    assert!(refused);
    assert_eq!(canonical_json(&empty), r#"{"positions":[]}"#);
}
