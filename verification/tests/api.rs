use quantik_core::api::{
    beam_settings, engine_kinds, mcts_settings, run_search, seconds, validate_request, Failure,
    MoveRequest, SearchConfig, REQUEST_SCHEMA, RESPONSE_SCHEMA,
};
use quantik_core::moves::generate_legal_moves;
use quantik_core::state::State;

fn ucb(wins: u32, visits: u32, parent: u32) -> i64 {
    let n = f64::from(visits);
    let explore = std::f64::consts::SQRT_2 * (f64::from(parent).ln() / n).sqrt();
    ((f64::from(wins) / n + explore) * 1e15) as i64
}

fn request(qfen: &str, side_to_move: u8) -> MoveRequest {
    let state = State::from_qfen(qfen).unwrap();
    MoveRequest {
        schema: REQUEST_SCHEMA.to_string(),
        qfen: qfen.to_string(),
        side_to_move,
        legal_action_indices: generate_legal_moves(&state.bb)
            .iter()
            .map(|m| m.shape * 16 + m.position)
            .collect(),
        config: SearchConfig::default(),
    }
}

#[test]
fn minimax_returns_a_legal_portable_action() {
    let mut request = request("AbC./..../..../....", 1);
    request.config.max_depth = Some(2);
    request.config.seed = Some(7);
    validate_request(&request).unwrap();
    let response = run_search("minimax", &request, &ucb).unwrap();
    assert_eq!(response.schema, RESPONSE_SCHEMA);
    assert_eq!(response.action_index, 51);
    assert_eq!(response.engine_kind, "minimax");
    assert_eq!(response.value, None);
}

#[test]
fn request_legality_must_match_core_exactly() {
    let mut request = request("..../..../..../....", 0);
    request.legal_action_indices = vec![0];
    let error = run_search("mcts", &request, &ucb).unwrap_err();
    assert_eq!(error.status, Failure::Unprocessable);
    assert_eq!(
        error.message,
        "legal_action_indices do not exactly match quantik-core"
    );
}

#[test]
fn actions_may_come_in_any_order_and_twice() {
    let mut request = request("AbC./..../..../....", 1);
    request.legal_action_indices.reverse();
    let first = request.legal_action_indices[0];
    request.legal_action_indices.push(first);
    request.config.max_depth = Some(1);
    assert_eq!(run_search("minimax", &request, &ucb).unwrap().action_index, 51);
}

#[test]
fn malformed_requests_are_refused() {
    let good = request("..../..../..../....", 0);
    let mut other = good.clone();
    other.schema = "quantik.engine-request.v2".to_string();
    let error = validate_request(&other).unwrap_err();
    assert_eq!(error.status, Failure::BadRequest);
    assert_eq!(error.message, "schema must be quantik.engine-request.v1");
    let mut other = good.clone();
    other.side_to_move = 2;
    assert_eq!(
        validate_request(&other).unwrap_err().message,
        "side_to_move must be 0 or 1"
    );
    let mut other = good.clone();
    other.legal_action_indices.push(64);
    assert_eq!(
        validate_request(&other).unwrap_err().message,
        "legal_action_indices must contain values from 0 through 63"
    );
    let mut other = good;
    other.qfen = "nonsense".to_string();
    assert_eq!(
        run_search("mcts", &other, &ucb).unwrap_err().status,
        Failure::BadRequest
    );
}

#[test]
fn requests_must_describe_the_position() {
    let wrong_side = request("AbC./..../..../....", 0);
    assert_eq!(
        run_search("mcts", &wrong_side, &ucb).unwrap_err().message,
        "side_to_move is 0, but core calculated 1"
    );
    let finished = request("A.../B.../C.../D...", 0);
    assert_eq!(
        run_search("mcts", &finished, &ucb).unwrap_err().message,
        "position is terminal or has no legal moves"
    );
    let unknown = request("..../..../..../....", 0);
    let error = run_search("quantum", &unknown, &ucb).unwrap_err();
    assert_eq!(error.status, Failure::NotFound);
    assert_eq!(error.message, "unknown engine \"quantum\"");
}

#[test]
fn won_positions_are_left_to_the_engines() {
    let won = request("AbCd/..../..../....", 0);
    assert!(run_search("minimax", &won, &ucb).is_ok());
    assert_eq!(
        run_search("mcts", &won, &ucb).unwrap_err().message,
        "MCTS found no move"
    );
    assert_eq!(
        run_search("beam", &won, &ucb).unwrap_err().status,
        Failure::Unprocessable
    );
}

#[test]
fn every_engine_answers_with_a_listed_action() {
    for engine in engine_kinds() {
        let mut request = request("Ab../..../..../....", 0);
        request.config.seed = Some(3);
        request.config.iterations = Some(200);
        request.config.max_depth = Some(2);
        request.config.beam_width = Some(4);
        request.config.rollouts = Some(1);
        let response = run_search(engine, &request, &ucb).unwrap();
        assert!(request.legal_action_indices.contains(&response.action_index));
        if let Some(value) = response.value {
            assert!(value.num.unsigned_abs() <= value.den);
        }
    }
}

#[test]
fn limits_are_kept_in_range() {
    let wild = SearchConfig {
        max_depth: Some(99),
        time_limit_ms: Some(0),
        iterations: Some(0),
        beam_width: Some(usize::MAX),
        rollouts: Some(0),
        seed: None,
    };
    assert_eq!(mcts_settings(&wild).max_iterations, 1);
    assert_eq!(mcts_settings(&wild).max_depth, 16);
    assert_eq!(beam_settings(&wild).beam_width, 100_000);
    assert_eq!(beam_settings(&wild).rollouts_per_candidate, 1);
    assert_eq!(mcts_settings(&SearchConfig::default()).max_iterations, 1_500);
    assert_eq!(seconds(Some(0)), Some(1_000_000));
    assert_eq!(seconds(Some(1_000_000)), Some(300_000_000_000));
    assert_eq!(seconds(None), None);
}

#[test]
fn answers_with_one_seed_agree() {
    for engine in engine_kinds() {
        let answer = || {
            let mut request = request("Ab../..../..../....", 0);
            request.config.seed = Some(3);
            request.config.iterations = Some(200);
            request.config.max_depth = Some(2);
            request.config.beam_width = Some(4);
            request.config.rollouts = Some(1);
            let response = run_search(engine, &request, &ucb).unwrap();
            (response.action_index, response.value.map(|q| (q.num, q.den)))
        };
        assert_eq!(answer(), answer());
    }
}
