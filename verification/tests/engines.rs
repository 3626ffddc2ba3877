use quantik_core::bench::adapters::{
    fixed_time_adapters, record_choice, select, AnyAdapter, BeamAdapter, EngineAdapter, MCTSAdapter,
    MinimaxAdapter, RandomAdapter, Seconds,
};
use quantik_core::bench::correctness::run_preflight;
use quantik_core::bench::head_to_head::play_game;
use quantik_core::bench::json::{parse_json, Json};
use quantik_core::bench::roster::{
    build_adapter, build_adapters, normalize_engine_name, RunArgs,
};
use quantik_core::bitboard::Bitboard;
use quantik_core::game::has_winning_line;
use quantik_core::moves::{apply_move, generate_legal_moves};
use quantik_core::search_telemetry::Ratio;
use rand::rngs::StdRng;
use rand::{Rng, SeedableRng};

type Priority = fn(u32, u32, u32) -> i64;

fn ucb(wins: u32, visits: u32, parent: u32) -> i64 {
    let n = f64::from(visits);
    let explore = std::f64::consts::SQRT_2 * (f64::from(parent).ln() / n).sqrt();
    ((f64::from(wins) / n + explore) * 1e15) as i64
}

fn no_cpu() -> u64 {
    0
}

fn write(q: Ratio) -> String {
    format!("{:e}", q.num as f64 / q.den as f64)
}

fn secs(nanos: u64) -> Seconds {
    Seconds {
        text: format!("{:e}", nanos as f64 / 1e9),
        nanos,
    }
}

fn cheap_adapters() -> Vec<AnyAdapter<Priority>> {
    vec![
        AnyAdapter::Minimax(MinimaxAdapter {
            max_depth: 2,
            time_limit: None,
        }),
        AnyAdapter::Mcts(MCTSAdapter {
            max_iterations: 50,
            max_depth: 16,
            exploration_weight: format!("{:e}", std::f64::consts::SQRT_2),
            time_limit: None,
            priority: ucb as Priority,
        }),
        AnyAdapter::Beam(BeamAdapter {
            beam_width: 8,
            max_depth: 4,
            time_limit: None,
        }),
        AnyAdapter::Random(RandomAdapter),
    ]
}

#[test]
fn adapters_return_legal_reproducible_moves() {
    let bb = Bitboard::empty().with_move(0, 0, 5).with_move(1, 2, 10);
    let legal = generate_legal_moves(&bb);
    for adapter in cheap_adapters() {
        let (mv1, obs1) = select(&adapter, &bb, "t1", Some(9), &no_cpu).unwrap();
        let (mv2, obs2) = select(&adapter, &bb, "t1", Some(9), &no_cpu).unwrap();
        assert!(legal.contains(&mv1), "{}", adapter.name());
        assert_eq!(mv1, mv2, "{} not reproducible", adapter.name());
        assert_eq!(obs1.mv, obs2.mv);
        assert_eq!(obs1.root_legal_moves, legal.len());
    }
}

#[test]
fn labels_match_python_format() {
    let minimax = MinimaxAdapter {
        max_depth: 16,
        time_limit: Some(secs(1_000_000_000)),
    };
    assert_eq!(minimax.config_label(), "minimax(d=16,t=1.0)");
    let mcts = MCTSAdapter {
        max_iterations: 10_000_000,
        max_depth: 16,
        exploration_weight: "1.414e0".to_string(),
        time_limit: Some(secs(1_000_000_000)),
        priority: ucb as Priority,
    };
    assert_eq!(mcts.config_label(), "mcts(it=10000000,d=16,c=1.414,t=1.0)");
    let beam = BeamAdapter {
        beam_width: 256,
        max_depth: 16,
        time_limit: Some(secs(1_000_000_000)),
    };
    assert_eq!(beam.config_label(), "beam(w=256,d=16,t=1.0)");
    assert_eq!(RandomAdapter.config_label(), "random");
    let native = MinimaxAdapter {
        max_depth: 6,
        time_limit: None,
    };
    assert_eq!(native.config_label(), "minimax(d=6)");
}

#[test]
fn select_rejects_terminal_state() {
    let won = Bitboard::empty()
        .with_move(0, 0, 0)
        .with_move(1, 1, 1)
        .with_move(0, 2, 2)
        .with_move(1, 3, 3);
    assert!(select(&RandomAdapter, &won, "t", Some(0), &no_cpu).is_err());
}

#[test]
fn observation_json_field_names_match_python() {
    let bb = Bitboard::empty();
    let (_, obs) = select(&RandomAdapter, &bb, "p0000", Some(1), &no_cpu).unwrap();
    let value = obs.to_json(&write);
    for field in [
        "engine",
        "config_label",
        "position_id",
        "move",
        "wall_time_s",
        "cpu_time_s",
        "root_legal_moves",
        "exact",
        "seed",
        "nodes",
        "iterations",
        "depth_reached",
        "score",
        "peak_memory_bytes",
        "extra",
    ] {
        assert!(value.get(field).is_some(), "missing {field}");
    }
    assert_eq!(value.get("engine").unwrap().as_text(), Some("random"));
    assert!(value.get("nodes").unwrap().is_null());
}

#[test]
fn minimax_exactness_flag() {
    // With twelve pieces on the board, four plies are left: the search sees the end.
    let mut bb = Bitboard::empty();
    let mut rng = StdRng::seed_from_u64(4);
    let mut placed = 0;
    while placed < 12 {
        let moves = generate_legal_moves(&bb);
        if moves.is_empty() {
            bb = Bitboard::empty();
            placed = 0;
            continue;
        }
        let next = apply_move(&bb, &moves[rng.gen_range(0..moves.len())]);
        if has_winning_line(&next) {
            bb = Bitboard::empty();
            placed = 0;
            continue;
        }
        bb = next;
        placed += 1;
    }
    if generate_legal_moves(&bb).is_empty() {
        return;
    }
    let adapter = MinimaxAdapter {
        max_depth: 16,
        time_limit: None,
    };
    let (_, obs) = select(&adapter, &bb, "deep", None, &no_cpu).unwrap();
    assert!(obs.exact);
}

#[test]
fn adapters_of_fixed_time_share_it() {
    let (minimax, mcts, beam) = fixed_time_adapters(&secs(500_000_000), 64, ucb as Priority);
    assert_eq!(minimax.config_label(), "minimax(d=16,t=0.5)");
    assert_eq!(
        mcts.config_label(),
        "mcts(it=10000000,d=16,c=1.4142135623730951,t=0.5)"
    );
    assert_eq!(beam.config_label(), "beam(w=64,d=16,t=0.5)");
}

fn native_args(engines: &[&str]) -> RunArgs {
    RunArgs {
        family: "native".to_string(),
        time_limit: secs(1_000_000_000),
        minimax_depth: 4,
        minimax_time: secs(100_000_000),
        mcts_iterations: 10,
        mcts_depth: 4,
        mcts_exploration: "1.414e0".to_string(),
        beam_width: 8,
        beam_depth: 4,
        engines: engines.iter().map(|e| e.to_string()).collect(),
    }
}

#[test]
fn engine_selection_accepts_aliases_and_preserves_requested_order() {
    let args = native_args(&["mcts", "minmax"]);
    let adapters = build_adapters(&args, ucb as Priority).unwrap();
    let names: Vec<&str> = adapters.iter().map(|adapter| adapter.name()).collect();
    assert_eq!(names, vec!["mcts", "minimax"]);
}

#[test]
fn engine_selection_rejects_unknown_engines() {
    let args = native_args(&["mcts", "quantum"]);
    let err = match build_adapters(&args, ucb as Priority) {
        Ok(_) => panic!("unknown engine should be rejected"),
        Err(err) => err,
    };
    assert!(err.contains("unknown engine"), "{err}");
    assert!(err.contains("minimax"), "{err}");
    assert!(err.contains("mcts"), "{err}");
    assert!(err.contains("beam"), "{err}");
    assert_eq!(
        err,
        "unknown engine \"quantum\"; supported engines: minimax, mcts, beam, random"
    );
}

#[test]
fn engine_selection_rejects_duplicates_and_defaults_to_all() {
    let twice = native_args(&["beam", "beam-search"]);
    match build_adapters(&twice, ucb as Priority) {
        Ok(_) => panic!("duplicate engine should be rejected"),
        Err(err) => assert_eq!(err, "duplicate engine \"beam\""),
    }
    let all = build_adapters(&native_args(&[]), ucb as Priority).unwrap();
    assert_eq!(all.len(), 4);
    assert_eq!(normalize_engine_name("  Baseline "), Some("random"));
    assert_eq!(normalize_engine_name("MINMAX"), Some("minimax"));
    assert_eq!(normalize_engine_name("mini max"), None);
}

#[test]
fn families_set_the_limits() {
    let native = build_adapter("minimax", &native_args(&[]), ucb as Priority);
    assert_eq!(native.config_label(), "minimax(d=4,t=0.1)");
    let mut args = native_args(&[]);
    args.family = "fixed".to_string();
    let fixed = build_adapter("mcts", &args, ucb as Priority);
    assert_eq!(
        fixed.config_label(),
        "mcts(it=10000000,d=16,c=1.4142135623730951,t=1.0)"
    );
    assert!(!native.stochastic());
    assert!(fixed.stochastic());
}

#[test]
fn preflight_flags_terminal_position() {
    let position = parse_json(
        r#"{"id": "bad1", "qfen": "AbCd/..../..../....", "side_to_move": 0}"#,
    )
    .unwrap();
    let none: Vec<AnyAdapter<Priority>> = Vec::new();
    let failures = run_preflight(&none, &vec![position]);
    assert_eq!(failures.len(), 1);
    assert!(failures[0].contains("terminal"));
}

#[test]
fn preflight_passes_on_good_positions() {
    let positions: Vec<Json> = ["..../..../..../....", "Ab../..../..../....", "AbC./..../..../...."]
        .iter()
        .enumerate()
        .map(|(i, qfen)| {
            let side = i % 2 * (i / 2);
            let side = if i == 2 { 1 } else { side };
            parse_json(&format!(
                "{{\"id\": \"p{i}\", \"qfen\": \"{qfen}\", \"side_to_move\": {side}}}"
            ))
            .unwrap()
        })
        .collect();
    let failures = run_preflight(&cheap_adapters(), &positions);
    assert!(failures.is_empty(), "{failures:#?}");
}

#[test]
fn play_game_terminates_and_credits_winner() {
    // The mover can complete row 0 at once.
    let bb = Bitboard::empty()
        .with_move(0, 0, 0)
        .with_move(1, 1, 1)
        .with_move(0, 2, 2);
    let minimax = MinimaxAdapter {
        max_depth: 3,
        time_limit: None,
    };
    let random = RandomAdapter;
    let (winner, plies) = play_game(&minimax, &random, &bb, 0).unwrap();
    assert_eq!(winner, "minimax");
    assert_eq!(plies, 1);
}

#[test]
fn random_moves_are_the_first_draw_of_the_seed() {
    let bb = Bitboard::empty().with_move(0, 0, 5).with_move(1, 2, 10);
    let legal = generate_legal_moves(&bb);
    for seed in 0..20u64 {
        let expected = StdRng::seed_from_u64(seed).gen_range(0..legal.len());
        let (mv, _) = RandomAdapter.select_raw(&bb, Some(seed)).unwrap();
        assert_eq!(mv, legal[expected]);
    }
}

#[test]
fn choices_are_recorded_with_their_times() {
    let bb = Bitboard::empty();
    let (mv, metrics) = RandomAdapter.select_raw(&bb, Some(1)).unwrap();
    let o = record_choice(&RandomAdapter, &bb, "p7", Some(1), &mv, metrics, 30, 20);
    assert_eq!((o.wall_nanos, o.cpu_nanos), (30, 20));
    assert_eq!((o.position_id.as_str(), o.root_legal_moves), ("p7", 64));
}

#[test]
fn processor_time_is_the_difference_of_two_answers() {
    let bb = Bitboard::empty();
    let asked = std::cell::Cell::new(0);
    let clock = || {
        asked.set(asked.get() + 1);
        asked.get() * 1_000_000_000_000
    };
    let (_, o) = select(&RandomAdapter, &bb, "p0", Some(1), &clock).unwrap();
    assert_eq!(asked.get(), 2);
    assert_eq!(o.cpu_nanos, 1_000_000_000_000);
    assert!(o.wall_nanos < 1_000_000_000_000);
    let backwards = || {
        asked.set(asked.get() - 1);
        asked.get()
    };
    let (_, o) = select(&RandomAdapter, &bb, "p0", Some(1), &backwards).unwrap();
    assert_eq!(o.cpu_nanos, 0);
}
