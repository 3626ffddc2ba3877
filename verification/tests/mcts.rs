use quantik_core::bitboard::Bitboard;
use quantik_core::game::has_winning_line;
use quantik_core::mcts::{MCTSConfig, MCTSEngine};
use quantik_core::moves::{apply_move, generate_legal_moves, Move};
use quantik_core::search_telemetry::{EngineKind, PolicyMassKind, Ratio};
use std::collections::HashSet;
use std::time::Instant;

const UNPROVEN_VALUE_BOUND: f64 = 0.999_999;

fn ucb(wins: u32, visits: u32, parent: u32) -> i64 {
    let n = f64::from(visits);
    let rate = f64::from(wins) / n;
    let explore = std::f64::consts::SQRT_2 * (f64::from(parent).ln() / n).sqrt();
    ((rate + explore) * 1e15) as i64
}

fn value(q: Ratio) -> f64 {
    q.num as f64 / q.den as f64
}

#[test]
fn mcts_returns_a_move() {
    let mut engine = MCTSEngine::new(MCTSConfig {
        max_iterations: 100,
        seed: Some(42),
        ..Default::default()
    });
    let result = engine.search(&Bitboard::empty(), &ucb);
    assert!(result.is_some());
    let (mv, prob) = result.unwrap();
    assert_eq!(mv.player, 0);
    assert!(mv.shape < 4);
    assert!(mv.position < 16);
    assert!((0.0..=1.0).contains(&value(prob)));
}

#[test]
fn root_move_visits_covers_every_legal_move_and_sums_to_iterations() {
    let bb = Bitboard::empty();
    let legal = generate_legal_moves(&bb);
    let mut engine = MCTSEngine::new(MCTSConfig {
        max_iterations: 2000,
        seed: Some(7),
        use_transposition_table: false,
        ..Default::default()
    });
    let (best_move, _win_prob) = engine.search(&bb, &ucb).expect("legal moves exist");
    let visits = engine.root_move_visits();

    assert_eq!(visits.len(), legal.len());
    let visited_moves: HashSet<Move> = visits.iter().map(|(mv, _)| *mv).collect();
    for mv in &legal {
        assert!(visited_moves.contains(mv), "missing {mv:?}");
    }

    let total_visits: u32 = visits.iter().map(|(_, v)| v).sum();
    assert_eq!(total_visits, 2000);

    let best_visits = visits
        .iter()
        .find(|(mv, _)| *mv == best_move)
        .map(|(_, v)| *v)
        .unwrap();
    assert!(visits.iter().all(|(_, v)| *v <= best_visits));
}

#[test]
fn root_move_visits_empty_before_search() {
    let engine = MCTSEngine::new(MCTSConfig::default());
    assert!(engine.root_move_visits().is_empty());
}

#[test]
fn root_move_visits_default_config_collapses_symmetric_root_moves() {
    // With merging the 64 first moves share three canonical nodes.
    let bb = Bitboard::empty();
    let legal = generate_legal_moves(&bb);
    assert_eq!(legal.len(), 64);

    let mut engine = MCTSEngine::new(MCTSConfig {
        max_iterations: 2000,
        seed: Some(7),
        ..Default::default()
    });
    engine.search(&bb, &ucb).expect("legal moves exist");

    let visits = engine.root_move_visits();
    assert_eq!(visits.len(), 3);
    let total_visits: u32 = visits.iter().map(|(_, v)| v).sum();
    assert_eq!(total_visits, 2000);
}

#[test]
fn mcts_finds_winning_move() {
    let bb = Bitboard::empty()
        .with_move(0, 0, 0)
        .with_move(1, 1, 5)
        .with_move(0, 2, 2);
    let mut engine = MCTSEngine::new(MCTSConfig {
        max_iterations: 500,
        seed: Some(123),
        ..Default::default()
    });
    let result = engine.search(&bb, &ucb);
    assert!(result.is_some());
}

#[test]
fn mcts_no_moves_returns_none() {
    // Row 0 is complete: the root is over and is never expanded.
    let bb = Bitboard::empty()
        .with_move(0, 0, 0)
        .with_move(1, 1, 1)
        .with_move(0, 2, 2)
        .with_move(1, 3, 3);
    let mut engine = MCTSEngine::new(MCTSConfig {
        max_iterations: 10,
        seed: Some(1),
        ..Default::default()
    });
    assert!(engine.search(&bb, &ucb).is_none());
}

#[test]
fn mcts_picks_immediate_win_for_player_1() {
    // A@0, b@1, C@2: player 1 to move, d@3 completes row 0.
    let bb = Bitboard::empty()
        .with_move(0, 0, 0)
        .with_move(1, 1, 1)
        .with_move(0, 2, 2);
    let mut engine = MCTSEngine::new(MCTSConfig {
        max_iterations: 3_000,
        seed: Some(7),
        ..Default::default()
    });
    let (mv, prob) = engine.search(&bb, &ucb).unwrap();
    let after = apply_move(&bb, &mv);
    assert!(has_winning_line(&after), "got {mv:?} ({prob:?})");
    assert!(value(prob) > 0.5, "win probability is for the root mover");
}

#[test]
fn telemetry_proven_terminal_child_is_exact_others_are_clamped() {
    let bb = Bitboard::empty()
        .with_move(0, 0, 0)
        .with_move(1, 1, 1)
        .with_move(0, 2, 2);
    let winning_move = Move::new(1, 3, 3);
    let mut engine = MCTSEngine::new(MCTSConfig {
        max_iterations: 3_000,
        seed: Some(7),
        use_transposition_table: false,
        ..Default::default()
    });
    engine.search(&bb, &ucb).unwrap();
    let t = engine.telemetry().unwrap();

    let winning_stat = t
        .root_moves
        .iter()
        .find(|s| s.mv == winning_move)
        .expect("the winning move is a root move");
    assert_eq!(winning_stat.q.map(value), Some(1.0));

    for stat in &t.root_moves {
        if stat.mv == winning_move {
            continue;
        }
        if let Some(q) = stat.q {
            assert!(value(q).abs() <= UNPROVEN_VALUE_BOUND, "{:?} {q:?}", stat.mv);
        }
    }

    assert_eq!(value(t.root_value), 1.0);
}

#[test]
fn time_limit_stops_early() {
    let mut engine = MCTSEngine::new(MCTSConfig {
        max_iterations: u32::MAX,
        seed: Some(3),
        time_limit_nanos: Some(50_000_000),
        ..Default::default()
    });
    let start = Instant::now();
    let result = engine.search(&Bitboard::empty(), &ucb);
    assert!(result.is_some());
    assert!(start.elapsed().as_secs_f64() < 1.0);
    assert!(engine.iterations_performed() < u32::MAX);
    assert!(engine.iterations_performed() > 0);
}

#[test]
fn same_seed_same_move() {
    let bb = Bitboard::empty().with_move(0, 0, 0);
    let run = |seed| {
        let mut engine = MCTSEngine::new(MCTSConfig {
            max_iterations: 300,
            seed: Some(seed),
            ..Default::default()
        });
        engine.search(&bb, &ucb).unwrap().0
    };
    assert_eq!(run(11), run(11));
}

#[test]
fn transposition_table_reduces_nodes() {
    let run = |use_tt| {
        let mut engine = MCTSEngine::new(MCTSConfig {
            max_iterations: 2_000,
            seed: Some(5),
            use_transposition_table: use_tt,
            ..Default::default()
        });
        engine.search(&Bitboard::empty(), &ucb).unwrap();
        engine.nodes_created()
    };
    assert!(run(true) < run(false));
}

#[test]
fn telemetry_none_before_search() {
    let engine = MCTSEngine::new(MCTSConfig::default());
    assert!(engine.telemetry().is_none());
}

#[test]
fn telemetry_tt_on_empty_board_collapses_and_flags_identity() {
    let mut engine = MCTSEngine::new(MCTSConfig {
        max_iterations: 200,
        seed: Some(11),
        ..Default::default()
    });
    engine.search(&Bitboard::empty(), &ucb).unwrap();
    let t = engine.telemetry().unwrap();
    assert!(!t.root_identity_preserved);
    assert!(t.root_moves.len() < 64);
    assert!(t.counters.transposition_hits > 0);
}

#[test]
fn telemetry_tt_off_preserves_identity_and_invariants() {
    let mut engine = MCTSEngine::new(MCTSConfig {
        max_iterations: 500,
        seed: Some(11),
        use_transposition_table: false,
        ..Default::default()
    });
    let (best, _) = engine.search(&Bitboard::empty(), &ucb).unwrap();
    let t = engine.telemetry().unwrap();
    assert!(t.root_identity_preserved);
    assert_eq!(t.policy_mass_kind, PolicyMassKind::Visits);
    assert_eq!(t.engine_kind, EngineKind::Mcts);
    assert_eq!(t.counters.transposition_hits, 0);
    assert!(t.counters.expanded_nodes > 0);
    assert!(t.counters.generated_nodes >= t.counters.expanded_nodes - 1);
    // No game ends before its seventh ply, so every root child is an estimate.
    let legal: HashSet<u8> = generate_legal_moves(&Bitboard::empty())
        .iter()
        .map(|m| m.shape * 16 + m.position)
        .collect();
    for stat in &t.root_moves {
        assert!(legal.contains(&stat.action_index));
        if let Some(q) = stat.q {
            assert!(value(q).abs() <= UNPROVEN_VALUE_BOUND, "{q:?}");
        }
    }
    assert!(value(t.root_value).abs() <= UNPROVEN_VALUE_BOUND);
    assert_eq!(t.principal_variation.first(), Some(&best));
    let mut bb = Bitboard::empty();
    for mv in &t.principal_variation {
        assert!(generate_legal_moves(&bb).contains(mv));
        bb = apply_move(&bb, mv);
    }
    assert!(t.depth_reached as usize >= t.principal_variation.len().min(1));
    assert!(t.depth_reached >= 2, "{}", t.depth_reached);
}

#[test]
fn rollout_terminals_are_excluded_from_terminal_hits() {
    let mut engine = MCTSEngine::new(MCTSConfig {
        max_iterations: 3,
        seed: Some(5),
        use_transposition_table: false,
        ..Default::default()
    });
    engine.search(&Bitboard::empty(), &ucb).unwrap();
    let t = engine.telemetry().unwrap();
    assert_eq!(t.counters.terminal_hits, 0);
}

#[test]
fn every_visit_of_a_finishing_move_is_a_win() {
    let bb = Bitboard::empty()
        .with_move(0, 0, 0)
        .with_move(1, 1, 1)
        .with_move(0, 2, 2);
    let mut engine = MCTSEngine::new(MCTSConfig {
        max_iterations: 2_000,
        seed: Some(11),
        ..Default::default()
    });
    let (mv, rate) = engine.search(&bb, &ucb).unwrap();
    assert!(has_winning_line(&apply_move(&bb, &mv)));
    assert_eq!(rate.num as u64, rate.den);
}

#[test]
fn searches_with_one_seed_visit_alike() {
    let bb = Bitboard::empty().with_move(0, 0, 0);
    let run = |seed| {
        let mut engine = MCTSEngine::new(MCTSConfig {
            max_iterations: 300,
            seed: Some(seed),
            ..Default::default()
        });
        let (mv, rate) = engine.search(&bb, &ucb).unwrap();
        (mv, rate.num, rate.den, engine.root_move_visits())
    };
    assert_eq!(run(11), run(11));
    assert_ne!(run(11).3, run(12).3);
}
