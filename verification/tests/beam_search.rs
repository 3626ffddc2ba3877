use quantik_core::beam_search::{BeamSearchConfig, BeamSearchEngine};
use quantik_core::bitboard::Bitboard;
use quantik_core::game::has_winning_line;
use quantik_core::moves::{apply_move, generate_legal_moves};
use quantik_core::search_telemetry::Ratio;
use std::cell::Cell;
use std::time::Instant;

fn engine(config: BeamSearchConfig) -> BeamSearchEngine {
    BeamSearchEngine::new(config).unwrap()
}

fn number(q: Ratio) -> f64 {
    q.num as f64 / q.den as f64
}

/// A@0, b@1, C@2: player 1 to move, d@3 completes row 0.
fn immediate_win_board() -> Bitboard {
    Bitboard::empty()
        .with_move(0, 0, 0)
        .with_move(1, 1, 1)
        .with_move(0, 2, 2)
}

#[test]
fn invalid_configs_are_rejected() {
    for config in [
        BeamSearchConfig {
            beam_width: 0,
            ..Default::default()
        },
        BeamSearchConfig {
            max_depth: 0,
            ..Default::default()
        },
        BeamSearchConfig {
            max_depth: 17,
            ..Default::default()
        },
        BeamSearchConfig {
            rollouts_per_candidate: 0,
            ..Default::default()
        },
        BeamSearchConfig {
            beam_schedule: Some(vec![]),
            ..Default::default()
        },
        BeamSearchConfig {
            beam_schedule: Some(vec![3, 0]),
            ..Default::default()
        },
        BeamSearchConfig {
            rollout_schedule: Some(vec![]),
            ..Default::default()
        },
        BeamSearchConfig {
            rollout_schedule: Some(vec![0]),
            ..Default::default()
        },
        BeamSearchConfig {
            time_limit_nanos: Some(0),
            ..Default::default()
        },
    ] {
        assert!(BeamSearchEngine::new(config).is_err());
    }
}

#[test]
fn immediate_win_found_and_ranked_first() {
    let bb = immediate_win_board();
    let mut engine = engine(BeamSearchConfig {
        beam_width: 8,
        max_depth: 2,
        rollouts_per_candidate: 1,
        random_seed: Some(1),
        ..Default::default()
    });
    let result = engine.search(&bb).unwrap();
    assert_eq!(result.root_player, 1);

    let best = result.best_leaf.as_ref().unwrap();
    assert!(best.is_terminal);
    assert_eq!(best.depth, 1);
    assert_eq!(number(best.value), -1.0, "values are those of player 0");
    let winning_move = best.moves[0];
    assert!(has_winning_line(&apply_move(&bb, &winning_move)));

    let ranked = result.ranked_root_moves(None);
    assert!(ranked[0].has_terminal_win);
    assert_eq!(ranked[0].mv, winning_move);
    assert_eq!(ranked[0].best_value, result.scale as i64, "one, for the root player");
}

#[test]
fn full_game_reachability_and_replayable_pvs() {
    let mut engine = engine(BeamSearchConfig {
        beam_width: 4,
        max_depth: 16,
        rollouts_per_candidate: 1,
        random_seed: Some(42),
        ..Default::default()
    });
    let result = engine.search(&Bitboard::empty()).unwrap();
    assert!(result.reached_terminal);
    assert!(result.frontier_leaves.is_empty());
    assert!(!result.terminal_leaves.is_empty());

    for leaf in &result.terminal_leaves {
        assert!(leaf.is_terminal);
        assert!(number(leaf.value) == 1.0 || number(leaf.value) == -1.0);
        let mut bb = Bitboard::empty();
        for mv in &leaf.moves {
            assert!(generate_legal_moves(&bb).contains(mv));
            bb = apply_move(&bb, mv);
        }
        assert!(has_winning_line(&bb) || generate_legal_moves(&bb).is_empty());
    }
}

#[test]
fn symmetry_dedup_at_depth_one() {
    let mut engine = engine(BeamSearchConfig {
        beam_width: 64,
        max_depth: 1,
        rollouts_per_candidate: 1,
        random_seed: Some(0),
        ..Default::default()
    });
    let result = engine.search(&Bitboard::empty()).unwrap();
    assert_eq!(result.stats.candidates_generated, 64);
    // The 64 first moves lead to three boards up to symmetry.
    assert_eq!(result.stats.candidates_deduped, 61);
    assert_eq!(result.frontier_leaves.len(), 3);
    let total: u128 = result.frontier_leaves.iter().map(|l| l.multiplicity).sum();
    assert_eq!(total, 64);
}

#[test]
fn beam_schedule_extends_last_entry() {
    let mut engine = engine(BeamSearchConfig {
        beam_schedule: Some(vec![3, 2]),
        max_depth: 4,
        rollouts_per_candidate: 1,
        random_seed: Some(9),
        ..Default::default()
    });
    let result = engine.search(&Bitboard::empty()).unwrap();
    assert!(result.frontier_leaves.len() <= 2);
    assert!(result.stats.nodes_pruned > 0);
}

#[test]
fn schedules_give_widths_and_rollouts() {
    let engine = engine(BeamSearchConfig {
        beam_schedule: Some(vec![3, 2]),
        rollout_schedule: Some(vec![5]),
        ..Default::default()
    });
    assert_eq!(engine.beam_width_for_depth(1), 3);
    assert_eq!(engine.beam_width_for_depth(9), 2);
    assert_eq!(engine.rollouts_for_depth(4), 5);
}

#[test]
fn rollout_schedule_counts_exactly() {
    let mut engine = engine(BeamSearchConfig {
        beam_width: 2,
        max_depth: 2,
        rollout_schedule: Some(vec![1, 8]),
        random_seed: Some(3),
        ..Default::default()
    });
    let result = engine.search(&Bitboard::empty()).unwrap();
    // Three candidates with one rollout each, then eight for each candidate.
    let depth1 = 3u64;
    let depth2 = result.stats.evaluations - depth1;
    assert_eq!(result.stats.rollouts, depth1 + depth2 * 8);
}

#[test]
fn determinism_same_seed() {
    let run = || {
        let mut engine = engine(BeamSearchConfig {
            beam_width: 8,
            max_depth: 6,
            rollouts_per_candidate: 2,
            random_seed: Some(77),
            ..Default::default()
        });
        engine.search(&Bitboard::empty()).unwrap()
    };
    assert_eq!(format!("{:?}", run()), format!("{:?}", run()));
}

#[test]
fn custom_evaluator_used_and_clamped() {
    let calls = Cell::new(0u64);
    let mut engine = engine(BeamSearchConfig {
        beam_width: 4,
        max_depth: 2,
        random_seed: Some(5),
        ..Default::default()
    })
    .with_evaluator(|_bb: &Bitboard| {
        calls.set(calls.get() + 1);
        // Five is out of range and counts as one.
        5_000_000
    });
    let result = engine.search(&Bitboard::empty()).unwrap();
    assert!(calls.get() > 0);
    assert_eq!(result.stats.rollouts, 0);
    for leaf in &result.frontier_leaves {
        assert_eq!(number(leaf.value), 1.0);
    }
}

#[test]
fn root_player_one_perspective() {
    let bb = immediate_win_board();
    let mut engine = engine(BeamSearchConfig {
        beam_width: 4,
        max_depth: 2,
        rollouts_per_candidate: 1,
        random_seed: Some(2),
        ..Default::default()
    });
    let result = engine.search(&bb).unwrap();
    assert_eq!(result.root_player, 1);
    let first = &result.terminal_leaves[0];
    assert_eq!(number(first.value), -1.0);
}

#[test]
fn root_errors() {
    let won = Bitboard::empty()
        .with_move(0, 0, 0)
        .with_move(1, 1, 1)
        .with_move(0, 2, 2)
        .with_move(1, 3, 3);
    let mut e = engine(BeamSearchConfig::default());
    assert!(e.search(&won).is_err());
    let lopsided = Bitboard::empty().with_move(1, 0, 0);
    assert_eq!(
        e.search(&lopsided).unwrap_err(),
        "Inconsistent root piece counts."
    );
}

#[test]
fn memory_bound_holds() {
    let mut engine = engine(BeamSearchConfig {
        beam_width: 2,
        max_depth: 8,
        rollouts_per_candidate: 1,
        random_seed: Some(13),
        ..Default::default()
    });
    let result = engine.search(&Bitboard::empty()).unwrap();
    assert!(result.frontier_leaves.len() <= 2);
}

#[test]
fn time_limit_stops_between_levels() {
    let mut engine = engine(BeamSearchConfig {
        beam_width: 512,
        max_depth: 16,
        rollouts_per_candidate: 8,
        random_seed: Some(21),
        time_limit_nanos: Some(20_000_000),
        ..Default::default()
    });
    let start = Instant::now();
    let result = engine.search(&Bitboard::empty()).unwrap();
    assert!(result.max_depth_reached >= 1);
    assert!(start.elapsed().as_secs_f64() < 5.0);
}

#[test]
fn every_finished_child_is_recorded_whatever_the_width() {
    let bb = immediate_win_board();
    let ends = |b: &Bitboard| has_winning_line(b) || generate_legal_moves(b).is_empty();
    let finishing = generate_legal_moves(&bb)
        .iter()
        .filter(|mv| ends(&apply_move(&bb, mv)))
        .count();
    assert!(finishing > 0);
    for width in [1, 3, 1000] {
        let mut engine = engine(BeamSearchConfig {
            beam_width: width,
            max_depth: 1,
            rollouts_per_candidate: 1,
            random_seed: Some(1),
            ..Default::default()
        });
        let result = engine.search(&bb).unwrap();
        assert_eq!(result.terminal_leaves.len(), finishing);
        for leaf in &result.frontier_leaves {
            let end = leaf.moves.iter().fold(bb, |b, mv| apply_move(&b, mv));
            assert!(!ends(&end));
        }
    }
}

#[test]
fn the_best_candidates_survive() {
    // Boards are worth the replies that they leave; player 0 moves first and wants many.
    let worth = |b: &Bitboard| -> i64 { generate_legal_moves(b).len() as i64 * 1_000 };
    let mut wide = engine(BeamSearchConfig {
        beam_width: 100,
        max_depth: 1,
        ..Default::default()
    })
    .with_evaluator(worth);
    let all = wide.search(&Bitboard::empty()).unwrap();
    let values: Vec<i64> = all.frontier_leaves.iter().map(|l| l.value.num).collect();
    assert_eq!(values.len(), 3);
    assert!(values.windows(2).all(|w| w[0] >= w[1]));
    let mut narrow = engine(BeamSearchConfig {
        beam_width: 2,
        max_depth: 1,
        ..Default::default()
    })
    .with_evaluator(worth);
    let some = narrow.search(&Bitboard::empty()).unwrap();
    let kept: Vec<i64> = some.frontier_leaves.iter().map(|l| l.value.num).collect();
    assert_eq!(kept, values[..2]);
}
