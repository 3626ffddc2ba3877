use quantik_core::bitboard::Bitboard;
use quantik_core::game::has_winning_line;
use quantik_core::minimax::{
    minimax_q_from_score, MinimaxConfig, MinimaxEngine, SearchTree, INFINITE,
};
use quantik_core::moves::{apply_move, generate_legal_moves, Move};
use quantik_core::search_telemetry::{EngineKind, PolicyMassKind, Ratio, SearchEventCounters};
use quantik_core::state::State;
use rand::rngs::StdRng;
use rand::{Rng, SeedableRng};
use std::collections::HashMap;

/// A@0, b@1, C@2: whoever moves can win at once with D (d) at 3.
fn immediate_win_board() -> Bitboard {
    Bitboard::empty()
        .with_move(0, 0, 0)
        .with_move(1, 1, 1)
        .with_move(0, 2, 2)
}

fn number(q: Ratio) -> f64 {
    q.num as f64 / q.den as f64
}

#[test]
fn finds_immediate_winning_move() {
    let bb = immediate_win_board();
    let mut engine = MinimaxEngine::new(MinimaxConfig {
        max_depth: 3,
        ..Default::default()
    });
    let result = engine.search(&State::new(bb)).unwrap();
    assert_eq!(result.best_move, Move::new(1, 3, 3));
    assert_eq!(result.score, 10_000 - 1);
}

#[test]
fn pv_head_matches_best_move() {
    let bb = immediate_win_board();
    let mut engine = MinimaxEngine::new(MinimaxConfig {
        max_depth: 4,
        ..Default::default()
    });
    let result = engine.search(&State::new(bb)).unwrap();
    assert_eq!(result.pv[0], result.best_move);
    assert!(result.pv.len() as u32 <= result.depth_reached);
}

#[test]
fn alpha_beta_equals_plain_minimax() {
    let bb = Bitboard::empty()
        .with_move(0, 0, 0)
        .with_move(1, 3, 8)
        .with_move(0, 2, 2)
        .with_move(1, 3, 13)
        .with_move(0, 1, 1)
        .with_move(1, 0, 10);
    let mut pruned = MinimaxEngine::new(MinimaxConfig {
        max_depth: 3,
        use_alpha_beta: true,
        ..Default::default()
    });
    let mut plain = MinimaxEngine::new(MinimaxConfig {
        max_depth: 3,
        use_alpha_beta: false,
        ..Default::default()
    });
    let state = State::new(bb);
    let a = pruned.search(&state).unwrap();
    let b = plain.search(&state).unwrap();
    assert_eq!(a.score, b.score);
    assert_eq!(a.best_move, b.best_move);
    assert!(a.nodes <= b.nodes);
}

/// Play `plies` pseudo-random legal moves from the empty board; a line that ends
/// early is tried again.
fn random_position(seed: u64, plies: usize) -> Bitboard {
    let mut rng = StdRng::seed_from_u64(seed);
    'attempt: loop {
        let mut bb = Bitboard::empty();
        for _ in 0..plies {
            let moves = generate_legal_moves(&bb);
            if moves.is_empty() {
                continue 'attempt;
            }
            bb = apply_move(&bb, &moves[rng.gen_range(0..moves.len())]);
            if has_winning_line(&bb) {
                continue 'attempt;
            }
        }
        if generate_legal_moves(&bb).is_empty() {
            continue 'attempt;
        }
        return bb;
    }
}

#[test]
fn solve_reaches_terminal_depth() {
    let bb = random_position(42, 10);
    let mut engine = MinimaxEngine::new(MinimaxConfig::default());
    let result = engine.solve(&State::new(bb)).unwrap();
    assert_eq!(result.depth_reached, 16);
    assert!(result.score.abs() > 9_000, "score {}", result.score);
}

#[test]
fn time_limit_returns_depth_one_result() {
    let mut engine = MinimaxEngine::new(MinimaxConfig {
        max_depth: 16,
        time_limit_nanos: Some(1_000_000),
        ..Default::default()
    });
    let result = engine.search(&State::empty()).unwrap();
    assert!(result.depth_reached >= 1);
    assert!(result.pv.first() == Some(&result.best_move));
}

#[test]
fn deterministic_without_seed() {
    let bb = immediate_win_board();
    let mut e1 = MinimaxEngine::new(MinimaxConfig {
        max_depth: 2,
        ..Default::default()
    });
    let mut e2 = MinimaxEngine::new(MinimaxConfig {
        max_depth: 2,
        ..Default::default()
    });
    assert_eq!(
        e1.search(&State::new(bb)).unwrap().best_move,
        e2.search(&State::new(bb)).unwrap().best_move
    );
}

#[test]
fn solve_prefers_faster_win() {
    let bb = random_position(7, 11);
    let mut engine = MinimaxEngine::new(MinimaxConfig::default());
    let result = engine.solve(&State::new(bb)).unwrap();
    let winning: Vec<Move> = generate_legal_moves(&bb)
        .into_iter()
        .filter(|m| has_winning_line(&apply_move(&bb, m)))
        .collect();
    if winning.is_empty() {
        assert!(result.score.abs() > 9_000);
    } else {
        assert!(winning.contains(&result.best_move));
        assert_eq!(result.score, 10_000 - 1);
    }
}

#[test]
fn q_mapping_proven_and_heuristic() {
    let win = 10_000;
    let q_of = |score: i64| number(minimax_q_from_score(score, win, 1));
    assert_eq!(q_of(win - 7), 1.0);
    assert_eq!(q_of(-(win - 7)), -1.0);
    let q = q_of(3);
    assert!(q > 0.0 && q < 1.0);
    assert_eq!(q, 0.75);
    let q_neg = q_of(-3);
    assert!((q + q_neg).abs() < 1e-12);
    assert!(q_of(5) > q_of(3));
}

#[test]
fn minimax_telemetry_dedup_and_identity() {
    let mut engine = MinimaxEngine::new(MinimaxConfig {
        max_depth: 3,
        ..Default::default()
    });
    engine.search(&State::new(Bitboard::empty())).unwrap();
    let t = engine.telemetry().unwrap();
    assert!(!t.root_identity_preserved);
    assert!(t.counters.canonical_dedup_hits > 0);
    assert_eq!(t.engine_kind, EngineKind::Minimax);
    assert_eq!(t.policy_mass_kind, PolicyMassKind::NoMass);
    for stat in &t.root_moves {
        assert_eq!(stat.policy_mass, 0);
        let q = stat.q.expect("every searched root move has a score");
        assert!((-1.0..=1.0).contains(&number(q)));
    }
}

#[test]
fn minimax_transposition_hits_require_tt() {
    let state = State::new(Bitboard::empty());
    let mut with_tt = MinimaxEngine::new(MinimaxConfig {
        max_depth: 4,
        dedup_children: false,
        ..Default::default()
    });
    with_tt.search(&state).unwrap();
    let hits_with = with_tt.telemetry().unwrap().counters.transposition_hits;
    let mut without_tt = MinimaxEngine::new(MinimaxConfig {
        max_depth: 4,
        dedup_children: false,
        use_transposition_table: false,
        ..Default::default()
    });
    without_tt.search(&state).unwrap();
    let hits_without = without_tt.telemetry().unwrap().counters.transposition_hits;
    assert!(hits_with > 0);
    assert_eq!(hits_without, 0);
    assert!(without_tt.telemetry().unwrap().root_identity_preserved);
}

#[test]
fn minimax_telemetry_pv_matches_result() {
    let mut engine = MinimaxEngine::new(MinimaxConfig {
        max_depth: 3,
        ..Default::default()
    });
    let result = engine.search(&State::new(Bitboard::empty())).unwrap();
    let t = engine.telemetry().unwrap();
    assert_eq!(t.principal_variation, result.pv);
    assert_eq!(t.depth_reached, result.depth_reached);
    assert!((-1.0..=1.0).contains(&number(t.root_value)));
    assert_eq!(t.counters.terminal_hits, 0);
    assert!(t.counters.expanded_nodes > 0);
}

#[test]
fn expanded_counted_at_move_generation() {
    // A search of one ply over K root moves generates K nodes, and computes the
    // moves of the root and of each of them.
    let bb = Bitboard::empty();
    let k = generate_legal_moves(&bb).len() as u64;
    let mut engine = MinimaxEngine::new(MinimaxConfig {
        max_depth: 1,
        dedup_children: false,
        use_transposition_table: false,
        ..Default::default()
    });
    engine.search(&State::new(bb)).unwrap();
    let t = engine.telemetry().unwrap();
    assert_eq!(t.counters.expanded_nodes, k + 1);
    assert_eq!(t.counters.generated_nodes, k);
}

#[test]
fn no_legal_moves_node_is_expanded_and_terminal() {
    // A board full of one shape has no complete line and no legal move.
    let no_moves = (0..16u8).fold(Bitboard::empty(), |b, pos| b.with_move(0, 0, pos));
    assert!(generate_legal_moves(&no_moves).is_empty());
    let config = MinimaxConfig {
        max_depth: 2,
        dedup_children: false,
        use_transposition_table: false,
        ..Default::default()
    };
    let mut tree = SearchTree {
        tt: HashMap::new(),
        nodes: 0,
        counters: SearchEventCounters::default(),
    };
    let _ = tree.negamax(&config, &None, &no_moves, 1, -INFINITE, INFINITE, 0, None);
    assert_eq!(tree.counters.terminal_hits, 1);
    assert_eq!(tree.counters.expanded_nodes, 1);
}

#[test]
fn searches_need_a_legal_move() {
    let state = State::from_qfen("A.../B.../C.../D...").unwrap();
    let mut engine = MinimaxEngine::new(MinimaxConfig::default());
    assert_eq!(
        engine.search(&state).unwrap_err(),
        "Cannot search from a state with no legal moves."
    );
    assert!(engine.solve(&state).is_err());
}

#[test]
fn variations_without_a_table_are_worth_their_scores() {
    let bb = Bitboard::empty()
        .with_move(0, 0, 0)
        .with_move(1, 1, 1)
        .with_move(0, 2, 14);
    let mut config = MinimaxConfig::default();
    config.max_depth = 3;
    config.use_transposition_table = false;
    let result = MinimaxEngine::new(config).search(&State::new(bb)).unwrap();
    assert!(result.pv.len() <= 3);
    let next = apply_move(&bb, &result.pv[0]);
    config.max_depth = 2;
    let reply = MinimaxEngine::new(config).search(&State::new(next)).unwrap();
    assert!(result.score.abs() > 9_000 || reply.score == -result.score);
}

#[test]
fn searches_with_one_seed_agree() {
    let bb = Bitboard::empty().with_move(0, 0, 5);
    let run = |seed| {
        let mut engine = MinimaxEngine::new(MinimaxConfig {
            max_depth: 2,
            random_seed: Some(seed),
            ..Default::default()
        });
        let result = engine.search(&State::new(bb)).unwrap();
        (result.best_move, result.score, result.nodes, result.pv)
    };
    for seed in 0..5 {
        assert_eq!(run(seed), run(seed));
        assert_eq!(run(seed).1, run(0).1);
    }
}
