use quantik_core::bench::hashing::sha256_hex;
use quantik_core::beam_search::UNIQUE_CANONICAL_STATES_PER_DEPTH;
use quantik_core::bitboard::Bitboard;
use quantik_core::book::exhaustive::{
    describe_position, searched_status, BfsRun, BfsStep, STATUS_EXPANDED, STATUS_SOLVED,
};
use quantik_core::book::iddfs::{explore_to, BookCache};
use quantik_core::book::positions::{
    canonical_key, determine_winner, estimate_memory_mb, is_terminal, key_to_bb, move_to_string,
    quick_evaluate, terminal_score,
};
use quantik_core::book::probe::{
    probe_body, probe_records, probe_text, record_line, BookRow, MoveRow, ProbeRecord,
};
use quantik_core::book::ranking::rank_moves;
use quantik_core::book::selective::{
    deepen_frontier, empty_table, negamax_dfs, run_selective_ids, simulated_score,
};
use quantik_core::moves::{generate_legal_moves, Move};
use quantik_core::search_telemetry::Ratio;
use quantik_core::state::State;

fn board(qfen: &str) -> Bitboard {
    State::from_qfen(qfen).unwrap().bb
}

#[test]
fn keys_hold_the_canonical_board() {
    let bb = board("..../..../..../...C");
    let key = canonical_key(&bb);
    assert_eq!(key[0], 1);
    assert_eq!(key[1], 2);
    let inside = key_to_bb(&key);
    assert_eq!(canonical_key(&inside), key);
    assert_eq!(move_to_string(&Move::new(1, 2, 13)), "P1S2P13");
}

#[test]
fn finished_positions_have_a_winner() {
    let won = board("AbCd/..../..../....");
    assert!(is_terminal(&won));
    assert_eq!(determine_winner(&won), Some(1));
    assert_eq!(terminal_score(&won), -1);
    assert!(!is_terminal(&Bitboard::empty()));
    assert_eq!(determine_winner(&Bitboard::empty()), None);
}

#[test]
fn quick_values_count_lines() {
    assert_eq!(quick_evaluate(&Bitboard::empty()), 0);
    // Two shapes of player 0 in a row and in a zone.
    assert_eq!(quick_evaluate(&board("AB../..../..../....")), 2);
    assert_eq!(quick_evaluate(&board("ab../..../..../....")), -2);
    assert_eq!(estimate_memory_mb(1_048_576, 0), 26);
}

#[test]
fn ranked_moves_are_the_moves_best_first() {
    let bb = board("Ab../..../..../....");
    let moves = generate_legal_moves(&bb);
    let ranked = rank_moves(&bb, &moves);
    assert_eq!(ranked.len(), moves.len());
    for pair in ranked.windows(2) {
        assert!(pair[0].1 >= pair[1].1);
    }
    for (mv, _) in &ranked {
        assert!(moves.contains(mv));
    }
}

#[test]
fn exploration_finds_the_boards_up_to_symmetry() {
    let (mut run, root) = BfsRun::fresh(1, None);
    assert_eq!(root.depth, 0);
    assert!(!root.terminal);
    let mut inserted = Vec::new();
    let mut edges = 0;
    loop {
        match run.step() {
            BfsStep::Expanded(e) => {
                edges += e.edges.len();
                inserted.extend(e.inserted.iter().map(|p| p.depth));
            }
            BfsStep::Finished { .. } => break,
            _ => {}
        }
    }
    // Positions are recorded under the level that found them: three boards with one
    // piece, then 51 with two.
    for (pieces, count) in &UNIQUE_CANONICAL_STATES_PER_DEPTH[..2] {
        let level = *pieces as usize - 1;
        let found = inserted.iter().filter(|d| **d == level).count() as u64;
        assert_eq!(found, *count);
    }
    assert!(edges > 64);
    assert_eq!(run.total, 1 + inserted.len());
}

#[test]
fn exploration_stops_at_a_limit() {
    let (mut run, _) = BfsRun::fresh(3, Some(2));
    let mut dropped = false;
    loop {
        match run.step() {
            BfsStep::Expanded(e) => dropped = dropped || e.dropout,
            BfsStep::Finished { .. } => break,
            _ => {}
        }
    }
    assert!(dropped);
}

#[test]
fn new_positions_are_described() {
    let p = describe_position(&board("AbCd/..../..../...."), 4);
    assert!(p.terminal);
    assert_eq!(p.winner, Some(1));
    assert_eq!(p.score, Some(-1));
    assert_eq!(p.symmetry_count, State::new(p.bb).symmetry_count());
    assert_eq!(searched_status(3, 3), STATUS_SOLVED);
    assert_eq!(searched_status(2, 3), STATUS_EXPANDED);
}

#[test]
fn deepening_covers_the_book_step_by_step() {
    let mut cache = BookCache::new();
    let first = explore_to(&mut cache, 1, None);
    assert_eq!(cache.position_count(), 4);
    assert_eq!(first.new_positions_this_iter, 4);
    let again = explore_to(&mut cache, 1, None);
    assert_eq!(again.new_positions_this_iter, 0);
    explore_to(&mut cache, 2, None);
    let count = cache.position_count();
    assert!(count > 4);
    let root = State::empty().canonical_number();
    assert_eq!(cache.searched_depth_for(root), 2);
    let at_depth = |d: usize| cache.entries.values().filter(|e| e.depth == d).count();
    assert_eq!((at_depth(0), at_depth(1), at_depth(2)), (1, 3, 51));
    // One row for each of the 55 positions, and an edge for each move of the expanded ones.
    let row_at = |d: usize| cache.new_positions.iter().filter(|r| r.depth == d).count();
    assert_eq!((row_at(0), row_at(1), row_at(2)), (1, 3, 51));
    assert_eq!(cache.new_positions.len(), 55);
    assert!(cache.expanded.contains(&root));
    let from_root = cache.edges.iter().filter(|e| e.0 == root).count();
    assert_eq!(from_root % 64, 0);
    assert!(from_root > 0);
    assert!(cache.searched_updates.contains(&(root, 2)));
    assert_eq!(cache.is_known_terminal(root), Some(false));
    let limited = explore_to(&mut cache, 3, Some(count));
    assert!(limited.dropout);
}

#[test]
fn selective_search_fills_a_table() {
    let bb = board("AbC./..../..../....");
    let mut table = empty_table(4, 2);
    let mut nodes = 0;
    let score = negamax_dfs(&bb, 1, &mut table, &mut nodes, 4, 2);
    assert!((-10..=10).contains(&score));
    assert!(nodes > 0);
    assert!(!table.is_empty());
    // The best move that is stored reaches the score.
    let entry = table[&State::new(bb).canonical_number()];
    assert_eq!(entry.score, score);
    let best = entry.best_move.unwrap();
    let reply = table[&State::new(quantik_core::moves::apply_move(&bb, &best)).canonical_number()];
    assert_eq!(-reply.score, score);
    let mut fresh = empty_table(4, 2);
    let visited = deepen_frontier(&vec![(bb, 3)], 4, &mut fresh, 4, 2);
    assert_eq!(visited, nodes);
    assert_eq!(
        simulated_score(Ratio { num: 3, den: 4 }),
        Ratio { num: 2, den: 4 }
    );
}

fn key_of(bb: &Bitboard) -> Vec<u8> {
    canonical_key(bb).to_vec()
}

#[test]
fn solved_rows_become_records() {
    let bb = Bitboard::empty();
    let key = key_of(&bb);
    let moves = vec![
        MoveRow {
            key: key.clone(),
            shape: 0,
            position: 3,
        },
        MoveRow {
            key: key.clone(),
            shape: 3,
            position: 15,
        },
        MoveRow {
            key: vec![7],
            shape: 1,
            position: 0,
        },
    ];
    let rows = vec![
        BookRow {
            key: key.clone(),
            solved: 1,
            value: Some(-1),
        },
        BookRow {
            key: vec![],
            solved: 0,
            value: None,
        },
    ];
    let (records, skipped) = probe_records(&moves, &rows).unwrap();
    assert_eq!(skipped, 1);
    assert_eq!(records.len(), 1);
    assert_eq!(records[0].key.to_vec(), key);
    assert_eq!(records[0].game_value, -1);
    assert_eq!(records[0].optimal_actions, (1 << 3) | (1 << 63));
}

#[test]
fn rows_out_of_order_are_refused() {
    let key = key_of(&Bitboard::empty());
    let far = vec![MoveRow {
        key: key.clone(),
        shape: 4,
        position: -1,
    }];
    assert_eq!(
        probe_records(&far, &vec![]).unwrap_err(),
        "best_moves row out of range: (4, -1)"
    );
    let row = |key: Vec<u8>, value: Option<i64>| {
        vec![BookRow {
            key,
            solved: 1,
            value,
        }]
    };
    let none = Vec::new();
    assert_eq!(
        probe_records(&none, &row(vec![1, 2], Some(1))).unwrap_err(),
        "canonical_key of 2 bytes, expected 18"
    );
    assert_eq!(
        probe_records(&none, &row(vec![0; 18], Some(1))).unwrap_err(),
        "canonical_key does not start with 0x01 0x02"
    );
    assert_eq!(
        probe_records(&none, &row(key.clone(), Some(0))).unwrap_err(),
        "solved row with game_value Some(0), expected -1 or 1"
    );
    assert_eq!(
        probe_records(&none, &row(key, None)).unwrap_err(),
        "solved row with game_value None, expected -1 or 1"
    );
}

#[test]
fn limits_are_searched_one_after_the_other() {
    let frontier = vec![(board("AbC./..../..../...."), 3)];
    let mut by_limit = empty_table(4, 2);
    let expected: Vec<u64> = (3..=5)
        .map(|limit| deepen_frontier(&frontier, limit, &mut by_limit, 4, 2))
        .collect();
    let mut table = empty_table(4, 2);
    assert_eq!(run_selective_ids(&frontier, 2, 5, &mut table, 4), expected);
    assert_eq!(table.len(), by_limit.len());
    // A frontier at the limit has no ply left.
    assert_eq!(expected[0], 0);
    assert!(expected[1] > 0);
    assert!(run_selective_ids(&frontier, 5, 5, &mut table, 4).is_empty());
}

#[test]
fn probe_files_list_the_records_in_order() {
    let record = |last: u8, game_value: i8, optimal_actions: u64| {
        let mut key = [0u8; 18];
        key[0] = 1;
        key[1] = 2;
        key[17] = last;
        ProbeRecord {
            key,
            game_value,
            optimal_actions,
        }
    };
    let high = record(0xa0, -1, 1 << 63);
    let low = record(0x0b, 1, 5);
    let zeros = "0".repeat(30);
    let first = format!("0102{zeros}0b  1 0000000000000005\n");
    let second = format!("0102{zeros}a0 -1 8000000000000000\n");
    assert_eq!(record_line(&low), first);
    let records = vec![high.clone(), low.clone()];
    assert_eq!(probe_body(&records), probe_body(&vec![low, high]));
    let text = probe_text(&records, &Some("mine".to_string()), "0.9", 0);
    assert_eq!(text, format!("book mine\ncontract 0.9\ncomplete true\n{first}{second}"));
    let text = probe_text(&records, &None, "0.9", 3);
    let id = sha256_hex(&format!("quantik-probe-source-rows-v1{first}{second}"));
    let head = format!("book sha256:{id}\ncontract 0.9\ncomplete false\n");
    assert_eq!(text, format!("{head}{first}{second}"));
}
