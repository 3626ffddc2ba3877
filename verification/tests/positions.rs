use quantik_core::bench::book_export::{export_position, lookup_reference, BookEntry};
use quantik_core::bench::canonical::canonical_json;
use quantik_core::bench::dataset::{
    checksum, generate, load_text, phase_bounds, phase_of, sealed, verify_checksum, GENERATOR,
};
use quantik_core::bench::json::{parse_json, set_member, Json};
use quantik_core::bench::reference::{
    augment_with_references, move_key, parse_move_key, reference_json, reference_payload,
    remaining_plies, settle, solve_position, sum_up, MoveOutcome,
};
use quantik_core::bitboard::Bitboard;
use quantik_core::game::has_winning_line;
use quantik_core::minimax::MinimaxResult;
use quantik_core::moves::{apply_move, generate_legal_moves, Move};
use quantik_core::state::State;
use rand::rngs::StdRng;
use rand::{Rng, SeedableRng};
use std::collections::HashSet;

const MINUTE: u64 = 60_000_000_000;

fn items<'a>(value: &'a Json, name: &str) -> &'a Vec<Json> {
    match value.get(name) {
        Some(Json::Array(items)) => items,
        other => panic!("{name}: {other:?}"),
    }
}

fn random_position(seed: u64, plies: usize) -> Bitboard {
    let mut rng = StdRng::seed_from_u64(seed);
    'attempt: loop {
        let mut bb = Bitboard::empty();
        for _ in 0..plies {
            let moves = generate_legal_moves(&bb);
            if moves.is_empty() {
                continue 'attempt;
            }
            bb = apply_move(&bb, &moves[rng.gen_range(0..moves.len())]);
            if has_winning_line(&bb) {
                continue 'attempt;
            }
        }
        if generate_legal_moves(&bb).is_empty() {
            continue 'attempt;
        }
        return bb;
    }
}

#[test]
fn generate_is_deterministic_and_deduped() {
    let requested = vec![("early_mid".to_string(), 2u32), ("opening".to_string(), 3u32)];
    let a = generate(&requested, 123).unwrap();
    let b = generate(&requested, 123).unwrap();
    assert_eq!(canonical_json(&a), canonical_json(&b));
    assert_eq!(a.get("generator").unwrap().as_text(), Some(GENERATOR));

    let positions = items(&a, "positions");
    assert_eq!(positions.len(), 5);
    let mut keys = HashSet::new();
    for position in positions {
        let qfen = position.get("qfen").unwrap().as_text().unwrap();
        let state = State::from_qfen(qfen).unwrap();
        assert!(keys.insert(state.canonical_key()), "duplicate canonical");
        let pieces = position.get("pieces").unwrap().as_unsigned().unwrap() as u32;
        let phase = position.get("phase").unwrap().as_text().unwrap();
        assert_eq!(phase_of(pieces).unwrap(), phase);
        let legal = generate_legal_moves(&state.bb).len() as u64;
        assert_eq!(position.get("legal_moves").unwrap().as_unsigned(), Some(legal));
    }
}

#[test]
fn unknown_phase_rejected() {
    let requested = vec![("blitz".to_string(), 1u32)];
    assert!(generate(&requested, 1).is_err());
}

#[test]
fn save_load_roundtrip_and_corruption_detection() {
    let requested = vec![("opening".to_string(), 2u32)];
    let payload = generate(&requested, 7).unwrap();
    let (stored, digest) = sealed(&payload);
    assert_eq!(digest, checksum(&payload));
    let text = canonical_json(&stored);
    let loaded = load_text(&text).unwrap();
    assert_eq!(loaded.get("checksum").unwrap().as_text(), Some(digest.as_str()));
    assert!(verify_checksum(&loaded).is_ok());

    let tampered = set_member(&stored, "seed", Json::Unsigned(8));
    assert!(verify_checksum(&tampered).is_err());
    assert!(load_text(&canonical_json(&tampered)).is_err());
    assert!(load_text("{").unwrap_err().starts_with("parse: "));
}

#[test]
fn phases_have_bounds() {
    assert_eq!(phase_bounds(0), ("opening", 0, 4));
    assert_eq!(phase_bounds(3), ("endgame", 12, 16));
    assert_eq!(phase_of(5).unwrap(), "early_mid");
    assert_eq!(phase_of(11).unwrap(), "late_mid");
    assert_eq!(
        phase_of(17).unwrap_err(),
        "no benchmark phase for 17 pieces"
    );
}

#[test]
fn move_key_roundtrip() {
    let mv = Move::new(1, 3, 15);
    assert_eq!(move_key(&mv), "1:3:15");
    assert_eq!(parse_move_key("1:3:15").unwrap(), (1, 3, 15));
    assert!(parse_move_key("1:3").is_err());
    assert!(parse_move_key("a:b:c").is_err());
}

#[test]
fn immediate_win_is_optimal() {
    let (bb, winning) = (0u64..)
        .find_map(|seed| {
            let bb = random_position(seed, 11);
            let winning: Vec<Move> = generate_legal_moves(&bb)
                .into_iter()
                .filter(|mv| has_winning_line(&apply_move(&bb, mv)))
                .collect();
            if winning.is_empty() {
                None
            } else {
                Some((bb, winning))
            }
        })
        .unwrap();

    let solved = solve_position(&bb, MINUTE).unwrap();
    assert_eq!(solved.value, 1);
    for mv in &winning {
        assert!(solved.optimal_moves.contains(&move_key(mv)), "{solved:?}");
    }
    assert_eq!(solved.pv[0], solved.optimal_moves[0]);
    let reference = reference_payload(&solved, "6e1");
    assert!(matches!(reference.get("solved"), Some(Json::Bool(true))));
    assert!(matches!(reference.get("no_cutoff"), Some(Json::Bool(true))));
    assert_eq!(reference.get("value").unwrap().as_unsigned(), Some(1));
    assert_eq!(
        reference.get("solver").unwrap().as_text(),
        Some("MinimaxEngine(max_depth=16, budget_s=60.0) quantik-core-rust 0.1.0")
    );
}

#[test]
fn tiny_budget_returns_none() {
    let bb = random_position(3, 5);
    assert!(solve_position(&bb, 1).is_none());
}

#[test]
fn solved_reference_selected_moves_verify() {
    let bb = random_position(11, 10);
    let reference = solve_position(&bb, MINUTE).unwrap();
    let legal: Vec<String> = generate_legal_moves(&bb).iter().map(move_key).collect();
    for mv in &reference.optimal_moves {
        assert!(legal.contains(mv));
    }
    assert!(reference.value == 1 || reference.value == -1);
}

#[test]
fn references_are_put_into_a_dataset() {
    let bb = random_position(11, 12);
    assert_eq!(remaining_plies(&bb), 4);
    let payload = parse_json(&format!(
        "{{\"positions\": [{{\"id\": \"p0\", \"qfen\": \"{}\", \"reference\": null}}]}}",
        State::new(bb).to_qfen()
    ))
    .unwrap();
    let after = augment_with_references(&payload, MINUTE, "6e1");
    let reference = items(&after, "positions")[0].get("reference").unwrap();
    let value = solve_position(&bb, MINUTE).unwrap().value;
    match reference.get("value").unwrap() {
        Json::Unsigned(n) => assert_eq!(*n as i8, value),
        Json::Negative(n) => assert_eq!(*n as i8, value),
        other => panic!("{other:?}"),
    }
}

fn is_representative(bb: &Bitboard) -> bool {
    State::new(*bb).canonical_payload() == bb.to_le_bytes()
}

fn canonical_representative_position(start: u64, plies: usize) -> Bitboard {
    (start..)
        .map(|seed| random_position(seed, plies))
        .find(is_representative)
        .unwrap()
}

fn non_canonical_position(start: u64, plies: usize) -> Bitboard {
    (start..)
        .map(|seed| random_position(seed, plies))
        .find(|bb| !is_representative(bb))
        .unwrap()
}

fn solved_position(bb: &Bitboard) -> Json {
    let solved = solve_position(bb, MINUTE).unwrap();
    let position = parse_json(&format!(
        "{{\"id\": \"p0000\", \"qfen\": \"{}\", \"phase\": \"endgame\"}}",
        State::new(*bb).to_qfen()
    ))
    .unwrap();
    set_member(&position, "reference", reference_payload(&solved, "6e1"))
}

#[test]
fn export_and_lookup_roundtrip() {
    let bb = canonical_representative_position(0, 11);
    let position = solved_position(&bb);
    let row = export_position(&position).unwrap().unwrap();
    assert_eq!(row.bb, bb);
    let entry = Some(BookEntry {
        solved: true,
        game_value: Some(row.value),
        best_moves: row.moves,
    });
    let looked_up = lookup_reference(&bb, &entry).unwrap();
    let reference = position.get("reference").unwrap();
    for name in ["value", "optimal_moves"] {
        assert_eq!(
            canonical_json(looked_up.get(name).unwrap()),
            canonical_json(reference.get(name).unwrap())
        );
    }
    assert_eq!(
        looked_up.get("solver").unwrap().as_text(),
        Some("opening-book")
    );
    assert_eq!(looked_up.get("nodes").unwrap().as_unsigned(), Some(0));

    // Another orientation is not served.
    let other = non_canonical_position(1000, 11);
    assert!(lookup_reference(&other, &entry).is_none());
}

#[test]
fn positions_without_reference_are_skipped() {
    let position = parse_json(
        r#"{"id": "p0000", "qfen": "..../..../..../....", "phase": "opening", "reference": null}"#,
    )
    .unwrap();
    assert!(export_position(&position).unwrap().is_none());
}

#[test]
fn lookup_returns_none_when_book_is_empty() {
    let bb = canonical_representative_position(5, 10);
    assert!(lookup_reference(&bb, &None).is_none());
}

#[test]
fn non_canonical_write_never_pollutes_the_representative_lookup() {
    let bb = non_canonical_position(0, 11);
    assert!(export_position(&solved_position(&bb)).unwrap().is_none());
    let canon = Bitboard::from_le_bytes(&State::new(bb).canonical_payload());
    assert!(is_representative(&canon), "canonicalization is idempotent");
}

#[test]
fn optimal_moves_reconstruct_to_valid_move_keys() {
    let bb = canonical_representative_position(7, 11);
    let row = export_position(&solved_position(&bb)).unwrap().unwrap();
    let entry = Some(BookEntry {
        solved: true,
        game_value: Some(row.value),
        best_moves: row.moves,
    });
    let looked_up = lookup_reference(&bb, &entry).unwrap();
    let legal: Vec<String> = generate_legal_moves(&bb).iter().map(move_key).collect();
    for mv in items(&looked_up, "optimal_moves") {
        let key = mv.as_text().unwrap().to_string();
        assert!(legal.contains(&key), "{key} not legal");
    }
}

#[test]
fn other_seeds_give_other_datasets() {
    let requested = vec![("opening".to_string(), 4u32)];
    let ids = |seed| -> Vec<String> {
        items(&generate(&requested, seed).unwrap(), "positions")
            .iter()
            .map(|position| position.get("qfen").unwrap().as_text().unwrap().to_string())
            .collect()
    };
    assert_eq!(ids(5), ids(5));
    assert_ne!(ids(5), ids(6));
}

#[test]
fn outcomes_are_summed_up() {
    let moves = vec![Move::new(0, 1, 2), Move::new(0, 0, 5), Move::new(0, 0, 3)];
    let outcome = |score, nodes, line| MoveOutcome { score, nodes, line };
    let outcomes = vec![
        outcome(7, 10, vec![Move::new(1, 2, 9)]),
        outcome(7, u64::MAX, vec![]),
        outcome(-3, 1, vec![]),
    ];
    let r = sum_up(&moves, &outcomes, 12);
    assert_eq!(r.value, 1);
    assert_eq!(r.optimal_moves, vec!["0:0:5", "0:1:2"]);
    assert_eq!(r.pv, vec!["0:0:5"]);
    assert_eq!((r.nodes, r.elapsed_nanos), (u64::MAX, 12));
    let lost = vec![outcome(-2, 1, vec![]), outcome(-5, 2, vec![]), outcome(-2, 3, vec![])];
    let r = sum_up(&moves, &lost, 0);
    assert_eq!(r.value, -1);
    assert_eq!(r.optimal_moves, vec!["0:0:3", "0:1:2"]);
    assert_eq!(r.nodes, 6);
}

#[test]
fn searches_that_were_cut_off_settle_nothing() {
    let bb = random_position(11, 12);
    let result = |depth_reached| MinimaxResult {
        best_move: Move::new(0, 0, 0),
        score: 9,
        depth_reached,
        nodes: 5,
        pv: vec![Move::new(0, 0, 0)],
        elapsed_nanos: 1,
    };
    assert!(settle(&bb, result(3)).is_none());
    let o = settle(&bb, result(4)).unwrap();
    assert_eq!((o.score, o.nodes, o.line.len()), (-9, 5, 1));
}

#[test]
fn no_reference_is_null() {
    assert!(reference_json(&None, "6e1").is_null());
    let bb = random_position(11, 12);
    let solved = solve_position(&bb, MINUTE);
    assert!(solved.is_some());
    assert_eq!(
        canonical_json(&reference_json(&solved, "6e1")),
        canonical_json(&reference_payload(&solved.unwrap(), "6e1"))
    );
}
