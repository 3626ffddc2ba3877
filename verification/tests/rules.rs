use quantik_core::bitboard::Bitboard;
use quantik_core::board::{GameResult, PlayerInventory, QuantikBoard};
use quantik_core::constants::{FLAG_CANON, VERSION};
use quantik_core::evaluation::{count_legal_moves, evaluate, feature_name, features, EvalConfig};
use quantik_core::game::{check_winner, current_player, has_winning_line, is_game_over, WinStatus};
use quantik_core::moves::{apply_move, generate_legal_moves, is_move_legal, Move};
use quantik_core::qfen::{bb_from_qfen, bb_to_qfen};
use quantik_core::state::State;

#[test]
fn empty_bitboard() {
    let bb = Bitboard::empty();
    assert_eq!(bb.occupied(), 0);
    assert_eq!(bb.player_piece_count(0), 0);
    assert_eq!(bb.player_piece_count(1), 0);
}

#[test]
fn with_move_sets_bit() {
    let bb = Bitboard::empty().with_move(0, 0, 5);
    assert!(bb.is_position_occupied(5));
    assert!(!bb.is_position_occupied(0));
    assert_eq!(bb.shape_piece_count(0, 0), 1);
}

#[test]
fn roundtrip_bytes() {
    let bb = Bitboard::new([1, 2, 3, 4, 5, 6, 7, 8]);
    let bytes = bb.to_le_bytes();
    let bb2 = Bitboard::from_le_bytes(&bytes);
    assert_eq!(bb, bb2);
}

#[test]
fn plane_index_mapping() {
    assert_eq!(Bitboard::plane_index(0, 0), 0);
    assert_eq!(Bitboard::plane_index(0, 3), 3);
    assert_eq!(Bitboard::plane_index(1, 0), 4);
    assert_eq!(Bitboard::plane_index(1, 3), 7);
}

#[test]
fn new_board_is_empty() {
    let board = QuantikBoard::new();
    assert_eq!(board.to_qfen(), "..../..../..../....");
    assert_eq!(board.current_player(), 0);
    assert_eq!(board.move_count(), 0);
    assert!(!board.is_game_over());
}

#[test]
fn play_and_undo() {
    let mut board = QuantikBoard::new();
    let mv = Move::new(0, 0, 0);
    board.play_move(mv).unwrap();
    assert_eq!(board.current_player(), 1);
    assert_eq!(board.move_count(), 1);
    assert!(board.undo_move());
    assert_eq!(board.current_player(), 0);
    assert_eq!(board.move_count(), 0);
}

#[test]
fn inventory_decreases_on_play() {
    let mut board = QuantikBoard::new();
    assert_eq!(board.inventories()[0].remaining[0], 2);
    board.play_move(Move::new(0, 0, 0)).unwrap();
    assert_eq!(board.inventories()[0].remaining[0], 1);
}

#[test]
fn illegal_move_rejected() {
    let mut board = QuantikBoard::new();
    // The other player is to move.
    let mv = Move::new(1, 0, 0);
    assert!(board.play_move(mv).is_err());
}

#[test]
fn from_qfen_round_trip() {
    let board = QuantikBoard::from_qfen("A.../..../..../....").unwrap();
    assert_eq!(board.current_player(), 1);
    assert_eq!(board.inventories()[0].remaining[0], 1);
}

#[test]
fn win_detection() {
    let mut board = QuantikBoard::new();
    board.play_move(Move::new(0, 0, 0)).unwrap();
    board.play_move(Move::new(1, 1, 1)).unwrap();
    board.play_move(Move::new(0, 2, 2)).unwrap();
    board.play_move(Move::new(1, 3, 3)).unwrap();
    assert!(board.is_game_over());
}

#[test]
fn undoing_several_moves_stops_at_the_start() {
    let mut board = QuantikBoard::new();
    let start = board.to_qfen();
    board.play_move(Move::new(0, 0, 0)).unwrap();
    board.play_move(Move::new(1, 1, 1)).unwrap();
    assert_eq!(board.last_move(), Some(Move::new(1, 1, 1)));
    assert_eq!(board.undo_moves(5), 2);
    assert_eq!(board.to_qfen(), start);
    assert_eq!(board.last_move(), None);
    assert!(!board.undo_move());
}

#[test]
fn finished_games_take_no_more_moves() {
    let mut board = QuantikBoard::from_qfen("AbC./..../..../....").unwrap();
    assert_eq!(board.game_result(), GameResult::Ongoing);
    board.play_move(Move::new(1, 3, 3)).unwrap();
    assert_eq!(board.game_result(), GameResult::Player1Wins);
    assert!(board.play_move(Move::new(0, 3, 15)).is_err());
}

#[test]
fn inventories_count_the_pieces_in_hand() {
    let full = PlayerInventory::full();
    assert_eq!(full.total(), 8);
    assert!(full.has_shape(3));
    let board = QuantikBoard::from_qfen("A.../..A./..../.b..").unwrap();
    assert_eq!(board.inventories()[0].total(), 6);
    assert!(!board.inventories()[0].has_shape(0));
    assert_eq!(board.inventories()[1].remaining, [2, 1, 2, 2]);
}

#[test]
fn empty_board_features_are_zero_except_nothing() {
    // No lines occupied, and player 0 has all 64 moves.
    let feats = features(&Bitboard::empty(), 0);
    assert_eq!(feats[0], 0);
    assert_eq!(feats[1], 0);
    assert_eq!(feats[2], 0);
    assert_eq!(feats[3], 64);
    assert_eq!(feats[4], 0);
    assert_eq!(feats[5], 0);
}

/// A@0, B@1, C@2 of player 0, d@8 and d@13 of player 1. Row 0 misses D at 3;
/// player 1 has spent both d pieces, so only player 0 can complete the line.
fn one_sided_threat_board() -> Bitboard {
    Bitboard::empty()
        .with_move(0, 0, 0)
        .with_move(1, 3, 8)
        .with_move(0, 2, 2)
        .with_move(1, 3, 13)
        .with_move(0, 1, 1)
}

#[test]
fn one_sided_threat_counts() {
    let bb = one_sided_threat_board();
    assert_eq!(current_player(&bb), Some(1));
    let n = generate_legal_moves(&bb).len() as i64;

    let feats_p0 = features(&bb, 0);
    assert_eq!(feats_p0[0], 1, "threat_own for p0");
    assert_eq!(feats_p0[1], 0, "threat_opp for p0");
    assert_eq!(feats_p0[2], 0, "threat_shared");
    assert_eq!(feats_p0[3], -n, "mobility: not p0's turn");
    assert_eq!(feats_p0[4], -3, "build_two with sign -1");
    assert_eq!(feats_p0[5], -4, "build_one with sign -1");

    let feats_p1 = features(&bb, 1);
    assert_eq!(feats_p1[0], 0, "threat_own for p1");
    assert_eq!(feats_p1[1], 1, "threat_opp for p1");
    assert_eq!(feats_p1[3], n, "mobility: p1's turn");
    assert_eq!(feats_p1[4], 3);
    assert_eq!(feats_p1[5], 4);
}

#[test]
fn features_do_not_mutate_input() {
    let bb = one_sided_threat_board();
    let before = bb;
    let _ = features(&bb, 0);
    assert_eq!(bb, before);
}

#[test]
fn evaluate_matches_hand_computed_dot_product() {
    let bb = one_sided_threat_board();
    let cfg = EvalConfig::default();
    let feats = features(&bb, 0);
    let expected: i64 = feats
        .iter()
        .zip(cfg.weights.iter())
        .map(|(f, w)| f * w)
        .sum();
    assert_eq!(evaluate(&bb, 0, &cfg), expected);
    let n = generate_legal_moves(&bb).len() as i64;
    assert_eq!(expected, 100 - 3 * n - 6);
}

#[test]
fn count_legal_moves_zero_off_turn() {
    assert_eq!(count_legal_moves(&Bitboard::empty(), 1), 0);
    assert_eq!(count_legal_moves(&Bitboard::empty(), 0), 64);
}

#[test]
fn shared_threat_is_counted_for_both() {
    // A@0, b@1, C@2: row 0 misses D at 3, and both sides still hold D pieces.
    let bb = Bitboard::empty()
        .with_move(0, 0, 0)
        .with_move(1, 1, 1)
        .with_move(0, 2, 2);
    let feats = features(&bb, 1);
    assert_eq!(feats[0], 1);
    assert_eq!(feats[1], 1);
    assert_eq!(feats[2], 1);
}

#[test]
fn features_have_names() {
    assert_eq!(feature_name(0), "threat_own");
    assert_eq!(feature_name(3), "mobility_diff");
    assert!(EvalConfig::default().is_valid());
}

#[test]
fn empty_board_no_win() {
    assert_eq!(check_winner(&Bitboard::empty()), WinStatus::NoWin);
    assert_eq!(current_player(&Bitboard::empty()), Some(0));
}

#[test]
fn row_0_win() {
    let bb = Bitboard::empty()
        .with_move(0, 0, 0)
        .with_move(1, 1, 1)
        .with_move(0, 2, 2)
        .with_move(1, 3, 3);
    assert!(has_winning_line(&bb));
    // Two pieces each: player 1 moved last.
    assert_eq!(check_winner(&bb), WinStatus::Player1Wins);
    assert!(is_game_over(&bb));
}

#[test]
fn current_player_alternates() {
    let bb = Bitboard::empty();
    assert_eq!(current_player(&bb), Some(0));
    let bb = bb.with_move(0, 0, 0);
    assert_eq!(current_player(&bb), Some(1));
    let bb = bb.with_move(1, 1, 5);
    assert_eq!(current_player(&bb), Some(0));
}

#[test]
fn no_player_moves_on_a_lopsided_board() {
    let bb = Bitboard::empty().with_move(1, 0, 0);
    assert_eq!(current_player(&bb), None);
    assert!(generate_legal_moves(&bb).is_empty());
}

#[test]
fn initial_legal_moves() {
    let moves = generate_legal_moves(&Bitboard::empty());
    assert_eq!(moves.len(), 64);
    assert!(moves.iter().all(|m| m.player == 0));
}

#[test]
fn occupied_position_blocked() {
    let bb = Bitboard::empty().with_move(0, 0, 0);
    assert!(!is_move_legal(&bb, 1, 1, 0));
}

#[test]
fn opponent_shape_on_line_blocked() {
    let bb = Bitboard::empty().with_move(0, 0, 0);
    // Shape A shares a row, or a column and a zone.
    assert!(!is_move_legal(&bb, 1, 0, 1));
    assert!(!is_move_legal(&bb, 1, 0, 4));
    // Position 10 shares no line with position 0.
    assert!(is_move_legal(&bb, 1, 0, 10));
}

#[test]
fn max_pieces_per_shape() {
    let bb = Bitboard::empty()
        .with_move(0, 0, 0)
        .with_move(1, 1, 5)
        .with_move(0, 0, 10);
    // Player 0 has placed both A pieces, but can still place B.
    assert!(!is_move_legal(&bb, 0, 0, 15));
    assert!(is_move_legal(&bb, 0, 1, 15));
}

#[test]
fn moves_pass_the_turn() {
    let bb = Bitboard::empty();
    let next = apply_move(&bb, &Move::new(0, 2, 7));
    assert_eq!(next, bb.with_move(0, 2, 7));
    assert_eq!(current_player(&next), Some(1));
}

fn hex(bytes: &[u8]) -> String {
    bytes.iter().map(|b| format!("{b:02x}")).collect()
}

#[test]
fn known_boards_have_known_texts_and_keys() {
    let cases: Vec<(&str, [u16; 8], bool, usize, &str)> = vec![
        (
            "..../..../..../....",
            [0, 0, 0, 0, 0, 0, 0, 0],
            false,
            64,
            "010200000000000000000000000000000000",
        ),
        (
            "A.../..../..../....",
            [1, 0, 0, 0, 0, 0, 0, 0],
            false,
            53,
            "010200000000000000100000000000000000",
        ),
        (
            "Ab../..../..../....",
            [1, 0, 0, 0, 0, 2, 0, 0],
            false,
            50,
            "010200000000000000100000000000010000",
        ),
        (
            "AbCd/..../..../....",
            [1, 0, 4, 0, 0, 2, 0, 8],
            true,
            40,
            "010200000000000101000010100000000000",
        ),
        (
            "A.../B.../C.../D...",
            [1, 16, 256, 4096, 0, 0, 0, 0],
            true,
            0,
            "010200010010010010000000000000000000",
        ),
        (
            "Ab../c.D./..../...A",
            [32769, 0, 0, 64, 0, 2, 16, 0],
            false,
            28,
            "010200000000000201800008004000000000",
        ),
        (
            "AbcD/bCdA/cDaB/DaBc",
            [129, 18432, 32, 4616, 9216, 18, 33028, 64],
            true,
            0,
            "010200020018218084001840420000040021",
        ),
    ];
    for (qfen, planes, win, moves, key) in cases {
        let bb = Bitboard::new(planes);
        assert_eq!(bb_to_qfen(&bb), qfen);
        assert_eq!(bb_from_qfen(qfen).unwrap(), bb);
        assert_eq!(has_winning_line(&bb), win);
        assert_eq!(generate_legal_moves(&bb).len(), moves);
        assert_eq!(hex(&State::new(bb).canonical_key()), key);
    }
}

#[test]
fn symmetric_boards_share_a_key() {
    let corner = State::from_qfen("A.../..../..../....").unwrap();
    let other = State::from_qfen("..../..../..../...C").unwrap();
    assert_eq!(corner.canonical_key(), other.canonical_key());
    assert_eq!(corner.symmetry_count(), other.symmetry_count());
    let centre = State::from_qfen("..../.A../..../....").unwrap();
    assert_ne!(corner.canonical_key(), centre.canonical_key());
}

#[test]
fn packed_states_unpack() {
    let state = State::from_qfen("Ab../c.D./..../...A").unwrap();
    let data = state.pack(FLAG_CANON);
    assert_eq!(data[0], VERSION);
    assert_eq!(data[1], FLAG_CANON);
    assert_eq!(State::unpack(&data).unwrap().to_qfen(), state.to_qfen());
    assert!(State::unpack(&data[..17]).is_err());
}

#[test]
fn malformed_qfen_is_refused() {
    assert!(State::from_qfen("..../..../....").is_err());
    assert!(State::from_qfen("..../..../..../...x").is_err());
    assert!(State::from_qfen("..../..../..../.....").is_err());
}

#[test]
fn boards_that_no_game_reaches_are_refused() {
    let complaint = |qfen| QuantikBoard::from_qfen(qfen).err().unwrap();
    assert_eq!(complaint("AA../..../..../...."), "Invalid turn balance");
    assert_eq!(
        complaint("AAA./bcd./..../...."),
        "Player 0 has 3 pieces of shape 0 (max 2)"
    );
    assert_eq!(
        complaint("ABC./ddd./..../...."),
        "Player 1 has 3 pieces of shape 3 (max 2)"
    );
}

#[test]
fn every_move_puts_one_piece_on_the_board() {
    let mut board = QuantikBoard::new();
    for played in 1..=5 {
        let mv = generate_legal_moves(board.bitboard())[0];
        board.play_move(mv).unwrap();
        let pieces: u32 = board.bitboard().planes.iter().map(|p| p.count_ones()).sum();
        assert_eq!(pieces, played);
        assert_eq!(board.move_count() as u32, played);
    }
}
