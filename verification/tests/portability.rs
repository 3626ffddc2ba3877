use quantik_core::bench::canonical::canonical_json;
use quantik_core::bench::portability::{
    build_report, contract_id, contracts_release, declared_release, legal_action_indices,
    legal_action_mask_from_moves, winner_label, ContractsManifest, Fixture, GameStateCase,
    MoveFixture, FIXTURE_SCHEMA,
};
use quantik_core::bench::contracts::legal_action_mask;
use quantik_core::bitboard::Bitboard;
use quantik_core::game::WinStatus;
use quantik_core::moves::generate_legal_moves;

fn manifest() -> ContractsManifest {
    ContractsManifest {
        release_version: Some(" 1.2.0\n".to_string()),
        contracts: vec![("selfplay".to_string(), "selfplay.v1".to_string())],
    }
}

fn complete_manifest() -> ContractsManifest {
    let names = ["qfen", "bitboard", "action_index"];
    ContractsManifest {
        release_version: Some("1.2.0".to_string()),
        contracts: names
            .iter()
            .map(|n| (n.to_string(), format!("{n}.v1")))
            .collect(),
    }
}

fn case(id: &str, qfen: &str, mv: Option<MoveFixture>) -> GameStateCase {
    GameStateCase {
        case_id: id.to_string(),
        qfen: qfen.to_string(),
        mv,
    }
}

fn fixture(cases: Vec<GameStateCase>) -> Fixture {
    Fixture {
        schema: FIXTURE_SCHEMA.to_string(),
        contract_version: "1.2.0".to_string(),
        game_state_cases: cases,
    }
}

#[test]
fn releases_must_agree() {
    assert_eq!(declared_release(&manifest()).unwrap(), "1.2.0");
    assert!(contracts_release("VERSION", "1.2.0\n", "1.2.0").is_ok());
    assert_eq!(
        contracts_release("VERSION", " \n", "1.2.0").unwrap_err(),
        "VERSION is empty"
    );
    assert_eq!(
        contracts_release("VERSION", "1.1.0", "1.2.0").unwrap_err(),
        "VERSION version 1.1.0 does not match contracts.json release_version 1.2.0"
    );
    let silent = ContractsManifest {
        release_version: None,
        contracts: vec![],
    };
    assert_eq!(
        declared_release(&silent).unwrap_err(),
        "contracts.json release_version is missing or empty"
    );
    assert_eq!(contract_id(&manifest(), "selfplay").unwrap(), "selfplay.v1");
    assert!(contract_id(&manifest(), "other").is_err());
}

#[test]
fn actions_and_masks_of_moves_agree() {
    let bb = Bitboard::empty().with_move(0, 0, 0);
    let moves = generate_legal_moves(&bb);
    let listed = legal_action_indices(&moves);
    assert!(listed.windows(2).all(|w| w[0] < w[1]));
    assert_eq!(listed.len(), 53);
    assert_eq!(legal_action_mask_from_moves(&moves), legal_action_mask(&bb));
    assert_eq!(winner_label(WinStatus::NoWin), "none");
    assert_eq!(winner_label(WinStatus::Player1Wins), "player1");
}

#[test]
fn reports_need_matching_labels_and_cases() {
    let none = fixture(vec![]);
    assert!(build_report(&manifest(), &none, "1.2.0").is_err());
    let mut drifted = fixture(vec![case("a", "..../..../..../....", None)]);
    drifted.contract_version = "1.1.0".to_string();
    let error = build_report(&manifest(), &drifted, "1.2.0").unwrap_err();
    assert!(error.contains("does not match contracts release 1.2.0"), "{error}");
    drifted.contract_version = "1.2.0".to_string();
    drifted.schema = "other".to_string();
    assert!(build_report(&manifest(), &drifted, "1.2.0").is_err());
    let malformed = fixture(vec![case("a", "nonsense", None)]);
    assert!(build_report(&manifest(), &malformed, "1.2.0").is_err());
}

#[test]
fn reports_show_boards_and_moves() {
    let cases = fixture(vec![
        case(
            "z",
            "..../..../..../....",
            Some(MoveFixture {
                shape: 0,
                position: 5,
            }),
        ),
        case(
            "a",
            "AbC./..../..../....",
            Some(MoveFixture {
                shape: 3,
                position: 3,
            }),
        ),
    ]);
    let text = canonical_json(&build_report(&complete_manifest(), &cases, "1.2.0").unwrap());
    assert!(text.contains("AbCd/..../..../...."), "{text}");
    assert!(text.contains("\"action_index\":51"), "{text}");
    assert!(text.find("\"case_id\":\"a\"") < text.find("\"case_id\":\"z\""));
}
