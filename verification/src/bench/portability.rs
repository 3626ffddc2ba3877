//! Reports that show how this library sees shared game states.
use crate::bench::actions::{action_index, canonical_key_hex, mask_below, mask_of};
use crate::bench::canonical::{name_order, order_by_name};
use crate::bench::fields::{
    complain, concat, concat3, concat4, either, reports, trim, trimmed,
};
use crate::bench::game_result::{actions_json, actions_view};
use crate::bench::json::{field, items_view, members_view, Json, JsonView};
use crate::bench::selfplay::{planes_json, planes_view};
use crate::constants::PACKAGE_VERSION;
use crate::game::{check_winner, current_player, to_move, win_status, won, WinStatus};
use crate::game_value::finished;
use crate::moves::{
    action_move, action_of, applied, apply_move, generate_legal_moves, legal, legal_move,
    legal_moves, lemma_legal_moves, moves_below, Move,
};
use crate::qfen::{qfen_board, qfen_complaint, qfen_of};
use crate::state::{canonical_key_of, State};
use crate::symmetry::{canonical, lists_orbit, SymmetryHandler};
use crate::text::{decimal, hex_number, hex_of, push_decimal, push_hex, same_text};
use vstd::prelude::*;
use vstd::string::*;

verus! {

pub const REPORT_SCHEMA: &'static str = "api-portability-report.v1";

pub const FIXTURE_SCHEMA: &'static str = "api-portability-fixtures.v1";

pub const FIXTURE_PATH: &'static str = "fixtures/api-portability/game-state-v1.json";

/// The contracts of a release: keys and ids.
#[derive(Debug)]
pub struct ContractsManifest {
    pub release_version: Option<String>,
    pub contracts: Vec<(String, String)>,
}

/// Game states that every implementation reports on.
#[derive(Debug)]
pub struct Fixture {
    pub schema: String,
    pub contract_version: String,
    pub game_state_cases: Vec<GameStateCase>,
}

#[derive(Debug)]
pub struct GameStateCase {
    pub case_id: String,
    pub qfen: String,
    pub mv: Option<MoveFixture>,
}

#[derive(Clone, Copy, Debug, PartialEq, Eq, Structural)]
pub struct MoveFixture {
    pub shape: u8,
    pub position: u8,
}

/// The complaint about the labels of the game states.
pub open spec fn fixture_complaint(f: Fixture, release: Seq<char>) -> Option<Seq<char>> {
    either(
        complain(
            f.schema@ != FIXTURE_SCHEMA@,
            FIXTURE_PATH@ + " schema "@ + f.schema@ + " must be "@ + FIXTURE_SCHEMA@,
        ),
        complain(
            f.contract_version@ != release,
            FIXTURE_PATH@ + " contract_version "@ + f.contract_version@
                + " does not match contracts release "@ + release,
        ),
    )
}

pub fn validate_fixture_metadata(fixture: &Fixture, contracts_release: &str) -> (r: Result<
    (),
    String,
>)
    ensures
        reports(r, fixture_complaint(*fixture, contracts_release@)),
{
    if !same_text(fixture.schema.as_str(), FIXTURE_SCHEMA) {
        let mut m = concat4(FIXTURE_PATH, " schema ", fixture.schema.as_str(), " must be ");
        m.append(FIXTURE_SCHEMA);
        return Err(m);
    }
    if !same_text(fixture.contract_version.as_str(), contracts_release) {
        let mut m = concat4(
            FIXTURE_PATH,
            " contract_version ",
            fixture.contract_version.as_str(),
            " does not match contracts release ",
        );
        m.append(contracts_release);
        return Err(m);
    }
    Ok(())
}

/// The release that a manifest declares, or why it declares none.
pub open spec fn declared(m: ContractsManifest) -> Result<Seq<char>, Seq<char>> {
    match m.release_version {
        Some(v) => if trimmed(v@).len() == 0 {
            Err("contracts.json release_version is missing or empty"@)
        } else {
            Ok(trimmed(v@))
        },
        None => Err("contracts.json release_version is missing or empty"@),
    }
}

/// The release that a manifest declares.
pub fn declared_release(manifest: &ContractsManifest) -> (r: Result<String, String>)
    ensures
        match (r, declared(*manifest)) {
            (Ok(s), Ok(v)) => s@ == v,
            (Err(m), Err(e)) => m@ == e,
            _ => false,
        },
{
    if let Some(v) = &manifest.release_version {
        let release = trim(v.as_str());
        if !same_text(release.as_str(), "") {
            proof {
                reveal_strlit("");
                assert(release@.len() == 0 ==> release@ =~= ""@);
            }
            return Ok(release);
        }
        proof {
            reveal_strlit("");
        }
    }
    Err("contracts.json release_version is missing or empty".to_owned())
}

/// The complaint about the text of a version file.
pub open spec fn version_complaint(
    path: Seq<char>,
    text: Seq<char>,
    release: Seq<char>,
) -> Option<Seq<char>> {
    either(
        complain(trimmed(text).len() == 0, path + " is empty"@),
        complain(
            trimmed(text) != release,
            path + " version "@ + trimmed(text)
                + " does not match contracts.json release_version "@ + release,
        ),
    )
}

/// Check the text of the version file at `path` against a declared release.
pub fn contracts_release(path: &str, version_text: &str, release: &str) -> (r: Result<(), String>)
    ensures
        reports(r, version_complaint(path@, version_text@, release@)),
{
    let version = trim(version_text);
    if same_text(version.as_str(), "") {
        proof {
            reveal_strlit("");
        }
        return Err(concat(path, " is empty"));
    }
    proof {
        reveal_strlit("");
        assert(version@.len() == 0 ==> version@ =~= ""@);
    }
    if !same_text(version.as_str(), release) {
        let mut m = concat4(
            path,
            " version ",
            version.as_str(),
            " does not match contracts.json release_version ",
        );
        m.append(release);
        return Err(m);
    }
    Ok(())
}

/// The id of the first contract called `key`.
pub open spec fn id_of(contracts: Seq<(String, String)>, key: Seq<char>) -> Option<Seq<char>>
    decreases contracts.len(),
{
    if contracts.len() == 0 {
        None
    } else if contracts[0].0@ == key {
        Some(contracts[0].1@)
    } else {
        id_of(contracts.drop_first(), key)
    }
}

pub fn contract_id(manifest: &ContractsManifest, key: &str) -> (r: Result<String, String>)
    ensures
        match id_of(manifest.contracts@, key@) {
            Some(id) => r matches Ok(s) && s@ == id,
            None => r matches Err(m) && m@ == "contracts.json missing "@ + key@ + " contract"@,
        },
{
    let list = &manifest.contracts;
    let mut i: usize = 0;
    assert(list@.skip(0) =~= list@);
    while i < list.len()
        invariant
            i <= list@.len(),
            *list == manifest.contracts,
            id_of(list@, key@) == id_of(list@.skip(i as int), key@),
        decreases list@.len() - i,
    {
        assert(list@.skip(i as int).drop_first() =~= list@.skip(i + 1));
        if same_text(list[i].0.as_str(), key) {
            return Ok(list[i].1.clone());
        }
        i = i + 1;
    }
    Err(concat3("contracts.json missing ", key, " contract"))
}

/// The name of a winner.
pub open spec fn winner_name(w: WinStatus) -> Seq<char> {
    match w {
        WinStatus::NoWin => "none"@,
        WinStatus::Player0Wins => "player0"@,
        WinStatus::Player1Wins => "player1"@,
    }
}

pub fn winner_label(winner: WinStatus) -> (s: &'static str)
    ensures
        s@ == winner_name(winner),
{
    match winner {
        WinStatus::NoWin => "none",
        WinStatus::Player0Wins => "player0",
        WinStatus::Player1Wins => "player1",
    }
}

/// The place of `a` in a sorted list, from the place `k` on: after what is not
/// larger.
pub open spec fn action_place(list: Seq<u8>, k: int, a: u8) -> int
    decreases list.len() - k,
{
    if k >= list.len() || list[k] > a {
        k
    } else {
        action_place(list, k + 1, a)
    }
}

/// The action numbers of the first `n` moves, sorted.
pub open spec fn sorted_actions(moves: Seq<Move>, n: int) -> Seq<u8>
    decreases n,
{
    if n <= 0 {
        Seq::empty()
    } else {
        let before = sorted_actions(moves, n - 1);
        let a = action_of(moves[n - 1]) as u8;
        before.insert(action_place(before, 0, a), a)
    }
}

pub fn legal_action_indices(moves: &Vec<Move>) -> (list: Vec<u8>)
    requires
        forall|i: int| 0 <= i < moves@.len() ==> (#[trigger] moves@[i]).in_range(),
    ensures
        list@ == sorted_actions(moves@, moves@.len() as int),
{
    let mut list: Vec<u8> = Vec::new();
    let mut n: usize = 0;
    while n < moves.len()
        invariant
            n <= moves@.len(),
            forall|i: int| 0 <= i < moves@.len() ==> (#[trigger] moves@[i]).in_range(),
            list@ == sorted_actions(moves@, n as int),
            list@.len() <= n,
        decreases moves@.len() - n,
    {
        let mv = moves[n];
        assert(moves@[n as int].in_range());
        let a: u8 = action_index(mv.shape, mv.position);
        let ghost before = list@;
        let mut k: usize = 0;
        while k < list.len() && list[k] <= a
            invariant
                k <= list@.len(),
                list@ == before,
                action_place(before, 0, a) == action_place(before, k as int, a),
            decreases list@.len() - k,
        {
            k = k + 1;
        }
        list.insert(k, a);
        n = n + 1;
    }
    list
}

/// On the legal moves of a board, which are listed by action, the sorted actions
/// are the actions.
proof fn lemma_sorted_legal(moves: Seq<Move>, n: int)
    requires
        0 <= n <= moves.len(),
        forall|i: int| 0 <= i < moves.len() ==> (#[trigger] moves[i]).in_range(),
        forall|i: int, j: int|
            0 <= i < j < moves.len() ==> action_of(#[trigger] moves[i]) < action_of(
                #[trigger] moves[j],
            ),
    ensures
        sorted_actions(moves, n) == Seq::new(n as nat, |i: int| action_of(moves[i]) as u8),
    decreases n,
{
    if n > 0 {
        lemma_sorted_legal(moves, n - 1);
        let before = sorted_actions(moves, n - 1);
        let a = action_of(moves[n - 1]) as u8;
        assert forall|i: int| 0 <= i < before.len() implies before[i] <= a by {
            assert(action_of(moves[i]) < action_of(moves[n - 1]));
            assert(moves[i].in_range() && moves[n - 1].in_range());
        }
        lemma_action_place(before, 0, a);
        assert(sorted_actions(moves, n) =~= Seq::new(n as nat, |i: int| action_of(moves[i]) as u8));
    } else {
        assert(sorted_actions(moves, 0) =~= Seq::new(0, |i: int| action_of(moves[i]) as u8));
    }
}

proof fn lemma_action_place(list: Seq<u8>, k: int, a: u8)
    requires
        0 <= k <= list.len(),
        forall|i: int| 0 <= i < list.len() ==> list[i] <= a,
    ensures
        action_place(list, k, a) == list.len(),
    decreases list.len() - k,
{
    if k < list.len() {
        lemma_action_place(list, k + 1, a);
    }
}

/// The legal actions are listed in order.
pub proof fn law_actions_listed_in_order(b: Seq<u16>)
    ensures
        sorted_actions(legal_moves(b), legal_moves(b).len() as int) == Seq::new(
            legal_moves(b).len(),
            |i: int| action_of(legal_moves(b)[i]) as u8,
        ),
{
    lemma_legal_moves(b);
    assert forall|i: int| 0 <= i < legal_moves(b).len() implies (
    #[trigger] legal_moves(b)[i]).in_range() by {
        assert(legal_move(b, legal_moves(b)[i]));
    }
    lemma_sorted_legal(legal_moves(b), legal_moves(b).len() as int);
}

/// The mask of the actions of the first `n` moves.
pub open spec fn mask_from(moves: Seq<Move>, n: int) -> u64
    decreases n,
{
    if n <= 0 {
        0
    } else {
        mask_from(moves, n - 1) | (1u64 << (action_of(moves[n - 1]) as u64))
    }
}

pub fn legal_action_mask_from_moves(moves: &Vec<Move>) -> (mask: u64)
    requires
        forall|i: int| 0 <= i < moves@.len() ==> (#[trigger] moves@[i]).in_range(),
    ensures
        mask == mask_from(moves@, moves@.len() as int),
{
    let mut mask: u64 = 0;
    let mut n: usize = 0;
    while n < moves.len()
        invariant
            n <= moves@.len(),
            forall|i: int| 0 <= i < moves@.len() ==> (#[trigger] moves@[i]).in_range(),
            mask == mask_from(moves@, n as int),
        decreases moves@.len() - n,
    {
        let mv = moves[n];
        assert(moves@[n as int].in_range());
        let a: u8 = action_index(mv.shape, mv.position);
        mask = mask | (1u64 << (a as u64));
        n = n + 1;
    }
    mask
}

/// The mask made of the legal moves is the mask of the legal actions.
pub proof fn law_mask_from_legal_moves(b: Seq<u16>)
    ensures
        mask_from(legal_moves(b), legal_moves(b).len() as int) == mask_of(b),
{
    match to_move(b) {
        Some(p) => {
            lemma_mask_from_below(b, p, 64);
        },
        None => {
            lemma_mask_empty(b, 64);
        },
    }
}

proof fn lemma_mask_empty(b: Seq<u16>, n: int)
    requires
        to_move(b) is None,
    ensures
        mask_below(b, n) == 0,
    decreases n,
{
    if n > 0 {
        lemma_mask_empty(b, n - 1);
    }
}

proof fn lemma_mask_from_below(b: Seq<u16>, p: u8, n: int)
    requires
        to_move(b) == Some(p),
        0 <= n <= 64,
    ensures
        mask_from(moves_below(b, p, n), moves_below(b, p, n).len() as int) == mask_below(b, n),
    decreases n,
{
    if n > 0 {
        lemma_mask_from_below(b, p, n - 1);
        let before = moves_below(b, p, n - 1);
        if legal(b, p as int, (n - 1) / 16, (n - 1) % 16) {
            let m = action_move(p, n - 1);
            let now = before.push(m);
            lemma_mask_prefix(before, now, before.len() as int);
            assert(action_of(m) == n - 1);
        }
    }
}

proof fn lemma_mask_prefix(x: Seq<Move>, y: Seq<Move>, n: int)
    requires
        0 <= n <= x.len(),
        n <= y.len(),
        forall|i: int| 0 <= i < n ==> x[i] == y[i],
    ensures
        mask_from(x, n) == mask_from(y, n),
    decreases n,
{
    if n > 0 {
        lemma_mask_prefix(x, y, n - 1);
    }
}

/// The complaint about a move.
pub open spec fn move_complaint(m: MoveFixture) -> Option<Seq<char>> {
    either(
        complain(
            m.shape > 3,
            "move.shape must be between 0 and 3, got "@ + decimal(m.shape as nat),
        ),
        complain(
            m.position > 15,
            "move.position must be between 0 and 15, got "@ + decimal(m.position as nat),
        ),
    )
}

/// How a move is reported.
pub open spec fn move_view(b: Seq<u16>, side: u8, m: MoveFixture) -> JsonView {
    let mv = Move { player: side, shape: m.shape, position: m.position };
    let is_legal = legal_move(b, mv);
    JsonView::Object(
        seq![
            ("action_index"@, JsonView::Unsigned((m.shape * 16 + m.position) as u64)),
            (
                "after_qfen"@,
                if is_legal {
                    JsonView::Text(qfen_of(applied(b, mv)))
                } else {
                    JsonView::Null
                },
            ),
            ("is_legal"@, JsonView::Bool(is_legal)),
            ("position"@, JsonView::Unsigned(m.position as u64)),
            ("shape"@, JsonView::Unsigned(m.shape as u64)),
        ],
    )
}

/// Report on a move.
pub fn project_move(state: &State, side_to_move: u8, m: &MoveFixture) -> (r: Result<Json, String>)
    requires
        to_move(state.bb@) == Some(side_to_move),
    ensures
        match r {
            Ok(j) => move_complaint(*m) is None && j.view() == move_view(
                state.bb@,
                side_to_move,
                *m,
            ),
            Err(e) => move_complaint(*m) == Some(e@),
        },
{
    if m.shape > 3 {
        let mut text = "move.shape must be between 0 and 3, got ".to_owned();
        push_decimal(&mut text, m.shape as u64);
        return Err(text);
    }
    if m.position > 15 {
        let mut text = "move.position must be between 0 and 15, got ".to_owned();
        push_decimal(&mut text, m.position as u64);
        return Err(text);
    }
    let index: u8 = action_index(m.shape, m.position);
    let mv = Move::new(side_to_move, m.shape, m.position);
    let is_legal: bool = crate::moves::is_move_legal(
        &state.bb,
        side_to_move,
        m.shape,
        m.position,
    );
    let after = if is_legal {
        Json::Text(State::new(apply_move(&state.bb, &mv)).to_qfen())
    } else {
        Json::Null
    };
    let members: Vec<(String, Json)> = vec![
        field("action_index", Json::Unsigned(index as u64)),
        field("after_qfen", after),
        field("is_legal", Json::Bool(is_legal)),
        field("position", Json::Unsigned(m.position as u64)),
        field("shape", Json::Unsigned(m.shape as u64)),
    ];
    assert(members_view(members@) =~= move_view(state.bb@, side_to_move, *m)->Object_0);
    Ok(Json::Object(members))
}

/// The winner of a position: whoever completed a line, else whoever the side to
/// move without a move has lost to.
pub open spec fn reported_winner(b: Seq<u16>) -> Seq<char> {
    if !won(b) && legal_moves(b).len() == 0 {
        if to_move(b) == Some(0u8) {
            "player1"@
        } else {
            "player0"@
        }
    } else {
        winner_name(win_status(b))
    }
}

/// The first thing that is wrong with a game state.
pub open spec fn case_complaint(c: GameStateCase) -> Option<Seq<char>> {
    let b = qfen_board(c.qfen@);
    if c.case_id@.len() == 0 {
        Some("game_state_case.case_id must be a non-empty string"@)
    } else {
        match qfen_complaint(c.qfen@) {
            Some(e) => Some("case "@ + c.case_id@ + " qfen parse failed: "@ + e),
            None => if to_move(b) is None {
                Some("case "@ + c.case_id@ + " has invalid side-to-move parity"@)
            } else {
                match c.mv {
                    None => Some("case "@ + c.case_id@ + " move must be present"@),
                    Some(m) => move_complaint(m),
                }
            },
        }
    }
}

/// The number of boards that are symmetric to `b`.
pub open spec fn orbit_count(b: Seq<u16>) -> nat {
    (choose|list: Seq<u128>| #[trigger] lists_orbit(list, b)).len()
}

/// How a game state is reported.
pub open spec fn case_view(c: GameStateCase) -> JsonView {
    let b = qfen_board(c.qfen@);
    let moves = legal_moves(b);
    JsonView::Object(
        seq![
            ("bitboards"@, planes_view(b)),
            ("canonical_key"@, JsonView::Text(hex_of(canonical_key_of(b)))),
            ("canonical_qfen"@, JsonView::Text(qfen_of(canonical(b)))),
            ("case_id"@, JsonView::Text(c.case_id@)),
            ("legal_action_indices"@, actions_view(sorted_actions(moves, moves.len() as int))),
            (
                "legal_action_mask"@,
                JsonView::Text("0x"@ + hex_number(mask_of(b) as nat, 16)),
            ),
            ("move"@, move_view(b, to_move(b)->0, c.mv->0)),
            ("orbit_size"@, JsonView::Unsigned(orbit_count(b) as u64)),
            ("qfen"@, JsonView::Text(qfen_of(b))),
            ("side_to_move"@, JsonView::Unsigned(to_move(b)->0 as u64)),
            ("terminal"@, JsonView::Bool(finished(b))),
            ("winner"@, JsonView::Text(reported_winner(b))),
        ],
    )
}

/// Report on a game state.
pub fn project_case(case: &GameStateCase) -> (r: Result<Json, String>)
    ensures
        match r {
            Ok(j) => case_complaint(*case) is None && j.view() == case_view(*case),
            Err(e) => case_complaint(*case) == Some(e@),
        },
{
    proof {
        reveal_strlit("");
        assert(case.case_id@.len() == 0 ==> case.case_id@ =~= ""@);
    }
    if same_text(case.case_id.as_str(), "") {
        return Err("game_state_case.case_id must be a non-empty string".to_owned());
    }
    let start = concat("case ", case.case_id.as_str());
    let state = match State::from_qfen(case.qfen.as_str()) {
        Ok(state) => state,
        Err(e) => return Err(concat3(start.as_str(), " qfen parse failed: ", e.as_str())),
    };
    let side: u8 = match current_player(&state.bb) {
        Some(p) => p,
        None => return Err(concat(start.as_str(), " has invalid side-to-move parity")),
    };
    let canonical_state = State::new(SymmetryHandler::find_canonical(&state.bb));
    let moves = generate_legal_moves(&state.bb);
    let winner = check_winner(&state.bb);
    let ghost b = state.bb@;
    let stuck: bool = moves.len() == 0;
    let open: bool = match winner {
        WinStatus::NoWin => true,
        _ => false,
    };
    let name: &'static str = if open && stuck {
        if side == 0 {
            "player1"
        } else {
            "player0"
        }
    } else {
        winner_label(winner)
    };
    proof {
        lemma_legal_moves(b);
        assert forall|i: int| 0 <= i < moves@.len() implies (#[trigger] moves@[i]).in_range() by {
            assert(legal_move(b, moves@[i]));
        }
        law_mask_from_legal_moves(b);
    }
    let mut mask = "0x".to_owned();
    push_hex(&mut mask, legal_action_mask_from_moves(&moves), 16);
    let orbit: usize = state.symmetry_count();
    proof {
        let list = choose|list: Seq<u128>| #[trigger] lists_orbit(list, b);
        assert(lists_orbit(list, b));
    }
    let m = match &case.mv {
        Some(m) => m,
        None => return Err(concat(start.as_str(), " move must be present")),
    };
    let shown = project_move(&state, side, m)?;
    let members: Vec<(String, Json)> = vec![
        field("bitboards", planes_json(&state.bb)),
        field("canonical_key", Json::Text(canonical_key_hex(&state))),
        field("canonical_qfen", Json::Text(canonical_state.to_qfen())),
        field("case_id", Json::text(case.case_id.as_str())),
        field("legal_action_indices", actions_json(&legal_action_indices(&moves))),
        field("legal_action_mask", Json::Text(mask)),
        field("move", shown),
        field("orbit_size", Json::Unsigned(orbit as u64)),
        field("qfen", Json::Text(state.to_qfen())),
        field("side_to_move", Json::Unsigned(side as u64)),
        field("terminal", Json::Bool(!open || stuck)),
        field("winner", Json::text(name)),
    ];
    assert(members_view(members@) =~= case_view(*case)->Object_0);
    Ok(Json::Object(members))
}

/// The complaint about the game states from the one at `i` on.
pub open spec fn cases_complaint(cases: Seq<GameStateCase>, i: int) -> Option<Seq<char>>
    decreases cases.len() - i,
{
    if i < 0 || i >= cases.len() {
        None
    } else {
        either(case_complaint(cases[i]), cases_complaint(cases, i + 1))
    }
}

/// The reports on game states, each with its name.
pub open spec fn named_cases(cases: Seq<GameStateCase>) -> Seq<(Seq<char>, JsonView)> {
    cases.map_values(|c: GameStateCase| (c.case_id@, case_view(c)))
}

/// The reports in the order of their names.
pub open spec fn sorted_cases(cases: Seq<GameStateCase>) -> Seq<JsonView> {
    let named = named_cases(cases);
    name_order(named, named.len() as int).map_values(|p: int| named[p].1)
}

/// The first thing that keeps a report from being made.
pub open spec fn report_complaint(
    m: ContractsManifest,
    f: Fixture,
    release: Seq<char>,
) -> Option<Seq<char>> {
    either(
        fixture_complaint(f, release),
        either(
            complain(
                f.game_state_cases@.len() == 0,
                FIXTURE_PATH@ + " game_state_cases must be a non-empty array"@,
            ),
            either(
                cases_complaint(f.game_state_cases@, 0),
                either(
                    missing_contract(m, "qfen"@),
                    either(
                        missing_contract(m, "bitboard"@),
                        missing_contract(m, "action_index"@),
                    ),
                ),
            ),
        ),
    )
}

/// The complaint about a contract that a manifest does not have.
pub open spec fn missing_contract(m: ContractsManifest, key: Seq<char>) -> Option<Seq<char>> {
    complain(
        id_of(m.contracts@, key) is None,
        "contracts.json missing "@ + key + " contract"@,
    )
}

/// The name of this package.
pub const PACKAGE_NAME: &'static str = "quantik-core";

/// The report on game states.
pub open spec fn report_view(m: ContractsManifest, f: Fixture, release: Seq<char>) -> JsonView {
    JsonView::Object(
        seq![
            ("cases"@, JsonView::Array(sorted_cases(f.game_state_cases@))),
            (
                "contract_ids"@,
                JsonView::Object(
                    seq![
                        (
                            "action_index"@,
                            JsonView::Text(id_of(m.contracts@, "action_index"@)->0),
                        ),
                        ("bitboard"@, JsonView::Text(id_of(m.contracts@, "bitboard"@)->0)),
                        ("qfen"@, JsonView::Text(id_of(m.contracts@, "qfen"@)->0)),
                    ],
                ),
            ),
            ("contracts_release"@, JsonView::Text(release)),
            (
                "implementation"@,
                JsonView::Object(
                    seq![
                        ("language"@, JsonView::Text("rust"@)),
                        ("package"@, JsonView::Text(PACKAGE_NAME@)),
                        ("version"@, JsonView::Text(PACKAGE_VERSION@)),
                    ],
                ),
            ),
            ("schema"@, JsonView::Text(REPORT_SCHEMA@)),
        ],
    )
}

fn project_cases(cases: &Vec<GameStateCase>) -> (r: Result<Vec<(String, Json)>, String>)
    ensures
        match r {
            Ok(list) => cases_complaint(cases@, 0) is None && members_view(list@) == named_cases(
                cases@,
            ),
            Err(e) => cases_complaint(cases@, 0) == Some(e@),
        },
{
    let mut list: Vec<(String, Json)> = Vec::new();
    let mut i: usize = 0;
    while i < cases.len()
        invariant
            i <= cases@.len(),
            cases_complaint(cases@, 0) == cases_complaint(cases@, i as int),
            list@.len() == i,
            forall|k: int|
                0 <= k < i ==> (#[trigger] list@[k]).0@ == cases@[k].case_id@ && list@[k].1.view()
                    == case_view(cases@[k]),
        decreases cases@.len() - i,
    {
        let shown = project_case(&cases[i])?;
        list.push((cases[i].case_id.clone(), shown));
        i = i + 1;
    }
    assert(members_view(list@) =~= named_cases(cases@));
    Ok(list)
}

/// Report on game states for a release that was checked.
pub fn build_report(manifest: &ContractsManifest, fixture: &Fixture, release: &str) -> (r: Result<
    Json,
    String,
>)
    ensures
        match r {
            Ok(j) => report_complaint(*manifest, *fixture, release@) is None && j.view()
                == report_view(*manifest, *fixture, release@),
            Err(e) => report_complaint(*manifest, *fixture, release@) == Some(e@),
        },
{
    validate_fixture_metadata(fixture, release)?;
    if fixture.game_state_cases.len() == 0 {
        return Err(concat(FIXTURE_PATH, " game_state_cases must be a non-empty array"));
    }
    let named = project_cases(&fixture.game_state_cases)?;
    let order = order_by_name(&named);
    let ghost views = members_view(named@);
    let ghost places = name_order(views, views.len() as int);
    let mut cases: Vec<Json> = Vec::new();
    let mut i: usize = 0;
    while i < order.len()
        invariant
            i <= order@.len(),
            order@.len() == named@.len(),
            views == members_view(named@),
            places == order@.map_values(|p: usize| p as int),
            forall|k: int| 0 <= k < order@.len() ==> 0 <= #[trigger] order@[k] < named@.len(),
            cases@.len() == i,
            forall|k: int| 0 <= k < i ==> (#[trigger] cases@[k]).view() == views[places[k]].1,
        decreases order@.len() - i,
    {
        let place: usize = order[i];
        assert(places[i as int] == place);
        assert(views[place as int] == (named@[place as int].0@, named@[place as int].1.view()));
        cases.push(named[place].1.copy());
        i = i + 1;
    }
    assert(items_view(cases@) =~= sorted_cases(fixture.game_state_cases@));
    let qfen = contract_id(manifest, "qfen")?;
    let bitboard = contract_id(manifest, "bitboard")?;
    let action = contract_id(manifest, "action_index")?;
    let ids: Vec<(String, Json)> = vec![
        field("action_index", Json::Text(action)),
        field("bitboard", Json::Text(bitboard)),
        field("qfen", Json::Text(qfen)),
    ];
    let implementation: Vec<(String, Json)> = vec![
        field("language", Json::text("rust")),
        field("package", Json::text(PACKAGE_NAME)),
        field("version", Json::text(PACKAGE_VERSION)),
    ];
    let ghost whole = report_view(*manifest, *fixture, release@);
    assert(members_view(ids@) =~= whole->Object_0[1].1->Object_0);
    assert(members_view(implementation@) =~= whole->Object_0[3].1->Object_0);
    let members: Vec<(String, Json)> = vec![
        field("cases", Json::Array(cases)),
        field("contract_ids", Json::Object(ids)),
        field("contracts_release", Json::text(release)),
        field("implementation", Json::Object(implementation)),
        field("schema", Json::text(REPORT_SCHEMA)),
    ];
    assert(members_view(members@) =~= whole->Object_0);
    Ok(Json::Object(members))
}

} // verus!
