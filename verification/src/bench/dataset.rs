//! Position datasets that benchmarks share: versioned, with a checksum.
use crate::bench::canonical::json_text;
use crate::bench::contracts::CONTRACT_VERSION;
use crate::bench::fields::{complain, concat, reports, text_at, text_in, texts};
use crate::bench::hashing::{json_digest, sha256};
use crate::bench::json::{
    field, items_view, lemma_without_with, members_of, members_view, parse_json, parsed_json,
    restorable, set_member, strip_member, with_member, without, Json, JsonView,
};
use crate::bitboard::{bit, lemma_popcount, plane, popcount, taken, Bitboard};
use crate::constants::line;
use crate::game::{
    current_player, has_winning_line, line_complete, shape_union, to_move, total_pieces, won,
};
use crate::game_value::{
    after_line, empty_cells, finished, legal_line, lemma_line_push, lemma_move_fills_cell,
    lemma_no_room,
};
use crate::mcts::drawn_move;
use crate::moves::{
    applied, apply_move, generate_legal_moves, legal_move, legal_moves, lemma_legal_move_step,
    lemma_legal_moves, Move,
};
use crate::qfen::qfen_of;
use crate::rng::{
    after_draw, after_draw_between, drawn_between, pick, pick_between, seeded, seeded_rng,
};
use crate::state::State;
use crate::symmetry::{canonical, payload_number};
use crate::text::{
    debug_form, debug_text, decimal, hex_of, join, joined, padded, push_decimal, push_padded,
    same_text,
};
use rand::rngs::StdRng;
use std::collections::HashSet;
use vstd::prelude::*;
use vstd::string::*;

verus! {

pub const SCHEMA_VERSION: u64 = 1;

pub const GENERATOR: &'static str = "benchmarks.dataset.generate/v1";

/// The name of phase `k`.
pub open spec fn phase_name(k: int) -> Seq<char> {
    if k == 0 {
        "opening"@
    } else if k == 1 {
        "early_mid"@
    } else if k == 2 {
        "late_mid"@
    } else {
        "endgame"@
    }
}

/// The smallest number of pieces in phase `k`.
pub open spec fn phase_low(k: int) -> int {
    if k == 0 {
        0
    } else if k == 1 {
        5
    } else if k == 2 {
        8
    } else {
        12
    }
}

/// The largest number of pieces in phase `k`.
pub open spec fn phase_high(k: int) -> int {
    if k == 0 {
        4
    } else if k == 1 {
        7
    } else if k == 2 {
        11
    } else {
        16
    }
}

/// Phase `k`: its name, and the smallest and the largest number of pieces in it.
pub fn phase_bounds(k: usize) -> (p: (&'static str, u32, u32))
    requires
        k < 4,
    ensures
        p.0@ == phase_name(k as int),
        p.1 == phase_low(k as int),
        p.2 == phase_high(k as int),
{
    if k == 0 {
        ("opening", 0, 4)
    } else if k == 1 {
        ("early_mid", 5, 7)
    } else if k == 2 {
        ("late_mid", 8, 11)
    } else {
        ("endgame", 12, 16)
    }
}

/// The phase that a number of pieces belongs to.
pub open spec fn in_phase(pieces: int, k: int) -> bool {
    0 <= k < 4 && phase_low(k) <= pieces <= phase_high(k)
}

/// Every number of pieces up to sixteen belongs to exactly one phase, and no
/// larger number to any.
pub proof fn law_phases_partition(pieces: int)
    ensures
        0 <= pieces <= 16 ==> exists|k: int| #[trigger] in_phase(pieces, k),
        pieces > 16 ==> forall|k: int| !#[trigger] in_phase(pieces, k),
        forall|j: int, k: int|
            #[trigger] in_phase(pieces, j) && #[trigger] in_phase(pieces, k) ==> j == k,
{
    assert(0 <= pieces <= 4 ==> in_phase(pieces, 0));
    assert(5 <= pieces <= 7 ==> in_phase(pieces, 1));
    assert(8 <= pieces <= 11 ==> in_phase(pieces, 2));
    assert(12 <= pieces <= 16 ==> in_phase(pieces, 3));
}

/// The phase of a position with so many pieces.
pub fn phase_of(pieces: u32) -> (r: Result<&'static str, String>)
    ensures
        match r {
            Ok(name) => exists|k: int| #[trigger] in_phase(pieces as int, k) && name@ == phase_name(
                k,
            ),
            Err(m) => pieces > 16 && m@ == "no benchmark phase for "@ + decimal(pieces as nat)
                + " pieces"@,
        },
{
    let mut k: usize = 0;
    while k < 4
        invariant
            k <= 4,
            forall|j: int| 0 <= j < k ==> !#[trigger] in_phase(pieces as int, j),
        decreases 4 - k,
    {
        let (name, low, high) = phase_bounds(k);
        if low <= pieces && pieces <= high {
            assert(in_phase(pieces as int, k as int));
            return Ok(name);
        }
        k = k + 1;
    }
    proof {
        law_phases_partition(pieces as int);
    }
    let mut m = "no benchmark phase for ".to_owned();
    push_decimal(&mut m, pieces as u64);
    m.append(" pieces");
    Err(m)
}

/// The checksum of a dataset: the SHA-256 digest of its canonical text without
/// the member `checksum`, in hexadecimal.
pub open spec fn checksum_of(payload: JsonView) -> Seq<char> {
    hex_of(sha256(json_text(JsonView::Object(without(members_of(payload), "checksum"@)))))
}

/// The checksum of a dataset.
pub fn checksum(payload: &Json) -> (hex: String)
    ensures
        hex@ == checksum_of(payload.view()),
{
    json_digest(&Json::Object(strip_member(payload, "checksum")))
}

/// The dataset with its checksum in it, and the checksum.
pub fn sealed(payload: &Json) -> (r: (Json, String))
    ensures
        r.1@ == checksum_of(payload.view()),
        r.0.view() == JsonView::Object(
            with_member(
                members_of(payload.view()),
                "checksum"@,
                JsonView::Text(checksum_of(payload.view())),
            ),
        ),
{
    let digest = checksum(payload);
    let output = set_member(payload, "checksum", Json::Text(digest.clone()));
    (output, digest)
}

/// Whether a dataset bears its own checksum.
pub open spec fn bears_checksum(payload: JsonView) -> bool {
    text_at(payload, "checksum"@) == Some(checksum_of(payload))
}

/// Sealing a dataset gives one that bears its checksum, with the rest unchanged.
pub proof fn law_sealed_dataset_verifies(o: Seq<(Seq<char>, JsonView)>)
    ensures
        ({
            let payload = JsonView::Object(o);
            let output = JsonView::Object(
                with_member(o, "checksum"@, JsonView::Text(checksum_of(payload))),
            );
            &&& bears_checksum(output)
            &&& checksum_of(output) == checksum_of(payload)
            &&& forall|name: Seq<char>|
                name != "checksum"@ ==> #[trigger] output.get(name) == payload.get(name)
        }),
{
    let payload = JsonView::Object(o);
    lemma_without_with(o, "checksum"@, JsonView::Text(checksum_of(payload)));
}

/// The words about a dataset that does not bear its checksum.
pub open spec fn mismatch_words(payload: JsonView) -> Seq<char> {
    "dataset checksum mismatch: expected "@ + (match text_at(payload, "checksum"@) {
        Some(s) => "Some("@ + debug_form(s) + ")"@,
        None => "None"@,
    }) + ", actual "@ + checksum_of(payload)
}

/// Check that a dataset bears its checksum.
pub fn verify_checksum(payload: &Json) -> (r: Result<(), String>)
    ensures
        reports(r, complain(!bears_checksum(payload.view()), mismatch_words(payload.view()))),
{
    let actual = checksum(payload);
    let expected = text_in(payload, "checksum");
    if let Some(s) = expected {
        if same_text(s, actual.as_str()) {
            return Ok(());
        }
    }
    let mut m = "dataset checksum mismatch: expected ".to_owned();
    match expected {
        Some(s) => {
            m.append("Some(");
            m.append(debug_text(s).as_str());
            m.append(")");
        },
        None => m.append("None"),
    }
    m.append(", actual ");
    m.append(actual.as_str());
    assert(m@ =~= mismatch_words(payload.view()));
    Err(m)
}

/// Read a dataset and verify its checksum. One that was written with its checksum in
/// canonical form is read back, but for floating numbers.
pub fn load_text(text: &str) -> (r: Result<Json, String>)
    ensures
        match parsed_json(text@) {
            Err(e) => r matches Err(m) && m@ == "parse: "@ + e,
            Ok(v) => match r {
                Ok(j) => j.view() == v && bears_checksum(v),
                Err(m) => !bears_checksum(v) && m@ == mismatch_words(v),
            },
        },
        forall|v: JsonView|
            restorable(v, 127) && bears_checksum(v) && text@ == #[trigger] json_text(v) ==> (
            r matches Ok(j) && j.view() == v),
{
    match parse_json(text) {
        Ok(payload) => {
            verify_checksum(&payload)?;
            Ok(payload)
        },
        Err(e) => Err(concat("parse: ", e.as_str())),
    }
}

/// The empty board.
pub open spec fn no_pieces() -> Seq<u16> {
    Seq::new(8, |i: int| 0u16)
}

/// Whether some game leads from the empty board to `b` in `n` moves.
pub open spec fn reached_in(b: Seq<u16>, n: int) -> bool {
    exists|line: Seq<Move>| #[trigger]
        legal_line(no_pieces(), line) && line.len() == n && after_line(no_pieces(), line) == b
}

/// Whether `b` is a position that benchmarks use: reached in `n` moves, with
/// nobody having won and something left to play.
pub open spec fn playable_after(b: Seq<u16>, n: int) -> bool {
    &&& reached_in(b, n)
    &&& total_pieces(b) == n
    &&& to_move(b) is Some
    &&& !won(b)
    &&& legal_moves(b).len() > 0
}

pub proof fn lemma_empty_board()
    ensures
        !won(no_pieces()),
        total_pieces(no_pieces()) == 0,
        to_move(no_pieces()) == Some(0u8),
        reached_in(no_pieces(), 0),
{
    let b = no_pieces();
    crate::bitboard::lemma_popcount(0, 0);
    assert forall|k: int| 0 <= k < 12 implies !#[trigger] crate::game::line_complete(b, k) by {
        let l = crate::constants::line(k);
        assert((0u16 | 0u16) & l == 0) by (bit_vector);
        assert(crate::game::shape_union(b, 0) & l == 0);
    }
    assert(legal_line(b, Seq::<Move>::empty()));
    assert(after_line(b, Seq::<Move>::empty()) == b);
}

/// The board to which a generator plays `n` moves from `b`, and the generator after it; no
/// board where the game is over on the way or at the end.
pub open spec fn position_of(b: Seq<u16>, n: nat, rng: StdRng) -> (Option<Seq<u16>>, StdRng)
    decreases n,
{
    if finished(b) {
        (None, rng)
    } else if n == 0 {
        (Some(b), rng)
    } else {
        position_of(
            applied(b, drawn_move(b, rng)),
            (n - 1) as nat,
            after_draw(rng, legal_moves(b).len() as u64),
        )
    }
}

/// A board that is not full has an empty cell.
proof fn lemma_empty_cell(b: Seq<u16>) -> (p: int)
    requires
        empty_cells(b) > 0,
    ensures
        0 <= p < 16,
        !bit(taken(b), p),
{
    let x = taken(b);
    if forall|i: int| 0 <= i < 16 ==> bit(x, i) {
        reveal(popcount);
        assert(bit(x, 0) && bit(x, 1) && bit(x, 2) && bit(x, 3) && bit(x, 4) && bit(x, 5) && bit(x, 6)
            && bit(x, 7) && bit(x, 8) && bit(x, 9) && bit(x, 10) && bit(x, 11) && bit(x, 12) && bit(
            x,
            13,
        ) && bit(x, 14) && bit(x, 15));
        assert(x >> 0u16 == x) by (bit_vector);
    }
    choose|i: int| 0 <= i < 16 && !bit(x, i)
}

/// A game goes on while it has no more than three pieces on the board: a complete line
/// holds four, and the opponent of the side to move lacks some shape.
proof fn lemma_early_games_go_on(b: Seq<u16>)
    requires
        b.len() == 8,
        to_move(b) is Some,
        empty_cells(b) > 0,
        total_pieces(b) <= 3,
    ensures
        !finished(b),
{
    assert forall|i: int| 0 <= i < 8 implies popcount(#[trigger] b[i]) >= 0 && (popcount(b[i])
        == 0 ==> b[i] == 0) by {
        lemma_popcount(b[i], 0);
    }
    assert(0u16 | 0u16 == 0) by (bit_vector);
    assert forall|k: int| 0 <= k < 12 implies !#[trigger] line_complete(b, k) by {
        let l = line(k);
        assert(0u16 & l == 0) by (bit_vector);
        assert(exists|s: int| 0 <= s < 4 && #[trigger] shape_union(b, s) == 0) by {
            assert(shape_union(b, 0) == 0 || shape_union(b, 1) == 0 || shape_union(b, 2) == 0
                || shape_union(b, 3) == 0);
        }
    }
    let player = to_move(b)->0;
    let other = 1 - player;
    let shape: int = if plane(b, other, 0) == 0 {
        0
    } else if plane(b, other, 1) == 0 {
        1
    } else {
        2
    };
    let position = lemma_empty_cell(b);
    let m = Move { player, shape: shape as u8, position: position as u8 };
    assert(plane(b, other, shape) == 0);
    assert(popcount(plane(b, player as int, shape)) < 2);
    assert forall|k: int| 0 <= k < 12 implies 0u16 & #[trigger] line(k) == 0 by {
        let l = line(k);
        assert(0u16 & l == 0) by (bit_vector);
    }
    assert(legal_move(b, m));
    lemma_legal_moves(b);
    assert(legal_moves(b).contains(m));
}

/// What an optional board says.
pub open spec fn board_or_none(r: Option<Bitboard>) -> Option<Seq<u16>> {
    match r {
        Some(bb) => Some(bb@),
        None => None,
    }
}

/// Play `plies` random legal moves; nothing if the line hits a win or a dead end.
pub(crate) fn random_position(rng: &mut StdRng, plies: u32) -> (r: Option<Bitboard>)
    ensures
        (board_or_none(r), *final(rng)) == position_of(no_pieces(), plies as nat, *old(rng)),
        plies <= 3 ==> r is Some,
        plies >= 16 ==> r is None,
        r matches Some(bb) ==> playable_after(bb@, plies as int),
{
    let mut bb = Bitboard::empty();
    let ghost mut played: Seq<Move> = Seq::empty();
    proof {
        lemma_empty_board();
        assert(bb@ =~= no_pieces());
        lemma_popcount(0, 0);
        assert(0u16 | 0u16 == 0) by (bit_vector);
        assert(taken(no_pieces()) == 0);
    }
    let mut n: u32 = 0;
    while n < plies
        invariant
            n <= plies,
            !won(bb@),
            total_pieces(bb@) == n,
            empty_cells(bb@) == 16 - n,
            n <= 16,
            to_move(bb@) is Some,
            legal_line(no_pieces(), played),
            played.len() == n,
            after_line(no_pieces(), played) == bb@,
            position_of(bb@, (plies - n) as nat, *rng) == position_of(
                no_pieces(),
                plies as nat,
                *old(rng),
            ),
        decreases plies - n,
    {
        let ghost left = (plies - n) as nat;
        let moves = generate_legal_moves(&bb);
        if moves.len() == 0 {
            proof {
                if plies <= 3 {
                    lemma_early_games_go_on(bb@);
                }
            }
            return None;
        }
        let mv = moves[pick(rng, moves.len())];
        proof {
            lemma_legal_moves(bb@);
            assert(moves@.contains(mv));
            lemma_legal_move_step(bb@, mv);
            lemma_move_fills_cell(bb@, mv);
            lemma_line_push(no_pieces(), played, mv);
            played = played.push(mv);
        }
        bb = apply_move(&bb, &mv);
        proof {
            lemma_popcount(taken(bb@), 0);
        }
        if has_winning_line(&bb) {
            proof {
                if plies <= 3 {
                    lemma_early_games_go_on(bb@);
                }
                assert(position_of(bb@, (left - 1) as nat, *rng).0 is None);
            }
            return None;
        }
        n = n + 1;
        assert((plies - n) as nat == (left - 1) as nat);
    }
    if generate_legal_moves(&bb).len() == 0 {
        proof {
            if plies <= 3 {
                lemma_early_games_go_on(bb@);
            }
        }
        return None;
    }
    proof {
        if plies >= 16 {
            lemma_no_room(bb@);
        }
    }
    Some(bb)
}

/// A position of a dataset as JSON.
pub open spec fn position_view(id: int, b: Seq<u16>, phase: Seq<char>) -> JsonView {
    JsonView::Object(
        seq![
            ("id"@, JsonView::Text(seq!['p'] + padded(id as nat, 4))),
            ("legal_moves"@, JsonView::Unsigned(legal_moves(b).len() as u64)),
            ("phase"@, JsonView::Text(phase)),
            ("pieces"@, JsonView::Unsigned(total_pieces(b) as u64)),
            ("qfen"@, JsonView::Text(qfen_of(b))),
            ("reference"@, JsonView::Null),
            ("side_to_move"@, JsonView::Unsigned(to_move(b)->0 as u64)),
        ],
    )
}

/// A position of a dataset as JSON.
pub fn position_payload(position_id: usize, bb: &Bitboard, phase: &str) -> (j: Json)
    requires
        to_move(bb@) is Some,
    ensures
        j.view() == position_view(position_id as int, bb@, phase@),
{
    let mut id = String::new();
    id.push('p');
    push_padded(&mut id, position_id as u64, 4);
    assert(id@ =~= seq!['p'] + padded(position_id as nat, 4));
    let side: u8 = match current_player(bb) {
        Some(p) => p,
        None => 0,
    };
    let pieces: u64 = bb.player_piece_count(0) as u64 + bb.player_piece_count(1) as u64;
    let members: Vec<(String, Json)> = vec![
        field("id", Json::Text(id)),
        field("legal_moves", Json::Unsigned(generate_legal_moves(bb).len() as u64)),
        field("phase", Json::text(phase)),
        field("pieces", Json::Unsigned(pieces)),
        field("qfen", Json::Text(State::new(*bb).to_qfen())),
        field("reference", Json::Null),
        field("side_to_move", Json::Unsigned(side as u64)),
    ];
    assert(members_view(members@) =~= position_view(
        position_id as int,
        bb@,
        phase@,
    )->Object_0);
    Json::Object(members)
}

/// How many positions of the phase called `name` are wanted.
pub open spec fn wanted(requested: Seq<(String, u32)>, name: Seq<char>) -> u32
    decreases requested.len(),
{
    if requested.len() == 0 {
        0
    } else if requested[0].0@ == name {
        requested[0].1
    } else {
        wanted(requested.drop_first(), name)
    }
}

fn wanted_count(requested: &Vec<(String, u32)>, name: &str) -> (n: u32)
    ensures
        n == wanted(requested@, name@),
{
    let mut i: usize = 0;
    assert(requested@.skip(0) =~= requested@);
    while i < requested.len()
        invariant
            i <= requested@.len(),
            wanted(requested@, name@) == wanted(requested@.skip(i as int), name@),
        decreases requested@.len() - i,
    {
        assert(requested@.skip(i as int).drop_first() =~= requested@.skip(i + 1));
        if same_text(requested[i].0.as_str(), name) {
            return requested[i].1;
        }
        i = i + 1;
    }
    0
}

/// Whether a phase is called `name`.
pub open spec fn known_phase(name: Seq<char>) -> bool {
    name == "opening"@ || name == "early_mid"@ || name == "late_mid"@ || name == "endgame"@
}

/// The names among the first `n` that no phase has, as they are shown.
pub open spec fn unknown_shown(requested: Seq<(String, u32)>, n: int) -> Seq<Seq<char>>
    decreases n,
{
    if n <= 0 {
        Seq::empty()
    } else if known_phase(requested[n - 1].0@) {
        unknown_shown(requested, n - 1)
    } else {
        unknown_shown(requested, n - 1).push(debug_form(requested[n - 1].0@))
    }
}

/// Why no dataset can be generated.
pub open spec fn request_complaint(requested: Seq<(String, u32)>) -> Option<Seq<char>> {
    let shown = unknown_shown(requested, requested.len() as int);
    complain(shown.len() > 0, "unknown phase(s): ["@ + joined(shown, ", "@) + "]"@)
}

fn check_request(requested: &Vec<(String, u32)>) -> (r: Result<(), String>)
    ensures
        reports(r, request_complaint(requested@)),
{
    let mut unknown: Vec<String> = Vec::new();
    let mut i: usize = 0;
    assert(texts(unknown@) =~= Seq::empty());
    while i < requested.len()
        invariant
            i <= requested@.len(),
            texts(unknown@) == unknown_shown(requested@, i as int),
        decreases requested@.len() - i,
    {
        let name = requested[i].0.as_str();
        if !(same_text(name, "opening") || same_text(name, "early_mid") || same_text(
            name,
            "late_mid",
        ) || same_text(name, "endgame")) {
            let ghost before = texts(unknown@);
            let shown = debug_text(name);
            let ghost text = shown@;
            unknown.push(shown);
            assert(texts(unknown@) =~= before.push(text));
        }
        i = i + 1;
    }
    if unknown.len() > 0 {
        let list = join(&unknown, ", ");
        let mut m = concat("unknown phase(s): [", list.as_str());
        m.append("]");
        return Err(m);
    }
    Ok(())
}

/// How many of the first `n` samples belong to phase `k`.
pub open spec fn samples_in(list: Seq<(Seq<u16>, int)>, n: int, k: int) -> int
    decreases n,
{
    if n <= 0 {
        0
    } else {
        samples_in(list, n - 1, k) + if list[n - 1].1 == k {
            1int
        } else {
            0
        }
    }
}

/// Whether the samples are positions of their phases, no two of them symmetric.
pub open spec fn samples_ok(list: Seq<(Seq<u16>, int)>) -> bool {
    &&& forall|i: int| 0 <= i < list.len() ==> #[trigger] sample_ok(list[i])
    &&& forall|i: int, j: int|
        0 <= i < j < list.len() ==> canonical((#[trigger] list[i]).0) != canonical(
            (#[trigger] list[j]).0,
        )
}

/// Whether a sample is a position of its phase.
pub open spec fn sample_ok(s: (Seq<u16>, int)) -> bool {
    &&& 0 <= s.1 < 4
    &&& playable_after(s.0, total_pieces(s.0))
    &&& in_phase(total_pieces(s.0), s.1)
}

/// What samples say: their boards and phases.
pub open spec fn samples_view(list: Seq<(Bitboard, usize)>) -> Seq<(Seq<u16>, int)> {
    Seq::new(list.len(), |i: int| (list[i].0@, list[i].1 as int))
}

/// The numbers of the boards that were seen, which symmetric boards share, the samples, and
/// the generator of the draws to come.
pub struct Sampled {
    pub seen: Set<u128>,
    pub samples: Seq<(Seq<u16>, int)>,
    pub rng: StdRng,
}

/// The number of a board; symmetric boards have the same.
pub open spec fn sample_number(b: Seq<u16>) -> u128 {
    payload_number(canonical(b)) as u128
}

/// The largest number of moves that is drawn for phase `k`.
pub open spec fn phase_top(k: int) -> int {
    if phase_high(k) < 15 {
        phase_high(k)
    } else {
        15
    }
}

/// The sampling after one more draw for phase `k`: a number of moves, then the moves. It adds
/// a position unless it gave none or one whose symmetric form was seen.
pub open spec fn draw_for(x: Sampled, k: int) -> Sampled {
    let low = phase_low(k) as u32;
    let top = phase_top(k) as u32;
    let plies = drawn_between(x.rng, low, top);
    let (p, rng) = position_of(no_pieces(), plies as nat, after_draw_between(x.rng, low, top));
    if p is Some && !x.seen.contains(sample_number(p->0)) {
        Sampled {
            seen: x.seen.insert(sample_number(p->0)),
            samples: x.samples.push((p->0, k)),
            rng,
        }
    } else {
        Sampled { rng, ..x }
    }
}

/// The sampling after at most `attempts` draws for phase `k`, which end as soon as `want`
/// positions are added.
pub open spec fn phase_sampled(x: Sampled, k: int, want: nat, attempts: nat) -> Sampled
    decreases attempts,
{
    if want == 0 || attempts == 0 {
        x
    } else {
        let y = draw_for(x, k);
        phase_sampled(
            y,
            k,
            if y.samples.len() > x.samples.len() {
                (want - 1) as nat
            } else {
                want
            },
            (attempts - 1) as nat,
        )
    }
}

/// Add up to `want` new positions of phase `k`.
fn sample_phase(
    rng: &mut StdRng,
    seen: &mut HashSet<u128>,
    samples: &mut Vec<(Bitboard, usize)>,
    k: usize,
    want: u32,
)
    requires
        k < 4,
        want * 500 <= u32::MAX,
        samples_ok(samples_view(old(samples)@)),
        forall|i: int|
            0 <= i < old(samples)@.len() ==> (#[trigger] samples_view(old(samples)@)[i]).1 < k,
        forall|i: int|
            0 <= i < old(samples)@.len() ==> old(seen)@.contains(
                sample_number((#[trigger] samples_view(old(samples)@)[i]).0),
            ),
    ensures
        (Sampled {
            seen: final(seen)@,
            samples: samples_view(final(samples)@),
            rng: *final(rng),
        }) == phase_sampled(
            (Sampled {
                seen: old(seen)@,
                samples: samples_view(old(samples)@),
                rng: *old(rng),
            }),
            k as int,
            want as nat,
            (want * 500) as nat,
        ),
        samples_ok(samples_view(final(samples)@)),
        old(samples)@.len() <= final(samples)@.len() <= old(samples)@.len() + want,
        forall|i: int|
            0 <= i < old(samples)@.len() ==> #[trigger] samples_view(final(samples)@)[i]
                == samples_view(old(samples)@)[i],
        forall|i: int|
            old(samples)@.len() <= i < final(samples)@.len() ==> (
            #[trigger] samples_view(final(samples)@)[i]).1 == k,
        forall|i: int|
            0 <= i < final(samples)@.len() ==> final(seen)@.contains(
                sample_number((#[trigger] samples_view(final(samples)@)[i]).0),
            ),
{
    broadcast use vstd::std_specs::hash::group_hash_axioms;

    let ghost before = samples_view(samples@);
    let ghost start = Sampled { seen: seen@, samples: before, rng: *rng };
    let (_, low, high) = phase_bounds(k);
    let top: u32 = if high < 15 {
        high
    } else {
        15
    };
    let max_attempts: u32 = want * 500;
    let mut found: u32 = 0;
    let mut attempts: u32 = 0;
    while found < want && attempts < max_attempts
        invariant
            k < 4,
            low == phase_low(k as int),
            top == phase_top(k as int),
            low <= top <= phase_high(k as int),
            top <= 15,
            phase_sampled(
                (Sampled { seen: seen@, samples: samples_view(samples@), rng: *rng }),
                k as int,
                (want - found) as nat,
                (max_attempts - attempts) as nat,
            ) == phase_sampled(start, k as int, want as nat, max_attempts as nat),
            attempts <= max_attempts,
            found <= want,
            samples@.len() == before.len() + found,
            samples_ok(samples_view(samples@)),
            forall|i: int|
                0 <= i < before.len() ==> #[trigger] samples_view(samples@)[i] == before[i],
            forall|i: int|
                before.len() <= i < samples@.len() ==> (#[trigger] samples_view(samples@)[i]).1 == k,
            forall|i: int|
                0 <= i < samples@.len() ==> seen@.contains(
                    sample_number((#[trigger] samples_view(samples@)[i]).0),
                ),
        decreases max_attempts - attempts,
    {
        let ghost kept = samples_view(samples@);
        let ghost x = Sampled { seen: seen@, samples: kept, rng: *rng };
        let ghost more = (want - found) as nat;
        let ghost left = (max_attempts - attempts) as nat;
        attempts = attempts + 1;
        assert((max_attempts - attempts) as nat == (left - 1) as nat);
        let plies: u32 = pick_between(rng, low, top);
        let bb = match random_position(rng, plies) {
            Some(bb) => bb,
            None => {
                assert(draw_for(x, k as int) == (Sampled { rng: *rng, ..x }));
                continue
            },
        };
        let key: u128 = State::new(bb).canonical_number();
        assert(key == sample_number(bb@));
        if !seen.insert(key) {
            assert(seen@ =~= x.seen);
            assert(draw_for(x, k as int) == (Sampled { rng: *rng, ..x }));
            continue;
        }
        samples.push((bb, k));
        let ghost now = samples_view(samples@);
        proof {
            assert(now =~= kept.push((bb@, k as int)));
            let y = draw_for(x, k as int);
            assert(y == (Sampled { seen: seen@, samples: now, rng: *rng }));
            assert(sample_ok((bb@, k as int)));
            assert forall|i: int, j: int| 0 <= i < j < now.len() implies canonical(
                (#[trigger] now[i]).0,
            ) != canonical((#[trigger] now[j]).0) by {
                assert(kept[i] == now[i]);
                if j == kept.len() {
                    assert(x.seen.contains(sample_number(kept[i].0)));
                } else {
                    assert(kept[j] == now[j]);
                }
            }
            assert forall|i: int| 0 <= i < now.len() implies #[trigger] sample_ok(now[i]) by {
                if i < kept.len() {
                    assert(sample_ok(kept[i]));
                }
            }
        }
        found = found + 1;
        assert((want - found) as nat == (more - 1) as nat);
    }
}

/// The samples as the positions of a dataset.
pub open spec fn positions_view(list: Seq<(Seq<u16>, int)>) -> Seq<JsonView> {
    Seq::new(list.len(), |i: int| position_view(i, list[i].0, phase_name(list[i].1)))
}

/// The request as JSON.
pub open spec fn request_view(requested: Seq<(String, u32)>) -> Seq<(Seq<char>, JsonView)> {
    requested.map_values(|r: (String, u32)| (r.0@, JsonView::Unsigned(r.1 as u64)))
}

/// A dataset as JSON.
pub open spec fn dataset_view(
    requested: Seq<(String, u32)>,
    seed: u64,
    samples: Seq<(Seq<u16>, int)>,
) -> JsonView {
    JsonView::Object(
        seq![
            ("contract_version"@, JsonView::Text(CONTRACT_VERSION@)),
            ("generator"@, JsonView::Text(GENERATOR@)),
            ("positions"@, JsonView::Array(positions_view(samples))),
            ("requested"@, JsonView::Object(request_view(requested))),
            ("schema_version"@, JsonView::Unsigned(SCHEMA_VERSION)),
            ("seed"@, JsonView::Unsigned(seed)),
        ],
    )
}

/// The samples as a dataset.
pub fn dataset_payload(
    requested: &Vec<(String, u32)>,
    seed: u64,
    samples: &Vec<(Bitboard, usize)>,
) -> (j: Json)
    requires
        samples_ok(samples_view(samples@)),
    ensures
        j.view() == dataset_view(requested@, seed, samples_view(samples@)),
{
    let ghost view = samples_view(samples@);
    let mut positions: Vec<Json> = Vec::new();
    let mut i: usize = 0;
    while i < samples.len()
        invariant
            i <= samples@.len(),
            view == samples_view(samples@),
            samples_ok(view),
            positions@.len() == i,
            forall|k: int|
                0 <= k < i ==> (#[trigger] positions@[k]).view() == positions_view(view)[k],
        decreases samples@.len() - i,
    {
        assert(sample_ok(view[i as int]));
        let (name, _, _) = phase_bounds(samples[i].1);
        positions.push(position_payload(i, &samples[i].0, name));
        i = i + 1;
    }
    assert(items_view(positions@) =~= positions_view(view));
    let mut request: Vec<(String, Json)> = Vec::new();
    let mut k: usize = 0;
    while k < requested.len()
        invariant
            k <= requested@.len(),
            request@.len() == k,
            forall|j: int|
                0 <= j < k ==> (#[trigger] request@[j]).0@ == requested@[j].0@
                    && request@[j].1.view() == JsonView::Unsigned(requested@[j].1 as u64),
        decreases requested@.len() - k,
    {
        request.push((requested[k].0.clone(), Json::Unsigned(requested[k].1 as u64)));
        k = k + 1;
    }
    assert(members_view(request@) =~= request_view(requested@));
    let members: Vec<(String, Json)> = vec![
        field("contract_version", Json::text(CONTRACT_VERSION)),
        field("generator", Json::text(GENERATOR)),
        field("positions", Json::Array(positions)),
        field("requested", Json::Object(request)),
        field("schema_version", Json::Unsigned(SCHEMA_VERSION)),
        field("seed", Json::Unsigned(seed)),
    ];
    assert(members_view(members@) =~= dataset_view(requested@, seed, view)->Object_0);
    Json::Object(members)
}

/// Whether a dataset holds at most the requested number of positions of each
/// phase.
pub open spec fn meets_request(
    requested: Seq<(String, u32)>,
    samples: Seq<(Seq<u16>, int)>,
) -> bool {
    forall|k: int|
        0 <= k < 4 ==> #[trigger] samples_in(samples, samples.len() as int, k) <= wanted(
            requested,
            phase_name(k),
        )
}

/// The sampling of the first `k` phases, one after the other, with the generator `rng`.
pub open spec fn phases_sampled(requested: Seq<(String, u32)>, rng: StdRng, k: nat) -> Sampled
    decreases k,
{
    if k == 0 {
        Sampled { seen: Set::empty(), samples: Seq::empty(), rng }
    } else {
        let want = wanted(requested, phase_name(k - 1));
        phase_sampled(
            phases_sampled(requested, rng, (k - 1) as nat),
            k - 1,
            want as nat,
            (want * 500) as nat,
        )
    }
}

/// The samples of all phases that the generator `rng` draws for a request.
pub open spec fn samples_of(requested: Seq<(String, u32)>, rng: StdRng) -> Seq<(Seq<u16>, int)> {
    phases_sampled(requested, rng, 4).samples
}

/// Generate the dataset of a request and a seed: up to the requested number of positions of
/// each phase, drawn by the generator of the seed. The same seed gives the same dataset.
pub fn generate(requested: &Vec<(String, u32)>, seed: u64) -> (r: Result<Json, String>)
    requires
        forall|k: int| 0 <= k < 4 ==> #[trigger] wanted(requested@, phase_name(k)) * 500 <= u32::MAX,
    ensures
        match r {
            Ok(j) => {
                let samples = samples_of(requested@, seeded(seed));
                &&& request_complaint(requested@) is None
                &&& j.view() == dataset_view(requested@, seed, samples)
                &&& samples_ok(samples)
                &&& meets_request(requested@, samples)
            },
            Err(m) => request_complaint(requested@) == Some(m@),
        },
{
    check_request(requested)?;
    broadcast use vstd::std_specs::hash::group_hash_axioms;

    let mut rng = seeded_rng(seed);
    let mut seen: HashSet<u128> = HashSet::new();
    let mut samples: Vec<(Bitboard, usize)> = Vec::new();
    let mut k: usize = 0;
    proof {
        assert(seen@ =~= Set::<u128>::empty());
        assert(samples_view(samples@) =~= Seq::empty());
    }
    while k < 4
        invariant
            k <= 4,
            (Sampled { seen: seen@, samples: samples_view(samples@), rng }) == phases_sampled(
                requested@,
                seeded(seed),
                k as nat,
            ),
            forall|j: int|
                0 <= j < 4 ==> #[trigger] wanted(requested@, phase_name(j)) * 500 <= u32::MAX,
            samples_ok(samples_view(samples@)),
            forall|i: int|
                0 <= i < samples@.len() ==> (#[trigger] samples_view(samples@)[i]).1 < k,
            forall|i: int|
                0 <= i < samples@.len() ==> seen@.contains(
                    sample_number((#[trigger] samples_view(samples@)[i]).0),
                ),
            forall|j: int|
                0 <= j < k ==> #[trigger] samples_in(
                    samples_view(samples@),
                    samples@.len() as int,
                    j,
                ) <= wanted(requested@, phase_name(j)),
        decreases 4 - k,
    {
        let (name, _, _) = phase_bounds(k);
        let want: u32 = wanted_count(requested, name);
        assert(wanted(requested@, phase_name(k as int)) * 500 <= u32::MAX);
        let ghost before = samples_view(samples@);
        sample_phase(&mut rng, &mut seen, &mut samples, k, want);
        let ghost now = samples_view(samples@);
        proof {
            let n = (k + 1) as nat;
            assert((n - 1) as nat == k as nat);
            assert(want == wanted(requested@, phase_name(n - 1)));
            assert forall|j: int| 0 <= j < k + 1 implies #[trigger] samples_in(
                now,
                now.len() as int,
                j,
            ) <= wanted(requested@, phase_name(j)) by {
                lemma_samples_in(before, now, before.len() as int, j);
                lemma_samples_added(now, before.len() as int, now.len() as int, k as int, j);
                if j == k {
                    lemma_no_samples(before, before.len() as int, j);
                } else {
                    assert(samples_in(before, before.len() as int, j) <= wanted(
                        requested@,
                        phase_name(j),
                    ));
                }
            }
            assert forall|i: int| 0 <= i < now.len() implies (#[trigger] now[i]).1 < k + 1 by {
                if i < before.len() {
                    assert(now[i] == before[i]);
                }
            }
        }
        k = k + 1;
    }
    let payload = dataset_payload(requested, seed, &samples);
    assert(meets_request(requested@, samples_view(samples@)));
    Ok(payload)
}

proof fn lemma_samples_in(
    a: Seq<(Seq<u16>, int)>,
    b: Seq<(Seq<u16>, int)>,
    n: int,
    k: int,
)
    requires
        n <= a.len(),
        n <= b.len(),
        forall|i: int| 0 <= i < n ==> #[trigger] b[i] == a[i],
    ensures
        samples_in(a, n, k) == samples_in(b, n, k),
    decreases n,
{
    if n > 0 {
        lemma_samples_in(a, b, n - 1, k);
        assert(b[n - 1] == a[n - 1]);
    }
}

proof fn lemma_samples_added(list: Seq<(Seq<u16>, int)>, m: int, n: int, k: int, j: int)
    requires
        0 <= m <= n <= list.len(),
        forall|i: int| m <= i < n ==> (#[trigger] list[i]).1 == k,
    ensures
        samples_in(list, n, j) == samples_in(list, m, j) + if j == k {
            n - m
        } else {
            0
        },
    decreases n - m,
{
    if m < n {
        lemma_samples_added(list, m, n - 1, k, j);
        assert(list[n - 1].1 == k);
    }
}

proof fn lemma_no_samples(list: Seq<(Seq<u16>, int)>, n: int, k: int)
    requires
        0 <= n <= list.len(),
        forall|i: int| 0 <= i < n ==> (#[trigger] list[i]).1 < k,
    ensures
        samples_in(list, n, k) == 0,
    decreases n,
{
    if n > 0 {
        lemma_no_samples(list, n - 1, k);
        assert(list[n - 1].1 < k);
    }
}

} // verus!
