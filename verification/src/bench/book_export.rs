//! Solved references on their way to an opening book and back.
//!
//! A book is keyed by canonical keys, which symmetric boards share, while optimal
//! moves belong to one orientation of the board. So only boards that are their own
//! canonical representatives are written and looked up: then stored moves are always
//! in the orientation of the board that they are served for.
use crate::bench::fields::{at, concat3, concat4, text_at, text_in, texts};
use crate::bench::json::{field, items_view, members_view, Json, JsonView};
use crate::bench::reference::{
    parse_move_key, parsed_key, text_list, texts_json,
};
use crate::bitboard::Bitboard;
use crate::game::{current_player, to_move};
use crate::qfen::{qfen_board, qfen_complaint};
use crate::state::State;
use crate::symmetry::canonical;
use crate::text::{debug_form, debug_text, decimal, push_decimal};
use vstd::prelude::*;
use vstd::string::*;

verus! {

/// A solved position for the book: its board, its value and its optimal moves as
/// shapes and cells.
#[derive(Debug)]
pub struct SolvedRow {
    pub bb: Bitboard,
    pub value: i32,
    pub moves: Vec<(i32, i32)>,
}

/// What a solved position says.
pub open spec fn solved_view(r: SolvedRow) -> (Seq<u16>, i32, Seq<(i32, i32)>) {
    (r.bb@, r.value, r.moves@)
}

/// What becomes of a position: it is left out, it is written, or something is wrong
/// with it.
pub enum Export {
    Skipped,
    Written(Seq<u16>, i32, Seq<(i32, i32)>),
    Failed(Seq<char>),
}

/// The complaint about the optimal moves from the one at `i` on.
pub open spec fn moves_complaint(qfen: Seq<char>, items: Seq<JsonView>, i: int) -> Option<Seq<char>>
    decreases items.len() - i,
{
    if i < 0 || i >= items.len() {
        None
    } else {
        match items[i] {
            JsonView::Text(key) => match parsed_key(key) {
                Err(e) => Some(e),
                Ok(_) => moves_complaint(qfen, items, i + 1),
            },
            _ => Some("optimal_moves entry for "@ + qfen + " is not a string"@),
        }
    }
}

/// The shapes and cells of the optimal moves.
pub open spec fn move_pairs(items: Seq<JsonView>) -> Seq<(i32, i32)> {
    items.map_values(
        |v: JsonView|
            (parsed_key(v->Text_0)->Ok_0.1 as i32, parsed_key(v->Text_0)->Ok_0.2 as i32),
    )
}

/// The number of a whole number; nothing for another value.
pub open spec fn whole_number(v: JsonView) -> Option<int> {
    match v {
        JsonView::Unsigned(n) => if n <= i64::MAX {
            Some(n as int)
        } else {
            None
        },
        JsonView::Negative(n) => Some(n as int),
        _ => None,
    }
}

/// The low 32 bits of a whole number, with a sign.
pub open spec fn low_word(n: int) -> i32 {
    let m = n % 0x1_0000_0000;
    (if m >= 0x8000_0000 {
        m - 0x1_0000_0000
    } else {
        m
    }) as i32
}

/// What becomes of a position of a dataset.
pub open spec fn export_of(position: JsonView) -> Export {
    let reference = at(position, "reference"@);
    if reference is Null {
        Export::Skipped
    } else {
        match text_at(position, "qfen"@) {
            None => Export::Failed("dataset position missing qfen"@),
            Some(qfen) => match qfen_complaint(qfen) {
                Some(e) => Export::Failed("parse qfen "@ + debug_form(qfen) + ": "@ + e),
                None => {
                    let b = qfen_board(qfen);
                    if canonical(b) != b {
                        Export::Skipped
                    } else {
                        match whole_number(at(reference, "value"@)) {
                            None => Export::Failed(
                                "reference for "@ + qfen + " missing integer value"@,
                            ),
                            Some(n) => match at(reference, "optimal_moves"@) {
                                JsonView::Array(items) => match moves_complaint(qfen, items, 0) {
                                    Some(e) => Export::Failed(e),
                                    None => Export::Written(b, low_word(n), move_pairs(items)),
                                },
                                _ => Export::Failed(
                                    "reference for "@ + qfen + " missing optimal_moves"@,
                                ),
                            },
                        }
                    }
                },
            },
        }
    }
}

fn read_whole(v: Option<&Json>) -> (r: Option<i64>)
    ensures
        ({
            let shown = match v {
                Some(v) => v.view(),
                None => JsonView::Null,
            };
            match r {
                Some(n) => whole_number(shown) == Some(n as int),
                None => whole_number(shown) is None,
            }
        }),
{
    match v {
        Some(v) => match v {
            Json::Unsigned(n) => if *n <= 0x7FFF_FFFF_FFFF_FFFF {
                Some(*n as i64)
            } else {
                None
            },
            Json::Negative(n) => Some(*n),
            _ => None,
        },
        None => None,
    }
}

fn to_low_word(n: i64) -> (r: i32)
    ensures
        r == low_word(n as int),
{
    let wide: i128 = n as i128;
    let m: i128 = if wide >= 0 {
        wide % 0x1_0000_0000
    } else {
        let back: i128 = (-wide) % 0x1_0000_0000;
        if back == 0 {
            0
        } else {
            0x1_0000_0000 - back
        }
    };
    proof {
        if n < 0 {
            let k = (-n) / 0x1_0000_0000;
            let back = (-n) % 0x1_0000_0000;
            assert(-n == k * 0x1_0000_0000 + back);
            if back == 0 {
                assert(n == (-k) * 0x1_0000_0000);
            } else {
                assert(n == (-k - 1) * 0x1_0000_0000 + (0x1_0000_0000 - back));
            }
        }
        assert(m == (n as int) % 0x1_0000_0000);
    }
    if m >= 0x8000_0000 {
        (m - 0x1_0000_0000) as i32
    } else {
        m as i32
    }
}

fn read_moves(qfen: &str, items: &Vec<Json>) -> (r: Result<Vec<(i32, i32)>, String>)
    ensures
        match r {
            Ok(moves) => moves_complaint(qfen@, items_view(items@), 0) is None && moves@
                == move_pairs(items_view(items@)),
            Err(m) => moves_complaint(qfen@, items_view(items@), 0) == Some(m@),
        },
{
    let ghost views = items_view(items@);
    let mut moves: Vec<(i32, i32)> = Vec::new();
    let mut i: usize = 0;
    while i < items.len()
        invariant
            i <= items@.len(),
            views == items_view(items@),
            moves@.len() == i,
            moves_complaint(qfen@, views, 0) == moves_complaint(qfen@, views, i as int),
            forall|k: int| 0 <= k < i ==> #[trigger] moves@[k] == move_pairs(views)[k],
        decreases items@.len() - i,
    {
        assert(views[i as int] == items@[i as int].view());
        match &items[i] {
            Json::Text(key) => {
                let (_, shape, position) = parse_move_key(key.as_str())?;
                moves.push((shape as i32, position as i32));
            },
            _ => return Err(concat3("optimal_moves entry for ", qfen, " is not a string")),
        }
        i = i + 1;
    }
    assert(moves@ =~= move_pairs(views));
    Ok(moves)
}

/// What becomes of a position: nothing, a solved position for the book, or an error.
pub fn export_position(position: &Json) -> (r: Result<Option<SolvedRow>, String>)
    ensures
        match (r, export_of(position.view())) {
            (Ok(None), Export::Skipped) => true,
            (Ok(Some(row)), Export::Written(b, value, moves)) => solved_view(row) == (
                b,
                value,
                moves,
            ),
            (Err(m), Export::Failed(e)) => m@ == e,
            _ => false,
        },
{
    let reference = crate::bench::fields::copy_of(position, "reference");
    if reference.is_null() {
        return Ok(None);
    }
    let qfen = match text_in(position, "qfen") {
        Some(q) => q,
        None => return Err("dataset position missing qfen".to_owned()),
    };
    let state = match State::from_qfen(qfen) {
        Ok(state) => state,
        Err(e) => {
            let shown = debug_text(qfen);
            return Err(concat4("parse qfen ", shown.as_str(), ": ", e.as_str()));
        },
    };
    if !state.is_canonical() {
        return Ok(None);
    }
    let value: i64 = match read_whole(reference.get("value")) {
        Some(n) => n,
        None => return Err(concat3("reference for ", qfen, " missing integer value")),
    };
    let items = match reference.get("optimal_moves") {
        Some(v) => match v {
            Json::Array(items) => items,
            _ => return Err(concat3("reference for ", qfen, " missing optimal_moves")),
        },
        None => return Err(concat3("reference for ", qfen, " missing optimal_moves")),
    };
    let moves = read_moves(qfen, items)?;
    Ok(Some(SolvedRow { bb: state.bb, value: to_low_word(value), moves }))
}

/// Only boards that are their own canonical representatives are written.
pub proof fn law_written_boards_are_canonical(position: JsonView)
    ensures
        export_of(position) matches Export::Written(b, _, _) ==> canonical(b) == b,
{
}

/// What a book holds for a position.
#[derive(Debug)]
pub struct BookEntry {
    pub solved: bool,
    pub game_value: Option<i32>,
    pub best_moves: Vec<(i32, i32)>,
}

/// A whole number in decimal.
pub open spec fn signed_text(n: int) -> Seq<char> {
    if n < 0 {
        seq!['-'] + decimal((-n) as nat)
    } else {
        decimal(n as nat)
    }
}

fn push_signed(out: &mut String, n: i32)
    ensures
        final(out)@ == old(out)@ + signed_text(n as int),
{
    let ghost start = out@;
    if n < 0 {
        out.push('-');
        push_decimal(out, (-(n as i64)) as u64);
    } else {
        push_decimal(out, n as u64);
    }
    assert(out@ =~= start + signed_text(n as int));
}

/// The key of a stored move for a player.
pub open spec fn stored_key(player: u8, m: (i32, i32)) -> Seq<char> {
    decimal(player as nat) + ":"@ + signed_text(m.0 as int) + ":"@ + signed_text(m.1 as int)
}

/// A reference from the book as JSON.
pub open spec fn stored_reference(player: u8, value: i32, moves: Seq<(i32, i32)>) -> JsonView {
    let keys = moves.map_values(|m: (i32, i32)| stored_key(player, m));
    JsonView::Object(
        seq![
            ("no_cutoff"@, JsonView::Bool(true)),
            ("nodes"@, JsonView::Unsigned(0)),
            ("optimal_moves"@, texts_json(keys)),
            ("pv"@, texts_json(seq![keys[0]])),
            ("solve_time_s"@, JsonView::Float("0e0"@)),
            ("solved"@, JsonView::Bool(true)),
            ("solver"@, JsonView::Text("opening-book"@)),
            (
                "value"@,
                if value >= 0 {
                    JsonView::Unsigned(value as u64)
                } else {
                    JsonView::Negative(value as i64)
                },
            ),
        ],
    )
}

/// Whether an entry can be served for a board.
pub open spec fn servable(b: Seq<u16>, entry: Option<BookEntry>) -> bool {
    &&& canonical(b) == b
    &&& entry matches Some(e) && e.solved && e.game_value is Some && e.best_moves@.len() > 0
    &&& to_move(b) is Some
}

/// The reference of a board from what the book holds for its canonical key. There is
/// one only if the board is its own canonical representative.
pub fn lookup_reference(bb: &Bitboard, entry: &Option<BookEntry>) -> (r: Option<Json>)
    ensures
        r is Some <==> servable(bb@, *entry),
        r matches Some(j) ==> j.view() == stored_reference(
            to_move(bb@)->0,
            entry->0.game_value->0,
            entry->0.best_moves@,
        ),
{
    if !State::new(*bb).is_canonical() {
        return None;
    }
    let e = match entry {
        Some(e) => e,
        None => return None,
    };
    if !e.solved {
        return None;
    }
    let value: i32 = match e.game_value {
        Some(v) => v,
        None => return None,
    };
    let player: u8 = match current_player(bb) {
        Some(p) => p,
        None => return None,
    };
    if e.best_moves.len() == 0 {
        return None;
    }
    let ghost keys = e.best_moves@.map_values(|m: (i32, i32)| stored_key(player, m));
    let mut list: Vec<String> = Vec::new();
    let mut i: usize = 0;
    while i < e.best_moves.len()
        invariant
            i <= e.best_moves@.len(),
            keys == e.best_moves@.map_values(|m: (i32, i32)| stored_key(player, m)),
            list@.len() == i,
            forall|k: int| 0 <= k < i ==> (#[trigger] list@[k])@ == keys[k],
        decreases e.best_moves@.len() - i,
    {
        let (shape, position) = e.best_moves[i];
        let mut key = String::new();
        push_decimal(&mut key, player as u64);
        key.append(":");
        push_signed(&mut key, shape);
        key.append(":");
        push_signed(&mut key, position);
        assert(key@ =~= stored_key(player, e.best_moves@[i as int]));
        list.push(key);
        i = i + 1;
    }
    assert(texts(list@) =~= keys);
    let mut first: Vec<String> = Vec::new();
    first.push(list[0].clone());
    assert(texts(first@) =~= seq![keys[0]]);
    let shown = if value >= 0 {
        Json::Unsigned(value as u64)
    } else {
        Json::Negative(value as i64)
    };
    let members: Vec<(String, Json)> = vec![
        field("no_cutoff", Json::Bool(true)),
        field("nodes", Json::Unsigned(0)),
        field("optimal_moves", text_list(&list)),
        field("pv", text_list(&first)),
        field("solve_time_s", Json::Float("0e0".to_owned())),
        field("solved", Json::Bool(true)),
        field("solver", Json::text("opening-book")),
        field("value", shown),
    ];
    assert(members_view(members@) =~= stored_reference(
        player,
        value,
        e.best_moves@,
    )->Object_0);
    Some(Json::Object(members))
}

} // verus!
