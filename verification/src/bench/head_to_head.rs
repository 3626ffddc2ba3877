//! Paired, side-balanced games between two engines from shared positions.
use crate::bench::adapters::{
    choice_made, choose_move, law_choice_is_settled, settled_by_seed, EngineAdapter, RawMetrics,
};
use crate::bench::fields::{at, copy_of, text_in_or, text_or};
use crate::bench::json::{
    field, items_view, members_view, row_result, rows_result, Json, JsonView,
};
use crate::bench::listener::{calls_between, replies, Listener};
use crate::bench::plan::check_workers;
use crate::bitboard::{lemma_popcount, taken, Bitboard};
use crate::game::{current_player, has_winning_line, to_move};
use crate::game_value::{
    after_line, empty_cells, finished, legal_line, lemma_line_push, lemma_move_fills_cell,
};
use crate::moves::{
    applied, apply_move, generate_legal_moves, lemma_legal_move_step, Move,
};
use crate::qfen::{qfen_board, qfen_complaint};
use crate::state::State;
use crate::text::same_text;
pub use crate::bench::aggregate::aggregate_head_to_head;
use vstd::prelude::*;
use vstd::string::*;

verus! {

/// Whether `winner` won the game after `plies` moves from `b`: some line of so many
/// moves ends the game, and the side to move at its end has lost. The mover has
/// the side to move in `b`.
pub open spec fn won_by(
    b: Seq<u16>,
    mover: Seq<char>,
    responder: Seq<char>,
    winner: Seq<char>,
    plies: int,
) -> bool {
    exists|line: Seq<Move>|
        #![trigger legal_line(b, line)]
        {
            &&& legal_line(b, line)
            &&& line.len() == plies
            &&& finished(after_line(b, line))
            &&& winner == if plies % 2 == 0 {
                responder
            } else {
                mover
            }
        }
}

/// Whether `c` may be the choice of the engine whose turn it is.
pub open spec fn choice_in_turn<A: EngineAdapter, B: EngineAdapter>(
    mover: A,
    responder: B,
    movers_turn: bool,
    b: Seq<u16>,
    seed: u64,
    c: Result<(Move, RawMetrics), String>,
) -> bool {
    if movers_turn {
        choice_made(mover, b, Some(seed), c)
    } else {
        choice_made(responder, b, Some(seed), c)
    }
}

/// Whether a game that has come to the board `b` after `plies` moves, with at most `room`
/// moves to come, may end with `r`: each move is a choice of the engine whose turn it is,
/// the first choice that fails ends the game with its error, and who has to move on a
/// finished board has lost.
pub open spec fn game_ends<A: EngineAdapter, B: EngineAdapter>(
    mover: A,
    responder: B,
    movers_turn: bool,
    b: Seq<u16>,
    seed: u64,
    room: nat,
    plies: nat,
    r: Result<(Seq<char>, nat), Seq<char>>,
) -> bool
    decreases room,
{
    if finished(b) {
        r == Ok::<(Seq<char>, nat), Seq<char>>(
            (
                if movers_turn {
                    responder.named()
                } else {
                    mover.named()
                },
                plies,
            ),
        )
    } else if room == 0 {
        false
    } else {
        exists|c: Result<(Move, RawMetrics), String>| #[trigger]
            choice_in_turn(mover, responder, movers_turn, b, seed, c) && match c {
                Err(e) => r == Err::<(Seq<char>, nat), Seq<char>>(e@),
                Ok((mv, _)) => game_ends(
                    mover,
                    responder,
                    !movers_turn,
                    applied(b, mv),
                    seed,
                    (room - 1) as nat,
                    plies + 1,
                    r,
                ),
            }
    }
}

/// Whether `r` may be the result of a game from the board `b`, the name of the winner and
/// the number of moves.
pub open spec fn game_played<A: EngineAdapter, B: EngineAdapter>(
    mover: A,
    responder: B,
    b: Seq<u16>,
    seed: u64,
    r: Result<(Seq<char>, nat), Seq<char>>,
) -> bool {
    if to_move(b) is None {
        r == Err::<(Seq<char>, nat), Seq<char>>("inconsistent position"@)
    } else {
        game_ends(mover, responder, true, b, seed, 16, 0, r)
    }
}

/// What the result of a game says.
pub open spec fn game_view(r: Result<(String, u32), String>) -> Result<
    (Seq<char>, nat),
    Seq<char>,
> {
    match r {
        Ok((winner, plies)) => Ok((winner@, plies as nat)),
        Err(m) => Err(m@),
    }
}

/// Play from `bb`; `mover` has the side to move. Returns the name of the winner
/// and the number of moves.
pub fn play_game<A: EngineAdapter, B: EngineAdapter>(
    mover: &A,
    responder: &B,
    bb: &Bitboard,
    seed: u64,
) -> (r: Result<(String, u32), String>)
    requires
        mover.ready(),
        responder.ready(),
    ensures
        game_played(*mover, *responder, bb@, seed, game_view(r)),
        to_move(bb@) is Some && finished(bb@) ==> (r matches Ok((winner, plies)) && winner@
            == responder.named() && plies == 0),
        r matches Ok((winner, plies)) ==> won_by(
            bb@,
            mover.named(),
            responder.named(),
            winner@,
            plies as int,
        ) && plies <= empty_cells(bb@),
{
    let start: u8 = match current_player(bb) {
        Some(p) => p,
        None => return Err("inconsistent position".to_owned()),
    };
    let ghost b = bb@;
    let ghost mut played: Seq<Move> = Seq::empty();
    let mut now = *bb;
    let mut turn: u8 = start;
    let mut plies: u32 = 0;
    let ghost mut mine: bool = true;
    proof {
        lemma_popcount(taken(b), 0);
        assert(legal_line(b, played));
        assert(after_line(b, played) == b);
    }
    loop
        invariant
            mover.ready(),
            responder.ready(),
            start < 2,
            turn < 2,
            b == bb@,
            to_move(b) == Some(start),
            to_move(now@) == Some(turn),
            legal_line(b, played),
            after_line(b, played) == now@,
            played.len() == plies,
            plies == empty_cells(b) - empty_cells(now@),
            empty_cells(b) <= 16,
            empty_cells(now@) >= 0,
            mine <==> plies % 2 == 0,
            mine <==> turn == start,
            plies == 0 ==> now@ == b,
            plies > 0 ==> !finished(b),
            forall|r: Result<(Seq<char>, nat), Seq<char>>| #[trigger]
                game_ends(
                    *mover,
                    *responder,
                    mine,
                    now@,
                    seed,
                    (16 - plies) as nat,
                    plies as nat,
                    r,
                ) ==> game_ends(*mover, *responder, true, b, seed, 16, 0, r),
        decreases empty_cells(now@),
    {
        let ghost room = (16 - plies) as nat;
        if has_winning_line(&now) || generate_legal_moves(&now).len() == 0 {
            let winner: &str = if turn == start {
                responder.name()
            } else {
                mover.name()
            };
            assert(game_ends(
                *mover,
                *responder,
                mine,
                now@,
                seed,
                room,
                plies as nat,
                Ok((winner@, plies as nat)),
            ));
            return Ok((winner.to_owned(), plies));
        }
        let chosen = if turn == start {
            choose_move(mover, &now, Some(seed))
        } else {
            choose_move(responder, &now, Some(seed))
        };
        assert(choice_in_turn(*mover, *responder, mine, now@, seed, chosen));
        proof {
            if room == 0 {
                crate::game_value::lemma_no_room(now@);
            }
        }
        let mv: Move = match chosen {
            Ok((mv, _)) => mv,
            Err(m) => {
                assert(game_ends(
                    *mover,
                    *responder,
                    mine,
                    now@,
                    seed,
                    room,
                    plies as nat,
                    Err(m@),
                ));
                return Err(m);
            },
        };
        proof {
            let other = !mine;
            assert forall|r: Result<(Seq<char>, nat), Seq<char>>| #[trigger]
                game_ends(
                    *mover,
                    *responder,
                    other,
                    applied(now@, mv),
                    seed,
                    (room - 1) as nat,
                    (plies + 1) as nat,
                    r,
                ) implies game_ends(*mover, *responder, true, b, seed, 16, 0, r) by {
                assert(game_ends(
                    *mover,
                    *responder,
                    mine,
                    now@,
                    seed,
                    room,
                    plies as nat,
                    r,
                ));
            }
            lemma_move_fills_cell(now@, mv);
            lemma_legal_move_step(now@, mv);
            lemma_line_push(b, played, mv);
            played = played.push(mv);
        }
        now = apply_move(&now, &mv);
        proof {
            lemma_popcount(taken(now@), 0);
        }
        turn = 1 - turn;
        proof {
            mine = !mine;
        }
        plies = plies + 1;
        assert((16 - plies) as nat == (room - 1) as nat);
    }
}

/// What identifies a game: its position, mover, responder and seed.
#[derive(Debug)]
pub struct H2hKey {
    pub position_id: String,
    pub mover: String,
    pub responder: String,
    pub seed: u64,
}

/// What a key says.
pub open spec fn key_view(k: H2hKey) -> (Seq<char>, Seq<char>, Seq<char>, u64) {
    (k.position_id@, k.mover@, k.responder@, k.seed)
}

/// What identifies the game of a record.
pub open spec fn record_key(record: JsonView) -> (Seq<char>, Seq<char>, Seq<char>, u64) {
    (
        text_or(record, "position_id"@, ""@),
        text_or(record, "mover"@, ""@),
        text_or(record, "responder"@, ""@),
        match at(record, "seed"@) {
            JsonView::Unsigned(n) => n,
            _ => 0,
        },
    )
}

pub fn h2h_key(record: &Json) -> (k: H2hKey)
    ensures
        key_view(k) == record_key(record.view()),
{
    let seed: u64 = match record.get("seed") {
        Some(v) => match v {
            Json::Unsigned(n) => *n,
            _ => 0,
        },
        None => 0,
    };
    H2hKey {
        position_id: text_in_or(record, "position_id", "").to_owned(),
        mover: text_in_or(record, "mover", "").to_owned(),
        responder: text_in_or(record, "responder", "").to_owned(),
        seed,
    }
}

/// A game to play: the place of its position, its seed, and whether the first
/// engine is the mover.
#[derive(Clone, Copy, Debug, PartialEq, Eq, Structural)]
pub struct H2hTask {
    pub position: usize,
    pub seed: u64,
    pub a_moves: bool,
}

/// Whether a game is to be left out.
pub open spec fn skipped(
    skip: Seq<H2hKey>,
    key: (Seq<char>, Seq<char>, Seq<char>, u64),
) -> bool {
    exists|i: int| 0 <= i < skip.len() && key_view(#[trigger] skip[i]) == key
}

/// What identifies the game of a task.
pub open spec fn task_key(
    ids: Seq<Seq<char>>,
    a: Seq<char>,
    b: Seq<char>,
    t: H2hTask,
) -> (Seq<char>, Seq<char>, Seq<char>, u64) {
    if t.a_moves {
        (ids[t.position as int], a, b, t.seed)
    } else {
        (ids[t.position as int], b, a, t.seed)
    }
}

/// The games of a position and a seed that are not left out.
pub open spec fn pair_tasks(
    ids: Seq<Seq<char>>,
    a: Seq<char>,
    b: Seq<char>,
    skip: Seq<H2hKey>,
    position: int,
    seed: u64,
) -> Seq<H2hTask> {
    let first = H2hTask { position: position as usize, seed, a_moves: true };
    let second = H2hTask { position: position as usize, seed, a_moves: false };
    (if skipped(skip, task_key(ids, a, b, first)) {
        Seq::empty()
    } else {
        seq![first]
    }) + (if skipped(skip, task_key(ids, a, b, second)) {
        Seq::empty()
    } else {
        seq![second]
    })
}

/// The games of a position and the first `m` seeds.
pub open spec fn seed_tasks(
    ids: Seq<Seq<char>>,
    a: Seq<char>,
    b: Seq<char>,
    skip: Seq<H2hKey>,
    seeds: Seq<u64>,
    position: int,
    m: int,
) -> Seq<H2hTask>
    decreases m,
{
    if m <= 0 {
        Seq::empty()
    } else {
        seed_tasks(ids, a, b, skip, seeds, position, m - 1) + pair_tasks(
            ids,
            a,
            b,
            skip,
            position,
            seeds[m - 1],
        )
    }
}

/// The games of the first `n` positions: by position, then by seed, then with
/// either engine as the mover.
pub open spec fn position_tasks(
    ids: Seq<Seq<char>>,
    a: Seq<char>,
    b: Seq<char>,
    skip: Seq<H2hKey>,
    seeds: Seq<u64>,
    n: int,
) -> Seq<H2hTask>
    decreases n,
{
    if n <= 0 {
        Seq::empty()
    } else {
        position_tasks(ids, a, b, skip, seeds, n - 1) + seed_tasks(
            ids,
            a,
            b,
            skip,
            seeds,
            n - 1,
            seeds.len() as int,
        )
    }
}

fn is_skipped(skip: &Vec<H2hKey>, id: &str, mover: &str, responder: &str, seed: u64) -> (r: bool)
    ensures
        r <==> skipped(skip@, (id@, mover@, responder@, seed)),
{
    let mut i: usize = 0;
    while i < skip.len()
        invariant
            i <= skip@.len(),
            forall|k: int|
                0 <= k < i ==> key_view(#[trigger] skip@[k]) != (id@, mover@, responder@, seed),
        decreases skip@.len() - i,
    {
        let key = &skip[i];
        if same_text(key.position_id.as_str(), id) && same_text(key.mover.as_str(), mover)
            && same_text(key.responder.as_str(), responder) && key.seed == seed {
            assert(key_view(skip@[i as int]) == (id@, mover@, responder@, seed));
            return true;
        }
        i = i + 1;
    }
    false
}

/// What the ids of positions say.
pub open spec fn ids_view(positions: Seq<JsonView>) -> Seq<Seq<char>> {
    positions.map_values(|p: JsonView| text_or(p, "id"@, ""@))
}

/// The games that two engines are to play.
pub fn build_h2h_tasks(
    name_a: &str,
    name_b: &str,
    positions: &Vec<Json>,
    seeds: &Vec<u64>,
    skip: &Vec<H2hKey>,
) -> (tasks: Vec<H2hTask>)
    ensures
        tasks@ == position_tasks(
            ids_view(items_view(positions@)),
            name_a@,
            name_b@,
            skip@,
            seeds@,
            positions@.len() as int,
        ),
        forall|i: int| 0 <= i < tasks@.len() ==> (#[trigger] tasks@[i]).position < positions@.len(),
{
    let ghost views = items_view(positions@);
    let ghost ids = ids_view(views);
    let mut tasks: Vec<H2hTask> = Vec::new();
    let mut p: usize = 0;
    while p < positions.len()
        invariant
            p <= positions@.len(),
            views == items_view(positions@),
            ids == ids_view(views),
            tasks@ == position_tasks(ids, name_a@, name_b@, skip@, seeds@, p as int),
            forall|i: int|
                0 <= i < tasks@.len() ==> (#[trigger] tasks@[i]).position < positions@.len(),
        decreases positions@.len() - p,
    {
        let id = text_in_or(&positions[p], "id", "");
        assert(views[p as int] == positions@[p as int].view());
        assert(ids[p as int] == id@);
        let ghost before = tasks@;
        let mut s: usize = 0;
        assert(before + Seq::<H2hTask>::empty() =~= before);
        while s < seeds.len()
            invariant
                p < positions@.len(),
                s <= seeds@.len(),
                ids[p as int] == id@,
                tasks@ == before + seed_tasks(
                    ids,
                    name_a@,
                    name_b@,
                    skip@,
                    seeds@,
                    p as int,
                    s as int,
                ),
                forall|i: int|
                    0 <= i < tasks@.len() ==> (#[trigger] tasks@[i]).position < positions@.len(),
            decreases seeds@.len() - s,
        {
            let seed: u64 = seeds[s];
            let ghost start = tasks@;
            if !is_skipped(skip, id, name_a, name_b, seed) {
                tasks.push(H2hTask { position: p, seed, a_moves: true });
            }
            if !is_skipped(skip, id, name_b, name_a, seed) {
                tasks.push(H2hTask { position: p, seed, a_moves: false });
            }
            assert(tasks@ =~= start + pair_tasks(
                ids,
                name_a@,
                name_b@,
                skip@,
                p as int,
                seed,
            ));
            assert(tasks@ =~= before + seed_tasks(
                ids,
                name_a@,
                name_b@,
                skip@,
                seeds@,
                p as int,
                s + 1,
            ));
            s = s + 1;
        }
        p = p + 1;
    }
    tasks
}

/// The record of a game as JSON.
pub open spec fn record_view(
    position: JsonView,
    mover: Seq<char>,
    responder: Seq<char>,
    seed: u64,
    winner: Seq<char>,
    plies: u32,
) -> JsonView {
    JsonView::Object(
        seq![
            ("mover"@, JsonView::Text(mover)),
            ("phase"@, at(position, "phase"@)),
            ("plies"@, JsonView::Unsigned(plies as u64)),
            ("position_id"@, JsonView::Text(text_or(position, "id"@, ""@))),
            ("responder"@, JsonView::Text(responder)),
            ("seed"@, JsonView::Unsigned(seed)),
            ("winner"@, JsonView::Text(winner)),
        ],
    )
}

/// The record of a game as JSON.
pub fn game_record(
    position: &Json,
    mover: &str,
    responder: &str,
    seed: u64,
    winner: &str,
    plies: u32,
) -> (j: Json)
    ensures
        j.view() == record_view(position.view(), mover@, responder@, seed, winner@, plies),
{
    let members: Vec<(String, Json)> = vec![
        field("mover", Json::text(mover)),
        field("phase", copy_of(position, "phase")),
        field("plies", Json::Unsigned(plies as u64)),
        field("position_id", Json::text(text_in_or(position, "id", ""))),
        field("responder", Json::text(responder)),
        field("seed", Json::Unsigned(seed)),
        field("winner", Json::text(winner)),
    ];
    assert(members_view(members@) =~= record_view(
        position.view(),
        mover@,
        responder@,
        seed,
        winner@,
        plies,
    )->Object_0);
    Json::Object(members)
}

/// Whether `r` may be what comes of a game that two engines play from a position: its
/// record, or why there is none.
pub open spec fn game_made<A: EngineAdapter, B: EngineAdapter>(
    mover: A,
    responder: B,
    position: JsonView,
    seed: u64,
    r: Result<JsonView, Seq<char>>,
) -> bool {
    let qfen = text_or(position, "qfen"@, ""@);
    match qfen_complaint(qfen) {
        Some(e) => r == Err::<JsonView, Seq<char>>(e),
        None => exists|g: Result<(Seq<char>, nat), Seq<char>>| #[trigger]
            game_played(mover, responder, qfen_board(qfen), seed, g) && match g {
                Err(e) => r == Err::<JsonView, Seq<char>>(e),
                Ok((winner, plies)) => r == Ok::<JsonView, Seq<char>>(
                    record_view(
                        position,
                        mover.named(),
                        responder.named(),
                        seed,
                        winner,
                        plies as u32,
                    ),
                ),
            },
    }
}

/// Play the game of a position and a seed and record it.
pub fn play_h2h_task<A: EngineAdapter, B: EngineAdapter>(
    mover: &A,
    responder: &B,
    position: &Json,
    seed: u64,
) -> (r: Result<Json, String>)
    requires
        mover.ready(),
        responder.ready(),
    ensures
        game_made(*mover, *responder, position.view(), seed, row_result(r)),
        r matches Ok(j) ==> exists|winner: Seq<char>, plies: u32|
            j.view() == #[trigger] record_view(
                position.view(),
                mover.named(),
                responder.named(),
                seed,
                winner,
                plies,
            ) && won_by(
                qfen_board(text_or(position.view(), "qfen"@, ""@)),
                mover.named(),
                responder.named(),
                winner,
                plies as int,
            ),
{
    let state = match State::from_qfen(text_in_or(position, "qfen", "")) {
        Ok(state) => state,
        Err(m) => return Err(m),
    };
    let played = play_game(mover, responder, &state.bb, seed);
    assert(game_played(*mover, *responder, state.bb@, seed, game_view(played)));
    match played {
        Ok((winner, plies)) => Ok(
            game_record(
                position,
                mover.name(),
                responder.name(),
                seed,
                winner.as_str(),
                plies,
            ),
        ),
        Err(m) => Err(m),
    }
}

/// A record carries the key of its game.
pub proof fn law_record_key(
    position: JsonView,
    mover: Seq<char>,
    responder: Seq<char>,
    seed: u64,
    winner: Seq<char>,
    plies: u32,
)
    ensures
        record_key(record_view(position, mover, responder, seed, winner, plies)) == (
            text_or(position, "id"@, ""@),
            mover,
            responder,
            seed,
        ),
{
    let j = record_view(position, mover, responder, seed, winner, plies);
    let o = j->Object_0;
    reveal_strlit("mover");
    reveal_strlit("phase");
    reveal_strlit("plies");
    reveal_strlit("position_id");
    reveal_strlit("responder");
    reveal_strlit("seed");
    assert("mover"@.len() == 5 && "phase"@.len() == 5 && "plies"@.len() == 5);
    assert("position_id"@.len() == 11 && "responder"@.len() == 9 && "seed"@.len() == 4);
    crate::bench::json::lemma_member_at(o, "mover"@, 0);
    crate::bench::json::lemma_member_at(o, "position_id"@, 3);
    crate::bench::json::lemma_member_at(o, "responder"@, 4);
    crate::bench::json::lemma_member_at(o, "seed"@, 5);
}

/// Whether `r` may be what comes of a task.
pub open spec fn task_made<A: EngineAdapter, B: EngineAdapter>(
    a: A,
    b: B,
    positions: Seq<JsonView>,
    t: H2hTask,
    r: Result<JsonView, Seq<char>>,
) -> bool {
    if t.a_moves {
        game_made(a, b, positions[t.position as int], t.seed, r)
    } else {
        game_made(b, a, positions[t.position as int], t.seed, r)
    }
}

/// Whether `done` may take the record `v`.
pub open spec fn takes<G: Fn(&Json) -> Result<(), String>>(done: G, v: JsonView) -> bool {
    exists|r: Result<(), String>| r is Ok && #[trigger] replies(done, v, r)
}

/// Whether `done` may refuse the record `v` with the error `e`.
pub open spec fn refuses<G: Fn(&Json) -> Result<(), String>>(
    done: G,
    v: JsonView,
    e: Seq<char>,
) -> bool {
    exists|m: String| m@ == e && #[trigger] replies(done, v, Err::<(), String>(m))
}

/// Whether `records` may be those of the first tasks, each of which `done` took.
pub open spec fn records_made<
    A: EngineAdapter,
    B: EngineAdapter,
    G: Fn(&Json) -> Result<(), String>,
>(
    a: A,
    b: B,
    positions: Seq<JsonView>,
    tasks: Seq<H2hTask>,
    done: G,
    records: Seq<JsonView>,
) -> bool {
    &&& records.len() <= tasks.len()
    &&& forall|i: int|
        0 <= i < records.len() ==> task_made(
            a,
            b,
            positions,
            tasks[i],
            Ok::<JsonView, Seq<char>>(#[trigger] records[i]),
        ) && takes(done, records[i])
}

/// Whether a run may have stopped with the error `e` at the task after those of `records`,
/// when `done` had been called with `calls`, one after the other: the game fails, or its
/// record is refused.
pub open spec fn stopped_after<
    A: EngineAdapter,
    B: EngineAdapter,
    G: Fn(&Json) -> Result<(), String>,
>(
    a: A,
    b: B,
    positions: Seq<JsonView>,
    tasks: Seq<H2hTask>,
    done: G,
    records: Seq<JsonView>,
    calls: Seq<JsonView>,
    e: Seq<char>,
) -> bool {
    let t = tasks[records.len() as int];
    &&& records_made(a, b, positions, tasks, done, records)
    &&& records.len() < tasks.len()
    &&& (task_made(a, b, positions, t, Err::<JsonView, Seq<char>>(e)) && calls == records)
        || exists|v: JsonView|
        task_made(a, b, positions, t, Ok::<JsonView, Seq<char>>(v)) && #[trigger] refuses(
            done,
            v,
            e,
        ) && calls == records.push(v)
}

/// Whether `r` may come of a run that called `done` with `calls`, one after the other: the
/// records of all the tasks in their order, or the error of the first task that fails. Each
/// record is in one call, in the order of the tasks.
pub open spec fn run_made<
    A: EngineAdapter,
    B: EngineAdapter,
    G: Fn(&Json) -> Result<(), String>,
>(
    a: A,
    b: B,
    positions: Seq<JsonView>,
    tasks: Seq<H2hTask>,
    done: G,
    calls: Seq<JsonView>,
    r: Result<Seq<JsonView>, Seq<char>>,
) -> bool {
    match r {
        Ok(records) => {
            &&& records.len() == tasks.len()
            &&& records_made(a, b, positions, tasks, done, records)
            &&& calls == records
        },
        Err(e) => exists|records: Seq<JsonView>|
            stopped_after(a, b, positions, tasks, done, records, calls, e),
    }
}

/// Tell `done` of `record` and add it to `records`.
pub(crate) fn hand_on<G: Fn(&Json) -> Result<(), String>>(
    records: &mut Vec<Json>,
    record: Json,
    done: &mut Listener<G>,
) -> (r: Result<(), String>)
    requires
        forall|j: &Json| #[trigger] call_requires(old(done).function(), (j,)),
    ensures
        final(done).function() == old(done).function(),
        final(done).heard() == old(done).heard().push(record.view()),
        match r {
            Ok(_) => takes(final(done).function(), record.view()) && items_view(final(records)@)
                == items_view(old(records)@).push(record.view()),
            Err(m) => refuses(final(done).function(), record.view(), m@),
        },
{
    let ghost shown = record.view();
    let r: Result<(), String> = done.tell(&record);
    match r {
        Ok(_) => {
            records.push(record);
            assert(items_view(records@) =~= items_view(old(records)@).push(shown));
            Ok(())
        },
        Err(m) => Err(m),
    }
}

/// The games that are left of a run, in their order.
pub open spec fn tasks_left<A: EngineAdapter, B: EngineAdapter>(
    a: A,
    b: B,
    positions: Seq<JsonView>,
    seeds: Seq<u64>,
    skip: Seq<H2hKey>,
) -> Seq<H2hTask> {
    position_tasks(
        ids_view(positions),
        a.named(),
        b.named(),
        skip,
        seeds,
        positions.len() as int,
    )
}

/// Let two engines play from each position with each seed, with either as the mover, but
/// for the games in `skip`. The records come in the order of the tasks, and `on_record` is
/// told of each, once, when its game is over. The run ends with the first game that fails, or
/// the first record that `on_record` refuses.
pub fn run_head_to_head<
    A: EngineAdapter,
    B: EngineAdapter,
    G: Fn(&Json) -> Result<(), String>,
>(
    adapter_a: &A,
    adapter_b: &B,
    positions: &Vec<Json>,
    seeds: &Vec<u64>,
    skip: &Vec<H2hKey>,
    workers: usize,
    on_record: &mut Listener<G>,
) -> (r: Result<Vec<Json>, String>)
    requires
        adapter_a.ready(),
        adapter_b.ready(),
        forall|j: &Json| #[trigger] call_requires(old(on_record).function(), (j,)),
    ensures
        final(on_record).function() == old(on_record).function(),
        old(on_record).heard().is_prefix_of(final(on_record).heard()),
        if workers == 0 {
            &&& r matches Err(m) && m@ == "workers must be at least 1"@
            &&& final(on_record).heard() == old(on_record).heard()
        } else {
            run_made(
                *adapter_a,
                *adapter_b,
                items_view(positions@),
                tasks_left(*adapter_a, *adapter_b, items_view(positions@), seeds@, skip@),
                old(on_record).function(),
                calls_between(old(on_record).heard(), final(on_record).heard()),
                rows_result(r),
            )
        },
{
    if let Err(m) = check_workers(workers) {
        return Err(m);
    }
    let ghost views = items_view(positions@);
    let ghost before = on_record.heard();
    let ghost done = on_record.function();
    let tasks = build_h2h_tasks(adapter_a.name(), adapter_b.name(), positions, seeds, skip);
    let mut records: Vec<Json> = Vec::new();
    let mut i: usize = 0;
    assert(items_view(records@) =~= Seq::empty());
    assert(before + Seq::<JsonView>::empty() =~= before);
    while i < tasks.len()
        invariant
            i <= tasks@.len(),
            views == items_view(positions@),
            before == old(on_record).heard(),
            done == old(on_record).function(),
            on_record.function() == done,
            on_record.heard() == before + items_view(records@),
            forall|j: &Json| #[trigger] call_requires(done, (j,)),
            adapter_a.ready(),
            adapter_b.ready(),
            forall|k: int|
                0 <= k < tasks@.len() ==> (#[trigger] tasks@[k]).position < positions@.len(),
            items_view(records@).len() == i,
            records_made(*adapter_a, *adapter_b, views, tasks@, done, items_view(records@)),
            tasks@ == tasks_left(*adapter_a, *adapter_b, views, seeds@, skip@),
            workers > 0,
        decreases tasks@.len() - i,
    {
        let t: H2hTask = tasks[i];
        assert(tasks@[i as int].position < positions@.len());
        assert(views[t.position as int] == positions@[t.position as int].view());
        let made = if t.a_moves {
            play_h2h_task(adapter_a, adapter_b, &positions[t.position], t.seed)
        } else {
            play_h2h_task(adapter_b, adapter_a, &positions[t.position], t.seed)
        };
        assert(task_made(*adapter_a, *adapter_b, views, t, row_result(made)));
        let ghost shown = items_view(records@);
        assert(calls_between(before, before + shown) =~= shown);
        let record = match made {
            Ok(record) => record,
            Err(m) => {
                let failed: Result<Vec<Json>, String> = Err(m);
                assert(stopped_after(
                    *adapter_a,
                    *adapter_b,
                    views,
                    tasks@,
                    done,
                    shown,
                    shown,
                    rows_result(failed)->Err_0,
                ));
                return failed;
            },
        };
        let ghost last = record.view();
        let told = hand_on(&mut records, record, on_record);
        proof {
            assert((before + shown).push(last) =~= before + shown.push(last));
            assert(calls_between(before, before + shown.push(last)) =~= shown.push(last));
        }
        if let Err(m) = told {
            assert(refuses(done, last, m@));
            let failed: Result<Vec<Json>, String> = Err(m);
            assert(stopped_after(
                *adapter_a,
                *adapter_b,
                views,
                tasks@,
                done,
                shown,
                shown.push(last),
                rows_result(failed)->Err_0,
            ));
            return failed;
        }
        i = i + 1;
    }
    assert(calls_between(before, before + items_view(records@)) =~= items_view(records@));
    Ok(records)
}

/// Whether the first results are `records`, each of which `done` took.
pub open spec fn all_taken<G: Fn(&Json) -> Result<(), String>>(
    results: Seq<Result<Json, String>>,
    done: G,
    records: Seq<JsonView>,
) -> bool {
    &&& records.len() <= results.len()
    &&& forall|i: int|
        0 <= i < records.len() ==> row_result(#[trigger] results[i]) == Ok::<JsonView, Seq<char>>(
            records[i],
        ) && takes(done, records[i])
}

/// Whether `r` comes of results that were all made before `done` was called with `calls`, one
/// after the other: the records in their order, or the error of the first result that is one
/// or is refused. Each record is in one call, in the order of the results.
pub open spec fn handed_on<G: Fn(&Json) -> Result<(), String>>(
    results: Seq<Result<Json, String>>,
    done: G,
    calls: Seq<JsonView>,
    r: Result<Seq<JsonView>, Seq<char>>,
) -> bool {
    match r {
        Ok(records) => {
            &&& records.len() == results.len()
            &&& all_taken(results, done, records)
            &&& calls == records
        },
        Err(e) => exists|records: Seq<JsonView>|
            {
                &&& #[trigger] all_taken(results, done, records)
                &&& records.len() < results.len()
                &&& match results[records.len() as int] {
                    Err(m) => e == m@ && calls == records,
                    Ok(j) => refuses(done, j.view(), e) && calls == records.push(j.view()),
                }
            },
    }
}

/// Hand on the results of tasks that several workers made, in the order of the tasks, up to
/// the first that is an error or is refused.
pub fn hand_on_results<G: Fn(&Json) -> Result<(), String>>(
    results: Vec<Result<Json, String>>,
    on_record: &mut Listener<G>,
) -> (r: Result<Vec<Json>, String>)
    requires
        forall|j: &Json| #[trigger] call_requires(old(on_record).function(), (j,)),
    ensures
        final(on_record).function() == old(on_record).function(),
        old(on_record).heard().is_prefix_of(final(on_record).heard()),
        handed_on(
            results@,
            old(on_record).function(),
            calls_between(old(on_record).heard(), final(on_record).heard()),
            rows_result(r),
        ),
{
    let ghost before = on_record.heard();
    let ghost done = on_record.function();
    let mut records: Vec<Json> = Vec::new();
    let mut i: usize = 0;
    assert(items_view(records@) =~= Seq::empty());
    assert(before + Seq::<JsonView>::empty() =~= before);
    while i < results.len()
        invariant
            i <= results@.len(),
            before == old(on_record).heard(),
            done == old(on_record).function(),
            on_record.function() == done,
            on_record.heard() == before + items_view(records@),
            forall|j: &Json| #[trigger] call_requires(done, (j,)),
            items_view(records@).len() == i,
            all_taken(results@, done, items_view(records@)),
        decreases results@.len() - i,
    {
        let ghost shown = items_view(records@);
        assert(calls_between(before, before + shown) =~= shown);
        let record = match &results[i] {
            Ok(j) => j.copy(),
            Err(m) => {
                assert(all_taken(results@, done, shown));
                return Err(m.clone());
            },
        };
        let ghost last = record.view();
        assert(row_result(results@[i as int]) == Ok::<JsonView, Seq<char>>(last));
        let told = hand_on(&mut records, record, on_record);
        proof {
            assert((before + shown).push(last) =~= before + shown.push(last));
            assert(calls_between(before, before + shown.push(last)) =~= shown.push(last));
        }
        if let Err(m) = told {
            assert(all_taken(results@, done, shown));
            return Err(m);
        }
        i = i + 1;
    }
    assert(calls_between(before, before + items_view(records@)) =~= items_view(records@));
    Ok(records)
}

/// Results that several workers made give what a run gives that makes them one by one, with
/// the same calls: the number of workers does not show.
pub proof fn law_workers_do_not_show<
    A: EngineAdapter,
    B: EngineAdapter,
    G: Fn(&Json) -> Result<(), String>,
>(
    a: A,
    b: B,
    positions: Seq<JsonView>,
    tasks: Seq<H2hTask>,
    results: Seq<Result<Json, String>>,
    done: G,
    calls: Seq<JsonView>,
    r: Result<Seq<JsonView>, Seq<char>>,
)
    requires
        results.len() == tasks.len(),
        forall|i: int|
            0 <= i < tasks.len() ==> task_made(
                a,
                b,
                positions,
                #[trigger] tasks[i],
                row_result(results[i]),
            ),
        handed_on(results, done, calls, r),
    ensures
        run_made(a, b, positions, tasks, done, calls, r),
{
    match r {
        Ok(records) => {
            lemma_results_are_made(a, b, positions, tasks, results, done, records);
        },
        Err(e) => {
            let records = choose|records: Seq<JsonView>|
                {
                    &&& #[trigger] all_taken(results, done, records)
                    &&& records.len() < results.len()
                    &&& match results[records.len() as int] {
                        Err(m) => e == m@ && calls == records,
                        Ok(j) => refuses(done, j.view(), e) && calls == records.push(j.view()),
                    }
                };
            lemma_results_are_made(a, b, positions, tasks, results, done, records);
            let n = records.len() as int;
            assert(task_made(a, b, positions, tasks[n], row_result(results[n])));
            assert(stopped_after(a, b, positions, tasks, done, records, calls, e));
        },
    }
}

proof fn lemma_results_are_made<
    A: EngineAdapter,
    B: EngineAdapter,
    G: Fn(&Json) -> Result<(), String>,
>(
    a: A,
    b: B,
    positions: Seq<JsonView>,
    tasks: Seq<H2hTask>,
    results: Seq<Result<Json, String>>,
    done: G,
    records: Seq<JsonView>,
)
    requires
        results.len() == tasks.len(),
        forall|i: int|
            0 <= i < tasks.len() ==> task_made(
                a,
                b,
                positions,
                #[trigger] tasks[i],
                row_result(results[i]),
            ),
        all_taken(results, done, records),
    ensures
        records_made(a, b, positions, tasks, done, records),
{
    assert forall|i: int| 0 <= i < records.len() implies task_made(
        a,
        b,
        positions,
        tasks[i],
        Ok::<JsonView, Seq<char>>(#[trigger] records[i]),
    ) && takes(done, records[i]) by {
        assert(task_made(a, b, positions, tasks[i], row_result(results[i])));
    }
}

/// The end of a game is settled by its board and its seed where the choices of the engines
/// are.
pub proof fn law_game_is_settled<A: EngineAdapter, B: EngineAdapter>(
    mover: A,
    responder: B,
    movers_turn: bool,
    b: Seq<u16>,
    seed: u64,
    room: nat,
    plies: nat,
    x: Result<(Seq<char>, nat), Seq<char>>,
    y: Result<(Seq<char>, nat), Seq<char>>,
)
    requires
        settled_by_seed(mover),
        settled_by_seed(responder),
        game_ends(mover, responder, movers_turn, b, seed, room, plies, x),
        game_ends(mover, responder, movers_turn, b, seed, room, plies, y),
    ensures
        x == y,
    decreases room,
{
    if !finished(b) {
        let c = choose|c: Result<(Move, RawMetrics), String>| #[trigger]
            choice_in_turn(mover, responder, movers_turn, b, seed, c) && match c {
                Err(e) => x == Err::<(Seq<char>, nat), Seq<char>>(e@),
                Ok((mv, _)) => game_ends(
                    mover,
                    responder,
                    !movers_turn,
                    applied(b, mv),
                    seed,
                    (room - 1) as nat,
                    plies + 1,
                    x,
                ),
            };
        let d = choose|d: Result<(Move, RawMetrics), String>| #[trigger]
            choice_in_turn(mover, responder, movers_turn, b, seed, d) && match d {
                Err(e) => y == Err::<(Seq<char>, nat), Seq<char>>(e@),
                Ok((mv, _)) => game_ends(
                    mover,
                    responder,
                    !movers_turn,
                    applied(b, mv),
                    seed,
                    (room - 1) as nat,
                    plies + 1,
                    y,
                ),
            };
        if movers_turn {
            law_choice_is_settled(mover, b, seed, c, d);
        } else {
            law_choice_is_settled(responder, b, seed, c, d);
        }
        if let Ok((mv, _)) = c {
            law_game_is_settled(
                mover,
                responder,
                !movers_turn,
                applied(b, mv),
                seed,
                (room - 1) as nat,
                plies + 1,
                x,
                y,
            );
        }
    }
}

proof fn lemma_record_is_settled<A: EngineAdapter, B: EngineAdapter>(
    mover: A,
    responder: B,
    position: JsonView,
    seed: u64,
    x: Result<JsonView, Seq<char>>,
    y: Result<JsonView, Seq<char>>,
)
    requires
        settled_by_seed(mover),
        settled_by_seed(responder),
        game_made(mover, responder, position, seed, x),
        game_made(mover, responder, position, seed, y),
    ensures
        x == y,
{
    let qfen = text_or(position, "qfen"@, ""@);
    let b = qfen_board(qfen);
    if qfen_complaint(qfen) is None {
        let g = choose|g: Result<(Seq<char>, nat), Seq<char>>| #[trigger]
            game_played(mover, responder, b, seed, g) && match g {
                Err(e) => x == Err::<JsonView, Seq<char>>(e),
                Ok((winner, plies)) => x == Ok::<JsonView, Seq<char>>(
                    record_view(
                        position,
                        mover.named(),
                        responder.named(),
                        seed,
                        winner,
                        plies as u32,
                    ),
                ),
            };
        let h = choose|h: Result<(Seq<char>, nat), Seq<char>>| #[trigger]
            game_played(mover, responder, b, seed, h) && match h {
                Err(e) => y == Err::<JsonView, Seq<char>>(e),
                Ok((winner, plies)) => y == Ok::<JsonView, Seq<char>>(
                    record_view(
                        position,
                        mover.named(),
                        responder.named(),
                        seed,
                        winner,
                        plies as u32,
                    ),
                ),
            };
        if to_move(b) is Some {
            law_game_is_settled(mover, responder, true, b, seed, 16, 0, g, h);
        }
    }
}

/// What comes of a task is settled where the answers of the engines are settled by the
/// board and the seed.
pub proof fn law_task_is_settled<A: EngineAdapter, B: EngineAdapter>(
    a: A,
    b: B,
    positions: Seq<JsonView>,
    t: H2hTask,
    x: Result<JsonView, Seq<char>>,
    y: Result<JsonView, Seq<char>>,
)
    requires
        settled_by_seed(a),
        settled_by_seed(b),
        task_made(a, b, positions, t, x),
        task_made(a, b, positions, t, y),
    ensures
        x == y,
{
    if t.a_moves {
        lemma_record_is_settled(a, b, positions[t.position as int], t.seed, x, y);
    } else {
        lemma_record_is_settled(b, a, positions[t.position as int], t.seed, x, y);
    }
}

/// Where the answers of the engines are settled by the board and the seed, no game fails and
/// no record is refused, every run succeeds, whatever the number of workers, and all runs give
/// the same records: one for each game that is left, in the order of the games. The calls of
/// `done` in such a run are one with each of these records, in this order.
pub proof fn law_runs_agree<
    A: EngineAdapter,
    B: EngineAdapter,
    G: Fn(&Json) -> Result<(), String>,
>(
    a: A,
    b: B,
    positions: Seq<JsonView>,
    tasks: Seq<H2hTask>,
    done: G,
    calls_x: Seq<JsonView>,
    x: Result<Seq<JsonView>, Seq<char>>,
    calls_y: Seq<JsonView>,
    y: Result<Seq<JsonView>, Seq<char>>,
)
    requires
        settled_by_seed(a),
        settled_by_seed(b),
        forall|i: int, e: Seq<char>|
            0 <= i < tasks.len() ==> !#[trigger] task_made(
                a,
                b,
                positions,
                tasks[i],
                Err::<JsonView, Seq<char>>(e),
            ),
        forall|v: JsonView, e: Seq<char>| !#[trigger] refuses(done, v, e),
        run_made(a, b, positions, tasks, done, calls_x, x),
        run_made(a, b, positions, tasks, done, calls_y, y),
    ensures
        x is Ok,
        x == y,
        x->Ok_0.len() == tasks.len(),
        forall|i: int|
            0 <= i < tasks.len() ==> task_made(
                a,
                b,
                positions,
                tasks[i],
                Ok::<JsonView, Seq<char>>(#[trigger] x->Ok_0[i]),
            ),
        calls_x == x->Ok_0,
        calls_y == x->Ok_0,
{
    lemma_run_succeeds(a, b, positions, tasks, done, calls_x, x);
    lemma_run_succeeds(a, b, positions, tasks, done, calls_y, y);
    let p = x->Ok_0;
    let q = y->Ok_0;
    assert(p =~= q) by {
        assert forall|i: int| 0 <= i < tasks.len() implies p[i] == q[i] by {
            assert(task_made(a, b, positions, tasks[i], Ok::<JsonView, Seq<char>>(p[i])));
            assert(task_made(a, b, positions, tasks[i], Ok::<JsonView, Seq<char>>(q[i])));
            law_task_is_settled(
                a,
                b,
                positions,
                tasks[i],
                Ok::<JsonView, Seq<char>>(p[i]),
                Ok::<JsonView, Seq<char>>(q[i]),
            );
        }
    }
}

proof fn lemma_run_succeeds<
    A: EngineAdapter,
    B: EngineAdapter,
    G: Fn(&Json) -> Result<(), String>,
>(
    a: A,
    b: B,
    positions: Seq<JsonView>,
    tasks: Seq<H2hTask>,
    done: G,
    calls: Seq<JsonView>,
    r: Result<Seq<JsonView>, Seq<char>>,
)
    requires
        forall|i: int, e: Seq<char>|
            0 <= i < tasks.len() ==> !#[trigger] task_made(
                a,
                b,
                positions,
                tasks[i],
                Err::<JsonView, Seq<char>>(e),
            ),
        forall|v: JsonView, e: Seq<char>| !#[trigger] refuses(done, v, e),
        run_made(a, b, positions, tasks, done, calls, r),
    ensures
        r is Ok,
{
    if r is Err {
        let e = r->Err_0;
        let records = choose|records: Seq<JsonView>|
            stopped_after(a, b, positions, tasks, done, records, calls, e);
        assert(stopped_after(a, b, positions, tasks, done, records, calls, e));
        assert(!task_made(
            a,
            b,
            positions,
            tasks[records.len() as int],
            Err::<JsonView, Seq<char>>(e),
        ));
    }
}

/// Whether all the tasks are games that are not left out.
spec fn all_new(
    ids: Seq<Seq<char>>,
    a: Seq<char>,
    b: Seq<char>,
    skip: Seq<H2hKey>,
    tasks: Seq<H2hTask>,
) -> bool {
    forall|i: int| 0 <= i < tasks.len() ==> !skipped(skip, task_key(ids, a, b, #[trigger] tasks[i]))
}

proof fn lemma_new_join(
    ids: Seq<Seq<char>>,
    a: Seq<char>,
    b: Seq<char>,
    skip: Seq<H2hKey>,
    x: Seq<H2hTask>,
    y: Seq<H2hTask>,
)
    requires
        all_new(ids, a, b, skip, x),
        all_new(ids, a, b, skip, y),
    ensures
        all_new(ids, a, b, skip, x + y),
        forall|t: H2hTask| x.contains(t) || y.contains(t) ==> #[trigger] (x + y).contains(t),
{
    let z = x + y;
    assert forall|i: int| 0 <= i < z.len() implies !skipped(
        skip,
        task_key(ids, a, b, #[trigger] z[i]),
    ) by {
        if i < x.len() {
            assert(z[i] == x[i]);
        } else {
            assert(z[i] == y[i - x.len()]);
        }
    }
    assert forall|t: H2hTask| x.contains(t) || y.contains(t) implies #[trigger] z.contains(t) by {
        if x.contains(t) {
            let i = choose|i: int| 0 <= i < x.len() && x[i] == t;
            assert(z[i] == t);
        } else {
            let i = choose|i: int| 0 <= i < y.len() && y[i] == t;
            assert(z[x.len() + i] == t);
        }
    }
}

/// Whether the tasks hold the games of a position and a seed that are not left out.
spec fn holds_games(
    ids: Seq<Seq<char>>,
    a: Seq<char>,
    b: Seq<char>,
    skip: Seq<H2hKey>,
    tasks: Seq<H2hTask>,
    p: int,
    seed: u64,
) -> bool {
    forall|first: bool| #![trigger task_of(p, seed, first)]
        !skipped(skip, task_key(ids, a, b, task_of(p, seed, first))) ==> tasks.contains(
            task_of(p, seed, first),
        )
}

/// The task of a position and a seed.
pub open spec fn task_of(p: int, seed: u64, a_moves: bool) -> H2hTask {
    H2hTask { position: p as usize, seed, a_moves }
}

proof fn lemma_pair_games(
    ids: Seq<Seq<char>>,
    a: Seq<char>,
    b: Seq<char>,
    skip: Seq<H2hKey>,
    p: int,
    seed: u64,
)
    ensures
        all_new(ids, a, b, skip, pair_tasks(ids, a, b, skip, p, seed)),
        holds_games(ids, a, b, skip, pair_tasks(ids, a, b, skip, p, seed), p, seed),
{
    let tasks = pair_tasks(ids, a, b, skip, p, seed);
    let first = task_of(p, seed, true);
    let second = task_of(p, seed, false);
    let x = if skipped(skip, task_key(ids, a, b, first)) {
        Seq::<H2hTask>::empty()
    } else {
        seq![first]
    };
    let y = if skipped(skip, task_key(ids, a, b, second)) {
        Seq::<H2hTask>::empty()
    } else {
        seq![second]
    };
    assert(tasks == x + y);
    lemma_new_join(ids, a, b, skip, x, y);
    assert forall|which: bool| #![trigger task_of(p, seed, which)]
        !skipped(skip, task_key(ids, a, b, task_of(p, seed, which))) implies tasks.contains(
        task_of(p, seed, which),
    ) by {
        if which {
            assert(x[0] == first);
            assert(x.contains(first));
        } else {
            assert(y[0] == second);
            assert(y.contains(second));
        }
    }
}

proof fn lemma_seed_games(
    ids: Seq<Seq<char>>,
    a: Seq<char>,
    b: Seq<char>,
    skip: Seq<H2hKey>,
    seeds: Seq<u64>,
    p: int,
    m: int,
)
    ensures
        all_new(ids, a, b, skip, seed_tasks(ids, a, b, skip, seeds, p, m)),
        forall|k: int|
            0 <= k < m ==> holds_games(
                ids,
                a,
                b,
                skip,
                seed_tasks(ids, a, b, skip, seeds, p, m),
                p,
                #[trigger] seeds[k],
            ),
    decreases m,
{
    if m > 0 {
        lemma_seed_games(ids, a, b, skip, seeds, p, m - 1);
        lemma_pair_games(ids, a, b, skip, p, seeds[m - 1]);
        let x = seed_tasks(ids, a, b, skip, seeds, p, m - 1);
        let y = pair_tasks(ids, a, b, skip, p, seeds[m - 1]);
        lemma_new_join(ids, a, b, skip, x, y);
        let now = seed_tasks(ids, a, b, skip, seeds, p, m);
        assert forall|k: int| 0 <= k < m implies holds_games(
            ids,
            a,
            b,
            skip,
            now,
            p,
            #[trigger] seeds[k],
        ) by {
            if k < m - 1 {
                assert(holds_games(ids, a, b, skip, x, p, seeds[k]));
            }
            assert forall|first: bool| #![trigger task_of(p, seeds[k], first)]
                !skipped(skip, task_key(ids, a, b, task_of(p, seeds[k], first))) implies now.contains(
                task_of(p, seeds[k], first),
            ) by {
                assert(x.contains(task_of(p, seeds[k], first)) || y.contains(
                    task_of(p, seeds[k], first),
                ));
                assert((x + y).contains(task_of(p, seeds[k], first)));
            }
        }
    }
}

/// A run plays exactly the games that are not left out: no game that is left out is among
/// its tasks, and every other game of a position and a seed is.
pub proof fn law_the_games_left_are_played(
    ids: Seq<Seq<char>>,
    a: Seq<char>,
    b: Seq<char>,
    skip: Seq<H2hKey>,
    seeds: Seq<u64>,
    n: int,
)
    ensures
        ({
            let tasks = position_tasks(ids, a, b, skip, seeds, n);
            &&& forall|i: int|
                0 <= i < tasks.len() ==> !skipped(skip, task_key(ids, a, b, #[trigger] tasks[i]))
            &&& forall|p: int, k: int, first: bool|
                #![trigger task_of(p, seeds[k], first)]
                0 <= p < n && 0 <= k < seeds.len() && !skipped(
                    skip,
                    task_key(ids, a, b, task_of(p, seeds[k], first)),
                ) ==> tasks.contains(task_of(p, seeds[k], first))
        }),
    decreases n,
{
    let tasks = position_tasks(ids, a, b, skip, seeds, n);
    if n > 0 {
        law_the_games_left_are_played(ids, a, b, skip, seeds, n - 1);
        lemma_seed_games(ids, a, b, skip, seeds, n - 1, seeds.len() as int);
        let x = position_tasks(ids, a, b, skip, seeds, n - 1);
        let y = seed_tasks(ids, a, b, skip, seeds, n - 1, seeds.len() as int);
        assert(all_new(ids, a, b, skip, x));
        lemma_new_join(ids, a, b, skip, x, y);
        assert(all_new(ids, a, b, skip, tasks));
        assert forall|p: int, k: int, first: bool|
            #![trigger task_of(p, seeds[k], first)]
            0 <= p < n && 0 <= k < seeds.len() && !skipped(
                skip,
                task_key(ids, a, b, task_of(p, seeds[k], first)),
            ) implies tasks.contains(task_of(p, seeds[k], first)) by {
            let t = task_of(p, seeds[k], first);
            if p == n - 1 {
                assert(holds_games(ids, a, b, skip, y, p, seeds[k]));
                assert(y.contains(t));
            } else {
                assert(x.contains(t));
            }
            assert((x + y).contains(t));
        }
    }
}

} // verus!
