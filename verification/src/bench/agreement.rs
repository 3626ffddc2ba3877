//! Runs of engines over the positions of a dataset.
use crate::bench::adapters::{
    observation_view, select, selection_made, terminal_words, EngineAdapter, MoveObservation,
};
use crate::bench::export::written;
use crate::bench::fields::{at, complain, copy_of, text_at, text_in, text_in_or, text_or};
use crate::bench::head_to_head::{hand_on, refuses, takes};
use crate::bench::json::{
    items_view, lemma_member_at, lemma_without_with, members_of, number_or_null, row_result,
    rows_result, set_member, with_member, Json, JsonView,
};
use crate::bench::listener::{calls_between, Listener};
use crate::bitboard::Bitboard;
use crate::game_value::finished;
use crate::moves::Move;
use crate::qfen::{qfen_board, qfen_complaint};
use crate::search_telemetry::Ratio;
use crate::state::State;
use crate::text::same_text;
pub use crate::bench::aggregate::{aggregate_agreement, aggregate_cost};
use vstd::prelude::*;
use vstd::string::*;

verus! {

/// What identifies a run: engine, configuration, position and seed.
#[derive(Debug)]
pub struct RunKey {
    pub engine: String,
    pub config_label: String,
    pub position_id: String,
    pub seed: Option<u64>,
}

/// What a key says.
pub open spec fn run_view(k: RunKey) -> (Seq<char>, Seq<char>, Seq<char>, Option<u64>) {
    (k.engine@, k.config_label@, k.position_id@, k.seed)
}

/// What identifies the run of a row.
pub open spec fn row_run(row: JsonView) -> (Seq<char>, Seq<char>, Seq<char>, Option<u64>) {
    (
        text_or(row, "engine"@, ""@),
        text_or(row, "config_label"@, ""@),
        text_or(row, "position_id"@, ""@),
        match at(row, "seed"@) {
            JsonView::Unsigned(n) => Some(n),
            _ => None,
        },
    )
}

/// What identifies the run of a row.
pub fn row_key(row: &Json) -> (k: RunKey)
    ensures
        run_view(k) == row_run(row.view()),
{
    let seed: Option<u64> = match row.get("seed") {
        Some(v) => v.as_unsigned(),
        None => None,
    };
    RunKey {
        engine: text_in_or(row, "engine", "").to_owned(),
        config_label: text_in_or(row, "config_label", "").to_owned(),
        position_id: text_in_or(row, "position_id", "").to_owned(),
        seed,
    }
}

/// What the steps of a run need to know of an engine.
#[derive(Debug)]
pub struct Contender {
    pub name: String,
    pub config_label: String,
    pub stochastic: bool,
}

/// A step of a run: check a position, or let an engine choose in it.
#[derive(Clone, Copy, Debug, PartialEq, Eq, Structural)]
pub enum AgreementStep {
    Check { position: usize },
    Choose { position: usize, engine: usize, seed: u64 },
}

/// Whether a run is to be left out.
pub open spec fn left_out(
    skip: Seq<RunKey>,
    key: (Seq<char>, Seq<char>, Seq<char>, Option<u64>),
) -> bool {
    exists|i: int| 0 <= i < skip.len() && run_view(#[trigger] skip[i]) == key
}

/// The number of seeds that an engine runs with: all of them if its choices depend
/// on the seed, else the first.
pub open spec fn seed_count(c: Contender, seeds: Seq<u64>) -> int {
    if c.stochastic || seeds.len() == 0 {
        seeds.len() as int
    } else {
        1
    }
}

/// The steps of an engine with the first `m` seeds.
pub open spec fn engine_steps(
    c: Contender,
    e: int,
    p: int,
    id: Seq<char>,
    seeds: Seq<u64>,
    skip: Seq<RunKey>,
    m: int,
) -> Seq<AgreementStep>
    decreases m,
{
    if m <= 0 {
        Seq::empty()
    } else {
        let before = engine_steps(c, e, p, id, seeds, skip, m - 1);
        if left_out(skip, (c.name@, c.config_label@, id, Some(seeds[m - 1]))) {
            before
        } else {
            before.push(
                AgreementStep::Choose { position: p as usize, engine: e as usize, seed: seeds[m - 1] },
            )
        }
    }
}

/// The steps of the first `n` engines in a position.
pub open spec fn engines_steps(
    cs: Seq<Contender>,
    p: int,
    id: Seq<char>,
    seeds: Seq<u64>,
    skip: Seq<RunKey>,
    n: int,
) -> Seq<AgreementStep>
    decreases n,
{
    if n <= 0 {
        Seq::empty()
    } else {
        engines_steps(cs, p, id, seeds, skip, n - 1) + engine_steps(
            cs[n - 1],
            n - 1,
            p,
            id,
            seeds,
            skip,
            seed_count(cs[n - 1], seeds),
        )
    }
}

/// The steps in the first `n` positions: each is checked, then every engine
/// chooses with its seeds, but for the runs that are left out.
pub open spec fn steps_of(
    cs: Seq<Contender>,
    positions: Seq<JsonView>,
    seeds: Seq<u64>,
    skip: Seq<RunKey>,
    n: int,
) -> Seq<AgreementStep>
    decreases n,
{
    if n <= 0 {
        Seq::empty()
    } else {
        steps_of(cs, positions, seeds, skip, n - 1) + seq![
            AgreementStep::Check { position: (n - 1) as usize },
        ] + engines_steps(
            cs,
            n - 1,
            text_or(positions[n - 1], "id"@, ""@),
            seeds,
            skip,
            cs.len() as int,
        )
    }
}

fn is_left_out(skip: &Vec<RunKey>, c: &Contender, id: &str, seed: u64) -> (r: bool)
    ensures
        r <==> left_out(skip@, (c.name@, c.config_label@, id@, Some(seed))),
{
    let mut i: usize = 0;
    while i < skip.len()
        invariant
            i <= skip@.len(),
            forall|k: int|
                0 <= k < i ==> run_view(#[trigger] skip@[k]) != (
                    c.name@,
                    c.config_label@,
                    id@,
                    Some(seed),
                ),
        decreases skip@.len() - i,
    {
        let key = &skip[i];
        if same_text(key.engine.as_str(), c.name.as_str()) && same_text(
            key.config_label.as_str(),
            c.config_label.as_str(),
        ) && same_text(key.position_id.as_str(), id) && key.seed == Some(seed) {
            assert(run_view(skip@[i as int]) == (c.name@, c.config_label@, id@, Some(seed)));
            return true;
        }
        i = i + 1;
    }
    false
}

/// Why a run cannot begin.
pub open spec fn run_complaint(payload: JsonView, seeds: Seq<u64>) -> Option<Seq<char>> {
    if seeds.len() == 0 {
        Some("seeds must be a non-empty ordered list"@)
    } else {
        complain(!(at(payload, "positions"@) is Array), "payload has no positions"@)
    }
}

/// The steps of a run over the positions of a dataset.
pub fn agreement_steps(
    contenders: &Vec<Contender>,
    payload: &Json,
    seeds: &Vec<u64>,
    skip: &Vec<RunKey>,
) -> (r: Result<Vec<AgreementStep>, String>)
    ensures
        match r {
            Ok(steps) => run_complaint(payload.view(), seeds@) is None && steps@ == steps_of(
                contenders@,
                at(payload.view(), "positions"@)->Array_0,
                seeds@,
                skip@,
                at(payload.view(), "positions"@)->Array_0.len() as int,
            ),
            Err(m) => run_complaint(payload.view(), seeds@) == Some(m@),
        },
{
    if seeds.len() == 0 {
        return Err("seeds must be a non-empty ordered list".to_owned());
    }
    let positions = match payload.get("positions") {
        Some(v) => match v {
            Json::Array(items) => items,
            _ => return Err("payload has no positions".to_owned()),
        },
        None => return Err("payload has no positions".to_owned()),
    };
    let ghost views = items_view(positions@);
    let mut steps: Vec<AgreementStep> = Vec::new();
    let mut p: usize = 0;
    while p < positions.len()
        invariant
            p <= positions@.len(),
            views == items_view(positions@),
            seeds@.len() > 0,
            steps@ == steps_of(contenders@, views, seeds@, skip@, p as int),
        decreases positions@.len() - p,
    {
        let id = text_in_or(&positions[p], "id", "");
        assert(views[p as int] == positions@[p as int].view());
        let ghost before = steps@;
        steps.push(AgreementStep::Check { position: p });
        let ghost checked = steps@;
        assert(checked =~= before + seq![AgreementStep::Check { position: p }]);
        let mut e: usize = 0;
        assert(checked + Seq::<AgreementStep>::empty() =~= checked);
        while e < contenders.len()
            invariant
                e <= contenders@.len(),
                seeds@.len() > 0,
                steps@ == checked + engines_steps(
                    contenders@,
                    p as int,
                    id@,
                    seeds@,
                    skip@,
                    e as int,
                ),
            decreases contenders@.len() - e,
        {
            let c = &contenders[e];
            let n: usize = if c.stochastic {
                seeds.len()
            } else {
                1
            };
            let ghost start = steps@;
            let mut s: usize = 0;
            assert(start + Seq::<AgreementStep>::empty() =~= start);
            while s < n
                invariant
                    s <= n <= seeds@.len(),
                    n == seed_count(*c, seeds@),
                    e < contenders@.len(),
                    *c == contenders@[e as int],
                    steps@ == start + engine_steps(
                        *c,
                        e as int,
                        p as int,
                        id@,
                        seeds@,
                        skip@,
                        s as int,
                    ),
                decreases n - s,
            {
                let seed: u64 = seeds[s];
                if !is_left_out(skip, c, id, seed) {
                    steps.push(AgreementStep::Choose { position: p, engine: e, seed });
                }
                assert(steps@ =~= start + engine_steps(
                    *c,
                    e as int,
                    p as int,
                    id@,
                    seeds@,
                    skip@,
                    s + 1,
                ));
                s = s + 1;
            }
            assert(steps@ =~= checked + engines_steps(
                contenders@,
                p as int,
                id@,
                seeds@,
                skip@,
                e + 1,
            ));
            e = e + 1;
        }
        assert(steps@ =~= steps_of(contenders@, views, seeds@, skip@, p + 1));
        p = p + 1;
    }
    Ok(steps)
}

/// The board of a position, or why it has none.
pub open spec fn position_board(position: JsonView) -> Result<Seq<u16>, Seq<char>> {
    match text_at(position, "qfen"@) {
        None => Err("position missing qfen"@),
        Some(q) => match qfen_complaint(q) {
            Some(e) => Err(e),
            None => Ok(qfen_board(q)),
        },
    }
}

/// The board of a position, or why it has none.
pub fn board_of(position: &Json) -> (r: Result<Bitboard, String>)
    ensures
        match (r, position_board(position.view())) {
            (Ok(bb), Ok(b)) => bb@ == b,
            (Err(m), Err(e)) => m@ == e,
            _ => false,
        },
{
    match text_in(position, "qfen") {
        None => Err("position missing qfen".to_owned()),
        Some(q) => match State::from_qfen(q) {
            Ok(state) => Ok(state.bb),
            Err(m) => Err(m),
        },
    }
}

/// Whether one of the first `n` items is the text `s`.
pub open spec fn lists_text(items: Seq<JsonView>, n: int, s: Seq<char>) -> bool {
    exists|i: int| 0 <= i < n && #[trigger] items[i] == JsonView::Text(s)
}

/// Whether a move is among the optimal moves of a position's reference; null where
/// the position has no reference.
pub open spec fn hit_view(position: JsonView, mv: Seq<char>) -> JsonView {
    let reference = at(position, "reference"@);
    if reference is Null {
        JsonView::Null
    } else {
        JsonView::Bool(
            match at(reference, "optimal_moves"@) {
                JsonView::Array(items) => lists_text(items, items.len() as int, mv),
                _ => false,
            },
        )
    }
}

fn hit_json(position: &Json, mv: &str) -> (j: Json)
    ensures
        j.view() == hit_view(position.view(), mv@),
{
    let reference = copy_of(position, "reference");
    if reference.is_null() {
        return Json::Null;
    }
    let moves = copy_of(&reference, "optimal_moves");
    let mut found: bool = false;
    match &moves {
        Json::Array(items) => {
            let ghost views = items_view(items@);
            let mut i: usize = 0;
            while i < items.len()
                invariant
                    i <= items@.len(),
                    views == items_view(items@),
                    found <==> lists_text(views, i as int, mv@),
                decreases items@.len() - i,
            {
                assert(views[i as int] == items@[i as int].view());
                if let Some(s) = items[i].as_text() {
                    if same_text(s, mv) {
                        found = true;
                        assert(views[i as int] == JsonView::Text(mv@));
                    }
                }
                i = i + 1;
            }
        },
        _ => {},
    }
    Json::Bool(found)
}

/// The row of an observation: with the phase of its position and whether it is a
/// hit.
pub open spec fn row_view(observation: JsonView, position: JsonView, mv: Seq<char>) -> JsonView {
    JsonView::Object(
        with_member(
            with_member(members_of(observation), "phase"@, at(position, "phase"@)),
            "hit"@,
            hit_view(position, mv),
        ),
    )
}

/// The row of an observation.
pub fn agreement_row(observation: &Json, position: &Json, mv: &str) -> (row: Json)
    ensures
        row.view() == row_view(observation.view(), position.view(), mv@),
{
    let with_phase = set_member(observation, "phase", copy_of(position, "phase"));
    set_member(&with_phase, "hit", hit_json(position, mv))
}

/// Whether `r` may be what comes of an engine's choice in a position: its row, or why there
/// is none.
pub open spec fn step_made<A: EngineAdapter, C: Fn() -> u64, F: Fn(Ratio) -> String>(
    adapter: A,
    position: JsonView,
    seed: u64,
    cpu_clock: C,
    write: F,
    r: Result<JsonView, Seq<char>>,
) -> bool {
    match position_board(position) {
        Err(e) => r == Err::<JsonView, Seq<char>>(e),
        Ok(b) => exists|s: Result<(Move, MoveObservation), String>| #[trigger]
            selection_made(
                adapter,
                b,
                text_or(position, "id"@, ""@),
                Some(seed),
                cpu_clock,
                s,
            ) && match s {
                Err(m) => r == Err::<JsonView, Seq<char>>(m@),
                Ok((mv, o)) => r matches Ok(j) && row_written(o, position, write, j),
            },
    }
}

/// Whether `j` is the row of an observation, with its score as `write` puts it.
pub open spec fn row_written<F: Fn(Ratio) -> String>(
    o: MoveObservation,
    position: JsonView,
    write: F,
    j: JsonView,
) -> bool {
    exists|score: JsonView|
        written(write, o.score, score) && j == row_view(
            #[trigger] observation_view(o, score),
            position,
            o.mv@,
        )
}

/// Let an engine choose in a position and make a row of it.
pub fn run_step<A: EngineAdapter, C: Fn() -> u64, F: Fn(Ratio) -> String>(
    adapter: &A,
    position: &Json,
    seed: u64,
    cpu_clock: &C,
    write: &F,
) -> (r: Result<Json, String>)
    requires
        adapter.ready(),
        call_requires(*cpu_clock, ()),
        forall|q: Ratio| #[trigger] call_requires(*write, (q,)),
    ensures
        step_made(*adapter, position.view(), seed, *cpu_clock, *write, row_result(r)),
        position_board(position.view()) matches Ok(b) ==> finished(b) ==> (r matches Err(m) && m@
            == terminal_words(adapter.named())),
{
    let bb = match board_of(position) {
        Ok(bb) => bb,
        Err(m) => return Err(m),
    };
    let selected = select(
        adapter,
        &bb,
        text_in_or(position, "id", ""),
        Some(seed),
        cpu_clock,
    );
    assert(selection_made(
        *adapter,
        bb@,
        text_or(position.view(), "id"@, ""@),
        Some(seed),
        *cpu_clock,
        selected,
    ));
    let (mv, observation) = match selected {
        Ok(t) => t,
        Err(m) => return Err(m),
    };
    let shown = observation.to_json(write);
    let row = agreement_row(&shown, position, observation.mv.as_str());
    proof {
        let score = choose|score: JsonView|
            written(*write, observation.score, score) && shown.view()
                == #[trigger] observation_view(observation, score);
        assert(shown.view() == observation_view(observation, score));
        assert(row_written(observation, position.view(), *write, row.view()));
    }
    Ok(row)
}

/// Whether the contenders are the engines, as far as the steps of a run need to know
/// them.
pub open spec fn describes<A: EngineAdapter>(cs: Seq<Contender>, adapters: Seq<A>) -> bool {
    &&& cs.len() == adapters.len()
    &&& forall|i: int|
        0 <= i < cs.len() ==> {
            &&& (#[trigger] cs[i]).name@ == adapters[i].named()
            &&& cs[i].config_label@ == adapters[i].labelled()
            &&& cs[i].stochastic == adapters[i].is_stochastic()
        }
}

/// What the steps of a run need to know of its engines.
pub fn contenders_of<A: EngineAdapter>(adapters: &Vec<A>) -> (cs: Vec<Contender>)
    ensures
        describes(cs@, adapters@),
{
    let mut cs: Vec<Contender> = Vec::new();
    let mut i: usize = 0;
    while i < adapters.len()
        invariant
            i <= adapters@.len(),
            cs@.len() == i,
            forall|k: int|
                0 <= k < i ==> {
                    &&& (#[trigger] cs@[k]).name@ == adapters@[k].named()
                    &&& cs@[k].config_label@ == adapters@[k].labelled()
                    &&& cs@[k].stochastic == adapters@[k].is_stochastic()
                },
        decreases adapters@.len() - i,
    {
        cs.push(
            Contender {
                name: adapters[i].name().to_owned(),
                config_label: adapters[i].config_label(),
                stochastic: adapters[i].stochastic(),
            },
        );
        i = i + 1;
    }
    cs
}

/// Whether the rows are those of the choices among the first `n` steps, in order.
pub open spec fn rows_made<A: EngineAdapter, C: Fn() -> u64, F: Fn(Ratio) -> String>(
    adapters: Seq<A>,
    positions: Seq<JsonView>,
    steps: Seq<AgreementStep>,
    n: int,
    cpu_clock: C,
    write: F,
    rows: Seq<JsonView>,
) -> bool
    decreases n,
{
    if n <= 0 {
        rows.len() == 0
    } else {
        match steps[n - 1] {
            AgreementStep::Check { position } => position_board(positions[position as int]) is Ok
                && rows_made(adapters, positions, steps, n - 1, cpu_clock, write, rows),
            AgreementStep::Choose { position, engine, seed } => rows.len() > 0 && step_made(
                adapters[engine as int],
                positions[position as int],
                seed,
                cpu_clock,
                write,
                Ok::<JsonView, Seq<char>>(rows.last()),
            ) && rows_made(
                adapters,
                positions,
                steps,
                n - 1,
                cpu_clock,
                write,
                rows.drop_last(),
            ),
        }
    }
}

/// Whether a step may end a run with the error `e`: the position has no board, or the
/// choice fails.
pub open spec fn step_fails<A: EngineAdapter, C: Fn() -> u64, F: Fn(Ratio) -> String>(
    adapters: Seq<A>,
    positions: Seq<JsonView>,
    step: AgreementStep,
    cpu_clock: C,
    write: F,
    e: Seq<char>,
) -> bool {
    match step {
        AgreementStep::Check { position } => position_board(positions[position as int]) == Err::<
            Seq<u16>,
            Seq<char>,
        >(e),
        AgreementStep::Choose { position, engine, seed } => step_made(
            adapters[engine as int],
            positions[position as int],
            seed,
            cpu_clock,
            write,
            Err::<JsonView, Seq<char>>(e),
        ),
    }
}

/// Whether `r` may come of the steps of a run that told of the rows `calls`, one after the
/// other: the rows of all its choices in their order, or the error of the first step that
/// fails. Each row is in one call, in the order of the steps.
pub open spec fn steps_made<A: EngineAdapter, C: Fn() -> u64, F: Fn(Ratio) -> String>(
    adapters: Seq<A>,
    positions: Seq<JsonView>,
    steps: Seq<AgreementStep>,
    cpu_clock: C,
    write: F,
    calls: Seq<JsonView>,
    r: Result<Seq<JsonView>, Seq<char>>,
) -> bool {
    match r {
        Ok(rows) => {
            &&& rows_made(adapters, positions, steps, steps.len() as int, cpu_clock, write, rows)
            &&& calls == rows
        },
        Err(e) => exists|n: int|
            {
                &&& 0 <= n < steps.len()
                &&& #[trigger] rows_made(adapters, positions, steps, n, cpu_clock, write, calls)
                &&& step_fails(adapters, positions, steps[n], cpu_clock, write, e)
            },
    }
}

/// Whether a step speaks of a position and an engine that there are.
pub open spec fn in_bounds(step: AgreementStep, positions: int, engines: int) -> bool {
    match step {
        AgreementStep::Check { position } => position < positions,
        AgreementStep::Choose { position, engine, seed } => position < positions && engine
            < engines,
    }
}

proof fn lemma_engine_in_bounds(
    c: Contender,
    e: int,
    p: int,
    id: Seq<char>,
    seeds: Seq<u64>,
    skip: Seq<RunKey>,
    m: int,
)
    requires
        0 <= e <= usize::MAX,
        0 <= p <= usize::MAX,
    ensures
        forall|i: int|
            0 <= i < engine_steps(c, e, p, id, seeds, skip, m).len() ==> in_bounds(
                #[trigger] engine_steps(c, e, p, id, seeds, skip, m)[i],
                p + 1,
                e + 1,
            ),
    decreases m,
{
    if m > 0 {
        lemma_engine_in_bounds(c, e, p, id, seeds, skip, m - 1);
        let before = engine_steps(c, e, p, id, seeds, skip, m - 1);
        let now = engine_steps(c, e, p, id, seeds, skip, m);
        assert forall|i: int| 0 <= i < now.len() implies in_bounds(
            #[trigger] now[i],
            p + 1,
            e + 1,
        ) by {
            if i < before.len() {
                assert(now[i] == before[i]);
            }
        }
    }
}

proof fn lemma_engines_in_bounds(
    cs: Seq<Contender>,
    p: int,
    id: Seq<char>,
    seeds: Seq<u64>,
    skip: Seq<RunKey>,
    n: int,
)
    requires
        0 <= n <= cs.len() <= usize::MAX,
        0 <= p <= usize::MAX,
    ensures
        forall|i: int|
            0 <= i < engines_steps(cs, p, id, seeds, skip, n).len() ==> in_bounds(
                #[trigger] engines_steps(cs, p, id, seeds, skip, n)[i],
                p + 1,
                n,
            ),
    decreases n,
{
    if n > 0 {
        lemma_engines_in_bounds(cs, p, id, seeds, skip, n - 1);
        let m = seed_count(cs[n - 1], seeds);
        lemma_engine_in_bounds(cs[n - 1], n - 1, p, id, seeds, skip, m);
        let before = engines_steps(cs, p, id, seeds, skip, n - 1);
        let last = engine_steps(cs[n - 1], n - 1, p, id, seeds, skip, m);
        let all = engines_steps(cs, p, id, seeds, skip, n);
        assert forall|i: int| 0 <= i < all.len() implies in_bounds(#[trigger] all[i], p + 1, n) by {
            if i < before.len() {
                assert(all[i] == before[i]);
            } else {
                assert(all[i] == last[i - before.len()]);
            }
        }
    }
}

/// The steps of a run speak of positions and engines that there are.
pub proof fn law_steps_in_bounds(
    cs: Seq<Contender>,
    positions: Seq<JsonView>,
    seeds: Seq<u64>,
    skip: Seq<RunKey>,
    n: int,
)
    requires
        cs.len() <= usize::MAX,
        0 <= n <= positions.len() <= usize::MAX,
    ensures
        forall|i: int|
            0 <= i < steps_of(cs, positions, seeds, skip, n).len() ==> in_bounds(
                #[trigger] steps_of(cs, positions, seeds, skip, n)[i],
                n,
                cs.len() as int,
            ),
    decreases n,
{
    if n > 0 {
        law_steps_in_bounds(cs, positions, seeds, skip, n - 1);
        let id = text_or(positions[n - 1], "id"@, ""@);
        lemma_engines_in_bounds(cs, n - 1, id, seeds, skip, cs.len() as int);
        let before = steps_of(cs, positions, seeds, skip, n - 1);
        let check = seq![AgreementStep::Check { position: (n - 1) as usize }];
        let chosen = engines_steps(cs, n - 1, id, seeds, skip, cs.len() as int);
        let all = steps_of(cs, positions, seeds, skip, n);
        assert forall|i: int| 0 <= i < all.len() implies in_bounds(
            #[trigger] all[i],
            n,
            cs.len() as int,
        ) by {
            if i < before.len() {
                assert(all[i] == before[i]);
            } else if i == before.len() {
                assert(all[i] == check[0]);
            } else {
                assert(all[i] == chosen[i - before.len() - 1]);
            }
        }
    }
}

/// Let every engine choose in every position of a dataset, but for the runs in `skip`.
/// The rows come in the order of the steps, and `on_row` is told of each, once, when it is made.
/// The run ends with the first position that has no board, or the first choice that fails.
pub fn run_agreement<A: EngineAdapter, C: Fn() -> u64, F: Fn(Ratio) -> String, G: Fn(&Json)>(
    adapters: &Vec<A>,
    payload: &Json,
    seeds: &Vec<u64>,
    skip: &Vec<RunKey>,
    cpu_clock: &C,
    write: &F,
    on_row: &mut Listener<G>,
) -> (r: Result<Vec<Json>, String>)
    requires
        forall|i: int| 0 <= i < adapters@.len() ==> (#[trigger] adapters@[i]).ready(),
        call_requires(*cpu_clock, ()),
        forall|q: Ratio| #[trigger] call_requires(*write, (q,)),
        forall|j: &Json| #[trigger] call_requires(old(on_row).function(), (j,)),
    ensures
        final(on_row).function() == old(on_row).function(),
        old(on_row).heard().is_prefix_of(final(on_row).heard()),
        match run_complaint(payload.view(), seeds@) {
            Some(e) => {
                &&& r matches Err(m) && m@ == e
                &&& final(on_row).heard() == old(on_row).heard()
            },
            None => exists|cs: Seq<Contender>| #[trigger]
                describes(cs, adapters@) && {
                    let positions = at(payload.view(), "positions"@)->Array_0;
                    steps_made(
                        adapters@,
                        positions,
                        steps_of(cs, positions, seeds@, skip@, positions.len() as int),
                        *cpu_clock,
                        *write,
                        calls_between(old(on_row).heard(), final(on_row).heard()),
                        rows_result(r),
                    )
                },
        },
{
    let contenders = contenders_of(adapters);
    let steps = match agreement_steps(&contenders, payload, seeds, skip) {
        Ok(steps) => steps,
        Err(m) => return Err(m),
    };
    let none: Vec<Json> = Vec::new();
    let positions = match payload.get("positions") {
        Some(v) => match v {
            Json::Array(items) => items,
            _ => &none,
        },
        None => &none,
    };
    let ghost views = at(payload.view(), "positions"@)->Array_0;
    proof {
        assert(items_view(positions@) == views);
        assert(positions@.len() == positions.len());
        assert(contenders@.len() == contenders.len());
        law_steps_in_bounds(contenders@, views, seeds@, skip@, views.len() as int);
    }
    let ghost heard = on_row.heard();
    let mut rows: Vec<Json> = Vec::new();
    assert(items_view(rows@) =~= Seq::empty());
    assert(heard + Seq::<JsonView>::empty() =~= heard);
    let mut i: usize = 0;
    while i < steps.len()
        invariant
            i <= steps@.len(),
            heard == old(on_row).heard(),
            on_row.function() == old(on_row).function(),
            on_row.heard() == heard + items_view(rows@),
            views == items_view(positions@),
            views.len() == positions@.len(),
            describes(contenders@, adapters@),
            forall|k: int| 0 <= k < adapters@.len() ==> (#[trigger] adapters@[k]).ready(),
            call_requires(*cpu_clock, ()),
            forall|q: Ratio| #[trigger] call_requires(*write, (q,)),
            forall|j: &Json| #[trigger] call_requires(old(on_row).function(), (j,)),
            forall|k: int|
                0 <= k < steps@.len() ==> in_bounds(
                    #[trigger] steps@[k],
                    views.len() as int,
                    contenders@.len() as int,
                ),
            rows_made(adapters@, views, steps@, i as int, *cpu_clock, *write, items_view(rows@)),
            views == at(payload.view(), "positions"@)->Array_0,
            steps@ == steps_of(contenders@, views, seeds@, skip@, views.len() as int),
            run_complaint(payload.view(), seeds@) is None,
        decreases steps@.len() - i,
    {
        assert(in_bounds(steps@[i as int], views.len() as int, contenders@.len() as int));
        let ghost before = items_view(rows@);
        assert(calls_between(heard, heard + before) =~= before);
        match steps[i] {
            AgreementStep::Check { position } => {
                assert(views[position as int] == positions@[position as int].view());
                if let Err(m) = board_of(&positions[position]) {
                    proof {
                        assert(step_fails(
                            adapters@,
                            views,
                            steps@[i as int],
                            *cpu_clock,
                            *write,
                            m@,
                        ));
                        assert(rows_made(
                            adapters@,
                            views,
                            steps@,
                            i as int,
                            *cpu_clock,
                            *write,
                            before,
                        ));
                        assert(describes(contenders@, adapters@));
                    }
                    return Err(m);
                }
            },
            AgreementStep::Choose { position, engine, seed } => {
                assert(views[position as int] == positions@[position as int].view());
                let made = run_step(&adapters[engine], &positions[position], seed, cpu_clock, write);
                let row = match made {
                    Ok(row) => row,
                    Err(m) => {
                        proof {
                            assert(step_fails(
                                adapters@,
                                views,
                                steps@[i as int],
                                *cpu_clock,
                                *write,
                                m@,
                            ));
                            assert(rows_made(
                                adapters@,
                                views,
                                steps@,
                                i as int,
                                *cpu_clock,
                                *write,
                                before,
                            ));
                            assert(describes(contenders@, adapters@));
                        }
                        return Err(m);
                    },
                };
                let ghost shown = row.view();
                on_row.tell(&row);
                rows.push(row);
                proof {
                    assert((heard + before).push(shown) =~= heard + before.push(shown));
                    assert(items_view(rows@) =~= before.push(shown));
                    assert(before.push(shown).drop_last() =~= before);
                }
            },
        }
        i = i + 1;
    }
    assert(describes(contenders@, adapters@));
    assert(calls_between(heard, heard + items_view(rows@)) =~= items_view(rows@));
    Ok(rows)
}

/// Whether a run of steps may have stopped with the error `e` after `rows` of its first `n`
/// steps, when `done` had been called with `calls`, one after the other: the step fails, or
/// its row is refused.
pub open spec fn steps_stopped<
    A: EngineAdapter,
    C: Fn() -> u64,
    F: Fn(Ratio) -> String,
    G: Fn(&Json) -> Result<(), String>,
>(
    adapters: Seq<A>,
    positions: Seq<JsonView>,
    steps: Seq<AgreementStep>,
    n: int,
    cpu_clock: C,
    write: F,
    done: G,
    rows: Seq<JsonView>,
    calls: Seq<JsonView>,
    e: Seq<char>,
) -> bool {
    &&& 0 <= n < steps.len()
    &&& rows_made(adapters, positions, steps, n, cpu_clock, write, rows)
    &&& each_taken(done, rows)
    &&& (step_fails(adapters, positions, steps[n], cpu_clock, write, e) && calls == rows) || exists|
        v: JsonView,
    | #[trigger]
        refuses(done, v, e) && calls == rows.push(v) && rows_made(
            adapters,
            positions,
            steps,
            n + 1,
            cpu_clock,
            write,
            rows.push(v),
        )
}

/// Whether `done` may take each of the rows.
pub open spec fn each_taken<G: Fn(&Json) -> Result<(), String>>(
    done: G,
    rows: Seq<JsonView>,
) -> bool {
    forall|i: int| 0 <= i < rows.len() ==> takes(done, #[trigger] rows[i])
}

/// Whether `r` may come of a run of steps that called `done` with `calls`, one after the
/// other: the rows of all its choices in their order, or the error of the first step that
/// fails or whose row is refused. Each row is in one call, in the order of the steps.
pub open spec fn steps_handed_on<
    A: EngineAdapter,
    C: Fn() -> u64,
    F: Fn(Ratio) -> String,
    G: Fn(&Json) -> Result<(), String>,
>(
    adapters: Seq<A>,
    positions: Seq<JsonView>,
    steps: Seq<AgreementStep>,
    cpu_clock: C,
    write: F,
    done: G,
    calls: Seq<JsonView>,
    r: Result<Seq<JsonView>, Seq<char>>,
) -> bool {
    match r {
        Ok(rows) => {
            &&& rows_made(adapters, positions, steps, steps.len() as int, cpu_clock, write, rows)
            &&& each_taken(done, rows)
            &&& calls == rows
        },
        Err(e) => exists|n: int, rows: Seq<JsonView>|
            steps_stopped(
                adapters,
                positions,
                steps,
                n,
                cpu_clock,
                write,
                done,
                rows,
                calls,
                e,
            ),
    }
}

/// Take the steps of a run one by one. `on_row` is told of each row, once, when it is made,
/// and the run ends with the first step that fails or the first row that `on_row` refuses.
pub fn run_steps<
    A: EngineAdapter,
    C: Fn() -> u64,
    F: Fn(Ratio) -> String,
    G: Fn(&Json) -> Result<(), String>,
>(
    adapters: &Vec<A>,
    positions: &Vec<Json>,
    steps: &Vec<AgreementStep>,
    cpu_clock: &C,
    write: &F,
    on_row: &mut Listener<G>,
) -> (r: Result<Vec<Json>, String>)
    requires
        forall|i: int| 0 <= i < adapters@.len() ==> (#[trigger] adapters@[i]).ready(),
        forall|i: int|
            0 <= i < steps@.len() ==> in_bounds(
                #[trigger] steps@[i],
                positions@.len() as int,
                adapters@.len() as int,
            ),
        call_requires(*cpu_clock, ()),
        forall|q: Ratio| #[trigger] call_requires(*write, (q,)),
        forall|j: &Json| #[trigger] call_requires(old(on_row).function(), (j,)),
    ensures
        final(on_row).function() == old(on_row).function(),
        old(on_row).heard().is_prefix_of(final(on_row).heard()),
        steps_handed_on(
            adapters@,
            items_view(positions@),
            steps@,
            *cpu_clock,
            *write,
            old(on_row).function(),
            calls_between(old(on_row).heard(), final(on_row).heard()),
            rows_result(r),
        ),
{
    let ghost views = items_view(positions@);
    let ghost heard = on_row.heard();
    let ghost done = on_row.function();
    let mut rows: Vec<Json> = Vec::new();
    assert(items_view(rows@) =~= Seq::empty());
    assert(heard + Seq::<JsonView>::empty() =~= heard);
    let mut i: usize = 0;
    while i < steps.len()
        invariant
            i <= steps@.len(),
            views == items_view(positions@),
            views.len() == positions@.len(),
            heard == old(on_row).heard(),
            done == old(on_row).function(),
            on_row.function() == done,
            on_row.heard() == heard + items_view(rows@),
            forall|k: int| 0 <= k < adapters@.len() ==> (#[trigger] adapters@[k]).ready(),
            forall|k: int|
                0 <= k < steps@.len() ==> in_bounds(
                    #[trigger] steps@[k],
                    positions@.len() as int,
                    adapters@.len() as int,
                ),
            call_requires(*cpu_clock, ()),
            forall|q: Ratio| #[trigger] call_requires(*write, (q,)),
            forall|j: &Json| #[trigger] call_requires(done, (j,)),
            rows_made(
                adapters@,
                views,
                steps@,
                i as int,
                *cpu_clock,
                *write,
                items_view(rows@),
            ),
            each_taken(done, items_view(rows@)),
        decreases steps@.len() - i,
    {
        assert(in_bounds(steps@[i as int], positions@.len() as int, adapters@.len() as int));
        let ghost before = items_view(rows@);
        assert(calls_between(heard, heard + before) =~= before);
        let made = match steps[i] {
            AgreementStep::Check { position } => {
                assert(views[position as int] == positions@[position as int].view());
                match board_of(&positions[position]) {
                    Ok(_) => Ok(None),
                    Err(m) => Err(m),
                }
            },
            AgreementStep::Choose { position, engine, seed } => {
                assert(views[position as int] == positions@[position as int].view());
                match run_step(&adapters[engine], &positions[position], seed, cpu_clock, write) {
                    Ok(row) => Ok(Some(row)),
                    Err(m) => Err(m),
                }
            },
        };
        let row = match made {
            Ok(row) => row,
            Err(m) => {
                let failed: Result<Vec<Json>, String> = Err(m);
                assert(steps_stopped(
                    adapters@,
                    views,
                    steps@,
                    i as int,
                    *cpu_clock,
                    *write,
                    done,
                    before,
                    before,
                    rows_result(failed)->Err_0,
                ));
                return failed;
            },
        };
        if let Some(row) = row {
            let ghost shown = row.view();
            let told = hand_on(&mut rows, row, on_row);
            proof {
                assert((heard + before).push(shown) =~= heard + before.push(shown));
                assert(calls_between(heard, heard + before.push(shown)) =~= before.push(shown));
                assert(before.push(shown).drop_last() =~= before);
                assert(before.push(shown).last() == shown);
                assert(rows_made(
                    adapters@,
                    views,
                    steps@,
                    i + 1,
                    *cpu_clock,
                    *write,
                    before.push(shown),
                ));
            }
            if let Err(m) = told {
                assert(refuses(done, shown, m@));
                let failed: Result<Vec<Json>, String> = Err(m);
                assert(steps_stopped(
                    adapters@,
                    views,
                    steps@,
                    i as int,
                    *cpu_clock,
                    *write,
                    done,
                    before,
                    before.push(shown),
                    rows_result(failed)->Err_0,
                ));
                return failed;
            }
        }
        i = i + 1;
    }
    assert(calls_between(heard, heard + items_view(rows@)) =~= items_view(rows@));
    Ok(rows)
}

/// A row carries the key of its run.
pub proof fn law_row_key(o: MoveObservation, score: JsonView, position: JsonView, mv: Seq<char>)
    ensures
        row_run(row_view(observation_view(o, score), position, mv)) == (
            o.engine@,
            o.config_label@,
            o.position_id@,
            o.seed,
        ),
{
    reveal_strlit("config_label");
    reveal_strlit("cpu_time_s");
    reveal_strlit("depth_reached");
    reveal_strlit("engine");
    reveal_strlit("exact");
    reveal_strlit("extra");
    reveal_strlit("iterations");
    reveal_strlit("move");
    reveal_strlit("nodes");
    reveal_strlit("peak_memory_bytes");
    reveal_strlit("position_id");
    reveal_strlit("root_legal_moves");
    reveal_strlit("score");
    reveal_strlit("seed");
    reveal_strlit("phase");
    reveal_strlit("hit");
    assert("config_label"@.len() == 12 && "cpu_time_s"@.len() == 10 && "depth_reached"@.len() == 13);
    assert("engine"@.len() == 6 && "exact"@.len() == 5 && "extra"@.len() == 5);
    assert("iterations"@.len() == 10 && "move"@.len() == 4 && "nodes"@.len() == 5);
    assert("peak_memory_bytes"@.len() == 17 && "position_id"@.len() == 11);
    assert("root_legal_moves"@.len() == 16 && "score"@.len() == 5 && "seed"@.len() == 4);
    assert("phase"@.len() == 5 && "hit"@.len() == 3);
    assert("seed"@[0] != "move"@[0]);
    let members = observation_view(o, score)->Object_0;
    lemma_member_at(members, "config_label"@, 0);
    lemma_member_at(members, "engine"@, 3);
    lemma_member_at(members, "position_id"@, 10);
    lemma_member_at(members, "seed"@, 13);
    let phase = at(position, "phase"@);
    let with_phase = with_member(members, "phase"@, phase);
    lemma_without_with(members, "phase"@, phase);
    lemma_without_with(with_phase, "hit"@, hit_view(position, mv));
    assert(members_of(observation_view(o, score)) == members);
    let row = row_view(observation_view(o, score), position, mv);
    assert(row.get("engine"@) == Some(JsonView::Text(o.engine@)));
    assert(row.get("config_label"@) == Some(JsonView::Text(o.config_label@)));
    assert(row.get("position_id"@) == Some(JsonView::Text(o.position_id@)));
    assert(row.get("seed"@) == Some(number_or_null(o.seed)));
}

/// Whether no choice among the steps is left out.
spec fn all_new(
    cs: Seq<Contender>,
    positions: Seq<JsonView>,
    skip: Seq<RunKey>,
    steps: Seq<AgreementStep>,
) -> bool {
    forall|i: int| 0 <= i < steps.len() ==> is_new(cs, positions, skip, #[trigger] steps[i])
}

/// Whether a step is no choice that is left out.
pub open spec fn is_new(
    cs: Seq<Contender>,
    positions: Seq<JsonView>,
    skip: Seq<RunKey>,
    step: AgreementStep,
) -> bool {
    match step {
        AgreementStep::Check { position } => true,
        AgreementStep::Choose { position, engine, seed } => !left_out(
            skip,
            (
                cs[engine as int].name@,
                cs[engine as int].config_label@,
                text_or(positions[position as int], "id"@, ""@),
                Some(seed),
            ),
        ),
    }
}

/// The choice of an engine in a position with a seed.
pub open spec fn choice_of(p: int, e: int, seed: u64) -> AgreementStep {
    AgreementStep::Choose { position: p as usize, engine: e as usize, seed }
}

proof fn lemma_new_join(
    cs: Seq<Contender>,
    positions: Seq<JsonView>,
    skip: Seq<RunKey>,
    x: Seq<AgreementStep>,
    y: Seq<AgreementStep>,
)
    requires
        all_new(cs, positions, skip, x),
        all_new(cs, positions, skip, y),
    ensures
        all_new(cs, positions, skip, x + y),
        forall|t: AgreementStep| x.contains(t) || y.contains(t) ==> #[trigger] (x + y).contains(t),
{
    let z = x + y;
    assert forall|i: int| 0 <= i < z.len() implies is_new(
        cs,
        positions,
        skip,
        #[trigger] z[i],
    ) by {
        if i < x.len() {
            assert(z[i] == x[i]);
        } else {
            assert(z[i] == y[i - x.len()]);
        }
    }
    assert forall|t: AgreementStep| x.contains(t) || y.contains(t) implies #[trigger] z.contains(
        t,
    ) by {
        if x.contains(t) {
            let i = choose|i: int| 0 <= i < x.len() && x[i] == t;
            assert(z[i] == t);
        } else {
            let i = choose|i: int| 0 <= i < y.len() && y[i] == t;
            assert(z[x.len() + i] == t);
        }
    }
}

proof fn lemma_engine_new(
    cs: Seq<Contender>,
    positions: Seq<JsonView>,
    e: int,
    p: int,
    seeds: Seq<u64>,
    skip: Seq<RunKey>,
    m: int,
)
    requires
        0 <= e < cs.len() <= usize::MAX,
        0 <= p < positions.len() <= usize::MAX,
    ensures
        ({
            let id = text_or(positions[p], "id"@, ""@);
            let steps = engine_steps(cs[e], e, p, id, seeds, skip, m);
            &&& all_new(cs, positions, skip, steps)
            &&& forall|k: int|
                #![trigger choice_of(p, e, seeds[k])]
                0 <= k < m && is_new(cs, positions, skip, choice_of(p, e, seeds[k]))
                    ==> steps.contains(choice_of(p, e, seeds[k]))
        }),
    decreases m,
{
    let id = text_or(positions[p], "id"@, ""@);
    let steps = engine_steps(cs[e], e, p, id, seeds, skip, m);
    if m > 0 {
        lemma_engine_new(cs, positions, e, p, seeds, skip, m - 1);
        let before = engine_steps(cs[e], e, p, id, seeds, skip, m - 1);
        let last = choice_of(p, e, seeds[m - 1]);
        let more = if is_new(cs, positions, skip, last) {
            seq![last]
        } else {
            Seq::<AgreementStep>::empty()
        };
        assert(steps =~= before + more);
        lemma_new_join(cs, positions, skip, before, more);
        assert forall|k: int|
            #![trigger choice_of(p, e, seeds[k])]
            0 <= k < m && is_new(cs, positions, skip, choice_of(p, e, seeds[k])) implies steps.contains(
            choice_of(p, e, seeds[k]),
        ) by {
            if k == m - 1 {
                assert(more[0] == last);
                assert(more.contains(last));
            }
            assert((before + more).contains(choice_of(p, e, seeds[k])));
        }
    }
}

proof fn lemma_engines_new(
    cs: Seq<Contender>,
    positions: Seq<JsonView>,
    p: int,
    seeds: Seq<u64>,
    skip: Seq<RunKey>,
    n: int,
)
    requires
        0 <= n <= cs.len() <= usize::MAX,
        0 <= p < positions.len() <= usize::MAX,
    ensures
        ({
            let id = text_or(positions[p], "id"@, ""@);
            let steps = engines_steps(cs, p, id, seeds, skip, n);
            &&& all_new(cs, positions, skip, steps)
            &&& forall|e: int, k: int|
                #![trigger choice_of(p, e, seeds[k])]
                0 <= e < n && 0 <= k < seed_count(cs[e], seeds) && is_new(
                    cs,
                    positions,
                    skip,
                    choice_of(p, e, seeds[k]),
                ) ==> steps.contains(choice_of(p, e, seeds[k]))
        }),
    decreases n,
{
    let id = text_or(positions[p], "id"@, ""@);
    let steps = engines_steps(cs, p, id, seeds, skip, n);
    if n > 0 {
        lemma_engines_new(cs, positions, p, seeds, skip, n - 1);
        let m = seed_count(cs[n - 1], seeds);
        lemma_engine_new(cs, positions, n - 1, p, seeds, skip, m);
        let x = engines_steps(cs, p, id, seeds, skip, n - 1);
        let y = engine_steps(cs[n - 1], n - 1, p, id, seeds, skip, m);
        lemma_new_join(cs, positions, skip, x, y);
        assert forall|e: int, k: int|
            #![trigger choice_of(p, e, seeds[k])]
            0 <= e < n && 0 <= k < seed_count(cs[e], seeds) && is_new(
                cs,
                positions,
                skip,
                choice_of(p, e, seeds[k]),
            ) implies steps.contains(choice_of(p, e, seeds[k])) by {
            assert(x.contains(choice_of(p, e, seeds[k])) || y.contains(choice_of(p, e, seeds[k])));
            assert((x + y).contains(choice_of(p, e, seeds[k])));
        }
    }
}

/// A run makes exactly the choices that are not left out: none that is left out is among
/// its steps, and every other choice of an engine in a position with one of its seeds is.
pub proof fn law_the_choices_left_are_made(
    cs: Seq<Contender>,
    positions: Seq<JsonView>,
    seeds: Seq<u64>,
    skip: Seq<RunKey>,
    n: int,
)
    requires
        cs.len() <= usize::MAX,
        0 <= n <= positions.len() <= usize::MAX,
    ensures
        ({
            let steps = steps_of(cs, positions, seeds, skip, n);
            &&& forall|i: int|
                0 <= i < steps.len() ==> is_new(cs, positions, skip, #[trigger] steps[i])
            &&& forall|p: int, e: int, k: int|
                #![trigger choice_of(p, e, seeds[k])]
                0 <= p < n && 0 <= e < cs.len() && 0 <= k < seed_count(cs[e], seeds) && is_new(
                    cs,
                    positions,
                    skip,
                    choice_of(p, e, seeds[k]),
                ) ==> steps.contains(choice_of(p, e, seeds[k]))
        }),
    decreases n,
{
    let steps = steps_of(cs, positions, seeds, skip, n);
    if n > 0 {
        law_the_choices_left_are_made(cs, positions, seeds, skip, n - 1);
        lemma_engines_new(cs, positions, n - 1, seeds, skip, cs.len() as int);
        let id = text_or(positions[n - 1], "id"@, ""@);
        let x = steps_of(cs, positions, seeds, skip, n - 1);
        let check = seq![AgreementStep::Check { position: (n - 1) as usize }];
        let y = engines_steps(cs, n - 1, id, seeds, skip, cs.len() as int);
        assert(all_new(cs, positions, skip, x));
        assert(all_new(cs, positions, skip, check));
        lemma_new_join(cs, positions, skip, x, check);
        lemma_new_join(cs, positions, skip, x + check, y);
        assert(all_new(cs, positions, skip, steps));
        assert forall|p: int, e: int, k: int|
            #![trigger choice_of(p, e, seeds[k])]
            0 <= p < n && 0 <= e < cs.len() && 0 <= k < seed_count(cs[e], seeds) && is_new(
                cs,
                positions,
                skip,
                choice_of(p, e, seeds[k]),
            ) implies steps.contains(choice_of(p, e, seeds[k])) by {
            let t = choice_of(p, e, seeds[k]);
            if p == n - 1 {
                assert(y.contains(t));
            } else {
                assert(x.contains(t));
                assert((x + check).contains(t));
            }
            assert((x + check + y).contains(t));
        }
    }
}

} // verus!
