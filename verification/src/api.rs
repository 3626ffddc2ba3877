//! Requests for a move: what is wrong with them, and the answers of the engines.
use crate::beam_search::{
    config_complaint, leaf_ok, root_complaint, same_leaf, BeamSearchConfig, BeamSearchEngine,
    BeamSearchResult,
};
use crate::beam_trace::{best_leaf_gives, law_beam_searches_agree, searched_by_playouts};
use crate::bench::actions::{
    action_legal, law_mask_marks_legal_actions, legal_action_mask, mask_bit, mask_holds, mask_of,
};
use crate::bench::fields::{concat, concat4};
use crate::clock::{spent_since, start_clock, took, whole_millis};
use crate::constants::PACKAGE_VERSION;
use crate::game::{to_move, won};
use crate::game_value::finished;
use crate::mcts::{MCTSConfig, MCTSEngine};
use crate::mcts_trace::{chooses, gives_one_value, law_searches_agree, GrownTree};
use crate::minimax_trace::{law_minimax_searches_agree, ran_in_time, ran_to, tie_breaker};
use crate::minimax::{deterministic_best, result_ok, MinimaxConfig, MinimaxEngine, MinimaxResult};
use crate::moves::{
    action_of, generate_legal_moves, legal_move, legal_moves, lemma_legal_moves, Move,
};
use crate::rng::starts_from;
use crate::qfen::{is_qfen, qfen_board, qfen_complaint};
use crate::search_telemetry::Ratio;
use crate::state::State;
use crate::text::{debug_form, debug_text, decimal, decimal_text, same_text};
use rand::rngs::StdRng;
use vstd::prelude::*;
use vstd::string::*;

verus! {

pub const REQUEST_SCHEMA: &'static str = "quantik.engine-request.v1";

pub const RESPONSE_SCHEMA: &'static str = "quantik.engine-response.v1";

/// The limits that a request may set on a search.
#[derive(Clone, Copy, Debug)]
pub struct SearchConfig {
    pub max_depth: Option<u32>,
    pub time_limit_ms: Option<u64>,
    pub iterations: Option<u32>,
    pub beam_width: Option<usize>,
    pub rollouts: Option<u32>,
    pub seed: Option<u64>,
}

impl Default for SearchConfig {
    fn default() -> (c: Self)
        ensures
            c == (SearchConfig {
                max_depth: None,
                time_limit_ms: None,
                iterations: None,
                beam_width: None,
                rollouts: None,
                seed: None,
            }),
    {
        Self {
            max_depth: None,
            time_limit_ms: None,
            iterations: None,
            beam_width: None,
            rollouts: None,
            seed: None,
        }
    }
}

/// A request for a move: the position, and what the caller believes of it.
#[derive(Clone, Debug)]
pub struct MoveRequest {
    pub schema: String,
    pub qfen: String,
    pub side_to_move: u8,
    pub legal_action_indices: Vec<u8>,
    pub config: SearchConfig,
}

/// The move that an engine chose.
#[derive(Debug)]
pub struct MoveResponse {
    pub schema: &'static str,
    pub action_index: u8,
    pub engine_kind: String,
    pub engine_version: &'static str,
    pub elapsed_ms: u64,
    /// The value for the side to move, from minus one to one, if the engine
    /// estimates it.
    pub value: Option<Ratio>,
}

/// How a request fails.
#[derive(Clone, Copy, Debug, PartialEq, Eq, Structural)]
pub enum Failure {
    BadRequest,
    Unprocessable,
    NotFound,
    Internal,
}

#[derive(Debug)]
pub struct ApiError {
    pub status: Failure,
    pub message: String,
}

impl ApiError {
    /// The status and the message.
    pub open spec fn content(self) -> (Failure, Seq<char>) {
        (self.status, self.message@)
    }

    pub fn bad_request(message: String) -> (e: Self)
        ensures
            e.content() == (Failure::BadRequest, message@),
    {
        Self { status: Failure::BadRequest, message }
    }

    pub fn unprocessable(message: String) -> (e: Self)
        ensures
            e.content() == (Failure::Unprocessable, message@),
    {
        Self { status: Failure::Unprocessable, message }
    }

    pub fn not_found(message: String) -> (e: Self)
        ensures
            e.content() == (Failure::NotFound, message@),
    {
        Self { status: Failure::NotFound, message }
    }

    pub fn internal(message: String) -> (e: Self)
        ensures
            e.content() == (Failure::Internal, message@),
    {
        Self { status: Failure::Internal, message }
    }
}

/// Whether there is an engine of this name.
pub open spec fn known_engine(name: Seq<char>) -> bool {
    name == "minimax"@ || name == "mcts"@ || name == "beam"@
}

/// The names of the engines.
pub fn engine_kinds() -> (kinds: Vec<&'static str>)
    ensures
        kinds@ == seq!["minimax", "mcts", "beam"],
        forall|name: Seq<char>|
            #[trigger] known_engine(name) <==> exists|i: int|
                0 <= i < kinds@.len() && (#[trigger] kinds@[i])@ == name,
{
    let kinds: Vec<&'static str> = vec!["minimax", "mcts", "beam"];
    proof {
        assert(kinds@ =~= seq!["minimax", "mcts", "beam"]);
        assert forall|name: Seq<char>|
            #[trigger] known_engine(name) implies exists|i: int|
                0 <= i < kinds@.len() && (#[trigger] kinds@[i])@ == name by {
            if name == "minimax"@ {
                assert(kinds@[0]@ == name);
            } else if name == "mcts"@ {
                assert(kinds@[1]@ == name);
            } else {
                assert(kinds@[2]@ == name);
            }
        }
    }
    kinds
}

/// What is wrong with the form of a request.
pub open spec fn form_complaint(r: MoveRequest) -> Option<Seq<char>> {
    if r.schema@ != REQUEST_SCHEMA@ {
        Some("schema must be quantik.engine-request.v1"@)
    } else if r.side_to_move > 1 {
        Some("side_to_move must be 0 or 1"@)
    } else if exists|i: int|
        0 <= i < r.legal_action_indices@.len() && #[trigger] r.legal_action_indices@[i] > 63 {
        Some("legal_action_indices must contain values from 0 through 63"@)
    } else {
        None
    }
}

/// Check the form of a request.
pub fn validate_request(request: &MoveRequest) -> (r: Result<(), ApiError>)
    ensures
        match form_complaint(*request) {
            None => r is Ok,
            Some(m) => r matches Err(e) && e.content() == (Failure::BadRequest, m),
        },
{
    if !same_text(request.schema.as_str(), REQUEST_SCHEMA) {
        return Err(
            ApiError::bad_request("schema must be quantik.engine-request.v1".to_owned()),
        );
    }
    if request.side_to_move > 1 {
        return Err(ApiError::bad_request("side_to_move must be 0 or 1".to_owned()));
    }
    let actions = &request.legal_action_indices;
    let mut i: usize = 0;
    while i < actions.len()
        invariant
            i <= actions@.len(),
            *actions == request.legal_action_indices,
            request.schema@ == REQUEST_SCHEMA@,
            request.side_to_move <= 1,
            forall|k: int| 0 <= k < i ==> #[trigger] actions@[k] <= 63,
        decreases actions@.len() - i,
    {
        if actions[i] > 63 {
            assert(request.legal_action_indices@[i as int] > 63);
            return Err(
                ApiError::bad_request(
                    "legal_action_indices must contain values from 0 through 63".to_owned(),
                ),
            );
        }
        i = i + 1;
    }
    Ok(())
}

/// Whether the listed actions are the legal ones, each listed at least once and
/// in any order.
pub open spec fn lists_legal_actions(b: Seq<u16>, actions: Seq<u8>) -> bool {
    forall|a: u8| #[trigger] actions.contains(a) <==> a < 64 && action_legal(b, a as int)
}

fn holds(actions: &Vec<u8>, a: u8) -> (r: bool)
    ensures
        r <==> actions@.contains(a),
{
    let mut i: usize = 0;
    while i < actions.len()
        invariant
            i <= actions@.len(),
            forall|k: int| 0 <= k < i ==> #[trigger] actions@[k] != a,
        decreases actions@.len() - i,
    {
        if actions[i] == a {
            return true;
        }
        i = i + 1;
    }
    false
}

fn actions_match(mask: u64, actions: &Vec<u8>, Ghost(b): Ghost<Seq<u16>>) -> (r: bool)
    requires
        mask == mask_of(b),
    ensures
        r <==> lists_legal_actions(b, actions@),
{
    proof {
        law_mask_marks_legal_actions(b);
    }
    let mut i: usize = 0;
    while i < actions.len()
        invariant
            i <= actions@.len(),
            forall|a: int| 0 <= a < 64 ==> (#[trigger] mask_bit(mask, a) <==> action_legal(b, a)),
            forall|k: int|
                0 <= k < i ==> #[trigger] actions@[k] < 64 && action_legal(b, actions@[k] as int),
        decreases actions@.len() - i,
    {
        let a: u8 = actions[i];
        assert(actions@.contains(a));
        if a >= 64 || !mask_holds(mask, a) {
            return false;
        }
        i = i + 1;
    }
    let mut a: u8 = 0;
    while a < 64
        invariant
            a <= 64,
            forall|a: int| 0 <= a < 64 ==> (#[trigger] mask_bit(mask, a) <==> action_legal(b, a)),
            forall|c: u8| c < a && action_legal(b, c as int) ==> #[trigger] actions@.contains(c),
        decreases 64 - a,
    {
        if mask_holds(mask, a) && !holds(actions, a) {
            return false;
        }
        a = a + 1;
    }
    true
}

/// The value, or `otherwise` if there is none, brought into the range from `lo`
/// to `hi`.
pub open spec fn limited(value: Option<int>, otherwise: int, lo: int, hi: int) -> int {
    let v = match value {
        Some(v) => v,
        None => otherwise,
    };
    if v < lo {
        lo
    } else if v > hi {
        hi
    } else {
        v
    }
}

pub open spec fn number(value: Option<u32>) -> Option<int> {
    match value {
        Some(v) => Some(v as int),
        None => None,
    }
}

fn limit(value: Option<u32>, otherwise: u32, lo: u32, hi: u32) -> (r: u32)
    requires
        lo <= hi,
    ensures
        r == limited(number(value), otherwise as int, lo as int, hi as int),
{
    let v: u32 = match value {
        Some(v) => v,
        None => otherwise,
    };
    if v < lo {
        lo
    } else if v > hi {
        hi
    } else {
        v
    }
}

/// The time limit of a request in nanoseconds: from one millisecond to five
/// minutes.
pub open spec fn limit_nanos(milliseconds: Option<u64>) -> Option<u64> {
    match milliseconds {
        Some(ms) => Some((limited(Some(ms as int), 0, 1, 300_000) * 1_000_000) as u64),
        None => None,
    }
}

/// The time limit of a request in nanoseconds.
pub fn seconds(milliseconds: Option<u64>) -> (nanos: Option<u64>)
    ensures
        nanos == limit_nanos(milliseconds),
{
    match milliseconds {
        Some(ms) => {
            let bounded: u64 = if ms < 1 {
                1
            } else if ms > 300_000 {
                300_000
            } else {
                ms
            };
            Some(bounded * 1_000_000)
        },
        None => None,
    }
}

/// Whether `c` is the minimax configuration that a request asks for.
pub open spec fn asks_minimax(input: SearchConfig, c: MinimaxConfig) -> bool {
    &&& c.max_depth == limited(number(input.max_depth), 6, 1, 16)
    &&& c.time_limit_nanos == limit_nanos(input.time_limit_ms)
    &&& c.random_seed == input.seed
    &&& c.use_alpha_beta && c.use_transposition_table && c.dedup_children
    &&& c.eval_config.valid()
    &&& c.eval_config.weights@ == seq![100i64, -100i64, 20i64, 3i64, 2i64, 0i64]
    &&& c.eval_config.win == 10_000
    &&& c.eval_config.unit == 1
}

/// The configuration of a minimax search.
pub fn minimax_settings(input: &SearchConfig) -> (c: MinimaxConfig)
    ensures
        asks_minimax(*input, c),
{
    let mut c = MinimaxConfig::default();
    c.max_depth = limit(input.max_depth, 6, 1, 16);
    c.time_limit_nanos = seconds(input.time_limit_ms);
    c.random_seed = input.seed;
    c
}

/// Whether a minimax search with the settings of the request may choose `mv`.
pub open spec fn minimax_choice(b: Seq<u16>, input: SearchConfig, mv: Move) -> bool {
    exists|c: MinimaxConfig, r: MinimaxResult|
        #![trigger asks_minimax(input, c), result_ok(r, b, c.eval_config)]
        asks_minimax(input, c) && result_ok(r, b, c.eval_config) && ran_to(
            r,
            c,
            b,
            tie_breaker(input.seed),
        ) && ran_in_time(r, c) && r.best_move == mv
            && r.depth_reached <= c.max_depth && (input.time_limit_ms is None ==> r.depth_reached
            == c.max_depth) && (input.seed is None ==> mv == deterministic_best(
            b,
            r.depth_reached as nat,
            c.eval_config,
        ))
}

/// Let minimax choose. It gives no value.
pub fn search_minimax(state: &State, input: &SearchConfig) -> (r: Result<
    (Move, Option<Ratio>),
    ApiError,
>)
    ensures
        r is Ok <==> legal_moves(state.bb@).len() > 0,
        r matches Err(e) ==> e.content() == (
            Failure::Unprocessable,
            "Cannot search from a state with no legal moves."@,
        ),
        r matches Ok((mv, value)) ==> legal_move(state.bb@, mv) && value is None && minimax_choice(
            state.bb@,
            *input,
            mv,
        ),
{
    let config = minimax_settings(input);
    let mut engine = MinimaxEngine::new(config);
    match engine.search(state) {
        Ok(result) => {
            assert(asks_minimax(*input, config) && result_ok(result, state.bb@, config.eval_config));
            Ok((result.best_move, None))
        },
        Err(e) => Err(ApiError::unprocessable(e)),
    }
}

/// The Monte Carlo configuration that a request asks for.
pub open spec fn asked_mcts(input: SearchConfig) -> MCTSConfig {
    MCTSConfig {
        max_iterations: limited(number(input.iterations), 1_500, 1, 1_000_000) as u32,
        max_depth: limited(number(input.max_depth), 16, 1, 16) as u32,
        seed: input.seed,
        time_limit_nanos: limit_nanos(input.time_limit_ms),
        use_transposition_table: true,
    }
}

/// The configuration of a Monte Carlo search.
pub fn mcts_settings(input: &SearchConfig) -> (c: MCTSConfig)
    ensures
        c == asked_mcts(*input),
{
    let mut c = MCTSConfig::default();
    c.max_iterations = limit(input.iterations, 1_500, 1, 1_000_000);
    c.max_depth = limit(input.max_depth, 16, 1, 16);
    c.time_limit_nanos = seconds(input.time_limit_ms);
    c.seed = input.seed;
    c
}

/// A win rate as a value from minus one to one: twice the rate less one.
pub fn value_of_rate(rate: Ratio) -> (v: Ratio)
    requires
        0 <= rate.num <= rate.den <= u32::MAX,
    ensures
        v.num == 2 * rate.num - rate.den,
        v.den == rate.den,
        v.in_unit_range(),
{
    Ratio { num: 2 * rate.num - rate.den as i64, den: rate.den }
}

/// Whether a Monte Carlo search with the settings of the request may choose `mv`, with
/// `value` twice its win rate less one.
pub open spec fn mcts_choice<F: Fn(u32, u32, u32) -> i64>(
    priority: F,
    b: Seq<u16>,
    input: SearchConfig,
    mv: Move,
    value: Ratio,
) -> bool {
    exists|rng: StdRng, n: u32, t: GrownTree, wins: int| #[trigger]
        chooses(priority, asked_mcts(input), b, rng, n, t, mv, wins, value.den as int) && value.num
            == 2 * wins - value.den && starts_from(input.seed, rng)
}

/// Let Monte Carlo tree search choose. The value is that of the win rate.
pub fn search_mcts<F: Fn(u32, u32, u32) -> i64>(
    state: &State,
    input: &SearchConfig,
    priority: &F,
) -> (r: Result<(Move, Option<Ratio>), ApiError>)
    requires
        forall|w: u32, v: u32, p: u32| #[trigger] call_requires(*priority, (w, v, p)),
    ensures
        r is Ok <==> legal_moves(state.bb@).len() > 0 && !won(state.bb@),
        r matches Err(e) ==> e.content() == (Failure::Unprocessable, "MCTS found no move"@),
        r matches Ok((mv, value)) ==> legal_move(state.bb@, mv) && value is Some
            && value->0.in_unit_range() && value->0.den > 0 && mcts_choice(
            *priority,
            state.bb@,
            *input,
            mv,
            value->0,
        ),
{
    let config = mcts_settings(input);
    let mut engine = MCTSEngine::new(config);
    let ghost start = engine.generator();
    match engine.search(&state.bb, priority) {
        Some((mv, rate)) => {
            let value = value_of_rate(rate);
            assert(chooses(
                *priority,
                asked_mcts(*input),
                state.bb@,
                start,
                engine.iterations(),
                engine.tree(),
                mv,
                rate.num as int,
                value.den as int,
            ));
            Ok((mv, Some(value)))
        },
        None => Err(ApiError::unprocessable("MCTS found no move".to_owned())),
    }
}

/// Whether `c` is the beam search configuration that a request asks for.
pub open spec fn asks_beam(input: SearchConfig, c: BeamSearchConfig) -> bool {
    &&& c.beam_width == limited(
        match input.beam_width {
            Some(w) => Some(w as int),
            None => None,
        },
        64,
        1,
        100_000,
    )
    &&& c.max_depth == limited(number(input.max_depth), 8, 1, 16)
    &&& c.rollouts_per_candidate == limited(number(input.rollouts), 8, 1, 100_000)
    &&& c.random_seed == input.seed
    &&& c.time_limit_nanos == limit_nanos(input.time_limit_ms)
    &&& c.beam_schedule is None
    &&& c.rollout_schedule is None
}

/// The configuration of a beam search.
pub fn beam_settings(input: &SearchConfig) -> (c: BeamSearchConfig)
    ensures
        asks_beam(*input, c),
        config_complaint(c) is None,
{
    let mut c = BeamSearchConfig::default();
    let width: usize = match input.beam_width {
        Some(w) => w,
        None => 64,
    };
    c.beam_width = if width < 1 {
        1
    } else if width > 100_000 {
        100_000
    } else {
        width
    };
    c.max_depth = limit(input.max_depth, 8, 1, 16);
    c.rollouts_per_candidate = limit(input.rollouts, 8, 1, 100_000);
    c.random_seed = input.seed;
    c.time_limit_nanos = seconds(input.time_limit_ms);
    c
}

/// Whether a beam search with the settings of the request may choose `mv` with `value`.
pub open spec fn beam_choice(b: Seq<u16>, input: SearchConfig, mv: Move, value: Ratio) -> bool {
    exists|c: BeamSearchConfig, rng: StdRng, res: BeamSearchResult|
        #![trigger asks_beam(input, c), best_leaf_gives(res, b, c, rng, mv, value)]
        asks_beam(input, c) && best_leaf_gives(res, b, c, rng, mv, value)
}

/// Let beam search choose: the first move towards the best leaf, with the value
/// of the leaf for the side to move.
pub fn search_beam(state: &State, input: &SearchConfig) -> (r: Result<
    (Move, Option<Ratio>),
    ApiError,
>)
    ensures
        match root_complaint(state.bb@) {
            Some(m) => r matches Err(e) && e.content() == (Failure::Unprocessable, m),
            None => r matches Ok((mv, value)) && legal_move(state.bb@, mv) && value is Some
                && value->0.in_unit_range() && value->0.den > 0 && beam_choice(
                state.bb@,
                *input,
                mv,
                value->0,
            ),
        },
{
    let config = beam_settings(input);
    let ghost asked = config;
    let mut engine = match BeamSearchEngine::new(config) {
        Ok(engine) => engine,
        Err(e) => return Err(ApiError::bad_request(e)),
    };
    let ghost start = engine.generator();
    let result = match engine.search(&state.bb) {
        Ok(result) => result,
        Err(e) => return Err(ApiError::unprocessable(e)),
    };
    let leaf = match &result.best_leaf {
        Some(leaf) => leaf,
        None => return Err(ApiError::unprocessable("beam search found no move".to_owned())),
    };
    proof {
        let root = state.bb@;
        let ts = result.terminal_leaves@;
        let os = result.frontier_leaves@;
        if exists|i: int| 0 <= i < ts.len() && same_leaf(*leaf, #[trigger] ts[i]) {
            let i = choose|i: int| 0 <= i < ts.len() && same_leaf(*leaf, #[trigger] ts[i]);
            assert(leaf_ok(root, ts[i]));
            assert(ts[i].is_terminal);
            assert(leaf.moves@.len() == 0 ==> finished(root));
        } else {
            let i = choose|i: int| 0 <= i < os.len() && same_leaf(*leaf, #[trigger] os[i]);
            assert(leaf_ok(root, os[i]));
            assert(os[i].depth == result.max_depth_reached);
        }
    }
    let mv = leaf.moves[0];
    let value = if result.root_player == 0 {
        leaf.value
    } else {
        Ratio { num: -leaf.value.num, den: leaf.value.den }
    };
    assert(asks_beam(*input, asked) && best_leaf_gives(
        result,
        state.bb@,
        asked,
        start,
        mv,
        value,
    ));
    Ok((mv, Some(value)))
}

/// Why there is no answer to a request of good form.
pub open spec fn search_complaint(engine: Seq<char>, r: MoveRequest) -> Option<
    (Failure, Seq<char>),
> {
    let b = qfen_board(r.qfen@);
    match qfen_complaint(r.qfen@) {
        Some(m) => Some((Failure::BadRequest, m)),
        None => if legal_moves(b).len() == 0 {
            Some((Failure::Unprocessable, "position is terminal or has no legal moves"@))
        } else if to_move(b) != Some(r.side_to_move) {
            Some(
                (
                    Failure::Unprocessable,
                    "side_to_move is "@ + decimal(r.side_to_move as nat)
                        + ", but core calculated "@ + decimal(to_move(b)->0 as nat),
                ),
            )
        } else if !lists_legal_actions(b, r.legal_action_indices@) {
            Some(
                (
                    Failure::Unprocessable,
                    "legal_action_indices do not exactly match quantik-core"@,
                ),
            )
        } else if engine == "minimax"@ {
            None
        } else if engine == "mcts"@ {
            if won(b) {
                Some((Failure::Unprocessable, "MCTS found no move"@))
            } else {
                None
            }
        } else if engine == "beam"@ {
            match root_complaint(b) {
                Some(m) => Some((Failure::Unprocessable, m)),
                None => None,
            }
        } else {
            Some((Failure::NotFound, "unknown engine "@ + debug_form(engine)))
        },
    }
}

/// Whether the response stands for the legal move `mv`, one that the engine may
/// choose.
pub open spec fn answers<F: Fn(u32, u32, u32) -> i64>(
    priority: F,
    engine: Seq<char>,
    r: MoveRequest,
    mv: Move,
    resp: MoveResponse,
) -> bool {
    &&& legal_move(qfen_board(r.qfen@), mv)
    &&& resp.action_index == action_of(mv)
    &&& exists|spent: u64| #[trigger] took(spent) && resp.elapsed_ms == spent / 1_000_000
    &&& engine == "minimax"@ ==> minimax_choice(qfen_board(r.qfen@), r.config, mv)
    &&& engine == "mcts"@ ==> resp.value is Some && mcts_choice(
        priority,
        qfen_board(r.qfen@),
        r.config,
        mv,
        resp.value->0,
    )
    &&& engine == "beam"@ ==> resp.value is Some && beam_choice(
        qfen_board(r.qfen@),
        r.config,
        mv,
        resp.value->0,
    )
}

/// Let the named engine choose a move in the position of the request.
///
/// The request must name the side to move and the legal actions as they are.
/// `priority` ranks the children of a node in a Monte Carlo search by wins,
/// visits and visits of the parent.
pub fn run_search<F: Fn(u32, u32, u32) -> i64>(
    engine: &str,
    request: &MoveRequest,
    priority: &F,
) -> (r: Result<MoveResponse, ApiError>)
    requires
        forall|w: u32, v: u32, p: u32| #[trigger] call_requires(*priority, (w, v, p)),
    ensures
        match search_complaint(engine@, *request) {
            Some(c) => r matches Err(e) && e.content() == c,
            None => r matches Ok(resp) && resp.schema@ == RESPONSE_SCHEMA@ && resp.engine_kind@
                == engine@ && resp.engine_version@ == PACKAGE_VERSION@ && (resp.value is None
                <==> engine@ == "minimax"@) && (resp.value matches Some(v) ==> v.in_unit_range()
                && v.den > 0) && request.legal_action_indices@.contains(resp.action_index) && exists|
                mv: Move,
            | #[trigger]
                answers(*priority, engine@, *request, mv, resp),
        },
{
    let state = match State::from_qfen(request.qfen.as_str()) {
        Ok(state) => state,
        Err(e) => return Err(ApiError::bad_request(e)),
    };
    let ghost b = state.bb@;
    proof {
        lemma_legal_moves(b);
        reveal_strlit("minimax");
        reveal_strlit("mcts");
        reveal_strlit("beam");
        assert("minimax"@.len() == 7 && "mcts"@.len() == 4 && "beam"@.len() == 4);
        assert("mcts"@[0] == 'm' && "beam"@[0] == 'b');
    }
    let moves = generate_legal_moves(&state.bb);
    if moves.len() == 0 {
        return Err(
            ApiError::unprocessable("position is terminal or has no legal moves".to_owned()),
        );
    }
    let player: u8 = moves[0].player;
    assert(legal_move(b, moves@[0]));
    if player != request.side_to_move {
        let asked = decimal_text(request.side_to_move as u64);
        let found = decimal_text(player as u64);
        return Err(
            ApiError::unprocessable(
                concat4(
                    "side_to_move is ",
                    asked.as_str(),
                    ", but core calculated ",
                    found.as_str(),
                ),
            ),
        );
    }
    if !actions_match(legal_action_mask(&state.bb), &request.legal_action_indices, Ghost(b)) {
        return Err(
            ApiError::unprocessable(
                "legal_action_indices do not exactly match quantik-core".to_owned(),
            ),
        );
    }
    let started = start_clock();
    let searched = if same_text(engine, "minimax") {
        search_minimax(&state, &request.config)
    } else if same_text(engine, "mcts") {
        search_mcts(&state, &request.config, priority)
    } else if same_text(engine, "beam") {
        search_beam(&state, &request.config)
    } else {
        let shown = debug_text(engine);
        Err(ApiError::not_found(concat("unknown engine ", shown.as_str())))
    };
    let (mv, value) = match searched {
        Ok(found) => found,
        Err(e) => return Err(e),
    };
    let action: u8 = mv.shape * 16 + mv.position;
    proof {
        assert(action / 16 == mv.shape && action % 16 == mv.position);
        assert(action_legal(b, action as int));
        assert(request.legal_action_indices@.contains(action));
    }
    let spent: u64 = spent_since(&started);
    let resp = MoveResponse {
        schema: RESPONSE_SCHEMA,
        action_index: action,
        engine_kind: engine.to_owned(),
        engine_version: PACKAGE_VERSION,
        elapsed_ms: whole_millis(spent),
        value,
    };
    assert(took(spent));
    assert(answers(*priority, engine@, *request, mv, resp));
    Ok(resp)
}

/// Two answers to a request with a seed and without a time limit name the same move with the
/// same value, with a priority that gives one value for given wins and visits.
pub proof fn law_answers_agree<F: Fn(u32, u32, u32) -> i64>(
    priority: F,
    engine: Seq<char>,
    r: MoveRequest,
    x: Move,
    first: MoveResponse,
    y: Move,
    second: MoveResponse,
)
    requires
        gives_one_value(priority),
        r.config.seed is Some,
        r.config.time_limit_ms is None,
        engine == "minimax"@ || engine == "mcts"@ || engine == "beam"@,
        answers(priority, engine, r, x, first),
        answers(priority, engine, r, y, second),
    ensures
        x == y,
        first.action_index == second.action_index,
        engine != "minimax"@ ==> first.value == second.value,
{
    let b = qfen_board(r.qfen@);
    let input = r.config;
    let seed = input.seed->0;
    if engine == "minimax"@ {
        let (c, p) = choose|c: MinimaxConfig, p: MinimaxResult|
            #![trigger asks_minimax(input, c), result_ok(p, b, c.eval_config)]
            asks_minimax(input, c) && result_ok(p, b, c.eval_config) && ran_to(
                p,
                c,
                b,
                tie_breaker(input.seed),
            ) && p.best_move == x && p.depth_reached <= c.max_depth && p.depth_reached
                == c.max_depth;
        let (d, q) = choose|c: MinimaxConfig, p: MinimaxResult|
            #![trigger asks_minimax(input, c), result_ok(p, b, c.eval_config)]
            asks_minimax(input, c) && result_ok(p, b, c.eval_config) && ran_to(
                p,
                c,
                b,
                tie_breaker(input.seed),
            ) && p.best_move == y && p.depth_reached <= c.max_depth && p.depth_reached
                == c.max_depth;
        assert(c.eval_config.weights =~= d.eval_config.weights);
        assert(c == d);
        law_minimax_searches_agree(c, b, tie_breaker(input.seed), p, q);
    } else if engine == "mcts"@ {
        let (v, w) = (first.value->0, second.value->0);
        let (g, n, s, p) = choose|rng: StdRng, n: u32, t: GrownTree, wins: int| #[trigger]
            chooses(priority, asked_mcts(input), b, rng, n, t, x, wins, v.den as int) && v.num == 2
                * wins - v.den && starts_from(input.seed, rng);
        let (h, m, t, q) = choose|rng: StdRng, n: u32, t: GrownTree, wins: int| #[trigger]
            chooses(priority, asked_mcts(input), b, rng, n, t, y, wins, w.den as int) && w.num == 2
                * wins - w.den && starts_from(input.seed, rng);
        law_searches_agree(
            priority,
            asked_mcts(input),
            b,
            g,
            n,
            s,
            x,
            p,
            v.den as int,
            m,
            t,
            y,
            q,
            w.den as int,
        );
    } else {
        let (v, w) = (first.value->0, second.value->0);
        let (c, g, p) = choose|c: BeamSearchConfig, rng: StdRng, res: BeamSearchResult|
            #![trigger asks_beam(input, c), best_leaf_gives(res, b, c, rng, x, v)]
            asks_beam(input, c) && best_leaf_gives(res, b, c, rng, x, v);
        let (d, h, q) = choose|c: BeamSearchConfig, rng: StdRng, res: BeamSearchResult|
            #![trigger asks_beam(input, c), best_leaf_gives(res, b, c, rng, y, w)]
            asks_beam(input, c) && best_leaf_gives(res, b, c, rng, y, w);
        assert(c == d);
        let after = choose|after: StdRng| #[trigger] searched_by_playouts(p, b, c, g, after);
        let other = choose|after: StdRng| #[trigger] searched_by_playouts(q, b, d, h, after);
        law_beam_searches_agree(b, c, g, p, after, q, other);
    }
}

/// A request that is answered names an engine that there is, the side to move of
/// the position and every legal action of it.
pub proof fn law_accepted_requests_describe_the_position(engine: Seq<char>, r: MoveRequest)
    requires
        search_complaint(engine, r) is None,
    ensures
        known_engine(engine),
        is_qfen(r.qfen@),
        to_move(qfen_board(r.qfen@)) == Some(r.side_to_move),
        forall|m: Move| #[trigger] legal_move(qfen_board(r.qfen@), m) ==> m.player == r.side_to_move
            && r.legal_action_indices@.contains(action_of(m) as u8),
{
    let b = qfen_board(r.qfen@);
    assert forall|m: Move| #[trigger] legal_move(b, m) implies m.player == r.side_to_move
        && r.legal_action_indices@.contains(action_of(m) as u8) by {
        let a = action_of(m);
        assert(a / 16 == m.shape && a % 16 == m.position);
        assert(action_legal(b, (a as u8) as int));
    }
}

} // verus!
