//! Engines behind one interface, with records of the work that they did.
use crate::beam_search::{
    leaf_ok, root_complaint, same_leaf, BeamSearchConfig, BeamSearchEngine, BeamSearchResult,
};
use crate::beam_trace::{best_leaf_gives, law_beam_searches_agree, searched_by_playouts};
use crate::bench::canonical::{
    float_text, python_float_repr, scientific_of, scientific_text,
};
use crate::bench::export::written;
use crate::bench::columns::labels_view;
use crate::bench::fields::{as_float, concat, concat3, float_of, option_text, texts};
use crate::bench::json::{field, members_view, number_or_null, Json, JsonView};
use crate::bench::reference::{key_of, move_key};
use crate::bitboard::{lemma_popcount, taken, Bitboard};
use crate::clock::{spent_since, start_clock, took};
use crate::game::{has_winning_line, total_pieces, won};
use crate::game_value::{exact_best, finished, lemma_exact_best, lemma_pieces_fill_cells};
use crate::mcts::{drawn_move, MCTSConfig, MCTSEngine};
use crate::mcts_trace::{chooses, gives_one_value, law_searches_agree, GrownTree};
use crate::minimax_trace::{law_minimax_searches_agree, ran_in_time, ran_to};
use crate::minimax::{
    deterministic_best, result_ok, MinimaxConfig, MinimaxEngine, MinimaxResult,
};
use crate::moves::{generate_legal_moves, legal_move, legal_moves, lemma_legal_moves, Move};
use crate::qfen::disjoint_planes;
use crate::rng::{entropy_rng, pick, seeded, seeded_rng, starts_from};
use crate::search_telemetry::Ratio;
use crate::state::State;
use crate::text::{decimal, decimal_text, join, joined, push_decimal};
use rand::rngs::StdRng;
use vstd::prelude::*;
use vstd::string::*;

verus! {

/// A duration in seconds: in scientific notation for labels, and in nanoseconds.
#[derive(Debug)]
pub struct Seconds {
    pub text: String,
    pub nanos: u64,
}

/// The texts of the parameters among the first `n` that have a value.
pub open spec fn shown_params(
    params: Seq<(Seq<char>, Option<Seq<char>>)>,
    n: int,
) -> Seq<Seq<char>>
    decreases n,
{
    if n <= 0 {
        Seq::empty()
    } else {
        match params[n - 1].1 {
            Some(v) => shown_params(params, n - 1).push(params[n - 1].0 + "="@ + v),
            None => shown_params(params, n - 1),
        }
    }
}

/// The label of a configuration: the name and the parameters that have a value.
pub open spec fn label_text(name: Seq<char>, params: Seq<(Seq<char>, Option<Seq<char>>)>) -> Seq<
    char,
> {
    let shown = shown_params(params, params.len() as int);
    if shown.len() == 0 {
        name
    } else {
        name + "("@ + joined(shown, ","@) + ")"@
    }
}

/// The label of a configuration: `name(k=v,k=v)`.
pub fn label(name: &str, params: &Vec<(String, Option<String>)>) -> (s: String)
    ensures
        s@ == label_text(name@, labels_view(params@)),
{
    let ghost views = labels_view(params@);
    let mut parts: Vec<String> = Vec::new();
    let mut i: usize = 0;
    assert(texts(parts@) =~= Seq::empty());
    while i < params.len()
        invariant
            i <= params@.len(),
            views == labels_view(params@),
            texts(parts@) == shown_params(views, i as int),
        decreases params@.len() - i,
    {
        assert(views[i as int] == (params@[i as int].0@, option_text(params@[i as int].1)));
        if let Some(v) = &params[i].1 {
            let ghost before = texts(parts@);
            let part = concat3(params[i].0.as_str(), "=", v.as_str());
            let ghost shown = part@;
            parts.push(part);
            assert(texts(parts@) =~= before.push(shown));
        }
        i = i + 1;
    }
    if parts.len() == 0 {
        return name.to_owned();
    }
    let list = join(&parts, ",");
    let mut s = concat3(name, "(", list.as_str());
    s.append(")");
    s
}

/// A number as it stands in labels.
pub fn fmt_float(text: &str) -> (s: String)
    ensures
        s@ == float_text(text@),
{
    python_float_repr(text)
}

fn number_param(name: &str, n: u64) -> (p: (String, Option<String>))
    ensures
        p.0@ == name@,
        option_text(p.1) == Some(decimal(n as nat)),
{
    (name.to_owned(), Some(decimal_text(n)))
}

/// A duration as it stands in labels, if there is one.
pub open spec fn time_shown(limit: Option<Seconds>) -> Option<Seq<char>> {
    match limit {
        Some(t) => Some(float_text(t.text@)),
        None => None,
    }
}

fn time_param(name: &str, limit: &Option<Seconds>) -> (p: (String, Option<String>))
    ensures
        p.0@ == name@,
        option_text(p.1) == time_shown(*limit),
{
    match limit {
        Some(t) => (name.to_owned(), Some(fmt_float(t.text.as_str()))),
        None => (name.to_owned(), None),
    }
}

/// The duration in nanoseconds, if there is one.
pub open spec fn nanos_of(limit: Option<Seconds>) -> Option<u64> {
    match limit {
        Some(t) => Some(t.nanos),
        None => None,
    }
}

fn nanos_in(limit: &Option<Seconds>) -> (n: Option<u64>)
    ensures
        n == nanos_of(*limit),
{
    match limit {
        Some(t) => Some(t.nanos),
        None => None,
    }
}

/// What an engine reports of its work.
#[derive(Debug)]
pub struct RawMetrics {
    pub exact: bool,
    pub nodes: Option<u64>,
    pub iterations: Option<u64>,
    pub depth_reached: Option<u32>,
    pub score: Option<Ratio>,
    pub extra: Vec<(String, Json)>,
}

impl Default for RawMetrics {
    fn default() -> (m: Self)
        ensures
            !m.exact,
            m.nodes is None,
            m.iterations is None,
            m.depth_reached is None,
            m.score is None,
            m.extra@.len() == 0,
    {
        RawMetrics {
            exact: false,
            nodes: None,
            iterations: None,
            depth_reached: None,
            score: None,
            extra: Vec::new(),
        }
    }
}

/// One interface over the engines that are compared.
pub trait EngineAdapter {
    /// The name of the engine.
    spec fn named(&self) -> Seq<char>;

    /// Whether the choices depend on a seed.
    spec fn is_stochastic(&self) -> bool;

    /// The label of the configuration.
    spec fn labelled(&self) -> Seq<char>;

    /// Whether the engine can run with its configuration.
    spec fn ready(&self) -> bool;

    fn name(&self) -> (s: &'static str)
        ensures
            s@ == self.named(),
    ;

    fn stochastic(&self) -> (r: bool)
        ensures
            r == self.is_stochastic(),
    ;

    fn config_label(&self) -> (s: String)
        ensures
            s@ == self.labelled(),
    ;

    fn select_raw(&self, bb: &Bitboard, seed: Option<u64>) -> Result<(Move, RawMetrics), String>
        requires
            self.ready(),
    ;
}

/// Whether `c` is the configuration of the searches of a minimax engine.
pub open spec fn asks_minimax_as(a: MinimaxAdapter, c: MinimaxConfig) -> bool {
    &&& c.max_depth == a.max_depth
    &&& c.time_limit_nanos == nanos_of(a.time_limit)
    &&& c.use_alpha_beta && c.use_transposition_table && c.dedup_children
    &&& c.random_seed is None
    &&& c.eval_config.weights@ == seq![100i64, -100i64, 20i64, 3i64, 2i64, 0i64]
    &&& c.eval_config.win == 10_000
    &&& c.eval_config.unit == 1
}

/// Whether a search of `b` by the engine may have given `res`, and the metrics show it.
pub open spec fn minimax_reports(
    a: MinimaxAdapter,
    b: Seq<u16>,
    c: MinimaxConfig,
    res: MinimaxResult,
    mv: Move,
    m: RawMetrics,
) -> bool {
    &&& asks_minimax_as(a, c)
    &&& result_ok(res, b, c.eval_config)
    &&& ran_to(res, c, b, None)
    &&& ran_in_time(res, c)
    &&& res.best_move == deterministic_best(b, res.depth_reached as nat, c.eval_config)
    &&& nanos_of(a.time_limit) is None ==> res.depth_reached == a.max_depth
    &&& mv == res.best_move
    &&& m.score == Some(Ratio { num: res.score, den: 1 })
    &&& m.depth_reached == Some(res.depth_reached)
    &&& m.nodes == Some(res.nodes)
}

/// Whether `r` may be what a minimax engine makes of a board: it chooses where there is a
/// legal move.
pub open spec fn minimax_outcome(
    a: MinimaxAdapter,
    b: Seq<u16>,
    r: Result<(Move, RawMetrics), String>,
) -> bool {
    &&& r is Ok <==> legal_moves(b).len() > 0
    &&& r matches Err(m) ==> m@ == "Cannot search from a state with no legal moves."@
    &&& r matches Ok((mv, m)) ==> {
        &&& legal_move(b, mv)
        &&& exists|c: MinimaxConfig, res: MinimaxResult| #[trigger]
            minimax_reports(a, b, c, res, mv, m)
        &&& m.score is Some && m.score->0.den == 1
        &&& m.depth_reached is Some && 1 <= m.depth_reached->0 <= a.max_depth
        &&& m.exact <==> m.depth_reached->0 + total_pieces(b) >= 16
        &&& m.exact && disjoint_planes(b) ==> m.score->0.num == exact_best(
            b,
            legal_moves(b),
            15,
            1,
            10_000,
            1,
        )
        &&& m.nodes is Some
        &&& m.iterations is None
        &&& m.extra@.len() == 0
    }
}

/// Alpha-beta search with iterative deepening.
#[derive(Debug)]
pub struct MinimaxAdapter {
    pub max_depth: u32,
    pub time_limit: Option<Seconds>,
}

impl EngineAdapter for MinimaxAdapter {
    open spec fn named(&self) -> Seq<char> {
        "minimax"@
    }

    open spec fn is_stochastic(&self) -> bool {
        false
    }

    open spec fn labelled(&self) -> Seq<char> {
        label_text(
            "minimax"@,
            seq![
                ("d"@, Some(decimal(self.max_depth as nat))),
                ("t"@, time_shown(self.time_limit)),
            ],
        )
    }

    open spec fn ready(&self) -> bool {
        self.max_depth >= 1
    }

    fn name(&self) -> &'static str {
        "minimax"
    }

    fn stochastic(&self) -> bool {
        false
    }

    fn config_label(&self) -> String {
        let params: Vec<(String, Option<String>)> = vec![
            number_param("d", self.max_depth as u64),
            time_param("t", &self.time_limit),
        ];
        assert(labels_view(params@) =~= seq![
            ("d"@, Some(decimal(self.max_depth as nat))),
            ("t"@, time_shown(self.time_limit)),
        ]);
        label("minimax", &params)
    }

    /// The best move of a search. It is exact if the search saw every game to its
    /// end.
    fn select_raw(&self, bb: &Bitboard, seed: Option<u64>) -> (r: Result<
        (Move, RawMetrics),
        String,
    >)
        ensures
            minimax_outcome(*self, bb@, r),
    {
        let mut config = MinimaxConfig::default();
        config.max_depth = self.max_depth;
        config.time_limit_nanos = nanos_in(&self.time_limit);
        let mut engine = MinimaxEngine::new(config);
        let result = engine.search(&State::new(*bb))?;
        let pieces: u64 = bb.player_piece_count(0) as u64 + bb.player_piece_count(1) as u64;
        let exact: bool = result.depth_reached as u64 + pieces >= 16;
        proof {
            let b = bb@;
            lemma_legal_moves(b);
            if exact && disjoint_planes(b) {
                lemma_pieces_fill_cells(b);
                lemma_popcount(taken(b), 0);
                lemma_exact_best(
                    b,
                    legal_moves(b),
                    (result.depth_reached - 1) as nat,
                    15,
                    1,
                    config.eval_config,
                );
            }
        }
        let mut metrics = RawMetrics::default();
        metrics.exact = exact;
        metrics.nodes = Some(result.nodes);
        metrics.depth_reached = Some(result.depth_reached);
        metrics.score = Some(Ratio { num: result.score, den: 1 });
        let r: Result<(Move, RawMetrics), String> = Ok((result.best_move, metrics));
        assert(minimax_reports(
            *self,
            bb@,
            config,
            result,
            r->Ok_0.0,
            r->Ok_0.1,
        ));
        r
    }
}

/// The configuration of the searches of a Monte Carlo engine.
pub open spec fn mcts_config<F: Fn(u32, u32, u32) -> i64>(
    a: MCTSAdapter<F>,
    seed: Option<u64>,
) -> MCTSConfig {
    MCTSConfig {
        max_iterations: a.max_iterations,
        max_depth: a.max_depth,
        seed,
        time_limit_nanos: nanos_of(a.time_limit),
        use_transposition_table: true,
    }
}

/// Whether a search of `b` by the engine may have grown the tree `t` and chosen `mv`, and
/// the metrics show it.
pub open spec fn mcts_reports<F: Fn(u32, u32, u32) -> i64>(
    a: MCTSAdapter<F>,
    seed: Option<u64>,
    b: Seq<u16>,
    rng: StdRng,
    t: GrownTree,
    mv: Move,
    m: RawMetrics,
) -> bool {
    &&& m.iterations is Some
    &&& m.iterations->0 <= u32::MAX
    &&& m.score is Some
    &&& starts_from(seed, rng)
    &&& chooses(
        a.priority,
        mcts_config(a, seed),
        b,
        rng,
        m.iterations->0 as u32,
        t,
        mv,
        m.score->0.num as int,
        m.score->0.den as int,
    )
    &&& m.nodes is Some && m.nodes->0 == t.nodes.len()
}

/// Whether `r` may be what a Monte Carlo engine makes of a board: it chooses where the
/// game is not over.
pub open spec fn mcts_outcome<F: Fn(u32, u32, u32) -> i64>(
    a: MCTSAdapter<F>,
    seed: Option<u64>,
    b: Seq<u16>,
    r: Result<(Move, RawMetrics), String>,
) -> bool {
    &&& r is Ok <==> legal_moves(b).len() > 0 && !won(b) && a.max_iterations > 0
    &&& r matches Err(m) ==> m@ == "mcts: no move returned"@
    &&& r matches Ok((mv, m)) ==> {
        &&& legal_move(b, mv)
        &&& exists|rng: StdRng, t: GrownTree| #[trigger] mcts_reports(a, seed, b, rng, t, mv, m)
        &&& !m.exact
        &&& m.iterations is Some && 0 < m.iterations->0 <= a.max_iterations
        &&& m.depth_reached is None
        &&& m.extra@.len() == 0
    }
}

/// Monte Carlo tree search. `priority` ranks the children of a node from their
/// wins, their visits and the visits of the node; `exploration_weight` is the
/// weight that it uses, in scientific notation.
pub struct MCTSAdapter<F: Fn(u32, u32, u32) -> i64> {
    pub max_iterations: u32,
    pub max_depth: u32,
    pub exploration_weight: String,
    pub time_limit: Option<Seconds>,
    pub priority: F,
}

impl<F: Fn(u32, u32, u32) -> i64> EngineAdapter for MCTSAdapter<F> {
    open spec fn named(&self) -> Seq<char> {
        "mcts"@
    }

    open spec fn is_stochastic(&self) -> bool {
        true
    }

    open spec fn labelled(&self) -> Seq<char> {
        label_text(
            "mcts"@,
            seq![
                ("it"@, Some(decimal(self.max_iterations as nat))),
                ("d"@, Some(decimal(self.max_depth as nat))),
                ("c"@, Some(float_text(self.exploration_weight@))),
                ("t"@, time_shown(self.time_limit)),
            ],
        )
    }

    open spec fn ready(&self) -> bool {
        &&& nanos_of(self.time_limit) != Some(0u64)
        &&& forall|w: u32, v: u32, p: u32| #[trigger] call_requires(self.priority, (w, v, p))
    }

    fn name(&self) -> &'static str {
        "mcts"
    }

    fn stochastic(&self) -> bool {
        true
    }

    fn config_label(&self) -> String {
        let params: Vec<(String, Option<String>)> = vec![
            number_param("it", self.max_iterations as u64),
            number_param("d", self.max_depth as u64),
            ("c".to_owned(), Some(fmt_float(self.exploration_weight.as_str()))),
            time_param("t", &self.time_limit),
        ];
        assert(labels_view(params@) =~= seq![
            ("it"@, Some(decimal(self.max_iterations as nat))),
            ("d"@, Some(decimal(self.max_depth as nat))),
            ("c"@, Some(float_text(self.exploration_weight@))),
            ("t"@, time_shown(self.time_limit)),
        ]);
        label("mcts", &params)
    }

    /// The most visited move of a search, with its win rate.
    fn select_raw(&self, bb: &Bitboard, seed: Option<u64>) -> (r: Result<
        (Move, RawMetrics),
        String,
    >)
        ensures
            mcts_outcome(*self, seed, bb@, r),
    {
        let config = MCTSConfig {
            max_iterations: self.max_iterations,
            max_depth: self.max_depth,
            seed,
            time_limit_nanos: nanos_in(&self.time_limit),
            use_transposition_table: true,
        };
        let mut engine = MCTSEngine::new(config);
        let ghost start = engine.generator();
        match engine.search(bb, &self.priority) {
            Some((mv, win_rate)) => {
                let mut metrics = RawMetrics::default();
                metrics.iterations = Some(engine.iterations_performed() as u64);
                metrics.nodes = Some(engine.nodes_created() as u64);
                metrics.score = Some(win_rate);
                let r: Result<(Move, RawMetrics), String> = Ok((mv, metrics));
                assert(mcts_reports(
                    *self,
                    seed,
                    bb@,
                    start,
                    engine.tree(),
                    r->Ok_0.0,
                    r->Ok_0.1,
                ));
                r
            },
            None => Err("mcts: no move returned".to_owned()),
        }
    }
}

/// Whether `c` is the configuration of the searches of a beam search engine.
pub open spec fn asks_as(a: BeamAdapter, seed: Option<u64>, c: BeamSearchConfig) -> bool {
    &&& c.beam_width == a.beam_width
    &&& c.max_depth == a.max_depth
    &&& c.rollouts_per_candidate == 8
    &&& c.random_seed == seed
    &&& c.beam_schedule is None
    &&& c.rollout_schedule is None
    &&& c.time_limit_nanos == nanos_of(a.time_limit)
}

/// Whether a search of `b` by the engine may have given `res`, and the metrics show it.
pub open spec fn beam_reports(
    a: BeamAdapter,
    seed: Option<u64>,
    b: Seq<u16>,
    c: BeamSearchConfig,
    rng: StdRng,
    res: BeamSearchResult,
    mv: Move,
    m: RawMetrics,
) -> bool {
    &&& asks_as(a, seed, c)
    &&& m.score is Some
    &&& best_leaf_gives(res, b, c, rng, mv, m.score->0)
    &&& m.nodes == Some(res.stats.nodes_inserted)
    &&& m.depth_reached == Some(res.max_depth_reached)
    &&& members_view(m.extra@) == seq![
        ("candidates_generated"@, count_view(res.stats.candidates_generated)),
        ("nodes_pruned"@, count_view(res.stats.nodes_pruned)),
        ("rollouts"@, count_view(res.stats.rollouts)),
    ]
}

/// Whether `r` may be what a beam search makes of a board: it chooses where the
/// configuration is in order and the game is not over.
pub open spec fn beam_outcome(
    a: BeamAdapter,
    seed: Option<u64>,
    b: Seq<u16>,
    r: Result<(Move, RawMetrics), String>,
) -> bool {
    match beam_setup_complaint(a) {
        Some(e) => r matches Err(m) && m@ == e,
        None => match root_complaint(b) {
            Some(e) => r matches Err(m) && m@ == e,
            None => r matches Ok((mv, m)) && legal_move(b, mv) && !m.exact && m.iterations is None
                && m.score is Some && m.score->0.in_unit_range() && exists|
                c: BeamSearchConfig,
                rng: StdRng,
                res: BeamSearchResult,
            | #[trigger]
                beam_reports(a, seed, b, c, rng, res, mv, m),
        },
    }
}

/// Beam search.
#[derive(Debug)]
pub struct BeamAdapter {
    pub beam_width: usize,
    pub max_depth: u32,
    pub time_limit: Option<Seconds>,
}

/// A count as a floating number.
pub open spec fn count_view(n: u64) -> JsonView {
    JsonView::Float(float_of(JsonView::Unsigned(n))->0)
}

fn count_json(n: u64) -> (j: Json)
    ensures
        j.view() == count_view(n),
{
    match as_float(&Json::Unsigned(n)) {
        Some(s) => Json::Float(s),
        None => Json::Null,
    }
}

/// A ratio with the opposite sign.
fn opposite(q: Ratio) -> (r: Ratio)
    requires
        q.num > i64::MIN,
    ensures
        r.num == -q.num,
        r.den == q.den,
{
    Ratio { num: -q.num, den: q.den }
}

impl EngineAdapter for BeamAdapter {
    open spec fn named(&self) -> Seq<char> {
        "beam"@
    }

    open spec fn is_stochastic(&self) -> bool {
        true
    }

    open spec fn labelled(&self) -> Seq<char> {
        label_text(
            "beam"@,
            seq![
                ("w"@, Some(decimal(self.beam_width as nat))),
                ("d"@, Some(decimal(self.max_depth as nat))),
                ("t"@, time_shown(self.time_limit)),
            ],
        )
    }

    open spec fn ready(&self) -> bool {
        true
    }

    fn name(&self) -> &'static str {
        "beam"
    }

    fn stochastic(&self) -> bool {
        true
    }

    fn config_label(&self) -> String {
        let params: Vec<(String, Option<String>)> = vec![
            number_param("w", self.beam_width as u64),
            number_param("d", self.max_depth as u64),
            time_param("t", &self.time_limit),
        ];
        assert(labels_view(params@) =~= seq![
            ("w"@, Some(decimal(self.beam_width as nat))),
            ("d"@, Some(decimal(self.max_depth as nat))),
            ("t"@, time_shown(self.time_limit)),
        ]);
        label("beam", &params)
    }

    /// The first move towards the best leaf of a search, with its value for the
    /// side to move.
    fn select_raw(&self, bb: &Bitboard, seed: Option<u64>) -> (r: Result<
        (Move, RawMetrics),
        String,
    >)
        ensures
            beam_outcome(*self, seed, bb@, r),
    {
        let mut config = BeamSearchConfig::default();
        config.beam_width = self.beam_width;
        config.max_depth = self.max_depth;
        config.random_seed = seed;
        config.time_limit_nanos = nanos_in(&self.time_limit);
        let ghost asked = config;
        let mut engine = BeamSearchEngine::new(config)?;
        let ghost start = engine.generator();
        let result = engine.search(bb)?;
        let leaf = match &result.best_leaf {
            Some(leaf) => leaf,
            None => return Err("beam: beam search produced no candidate moves".to_owned()),
        };
        proof {
            let root = bb@;
            assert(leaf_ok(root, *leaf)) by {
                let ts = result.terminal_leaves@;
                let os = result.frontier_leaves@;
                if exists|i: int| 0 <= i < ts.len() && same_leaf(*leaf, #[trigger] ts[i]) {
                    let i = choose|i: int| 0 <= i < ts.len() && same_leaf(*leaf, #[trigger] ts[i]);
                    assert(leaf_ok(root, ts[i]));
                } else {
                    let i = choose|i: int| 0 <= i < os.len() && same_leaf(*leaf, #[trigger] os[i]);
                    assert(leaf_ok(root, os[i]));
                }
            }
            if leaf.moves@.len() == 0 {
                let ts = result.terminal_leaves@;
                let os = result.frontier_leaves@;
                if exists|i: int| 0 <= i < ts.len() && same_leaf(*leaf, #[trigger] ts[i]) {
                    let i = choose|i: int| 0 <= i < ts.len() && same_leaf(*leaf, #[trigger] ts[i]);
                    assert(ts[i].is_terminal);
                    assert(finished(root));
                } else {
                    let i = choose|i: int| 0 <= i < os.len() && same_leaf(*leaf, #[trigger] os[i]);
                    assert(os[i].depth == result.max_depth_reached);
                }
            }
        }
        let mv = leaf.moves[0];
        let score = if result.root_player == 1 {
            opposite(leaf.value)
        } else {
            leaf.value
        };
        let mut metrics = RawMetrics::default();
        metrics.nodes = Some(result.stats.nodes_inserted);
        metrics.depth_reached = Some(result.max_depth_reached);
        metrics.score = Some(score);
        metrics.extra.push(
            field("candidates_generated", count_json(result.stats.candidates_generated)),
        );
        metrics.extra.push(field("nodes_pruned", count_json(result.stats.nodes_pruned)));
        metrics.extra.push(field("rollouts", count_json(result.stats.rollouts)));
        proof {
            assert(members_view(metrics.extra@) =~= seq![
                ("candidates_generated"@, count_view(result.stats.candidates_generated)),
                ("nodes_pruned"@, count_view(result.stats.nodes_pruned)),
                ("rollouts"@, count_view(result.stats.rollouts)),
            ]);
        }
        let r: Result<(Move, RawMetrics), String> = Ok((mv, metrics));
        assert(beam_reports(*self, seed, bb@, asked, start, result, r->Ok_0.0, r->Ok_0.1));
        r
    }
}

/// What is wrong with the configuration of a beam search.
pub open spec fn beam_setup_complaint(a: BeamAdapter) -> Option<Seq<char>> {
    if a.beam_width < 1 {
        Some("beam_width must be >= 1"@)
    } else if !(1 <= a.max_depth <= 16) {
        Some("max_depth must be between 1 and 16"@)
    } else if nanos_of(a.time_limit) == Some(0u64) {
        Some("time_limit must be positive"@)
    } else {
        None
    }
}

/// Whether `r` may be what random choice makes of a board: a legal move, where there is one,
/// and with a seed the one that the generator of the seed draws.
pub open spec fn random_outcome(
    seed: Option<u64>,
    b: Seq<u16>,
    r: Result<(Move, RawMetrics), String>,
) -> bool {
    &&& r is Ok <==> legal_moves(b).len() > 0
    &&& (seed is Some && r is Ok) ==> r->Ok_0.0 == drawn_move(b, seeded(seed->0))
    &&& r matches Err(m) ==> m@ == "random: no legal moves"@
    &&& r matches Ok((mv, m)) ==> legal_move(b, mv) && !m.exact && m.nodes is None
        && m.iterations is None && m.depth_reached is None && m.score is None && m.extra@.len()
        == 0
}

/// Uniformly random moves.
#[derive(Debug)]
pub struct RandomAdapter;

impl EngineAdapter for RandomAdapter {
    open spec fn named(&self) -> Seq<char> {
        "random"@
    }

    open spec fn is_stochastic(&self) -> bool {
        true
    }

    open spec fn labelled(&self) -> Seq<char> {
        "random"@
    }

    open spec fn ready(&self) -> bool {
        true
    }

    fn name(&self) -> &'static str {
        "random"
    }

    fn stochastic(&self) -> bool {
        true
    }

    fn config_label(&self) -> String {
        "random".to_owned()
    }

    /// Some legal move.
    fn select_raw(&self, bb: &Bitboard, seed: Option<u64>) -> (r: Result<
        (Move, RawMetrics),
        String,
    >)
        ensures
            random_outcome(seed, bb@, r),
    {
        let moves = generate_legal_moves(bb);
        if moves.len() == 0 {
            return Err("random: no legal moves".to_owned());
        }
        let mut rng = match seed {
            Some(s) => seeded_rng(s),
            None => entropy_rng(),
        };
        let i: usize = pick(&mut rng, moves.len());
        proof {
            lemma_legal_moves(bb@);
            assert(moves@.contains(moves@[i as int]));
        }
        Ok((moves[i], RawMetrics::default()))
    }
}

/// The work that was measured for the choice of one move.
#[derive(Debug)]
pub struct MoveObservation {
    pub engine: String,
    pub config_label: String,
    pub position_id: String,
    /// The key of the move.
    pub mv: String,
    pub wall_nanos: u64,
    pub cpu_nanos: u64,
    pub root_legal_moves: usize,
    pub exact: bool,
    pub seed: Option<u64>,
    pub nodes: Option<u64>,
    pub iterations: Option<u64>,
    pub depth_reached: Option<u32>,
    pub score: Option<Ratio>,
    pub peak_memory_bytes: Option<u64>,
    pub extra: Vec<(String, Json)>,
}

/// Nanoseconds as seconds.
pub open spec fn seconds_view(nanos: u64) -> JsonView {
    JsonView::Float(scientific_of(nanos as nat, 9))
}

/// An observation as JSON, given its score as JSON.
pub open spec fn observation_view(o: MoveObservation, score: JsonView) -> JsonView {
    JsonView::Object(
        seq![
            ("config_label"@, JsonView::Text(o.config_label@)),
            ("cpu_time_s"@, seconds_view(o.cpu_nanos)),
            (
                "depth_reached"@,
                match o.depth_reached {
                    Some(d) => JsonView::Unsigned(d as u64),
                    None => JsonView::Null,
                },
            ),
            ("engine"@, JsonView::Text(o.engine@)),
            ("exact"@, JsonView::Bool(o.exact)),
            ("extra"@, JsonView::Object(members_view(o.extra@))),
            ("iterations"@, number_or_null(o.iterations)),
            ("move"@, JsonView::Text(o.mv@)),
            ("nodes"@, number_or_null(o.nodes)),
            ("peak_memory_bytes"@, number_or_null(o.peak_memory_bytes)),
            ("position_id"@, JsonView::Text(o.position_id@)),
            ("root_legal_moves"@, JsonView::Unsigned(o.root_legal_moves as u64)),
            ("score"@, score),
            ("seed"@, number_or_null(o.seed)),
            ("wall_time_s"@, seconds_view(o.wall_nanos)),
        ],
    )
}

fn copy_members(members: &Vec<(String, Json)>) -> (r: Vec<(String, Json)>)
    ensures
        members_view(r@) == members_view(members@),
{
    let mut r: Vec<(String, Json)> = Vec::new();
    let mut i: usize = 0;
    while i < members.len()
        invariant
            i <= members@.len(),
            r@.len() == i,
            forall|k: int|
                0 <= k < i ==> (#[trigger] r@[k]).0@ == members@[k].0@ && r@[k].1.view()
                    == members@[k].1.view(),
        decreases members@.len() - i,
    {
        r.push((members[i].0.clone(), members[i].1.copy()));
        i = i + 1;
    }
    assert(members_view(r@) =~= members_view(members@));
    r
}

impl MoveObservation {
    /// The observation as JSON. `write` puts a ratio as a floating number in
    /// shortest scientific notation.
    pub fn to_json<F: Fn(Ratio) -> String>(&self, write: &F) -> (j: Json)
        requires
            forall|q: Ratio| #[trigger] call_requires(*write, (q,)),
        ensures
            exists|score: JsonView|
                written(*write, self.score, score) && j.view() == #[trigger] observation_view(
                    *self,
                    score,
                ),
    {
        let score = match self.score {
            Some(q) => Json::Float(write(q)),
            None => Json::Null,
        };
        let ghost shown = score.view();
        let depth: Option<u64> = match self.depth_reached {
            Some(d) => Some(d as u64),
            None => None,
        };
        let members: Vec<(String, Json)> = vec![
            field("config_label", Json::text(self.config_label.as_str())),
            field("cpu_time_s", Json::Float(scientific_text(self.cpu_nanos, 9))),
            field("depth_reached", Json::optional_number(depth)),
            field("engine", Json::text(self.engine.as_str())),
            field("exact", Json::Bool(self.exact)),
            field("extra", Json::Object(copy_members(&self.extra))),
            field("iterations", Json::optional_number(self.iterations)),
            field("move", Json::text(self.mv.as_str())),
            field("nodes", Json::optional_number(self.nodes)),
            field("peak_memory_bytes", Json::optional_number(self.peak_memory_bytes)),
            field("position_id", Json::text(self.position_id.as_str())),
            field("root_legal_moves", Json::Unsigned(self.root_legal_moves as u64)),
            field("score", score),
            field("seed", Json::optional_number(self.seed)),
            field("wall_time_s", Json::Float(scientific_text(self.wall_nanos, 9))),
        ];
        assert(members_view(members@) =~= observation_view(*self, shown)->Object_0);
        Json::Object(members)
    }
}

/// The words about a move that may not be played.
pub open spec fn illegal_words(name: Seq<char>, mv: Move) -> Seq<char> {
    name + ": returned illegal move Move { player: "@ + decimal(mv.player as nat) + ", shape: "@
        + decimal(mv.shape as nat) + ", position: "@ + decimal(mv.position as nat) + " }"@
}

fn illegal_message(name: &str, mv: Move) -> (m: String)
    ensures
        m@ == illegal_words(name@, mv),
{
    let mut m = concat(name, ": returned illegal move Move { player: ");
    push_decimal(&mut m, mv.player as u64);
    m.append(", shape: ");
    push_decimal(&mut m, mv.shape as u64);
    m.append(", position: ");
    push_decimal(&mut m, mv.position as u64);
    m.append(" }");
    m
}

/// The words about a position in which nothing can be chosen.
pub open spec fn terminal_words(name: Seq<char>) -> Seq<char> {
    name + ": cannot select from a terminal state"@
}

/// Whether `r` is what becomes of the answer `chosen` of the engine called `name` on the
/// board `b`: a move that may not be played is an error.
pub open spec fn checked(
    name: Seq<char>,
    b: Seq<u16>,
    chosen: Result<(Move, RawMetrics), String>,
    r: Result<(Move, RawMetrics), String>,
) -> bool {
    match chosen {
        Err(e) => r matches Err(m) && m@ == e@,
        Ok((mv, metrics)) => if legal_move(b, mv) {
            r == chosen
        } else {
            r matches Err(m) && m@ == illegal_words(name, mv)
        },
    }
}

/// Check the move that an engine returned.
pub fn check_choice(name: &str, bb: &Bitboard, chosen: Result<(Move, RawMetrics), String>) -> (r:
    Result<(Move, RawMetrics), String>)
    ensures
        checked(name@, bb@, chosen, r),
{
    let (mv, metrics) = match chosen {
        Ok(t) => t,
        Err(e) => return Err(e),
    };
    let legal = generate_legal_moves(bb);
    proof {
        lemma_legal_moves(bb@);
    }
    let mut i: usize = 0;
    while i < legal.len()
        invariant
            i <= legal@.len(),
            legal@ == legal_moves(bb@),
            forall|k: int| 0 <= k < i ==> #[trigger] legal@[k] != mv,
            forall|m: Move| legal_moves(bb@).contains(m) <==> #[trigger] legal_move(bb@, m),
            chosen == Ok::<(Move, RawMetrics), String>((mv, metrics)),
        decreases legal@.len() - i,
    {
        if legal[i] == mv {
            assert(legal_moves(bb@).contains(mv));
            return Ok((mv, metrics));
        }
        i = i + 1;
    }
    Err(illegal_message(name, mv))
}

/// Whether `raw` may be what the engine answers when it is asked about the board `b` with
/// `seed`.
pub open spec fn engine_says<A: EngineAdapter>(
    adapter: A,
    b: Seq<u16>,
    seed: Option<u64>,
    raw: Result<(Move, RawMetrics), String>,
) -> bool {
    exists|bb: Bitboard|
        bb@ == b && #[trigger] call_ensures(A::select_raw, (&adapter, &bb, seed), raw)
}

/// Whether `r` may be the checked choice of the engine on the board `b` with `seed`: an
/// error where the game is over, else what becomes of an answer of the engine.
pub open spec fn choice_made<A: EngineAdapter>(
    adapter: A,
    b: Seq<u16>,
    seed: Option<u64>,
    r: Result<(Move, RawMetrics), String>,
) -> bool {
    if finished(b) {
        r matches Err(m) && m@ == terminal_words(adapter.named())
    } else {
        exists|raw: Result<(Move, RawMetrics), String>| #[trigger]
            engine_says(adapter, b, seed, raw) && checked(adapter.named(), b, raw, r)
    }
}

/// Whether two answers say the same: one move with the same metrics, or one error.
pub open spec fn same_answer(
    x: Result<(Move, RawMetrics), String>,
    y: Result<(Move, RawMetrics), String>,
) -> bool {
    match (x, y) {
        (Ok(p), Ok(q)) => {
            &&& p.0 == q.0
            &&& p.1.exact == q.1.exact
            &&& p.1.nodes == q.1.nodes
            &&& p.1.iterations == q.1.iterations
            &&& p.1.depth_reached == q.1.depth_reached
            &&& p.1.score == q.1.score
            &&& members_view(p.1.extra@) == members_view(q.1.extra@)
        },
        (Err(e), Err(f)) => e@ == f@,
        _ => false,
    }
}

/// Whether the answers of an engine are settled by the board and the seed.
pub open spec fn settled_by_seed<A: EngineAdapter>(adapter: A) -> bool {
    forall|
        b: Seq<u16>,
        seed: u64,
        x: Result<(Move, RawMetrics), String>,
        y: Result<(Move, RawMetrics), String>,
    | #[trigger]
        engine_says(adapter, b, Some(seed), x) && #[trigger] engine_says(adapter, b, Some(seed), y)
            ==> same_answer(x, y)
}

/// The answers of minimax without a time limit are settled by the board.
pub proof fn law_minimax_is_settled(a: MinimaxAdapter)
    requires
        nanos_of(a.time_limit) is None,
    ensures
        settled_by_seed(a),
{
    assert forall|
        b: Seq<u16>,
        seed: u64,
        x: Result<(Move, RawMetrics), String>,
        y: Result<(Move, RawMetrics), String>,
    | #[trigger]
        engine_says(a, b, Some(seed), x) && #[trigger] engine_says(
            a,
            b,
            Some(seed),
            y,
        ) implies same_answer(x, y) by {
        assert(minimax_outcome(a, b, x) && minimax_outcome(a, b, y));
        lemma_minimax_settled(a, b, x, y);
    }
}

proof fn lemma_minimax_settled(
    a: MinimaxAdapter,
    b: Seq<u16>,
    x: Result<(Move, RawMetrics), String>,
    y: Result<(Move, RawMetrics), String>,
)
    requires
        nanos_of(a.time_limit) is None,
        minimax_outcome(a, b, x),
        minimax_outcome(a, b, y),
    ensures
        same_answer(x, y),
{
    if x is Ok {
        let (p, q) = (x->Ok_0, y->Ok_0);
        let (c, res) = choose|c: MinimaxConfig, res: MinimaxResult| #[trigger]
            minimax_reports(a, b, c, res, p.0, p.1);
        let (d, other) = choose|c: MinimaxConfig, res: MinimaxResult| #[trigger]
            minimax_reports(a, b, c, res, q.0, q.1);
        assert(c.eval_config.weights =~= d.eval_config.weights);
        assert(c == d);
        law_minimax_searches_agree(c, b, None, res, other);
        assert(members_view(p.1.extra@) =~= members_view(q.1.extra@));
    }
}

/// The answers of Monte Carlo search without a time limit are settled by the board and the
/// seed, with a priority that gives one value for given wins and visits.
pub proof fn law_mcts_is_settled<F: Fn(u32, u32, u32) -> i64>(a: MCTSAdapter<F>)
    requires
        nanos_of(a.time_limit) is None,
        gives_one_value(a.priority),
    ensures
        settled_by_seed(a),
{
    assert forall|
        b: Seq<u16>,
        seed: u64,
        x: Result<(Move, RawMetrics), String>,
        y: Result<(Move, RawMetrics), String>,
    | #[trigger]
        engine_says(a, b, Some(seed), x) && #[trigger] engine_says(
            a,
            b,
            Some(seed),
            y,
        ) implies same_answer(x, y) by {
        assert(mcts_outcome(a, Some(seed), b, x) && mcts_outcome(a, Some(seed), b, y));
        lemma_mcts_settled(a, seed, b, x, y);
    }
}

proof fn lemma_mcts_settled<F: Fn(u32, u32, u32) -> i64>(
    a: MCTSAdapter<F>,
    seed: u64,
    b: Seq<u16>,
    x: Result<(Move, RawMetrics), String>,
    y: Result<(Move, RawMetrics), String>,
)
    requires
        nanos_of(a.time_limit) is None,
        gives_one_value(a.priority),
        mcts_outcome(a, Some(seed), b, x),
        mcts_outcome(a, Some(seed), b, y),
    ensures
        same_answer(x, y),
{
    if x is Ok {
        let (p, q) = (x->Ok_0, y->Ok_0);
        let (g, s) = choose|rng: StdRng, t: GrownTree| #[trigger]
            mcts_reports(a, Some(seed), b, rng, t, p.0, p.1);
        let (h, t) = choose|rng: StdRng, t: GrownTree| #[trigger]
            mcts_reports(a, Some(seed), b, rng, t, q.0, q.1);
        assert(g == seeded(seed) && h == seeded(seed));
        law_searches_agree(
            a.priority,
            mcts_config(a, Some(seed)),
            b,
            g,
            p.1.iterations->0 as u32,
            s,
            p.0,
            p.1.score->0.num as int,
            p.1.score->0.den as int,
            q.1.iterations->0 as u32,
            t,
            q.0,
            q.1.score->0.num as int,
            q.1.score->0.den as int,
        );
        assert(members_view(p.1.extra@) =~= members_view(q.1.extra@));
    }
}

/// The answers of beam search without a time limit are settled by the board and the seed.
pub proof fn law_beam_is_settled(a: BeamAdapter)
    requires
        nanos_of(a.time_limit) is None,
    ensures
        settled_by_seed(a),
{
    assert forall|
        b: Seq<u16>,
        seed: u64,
        x: Result<(Move, RawMetrics), String>,
        y: Result<(Move, RawMetrics), String>,
    | #[trigger]
        engine_says(a, b, Some(seed), x) && #[trigger] engine_says(
            a,
            b,
            Some(seed),
            y,
        ) implies same_answer(x, y) by {
        assert(beam_outcome(a, Some(seed), b, x) && beam_outcome(a, Some(seed), b, y));
        lemma_beam_settled(a, seed, b, x, y);
    }
}

proof fn lemma_beam_settled(
    a: BeamAdapter,
    seed: u64,
    b: Seq<u16>,
    x: Result<(Move, RawMetrics), String>,
    y: Result<(Move, RawMetrics), String>,
)
    requires
        nanos_of(a.time_limit) is None,
        beam_outcome(a, Some(seed), b, x),
        beam_outcome(a, Some(seed), b, y),
    ensures
        same_answer(x, y),
{
    if x is Ok {
        let (p, q) = (x->Ok_0, y->Ok_0);
        let (c, g, res) = choose|c: BeamSearchConfig, rng: StdRng, res: BeamSearchResult| #[trigger]
            beam_reports(a, Some(seed), b, c, rng, res, p.0, p.1);
        let (d, h, other) = choose|
            c: BeamSearchConfig,
            rng: StdRng,
            res: BeamSearchResult,
        | #[trigger]
            beam_reports(a, Some(seed), b, c, rng, res, q.0, q.1);
        assert(c == d);
        assert(g == seeded(seed) && h == seeded(seed));
        let after = choose|after: StdRng| #[trigger] searched_by_playouts(res, b, c, g, after);
        let after_other = choose|after: StdRng| #[trigger]
            searched_by_playouts(other, b, d, h, after);
        law_beam_searches_agree(b, c, g, res, after, other, after_other);
    }
}

/// The answers of random choice are settled by the board and the seed.
pub proof fn law_random_is_settled(a: RandomAdapter)
    ensures
        settled_by_seed(a),
{
    assert forall|
        b: Seq<u16>,
        seed: u64,
        x: Result<(Move, RawMetrics), String>,
        y: Result<(Move, RawMetrics), String>,
    | #[trigger]
        engine_says(a, b, Some(seed), x) && #[trigger] engine_says(
            a,
            b,
            Some(seed),
            y,
        ) implies same_answer(x, y) by {
        assert(random_outcome(Some(seed), b, x) && random_outcome(Some(seed), b, y));
        if x is Ok {
            assert(members_view(x->Ok_0.1.extra@) =~= members_view(y->Ok_0.1.extra@));
        }
    }
}

/// Whether an engine searches without a time limit, with a priority that gives one value for
/// given wins and visits.
pub open spec fn untimed<F: Fn(u32, u32, u32) -> i64>(a: AnyAdapter<F>) -> bool {
    match a {
        AnyAdapter::Minimax(a) => nanos_of(a.time_limit) is None,
        AnyAdapter::Mcts(a) => nanos_of(a.time_limit) is None && gives_one_value(a.priority),
        AnyAdapter::Beam(a) => nanos_of(a.time_limit) is None,
        AnyAdapter::Random(_) => true,
    }
}

/// The answers of every engine without a time limit are settled by the board and the seed.
pub proof fn law_engines_are_settled<F: Fn(u32, u32, u32) -> i64>(a: AnyAdapter<F>)
    requires
        untimed(a),
    ensures
        settled_by_seed(a),
{
    assert forall|
        b: Seq<u16>,
        seed: u64,
        x: Result<(Move, RawMetrics), String>,
        y: Result<(Move, RawMetrics), String>,
    | #[trigger]
        engine_says(a, b, Some(seed), x) && #[trigger] engine_says(
            a,
            b,
            Some(seed),
            y,
        ) implies same_answer(x, y) by {
        match a {
            AnyAdapter::Minimax(m) => {
                assert(minimax_outcome(m, b, x) && minimax_outcome(m, b, y));
                lemma_minimax_settled(m, b, x, y);
            },
            AnyAdapter::Mcts(m) => {
                assert(mcts_outcome(m, Some(seed), b, x) && mcts_outcome(m, Some(seed), b, y));
                lemma_mcts_settled(m, seed, b, x, y);
            },
            AnyAdapter::Beam(m) => {
                assert(beam_outcome(m, Some(seed), b, x) && beam_outcome(m, Some(seed), b, y));
                lemma_beam_settled(m, seed, b, x, y);
            },
            AnyAdapter::Random(_) => {
                assert(random_outcome(Some(seed), b, x) && random_outcome(Some(seed), b, y));
                if x is Ok {
                    assert(members_view(x->Ok_0.1.extra@) =~= members_view(y->Ok_0.1.extra@));
                }
            },
        }
    }
}

/// The checked choices of an engine are settled by the board and the seed where its
/// answers are.
pub proof fn law_choice_is_settled<A: EngineAdapter>(
    adapter: A,
    b: Seq<u16>,
    seed: u64,
    x: Result<(Move, RawMetrics), String>,
    y: Result<(Move, RawMetrics), String>,
)
    requires
        settled_by_seed(adapter),
        choice_made(adapter, b, Some(seed), x),
        choice_made(adapter, b, Some(seed), y),
    ensures
        same_answer(x, y),
{
    if !finished(b) {
        let p = choose|raw: Result<(Move, RawMetrics), String>| #[trigger]
            engine_says(adapter, b, Some(seed), raw) && checked(adapter.named(), b, raw, x);
        let q = choose|raw: Result<(Move, RawMetrics), String>| #[trigger]
            engine_says(adapter, b, Some(seed), raw) && checked(adapter.named(), b, raw, y);
        assert(engine_says(adapter, b, Some(seed), p) && engine_says(adapter, b, Some(seed), q));
    }
}

/// Let an engine choose a move and check it.
pub fn choose_move<A: EngineAdapter>(adapter: &A, bb: &Bitboard, seed: Option<u64>) -> (r: Result<
    (Move, RawMetrics),
    String,
>)
    requires
        adapter.ready(),
    ensures
        choice_made(*adapter, bb@, seed, r),
        r matches Ok((mv, _)) ==> legal_move(bb@, mv) && !finished(bb@),
{
    if has_winning_line(bb) || generate_legal_moves(bb).len() == 0 {
        return Err(concat(adapter.name(), ": cannot select from a terminal state"));
    }
    let chosen = adapter.select_raw(bb, seed);
    assert(engine_says(*adapter, bb@, seed, chosen)) by {
        assert(call_ensures(A::select_raw, (adapter, bb, seed), chosen));
    }
    check_choice(adapter.name(), bb, chosen)
}

/// Whether `o` records that the engine chose `mv` on the board `b`, with the metrics of the
/// choice and the times that it took.
pub open spec fn records_choice<A: EngineAdapter>(
    adapter: A,
    b: Seq<u16>,
    position_id: Seq<char>,
    seed: Option<u64>,
    mv: Move,
    metrics: RawMetrics,
    wall_nanos: u64,
    cpu_nanos: u64,
    o: MoveObservation,
) -> bool {
    &&& o.engine@ == adapter.named()
    &&& o.config_label@ == adapter.labelled()
    &&& o.position_id@ == position_id
    &&& o.mv@ == key_of(mv)
    &&& o.wall_nanos == wall_nanos
    &&& o.cpu_nanos == cpu_nanos
    &&& o.root_legal_moves == legal_moves(b).len()
    &&& o.exact == metrics.exact
    &&& o.seed == seed
    &&& o.nodes == metrics.nodes
    &&& o.iterations == metrics.iterations
    &&& o.depth_reached == metrics.depth_reached
    &&& o.score == metrics.score
    &&& o.peak_memory_bytes is None
    &&& o.extra == metrics.extra
}

/// Whether `nanos` may be the processor time between two answers of `cpu_clock`; none if the
/// second is not the later.
pub open spec fn cpu_used<C: Fn() -> u64>(cpu_clock: C, nanos: u64) -> bool {
    exists|before: u64, after: u64|
        #![trigger call_ensures(cpu_clock, (), before), call_ensures(cpu_clock, (), after)]
        call_ensures(cpu_clock, (), before) && call_ensures(cpu_clock, (), after) && nanos == if after
            > before {
            after - before
        } else {
            0
        }
}

/// Whether `r` may be the recorded choice of the engine on the board `b`: its checked
/// choice, with the times that the clocks measured.
pub open spec fn selection_made<A: EngineAdapter, C: Fn() -> u64>(
    adapter: A,
    b: Seq<u16>,
    position_id: Seq<char>,
    seed: Option<u64>,
    cpu_clock: C,
    r: Result<(Move, MoveObservation), String>,
) -> bool {
    exists|c: Result<(Move, RawMetrics), String>| #[trigger]
        choice_made(adapter, b, seed, c) && match (c, r) {
            (Ok((mv, metrics)), Ok((m, o))) => {
                &&& m == mv
                &&& legal_move(b, mv)
                &&& took(o.wall_nanos)
                &&& cpu_used(cpu_clock, o.cpu_nanos)
                &&& records_choice(
                    adapter,
                    b,
                    position_id,
                    seed,
                    mv,
                    metrics,
                    o.wall_nanos,
                    o.cpu_nanos,
                    o,
                )
            },
            (Err(e), Err(m)) => m@ == e@,
            _ => false,
        }
}

/// Record a choice with its metrics and the times that it took.
pub fn record_choice<A: EngineAdapter>(
    adapter: &A,
    bb: &Bitboard,
    position_id: &str,
    seed: Option<u64>,
    mv: &Move,
    metrics: RawMetrics,
    wall_nanos: u64,
    cpu_nanos: u64,
) -> (o: MoveObservation)
    ensures
        records_choice(
            *adapter,
            bb@,
            position_id@,
            seed,
            *mv,
            metrics,
            wall_nanos,
            cpu_nanos,
            o,
        ),
{
    MoveObservation {
        engine: adapter.name().to_owned(),
        config_label: adapter.config_label(),
        position_id: position_id.to_owned(),
        mv: move_key(mv),
        wall_nanos,
        cpu_nanos,
        root_legal_moves: generate_legal_moves(bb).len(),
        exact: metrics.exact,
        seed,
        nodes: metrics.nodes,
        iterations: metrics.iterations,
        depth_reached: metrics.depth_reached,
        score: metrics.score,
        peak_memory_bytes: None,
        extra: metrics.extra,
    }
}

/// Time, check and record the choice of an engine. `cpu_clock` gives the
/// processor time that has been used, in nanoseconds. Only the engine is timed, not the
/// checks.
pub fn select<A: EngineAdapter, C: Fn() -> u64>(
    adapter: &A,
    bb: &Bitboard,
    position_id: &str,
    seed: Option<u64>,
    cpu_clock: &C,
) -> (r: Result<(Move, MoveObservation), String>)
    requires
        adapter.ready(),
        call_requires(*cpu_clock, ()),
    ensures
        selection_made(*adapter, bb@, position_id@, seed, *cpu_clock, r),
        finished(bb@) ==> (r matches Err(m) && m@ == terminal_words(adapter.named())),
{
    if has_winning_line(bb) || generate_legal_moves(bb).len() == 0 {
        let words = concat(adapter.name(), ": cannot select from a terminal state");
        proof {
            let c: Result<(Move, RawMetrics), String> = Err(words);
            assert(choice_made(*adapter, bb@, seed, c));
        }
        return Err(words);
    }
    let wall = start_clock();
    let cpu: u64 = cpu_clock();
    let chosen = adapter.select_raw(bb, seed);
    let wall_nanos: u64 = spent_since(&wall);
    let cpu_after: u64 = cpu_clock();
    let cpu_nanos: u64 = cpu_after.saturating_sub(cpu);
    proof {
        assert(call_ensures(A::select_raw, (adapter, bb, seed), chosen));
        assert(engine_says(*adapter, bb@, seed, chosen));
        assert(call_ensures(*cpu_clock, (), cpu) && call_ensures(*cpu_clock, (), cpu_after));
        assert(cpu_used(*cpu_clock, cpu_nanos));
    }
    let checked = check_choice(adapter.name(), bb, chosen);
    assert(choice_made(*adapter, bb@, seed, checked));
    let (mv, metrics) = match checked {
        Ok(t) => t,
        Err(m) => return Err(m),
    };
    let observation = record_choice(
        adapter,
        bb,
        position_id,
        seed,
        &mv,
        metrics,
        wall_nanos,
        cpu_nanos,
    );
    Ok((mv, observation))
}

/// One of the engines.
pub enum AnyAdapter<F: Fn(u32, u32, u32) -> i64> {
    Minimax(MinimaxAdapter),
    Mcts(MCTSAdapter<F>),
    Beam(BeamAdapter),
    Random(RandomAdapter),
}

impl<F: Fn(u32, u32, u32) -> i64> EngineAdapter for AnyAdapter<F> {
    open spec fn named(&self) -> Seq<char> {
        match self {
            AnyAdapter::Minimax(a) => a.named(),
            AnyAdapter::Mcts(a) => a.named(),
            AnyAdapter::Beam(a) => a.named(),
            AnyAdapter::Random(a) => a.named(),
        }
    }

    open spec fn is_stochastic(&self) -> bool {
        match self {
            AnyAdapter::Minimax(a) => a.is_stochastic(),
            AnyAdapter::Mcts(a) => a.is_stochastic(),
            AnyAdapter::Beam(a) => a.is_stochastic(),
            AnyAdapter::Random(a) => a.is_stochastic(),
        }
    }

    open spec fn labelled(&self) -> Seq<char> {
        match self {
            AnyAdapter::Minimax(a) => a.labelled(),
            AnyAdapter::Mcts(a) => a.labelled(),
            AnyAdapter::Beam(a) => a.labelled(),
            AnyAdapter::Random(a) => a.labelled(),
        }
    }

    open spec fn ready(&self) -> bool {
        match self {
            AnyAdapter::Minimax(a) => a.ready(),
            AnyAdapter::Mcts(a) => a.ready(),
            AnyAdapter::Beam(a) => a.ready(),
            AnyAdapter::Random(a) => a.ready(),
        }
    }

    fn name(&self) -> &'static str {
        match self {
            AnyAdapter::Minimax(a) => a.name(),
            AnyAdapter::Mcts(a) => a.name(),
            AnyAdapter::Beam(a) => a.name(),
            AnyAdapter::Random(a) => a.name(),
        }
    }

    fn stochastic(&self) -> bool {
        match self {
            AnyAdapter::Minimax(a) => a.stochastic(),
            AnyAdapter::Mcts(a) => a.stochastic(),
            AnyAdapter::Beam(a) => a.stochastic(),
            AnyAdapter::Random(a) => a.stochastic(),
        }
    }

    fn config_label(&self) -> String {
        match self {
            AnyAdapter::Minimax(a) => a.config_label(),
            AnyAdapter::Mcts(a) => a.config_label(),
            AnyAdapter::Beam(a) => a.config_label(),
            AnyAdapter::Random(a) => a.config_label(),
        }
    }

    fn select_raw(&self, bb: &Bitboard, seed: Option<u64>) -> (r: Result<
        (Move, RawMetrics),
        String,
    >)
        ensures
            match *self {
                AnyAdapter::Minimax(a) => minimax_outcome(a, bb@, r),
                AnyAdapter::Mcts(a) => mcts_outcome(a, seed, bb@, r),
                AnyAdapter::Beam(a) => beam_outcome(a, seed, bb@, r),
                AnyAdapter::Random(_) => random_outcome(seed, bb@, r),
            },
            r matches Ok((mv, m)) ==> legal_move(bb@, mv),
    {
        match self {
            AnyAdapter::Minimax(a) => a.select_raw(bb, seed),
            AnyAdapter::Mcts(a) => a.select_raw(bb, seed),
            AnyAdapter::Beam(a) => a.select_raw(bb, seed),
            AnyAdapter::Random(a) => a.select_raw(bb, seed),
        }
    }
}

pub fn copy_seconds(t: &Seconds) -> (r: Seconds)
    ensures
        r.text@ == t.text@,
        r.nanos == t.nanos,
{
    Seconds { text: t.text.clone(), nanos: t.nanos }
}

/// Minimax, Monte Carlo and beam search with the same time for each move.
/// `priority` explores with the square root of two.
pub fn fixed_time_adapters<F: Fn(u32, u32, u32) -> i64>(
    time_limit: &Seconds,
    beam_width: usize,
    priority: F,
) -> (r: (MinimaxAdapter, MCTSAdapter<F>, BeamAdapter))
    ensures
        r.0.max_depth == 16,
        time_shown(r.0.time_limit) == Some(float_text(time_limit.text@)),
        nanos_of(r.0.time_limit) == Some(time_limit.nanos),
        r.1.max_iterations == 10_000_000,
        r.1.max_depth == 16,
        r.1.exploration_weight@ == "1.4142135623730951e0"@,
        time_shown(r.1.time_limit) == Some(float_text(time_limit.text@)),
        nanos_of(r.1.time_limit) == Some(time_limit.nanos),
        r.1.priority == priority,
        r.2.beam_width == beam_width,
        r.2.max_depth == 16,
        time_shown(r.2.time_limit) == Some(float_text(time_limit.text@)),
        nanos_of(r.2.time_limit) == Some(time_limit.nanos),
{
    (
        MinimaxAdapter { max_depth: 16, time_limit: Some(copy_seconds(time_limit)) },
        MCTSAdapter {
            max_iterations: 10_000_000,
            max_depth: 16,
            exploration_weight: "1.4142135623730951e0".to_owned(),
            time_limit: Some(copy_seconds(time_limit)),
            priority,
        },
        BeamAdapter { beam_width, max_depth: 16, time_limit: Some(copy_seconds(time_limit)) },
    )
}

} // verus!
