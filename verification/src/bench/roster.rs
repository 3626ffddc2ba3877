//! Which engines take part in a run, and with which settings.
use crate::bench::adapters::{
    copy_seconds, AnyAdapter, BeamAdapter, EngineAdapter, MCTSAdapter, MinimaxAdapter,
    RandomAdapter, Seconds,
};
use crate::bench::fields::{concat, concat3, texts, trim, trimmed};
use crate::text::{debug_form, debug_text, from_chars, same_text, to_chars};
use vstd::prelude::*;
use vstd::string::*;

verus! {

/// A character with a capital letter of the Latin alphabet made small.
pub open spec fn small(c: char) -> char {
    if 'A' <= c && c <= 'Z' {
        (c as u32 + 32) as char
    } else {
        c
    }
}

fn small_char(c: char) -> (r: char)
    ensures
        r == small(c),
{
    if 'A' <= c && c <= 'Z' {
        let n: u8 = (c as u32 + 32) as u8;
        n as char
    } else {
        c
    }
}

/// A text with the capital letters of the Latin alphabet made small.
pub open spec fn lowered(s: Seq<char>) -> Seq<char> {
    s.map_values(|c: char| small(c))
}

fn lower(s: &str) -> (r: String)
    ensures
        r@ == lowered(s@),
{
    let chars = to_chars(s);
    let mut out: Vec<char> = Vec::new();
    let mut i: usize = 0;
    while i < chars.len()
        invariant
            i <= chars@.len(),
            chars@ == s@,
            out@.len() == i,
            forall|k: int| 0 <= k < i ==> #[trigger] out@[k] == small(s@[k]),
        decreases chars@.len() - i,
    {
        out.push(small_char(chars[i]));
        i = i + 1;
    }
    assert(out@ =~= lowered(s@));
    from_chars(&out)
}

/// The engine that a name stands for, whatever its case and the white space
/// around it.
pub open spec fn engine_name(name: Seq<char>) -> Option<Seq<char>> {
    let n = lowered(trimmed(name));
    if n == "minimax"@ || n == "minmax"@ {
        Some("minimax"@)
    } else if n == "mcts"@ {
        Some("mcts"@)
    } else if n == "beam"@ || n == "beam_search"@ || n == "beam-search"@ {
        Some("beam"@)
    } else if n == "random"@ || n == "baseline"@ {
        Some("random"@)
    } else {
        None
    }
}

/// The engine that a name stands for.
pub fn normalize_engine_name(name: &str) -> (r: Option<&'static str>)
    ensures
        match (r, engine_name(name@)) {
            (Some(n), Some(m)) => n@ == m,
            (None, None) => true,
            _ => false,
        },
{
    let n = lower(trim(name).as_str());
    let n = n.as_str();
    if same_text(n, "minimax") || same_text(n, "minmax") {
        Some("minimax")
    } else if same_text(n, "mcts") {
        Some("mcts")
    } else if same_text(n, "beam") || same_text(n, "beam_search") || same_text(n, "beam-search") {
        Some("beam")
    } else if same_text(n, "random") || same_text(n, "baseline") {
        Some("random")
    } else {
        None
    }
}

/// The settings of the engines of a run. In the family `fixed` every engine has
/// the same time for a move, in the others each has its own limits.
#[derive(Debug)]
pub struct RunArgs {
    pub family: String,
    pub time_limit: Seconds,
    pub minimax_depth: u32,
    pub minimax_time: Seconds,
    pub mcts_iterations: u32,
    pub mcts_depth: u32,
    /// In scientific notation.
    pub mcts_exploration: String,
    pub beam_width: usize,
    pub beam_depth: u32,
    pub engines: Vec<String>,
}

impl RunArgs {
    pub open spec fn fixed(&self) -> bool {
        self.family@ == "fixed"@
    }

    /// The weight of exploration in a Monte Carlo search.
    pub open spec fn weight(&self) -> Seq<char> {
        if self.fixed() {
            "1.4142135623730951e0"@
        } else {
            self.mcts_exploration@
        }
    }

    /// The weight of exploration in a Monte Carlo search, in scientific notation.
    pub fn exploration_weight(&self) -> (w: String)
        ensures
            w@ == self.weight(),
    {
        if same_text(self.family.as_str(), "fixed") {
            "1.4142135623730951e0".to_owned()
        } else {
            self.mcts_exploration.clone()
        }
    }
}

/// What a time limit says.
pub open spec fn limit_view(limit: Option<Seconds>) -> Option<(Seq<char>, u64)> {
    match limit {
        Some(t) => Some((t.text@, t.nanos)),
        None => None,
    }
}

/// What a duration says.
pub open spec fn seconds_of(t: Seconds) -> Option<(Seq<char>, u64)> {
    Some((t.text@, t.nanos))
}

/// Whether `a` is the engine `name` with the settings of a run.
pub open spec fn built<F: Fn(u32, u32, u32) -> i64>(
    name: Seq<char>,
    args: RunArgs,
    priority: F,
    a: AnyAdapter<F>,
) -> bool {
    let fixed = args.fixed();
    match a {
        AnyAdapter::Minimax(m) => {
            &&& name == "minimax"@
            &&& m.max_depth == if fixed {
                16
            } else {
                args.minimax_depth
            }
            &&& limit_view(m.time_limit) == if fixed {
                seconds_of(args.time_limit)
            } else {
                seconds_of(args.minimax_time)
            }
        },
        AnyAdapter::Mcts(m) => {
            &&& name == "mcts"@
            &&& m.max_iterations == if fixed {
                10_000_000
            } else {
                args.mcts_iterations
            }
            &&& m.max_depth == if fixed {
                16
            } else {
                args.mcts_depth
            }
            &&& m.exploration_weight@ == args.weight()
            &&& limit_view(m.time_limit) == if fixed {
                seconds_of(args.time_limit)
            } else {
                None
            }
            &&& m.priority == priority
        },
        AnyAdapter::Beam(m) => {
            &&& name == "beam"@
            &&& m.beam_width == args.beam_width
            &&& m.max_depth == if fixed {
                16
            } else {
                args.beam_depth
            }
            &&& limit_view(m.time_limit) == if fixed {
                seconds_of(args.time_limit)
            } else {
                None
            }
        },
        AnyAdapter::Random(_) => name == "random"@,
    }
}

/// Whether `name` is the name of an engine.
pub open spec fn is_engine(name: Seq<char>) -> bool {
    name == "minimax"@ || name == "mcts"@ || name == "beam"@ || name == "random"@
}

/// The engine `name` with the settings of a run. `priority` explores with
/// [`RunArgs::exploration_weight`].
pub fn build_adapter<F: Fn(u32, u32, u32) -> i64>(name: &str, args: &RunArgs, priority: F) -> (a:
    AnyAdapter<F>)
    requires
        is_engine(name@),
    ensures
        built(name@, *args, priority, a),
{
    let fixed: bool = same_text(args.family.as_str(), "fixed");
    if same_text(name, "minimax") {
        if fixed {
            AnyAdapter::Minimax(
                MinimaxAdapter { max_depth: 16, time_limit: Some(copy_seconds(&args.time_limit)) },
            )
        } else {
            AnyAdapter::Minimax(
                MinimaxAdapter {
                    max_depth: args.minimax_depth,
                    time_limit: Some(copy_seconds(&args.minimax_time)),
                },
            )
        }
    } else if same_text(name, "mcts") {
        if fixed {
            AnyAdapter::Mcts(
                MCTSAdapter {
                    max_iterations: 10_000_000,
                    max_depth: 16,
                    exploration_weight: args.exploration_weight(),
                    time_limit: Some(copy_seconds(&args.time_limit)),
                    priority,
                },
            )
        } else {
            AnyAdapter::Mcts(
                MCTSAdapter {
                    max_iterations: args.mcts_iterations,
                    max_depth: args.mcts_depth,
                    exploration_weight: args.exploration_weight(),
                    time_limit: None,
                    priority,
                },
            )
        }
    } else if same_text(name, "beam") {
        if fixed {
            AnyAdapter::Beam(
                BeamAdapter {
                    beam_width: args.beam_width,
                    max_depth: 16,
                    time_limit: Some(copy_seconds(&args.time_limit)),
                },
            )
        } else {
            AnyAdapter::Beam(
                BeamAdapter {
                    beam_width: args.beam_width,
                    max_depth: args.beam_depth,
                    time_limit: None,
                },
            )
        }
    } else {
        AnyAdapter::Random(RandomAdapter)
    }
}

/// The engines among the first `n` names, or what is wrong with them.
pub open spec fn chosen(engines: Seq<Seq<char>>, n: int) -> Result<Seq<Seq<char>>, Seq<char>>
    decreases n,
{
    if n <= 0 {
        Ok(Seq::empty())
    } else {
        match chosen(engines, n - 1) {
            Err(e) => Err(e),
            Ok(names) => match engine_name(engines[n - 1]) {
                None => Err(
                    "unknown engine "@ + debug_form(engines[n - 1])
                        + "; supported engines: minimax, mcts, beam, random"@,
                ),
                Some(name) => if names.contains(name) {
                    Err("duplicate engine "@ + debug_form(name))
                } else {
                    Ok(names.push(name))
                },
            },
        }
    }
}

/// The engines that are asked for, in order: all of them if none is named.
pub open spec fn requested(engines: Seq<Seq<char>>) -> Result<Seq<Seq<char>>, Seq<char>> {
    if engines.len() == 0 {
        Ok(seq!["minimax"@, "mcts"@, "beam"@, "random"@])
    } else {
        chosen(engines, engines.len() as int)
    }
}

spec fn names_view(names: Seq<&'static str>) -> Seq<Seq<char>> {
    names.map_values(|n: &'static str| n@)
}

proof fn lemma_chosen_error(engines: Seq<Seq<char>>, n: int, m: int)
    requires
        0 <= n <= m,
        chosen(engines, n) is Err,
    ensures
        chosen(engines, m) == chosen(engines, n),
    decreases m - n,
{
    if n < m {
        lemma_chosen_error(engines, n, m - 1);
    }
}

fn lists(names: &Vec<&'static str>, name: &str) -> (r: bool)
    ensures
        r <==> names_view(names@).contains(name@),
{
    let mut i: usize = 0;
    while i < names.len()
        invariant
            i <= names@.len(),
            forall|k: int| 0 <= k < i ==> (#[trigger] names@[k])@ != name@,
        decreases names@.len() - i,
    {
        if same_text(names[i], name) {
            assert(names_view(names@)[i as int] == name@);
            return true;
        }
        i = i + 1;
    }
    false
}

fn choose_engines(engines: &Vec<String>) -> (r: Result<Vec<&'static str>, String>)
    ensures
        match (r, requested(texts(engines@))) {
            (Ok(names), Ok(v)) => names_view(names@) == v && forall|i: int|
                0 <= i < v.len() ==> is_engine(#[trigger] v[i]),
            (Err(m), Err(e)) => m@ == e,
            _ => false,
        },
{
    let ghost views = texts(engines@);
    if engines.len() == 0 {
        let all: Vec<&'static str> = vec!["minimax", "mcts", "beam", "random"];
        assert(names_view(all@) =~= seq!["minimax"@, "mcts"@, "beam"@, "random"@]);
        return Ok(all);
    }
    let mut names: Vec<&'static str> = Vec::new();
    assert(names_view(names@) =~= Seq::empty());
    let mut i: usize = 0;
    while i < engines.len()
        invariant
            i <= engines@.len(),
            engines@.len() > 0,
            views == texts(engines@),
            chosen(views, i as int) == Ok::<Seq<Seq<char>>, Seq<char>>(names_view(names@)),
            forall|k: int| 0 <= k < names@.len() ==> is_engine((#[trigger] names@[k])@),
        decreases engines@.len() - i,
    {
        assert(views[i as int] == engines@[i as int]@);
        match normalize_engine_name(engines[i].as_str()) {
            None => {
                proof {
                    lemma_chosen_error(views, i + 1, views.len() as int);
                }
                let shown = debug_text(engines[i].as_str());
                return Err(
                    concat3(
                        "unknown engine ",
                        shown.as_str(),
                        "; supported engines: minimax, mcts, beam, random",
                    ),
                );
            },
            Some(name) => {
                if lists(&names, name) {
                    proof {
                        lemma_chosen_error(views, i + 1, views.len() as int);
                    }
                    let shown = debug_text(name);
                    return Err(concat("duplicate engine ", shown.as_str()));
                }
                let ghost before = names_view(names@);
                names.push(name);
                assert(names_view(names@) =~= before.push(name@));
            },
        }
        i = i + 1;
    }
    Ok(names)
}

/// Whether `adapters` are the named engines with the settings of a run.
pub open spec fn lined_up<F: Fn(u32, u32, u32) -> i64>(
    names: Seq<Seq<char>>,
    args: RunArgs,
    priority: F,
    adapters: Seq<AnyAdapter<F>>,
) -> bool {
    &&& adapters.len() == names.len()
    &&& forall|i: int|
        0 <= i < names.len() ==> built(names[i], args, priority, #[trigger] adapters[i])
            && adapters[i].named() == names[i]
}

/// The engines of a run, in the order in which they are named.
pub fn build_adapters<F: Fn(u32, u32, u32) -> i64 + Copy>(args: &RunArgs, priority: F) -> (r: Result<
    Vec<AnyAdapter<F>>,
    String,
>)
    ensures
        match (r, requested(texts(args.engines@))) {
            (Ok(adapters), Ok(names)) => lined_up(names, *args, priority, adapters@),
            (Err(m), Err(e)) => m@ == e,
            _ => false,
        },
{
    let names = choose_engines(&args.engines)?;
    let ghost v = names_view(names@);
    let mut adapters: Vec<AnyAdapter<F>> = Vec::new();
    let mut i: usize = 0;
    while i < names.len()
        invariant
            i <= names@.len(),
            v == names_view(names@),
            forall|k: int| 0 <= k < v.len() ==> is_engine(#[trigger] v[k]),
            adapters@.len() == i,
            forall|k: int|
                0 <= k < i ==> built(v[k], *args, priority, #[trigger] adapters@[k])
                    && adapters@[k].named() == v[k],
        decreases names@.len() - i,
    {
        assert(is_engine(v[i as int]));
        let a = build_adapter(names[i], args, priority);
        adapters.push(a);
        i = i + 1;
    }
    Ok(adapters)
}

/// The engines of a run are different.
pub proof fn law_engines_differ(engines: Seq<Seq<char>>)
    requires
        requested(engines) is Ok,
    ensures
        forall|i: int, j: int|
            0 <= i < j < requested(engines)->Ok_0.len() ==> #[trigger] requested(engines)->Ok_0[i]
                != #[trigger] requested(engines)->Ok_0[j],
        forall|i: int|
            0 <= i < requested(engines)->Ok_0.len() ==> is_engine(
                #[trigger] requested(engines)->Ok_0[i],
            ),
{
    reveal_strlit("minimax");
    reveal_strlit("mcts");
    reveal_strlit("beam");
    reveal_strlit("random");
    assert("minimax"@.len() == 7 && "mcts"@.len() == 4 && "beam"@.len() == 4 && "random"@.len()
        == 6);
    assert("mcts"@[0] == 'm' && "beam"@[0] == 'b');
    if engines.len() > 0 {
        lemma_chosen_differ(engines, engines.len() as int);
    }
}

proof fn lemma_chosen_differ(engines: Seq<Seq<char>>, n: int)
    requires
        chosen(engines, n) is Ok,
    ensures
        forall|i: int, j: int|
            0 <= i < j < chosen(engines, n)->Ok_0.len() ==> #[trigger] chosen(engines, n)->Ok_0[i]
                != #[trigger] chosen(engines, n)->Ok_0[j],
        forall|i: int|
            0 <= i < chosen(engines, n)->Ok_0.len() ==> is_engine(
                #[trigger] chosen(engines, n)->Ok_0[i],
            ),
    decreases n,
{
    if n > 0 {
        lemma_chosen_differ(engines, n - 1);
        let before = chosen(engines, n - 1)->Ok_0;
        let name = engine_name(engines[n - 1])->0;
        let after = chosen(engines, n)->Ok_0;
        assert(after == before.push(name));
        assert forall|i: int, j: int| 0 <= i < j < after.len() implies #[trigger] after[i]
            != #[trigger] after[j] by {
            if j == before.len() {
                assert(before.contains(before[i]));
            }
        }
    }
}

} // verus!
