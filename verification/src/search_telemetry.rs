//! What the search engines report of a finished search.
//!
//! Values are from the root mover's perspective. Exactly one and minus one mean
//! a proven result; an estimate never reaches them.
use crate::moves::Move;
use vstd::prelude::*;

verus! {

/// A rational number. `den` is positive.
#[derive(Clone, Copy, Debug, PartialEq, Eq, Structural)]
pub struct Ratio {
    pub num: i64,
    pub den: u64,
}

impl Ratio {
    pub open spec fn wf(self) -> bool {
        self.den > 0
    }

    /// Whether the number lies between minus one and one.
    pub open spec fn in_unit_range(self) -> bool {
        -(self.den as int) <= self.num <= self.den
    }
}

/// Largest absolute value of an estimate: 999 999 millionths.
pub const UNPROVEN_NUM: i64 = 999_999;

/// See [`UNPROVEN_NUM`].
pub const UNPROVEN_DEN: u64 = 1_000_000;

/// Keep an estimate away from the proven values: beyond the bound it becomes the
/// bound.
pub fn clamp_unproven(q: Ratio) -> (r: Ratio)
    requires
        q.wf(),
        q.in_unit_range(),
        q.den <= u32::MAX,
    ensures
        r.wf(),
        -r.den < r.num < r.den,
        q.num * UNPROVEN_DEN > UNPROVEN_NUM * q.den ==> r == (Ratio {
            num: UNPROVEN_NUM,
            den: UNPROVEN_DEN,
        }),
        q.num * UNPROVEN_DEN < -UNPROVEN_NUM * q.den ==> r == (Ratio {
            num: -UNPROVEN_NUM as i64,
            den: UNPROVEN_DEN,
        }),
        -UNPROVEN_NUM * q.den <= q.num * UNPROVEN_DEN <= UNPROVEN_NUM * q.den ==> r == q,
{
    let scaled: i64 = q.num * 1_000_000;
    let bound: i64 = 999_999 * q.den as i64;
    if scaled > bound {
        Ratio { num: UNPROVEN_NUM, den: UNPROVEN_DEN }
    } else if scaled < -bound {
        Ratio { num: -UNPROVEN_NUM, den: UNPROVEN_DEN }
    } else {
        q
    }
}

#[derive(Clone, Copy, Debug, PartialEq, Eq, Structural)]
pub enum EngineKind {
    Mcts,
    Minimax,
    Beam,
}

impl EngineKind {
    /// The name of the engine.
    pub open spec fn label(self) -> Seq<char> {
        match self {
            EngineKind::Mcts => "mcts"@,
            EngineKind::Minimax => "minimax"@,
            EngineKind::Beam => "beam"@,
        }
    }

    pub fn as_str(&self) -> (s: &'static str)
        ensures
            s@ == self.label(),
    {
        match self {
            EngineKind::Mcts => "mcts",
            EngineKind::Minimax => "minimax",
            EngineKind::Beam => "beam",
        }
    }
}

/// What the policy mass of a root move counts.
#[derive(Clone, Copy, Debug, PartialEq, Eq, Structural)]
pub enum PolicyMassKind {
    Visits,
    Multiplicity,
    NoMass,
}

impl PolicyMassKind {
    /// The name of what is counted.
    pub open spec fn label(self) -> Seq<char> {
        match self {
            PolicyMassKind::Visits => "visits"@,
            PolicyMassKind::Multiplicity => "multiplicity"@,
            PolicyMassKind::NoMass => "none"@,
        }
    }

    pub fn as_str(&self) -> (s: &'static str)
        ensures
            s@ == self.label(),
    {
        match self {
            PolicyMassKind::Visits => "visits",
            PolicyMassKind::Multiplicity => "multiplicity",
            PolicyMassKind::NoMass => "none",
        }
    }
}

/// One root move with its mass and its value, where there is one.
#[derive(Clone, Copy, Debug, PartialEq, Eq, Structural)]
pub struct RootMoveStat {
    pub mv: Move,
    pub action_index: u8,
    pub policy_mass: u64,
    pub q: Option<Ratio>,
}

impl RootMoveStat {
    pub fn new(mv: Move, policy_mass: u64, q: Option<Ratio>) -> (stat: Self)
        requires
            mv.in_range(),
        ensures
            stat == (RootMoveStat {
                mv,
                action_index: (mv.shape * 16 + mv.position) as u8,
                policy_mass,
                q,
            }),
    {
        Self { mv, action_index: mv.shape * 16 + mv.position, policy_mass, q }
    }
}

/// Events of a search. Counters stop at the largest number that they can hold.
#[derive(Clone, Copy, Debug, PartialEq, Eq, Structural)]
pub struct SearchEventCounters {
    pub expanded_nodes: u64,
    pub generated_nodes: u64,
    pub transposition_hits: u64,
    pub canonical_dedup_hits: u64,
    pub terminal_hits: u64,
    pub tablebase_hits: u64,
}

/// The counters before anything was counted.
pub open spec fn no_events() -> SearchEventCounters {
    SearchEventCounters {
        expanded_nodes: 0,
        generated_nodes: 0,
        transposition_hits: 0,
        canonical_dedup_hits: 0,
        terminal_hits: 0,
        tablebase_hits: 0,
    }
}

impl Default for SearchEventCounters {
    fn default() -> (c: Self)
        ensures
            c == no_events(),
    {
        Self {
            expanded_nodes: 0,
            generated_nodes: 0,
            transposition_hits: 0,
            canonical_dedup_hits: 0,
            terminal_hits: 0,
            tablebase_hits: 0,
        }
    }
}

/// The report on a search.
#[derive(Clone, Debug)]
pub struct SearchTelemetry {
    pub engine_kind: EngineKind,
    pub root_value: Ratio,
    pub policy_mass_kind: PolicyMassKind,
    pub root_moves: Vec<RootMoveStat>,
    /// Whether every legal root move has an entry of its own.
    pub root_identity_preserved: bool,
    pub principal_variation: Vec<Move>,
    pub counters: SearchEventCounters,
    pub elapsed_ms: u64,
    pub depth_reached: u32,
    pub seed: Option<u64>,
}

} // verus!
