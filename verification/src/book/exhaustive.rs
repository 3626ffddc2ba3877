//! Exhaustive exploration of an opening book, level by level.
use crate::bitboard::Bitboard;
use crate::book::positions::{
    determine_winner, final_score, is_terminal, terminal_score, winner_of,
};
use crate::game_value::finished;
use crate::moves::{
    applied, apply_move, generate_legal_moves, legal_move, legal_moves, lemma_legal_moves, Move,
};
use crate::state::State;
use crate::symmetry::{canonical, lists_orbit, payload_number};
use std::collections::HashSet;
use vstd::prelude::*;

verus! {

/// A position that waits to be expanded.
pub const STATUS_FRONTIER: i32 = 0;

pub const STATUS_EXPANDED: i32 = 1;

pub const STATUS_DROPPED: i32 = 2;

pub const STATUS_SOLVED: i32 = 3;

/// The status of a position that was searched: solved if the search looked as far as
/// the book goes.
pub fn searched_status(searched_depth: i32, max_remaining: i32) -> (s: i32)
    ensures
        s == if searched_depth >= max_remaining {
            STATUS_SOLVED
        } else {
            STATUS_EXPANDED
        },
{
    if searched_depth >= max_remaining {
        STATUS_SOLVED
    } else {
        STATUS_EXPANDED
    }
}

/// A position that is new to the book.
#[derive(Clone, Copy, Debug)]
pub struct NewPosition {
    pub bb: Bitboard,
    pub depth: usize,
    pub terminal: bool,
    pub winner: Option<u8>,
    pub symmetry_count: usize,
    /// The score for player 0 of a finished game.
    pub score: Option<i8>,
    pub status: i32,
}

/// Whether `p` describes the board `b`, found at `depth`.
pub open spec fn describes(p: NewPosition, b: Seq<u16>, depth: usize) -> bool {
    &&& p.bb@ == b
    &&& p.depth == depth
    &&& p.terminal == finished(b)
    &&& p.winner == winner_of(b)
    &&& exists|list: Seq<u128>| #[trigger] lists_orbit(list, b) && p.symmetry_count == list.len()
    &&& match p.score {
        Some(s) => finished(b) && s == final_score(b),
        None => !finished(b),
    }
    &&& p.status == if finished(b) {
        STATUS_EXPANDED
    } else {
        STATUS_FRONTIER
    }
}

/// Describe a board.
pub fn describe_position(bb: &Bitboard, depth: usize) -> (p: NewPosition)
    ensures
        describes(p, bb@, depth),
{
    let terminal: bool = is_terminal(bb);
    NewPosition {
        bb: *bb,
        depth,
        terminal,
        winner: determine_winner(bb),
        symmetry_count: State::new(*bb).symmetry_count(),
        score: if terminal {
            Some(terminal_score(bb))
        } else {
            None
        },
        status: if terminal {
            STATUS_EXPANDED
        } else {
            STATUS_FRONTIER
        },
    }
}

/// The key of a board as a number.
pub open spec fn number_of(b: Seq<u16>) -> u128 {
    payload_number(canonical(b)) as u128
}

/// The board after the move at `i`.
pub open spec fn child_at(b: Seq<u16>, i: int) -> Seq<u16> {
    applied(b, legal_moves(b)[i])
}

/// Whether the child at `i` is new: its key is neither known nor that of an earlier
/// child.
pub open spec fn is_fresh(b: Seq<u16>, seen: Set<u128>, i: int) -> bool {
    &&& !seen.contains(number_of(child_at(b, i)))
    &&& forall|j: int|
        0 <= j < i ==> number_of(#[trigger] child_at(b, j)) != number_of(child_at(b, i))
}

/// The places below `n` of the children that are new.
pub open spec fn fresh_places(b: Seq<u16>, seen: Set<u128>, n: int) -> Seq<int>
    decreases n,
{
    if n <= 0 {
        Seq::empty()
    } else if is_fresh(b, seen, n - 1) {
        fresh_places(b, seen, n - 1).push(n - 1)
    } else {
        fresh_places(b, seen, n - 1)
    }
}

/// The keys that are known after the first `n` children.
pub open spec fn known_after(b: Seq<u16>, seen: Set<u128>, n: int) -> Set<u128>
    decreases n,
{
    if n <= 0 {
        seen
    } else {
        known_after(b, seen, n - 1).insert(number_of(child_at(b, n - 1)))
    }
}

/// The boards among some new positions on which the game goes on.
pub open spec fn open_boards(inserted: Seq<NewPosition>, n: int) -> Seq<Seq<u16>>
    decreases n,
{
    if n <= 0 {
        Seq::empty()
    } else if inserted[n - 1].terminal {
        open_boards(inserted, n - 1)
    } else {
        open_boards(inserted, n - 1).push(inserted[n - 1].bb@)
    }
}

/// What became of one position of the frontier.
#[derive(Debug)]
pub struct Expansion {
    pub parent: Bitboard,
    /// The moves that lead on, with the boards that they lead to.
    pub edges: Vec<(Move, Bitboard)>,
    pub inserted: Vec<NewPosition>,
    /// Whether the position is done with.
    pub expanded: bool,
    /// Whether the limit on positions was reached.
    pub dropout: bool,
}

/// What some boards say.
pub open spec fn boards_view(boards: Seq<Bitboard>) -> Seq<Seq<u16>> {
    boards.map_values(|b: Bitboard| b@)
}

/// Whether `e` is the expansion of its parent: every move, in order, until a new position
/// reaches the limit, and a new position for every child whose key is new.
pub open spec fn expansion_of(e: Expansion, seen: Set<u128>, depth: usize) -> bool {
    let b = e.parent@;
    let moves = legal_moves(b);
    let n = e.edges@.len() as int;
    &&& finished(b) ==> n == 0 && e.inserted@.len() == 0 && e.expanded && !e.dropout
    &&& !finished(b) ==> {
        &&& n <= moves.len()
        &&& !e.dropout ==> n == moves.len()
        &&& e.dropout ==> n > 0 && is_fresh(b, seen, n - 1)
        &&& e.expanded <==> !e.dropout
        &&& forall|i: int|
            0 <= i < n ==> (#[trigger] e.edges@[i]).0 == moves[i] && e.edges@[i].1@ == child_at(
                b,
                i,
            )
        &&& e.inserted@.len() == fresh_places(b, seen, n).len()
        &&& forall|j: int|
            0 <= j < e.inserted@.len() ==> describes(
                #[trigger] e.inserted@[j],
                child_at(b, fresh_places(b, seen, n)[j]),
                depth,
            )
    }
}

/// An exploration in progress.
#[derive(Debug)]
pub struct BfsRun {
    pub depth: usize,
    pub last_depth: usize,
    pub frontier: Vec<Bitboard>,
    pub next: Vec<Bitboard>,
    pub at: usize,
    pub started: bool,
    pub dropped: bool,
    pub seen: HashSet<u128>,
    pub total: usize,
    pub max_positions: Option<usize>,
}

/// A step of an exploration.
#[derive(Debug)]
pub enum BfsStep {
    LevelBegins { depth: usize, frontier: usize },
    Expanded(Expansion),
    LevelEnds { depth: usize, total: usize, frontier: usize },
    /// Nothing is left to do; `exhausted` tells whether no position was left to expand.
    Finished { exhausted: bool },
}

impl BfsRun {
    /// Begin an exploration with a frontier and the keys that are known.
    pub fn new(
        depth: usize,
        last_depth: usize,
        frontier: Vec<Bitboard>,
        seen: HashSet<u128>,
        max_positions: Option<usize>,
    ) -> (r: Self)
        ensures
            r.depth == depth,
            r.last_depth == last_depth,
            r.frontier == frontier,
            r.next@.len() == 0,
            r.at == 0,
            !r.started,
            !r.dropped,
            r.seen == seen,
            r.total == seen@.len(),
            r.max_positions == max_positions,
    {
        broadcast use vstd::std_specs::hash::group_hash_axioms;

        let total: usize = seen.len();
        BfsRun {
            depth,
            last_depth,
            frontier,
            next: Vec::new(),
            at: 0,
            started: false,
            dropped: false,
            seen,
            total,
            max_positions,
        }
    }

    /// Begin an exploration at the empty board.
    pub fn fresh(last_depth: usize, max_positions: Option<usize>) -> (r: (Self, NewPosition))
        ensures
            describes(r.1, Seq::new(8, |i: int| 0u16), 0),
            r.1.bb@ == Seq::new(8, |i: int| 0u16),
            r.0.depth == 0,
            r.0.last_depth == last_depth,
            boards_view(r.0.frontier@) == seq![Seq::new(8, |i: int| 0u16)],
            r.0.next@.len() == 0,
            r.0.at == 0,
            !r.0.started,
            !r.0.dropped,
            r.0.seen@ == Set::<u128>::empty().insert(number_of(r.1.bb@)),
            r.0.total == 1,
            r.0.max_positions == max_positions,
    {
        broadcast use vstd::std_specs::hash::group_hash_axioms;

        let root = Bitboard::empty();
        let mut seen: HashSet<u128> = HashSet::new();
        seen.insert(State::new(root).canonical_number());
        let mut frontier: Vec<Bitboard> = Vec::new();
        frontier.push(root);
        assert(root@ =~= Seq::new(8, |i: int| 0u16));
        assert(boards_view(frontier@) =~= seq![Seq::new(8, |i: int| 0u16)]);
        let p = describe_position(&root, 0);
        (
            BfsRun {
                depth: 0,
                last_depth,
                frontier,
                next: Vec::new(),
                at: 0,
                started: false,
                dropped: false,
                seen,
                total: 1,
                max_positions,
            },
            p,
        )
    }

    /// Expand one position of the frontier.
    fn expand(&mut self, parent: &Bitboard) -> (e: Expansion)
        requires
            old(self).total + 64 <= usize::MAX,
        ensures
            e.parent == *parent,
            expansion_of(e, old(self).seen@, old(self).depth),
            !finished(parent@) ==> final(self).seen@ == known_after(
                parent@,
                old(self).seen@,
                e.edges@.len() as int,
            ),
            finished(parent@) ==> final(self).seen@ == old(self).seen@,
            final(self).total == old(self).total + e.inserted@.len(),
            boards_view(final(self).next@) == boards_view(old(self).next@) + open_boards(
                e.inserted@,
                e.inserted@.len() as int,
            ),
            e.dropout <==> e.inserted@.len() > 0 && old(self).max_positions is Some &&
                final(self).total >= old(self).max_positions->0,
            final(self).depth == old(self).depth,
            final(self).last_depth == old(self).last_depth,
            final(self).frontier == old(self).frontier,
            final(self).at == old(self).at,
            final(self).started == old(self).started,
            final(self).dropped == old(self).dropped,
            final(self).max_positions == old(self).max_positions,
    {
        broadcast use vstd::std_specs::hash::group_hash_axioms;

        let ghost b = parent@;
        let ghost seen0 = self.seen@;
        let ghost next0 = boards_view(self.next@);
        let mut edges: Vec<(Move, Bitboard)> = Vec::new();
        let mut inserted: Vec<NewPosition> = Vec::new();
        if is_terminal(parent) {
            assert(next0 + Seq::<Seq<u16>>::empty() =~= next0);
            return Expansion {
                parent: *parent,
                edges,
                inserted,
                expanded: true,
                dropout: false,
            };
        }
        let moves = generate_legal_moves(parent);
        proof {
            lemma_legal_moves(b);
            assert(next0 + Seq::<Seq<u16>>::empty() =~= next0);
        }
        let mut i: usize = 0;
        while i < moves.len()
            invariant
                i <= moves@.len() <= 64,
                b == parent@,
                moves@ == legal_moves(b),
                forall|k: int| 0 <= k < moves@.len() ==> legal_move(b, #[trigger] moves@[k]),
                !finished(b),
                edges@.len() == i,
                forall|k: int|
                    0 <= k < i ==> (#[trigger] edges@[k]).0 == moves@[k] && edges@[k].1@
                        == child_at(b, k),
                self.seen@ == known_after(b, seen0, i as int),
                inserted@.len() == fresh_places(b, seen0, i as int).len(),
                inserted@.len() <= i,
                forall|j: int|
                    0 <= j < inserted@.len() ==> describes(
                        #[trigger] inserted@[j],
                        child_at(b, fresh_places(b, seen0, i as int)[j]),
                        self.depth,
                    ),
                seen0 == old(self).seen@,
                self.total == old(self).total + inserted@.len(),
                old(self).total + 64 <= usize::MAX,
                next0 == boards_view(old(self).next@),
                boards_view(self.next@) == next0 + open_boards(
                    inserted@,
                    inserted@.len() as int,
                ),
                inserted@.len() > 0 && self.max_positions is Some ==> self.total
                    < self.max_positions->0,
                self.depth == old(self).depth,
                self.last_depth == old(self).last_depth,
                self.frontier == old(self).frontier,
                self.at == old(self).at,
                self.started == old(self).started,
                self.dropped == old(self).dropped,
                self.max_positions == old(self).max_positions,
            decreases moves@.len() - i,
        {
            let m = moves[i];
            assert(legal_move(b, moves@[i as int]));
            let child = apply_move(parent, &m);
            edges.push((m, child));
            let key: u128 = State::new(child).canonical_number();
            let ghost before = inserted@;
            let ghost places = fresh_places(b, seen0, i as int);
            let ghost nexts = boards_view(self.next@);
            proof {
                lemma_known_after(b, seen0, i as int, key);
                assert(key == number_of(child_at(b, i as int)));
            }
            if self.seen.insert(key) {
                let p = describe_position(&child, self.depth);
                let terminal: bool = p.terminal;
                inserted.push(p);
                if !terminal {
                    self.next.push(child);
                    assert(boards_view(self.next@) =~= nexts.push(child@));
                }
                self.total = self.total + 1;
                proof {
                    assert(is_fresh(b, seen0, i as int));
                    assert(fresh_places(b, seen0, i + 1) == places.push(i as int));
                    lemma_open_prefix(before, inserted@, before.len() as int);
                    assert(boards_view(self.next@) =~= next0 + open_boards(
                        inserted@,
                        inserted@.len() as int,
                    ));
                }
                if let Some(max) = self.max_positions {
                    if self.total >= max {
                        return Expansion {
                            parent: *parent,
                            edges,
                            inserted,
                            expanded: false,
                            dropout: true,
                        };
                    }
                }
            } else {
                proof {
                    assert(!is_fresh(b, seen0, i as int));
                    assert(known_after(b, seen0, i + 1) =~= self.seen@);
                }
            }
            i = i + 1;
        }
        Expansion { parent: *parent, edges, inserted, expanded: true, dropout: false }
    }

    /// Whether the exploration has nothing left to do.
    pub open spec fn is_done(&self) -> bool {
        self.dropped || (!self.started && (self.depth > self.last_depth || self.frontier@.len()
            == 0))
    }

    /// Take one step: begin a level, expand one position, or end a level.
    pub fn step(&mut self) -> (s: BfsStep)
        requires
            old(self).total + 64 <= usize::MAX,
            old(self).at <= old(self).frontier@.len(),
            old(self).depth < usize::MAX,
        ensures
            final(self).at <= final(self).frontier@.len(),
            final(self).last_depth == old(self).last_depth,
            final(self).max_positions == old(self).max_positions,
            old(self).is_done() ==> *final(self) == *old(self) && (s matches BfsStep::Finished {
                exhausted,
            } && exhausted == (!old(self).dropped && old(self).depth <= old(self).last_depth)),
            !old(self).is_done() && !old(self).started ==> {
                &&& s matches BfsStep::LevelBegins { depth, frontier } && depth == old(self).depth
                    && frontier == old(self).frontier@.len()
                &&& final(self).started && final(self).at == 0
                &&& final(self).frontier == old(self).frontier && final(self).depth == old(self).depth
                &&& final(self).next@.len() == 0
                &&& final(self).seen == old(self).seen && final(self).total == old(self).total
                &&& !final(self).dropped
            },
            !old(self).is_done() && old(self).started && old(self).at < old(self).frontier@.len()
                ==> {
                &&& s matches BfsStep::Expanded(e) && e.parent == old(self).frontier@[
                    old(self).at as int] && expansion_of(e, old(self).seen@, old(self).depth) &&
                    final(self).dropped == e.dropout && final(self).total == old(self).total
                    + e.inserted@.len() && boards_view(final(self).next@) == boards_view(
                    old(self).next@,
                ) + open_boards(e.inserted@, e.inserted@.len() as int) && (!finished(e.parent@)
                    ==> final(self).seen@ == known_after(
                    e.parent@,
                    old(self).seen@,
                    e.edges@.len() as int,
                )) && (finished(e.parent@) ==> final(self).seen@ == old(self).seen@) && (
                e.dropout <==> e.inserted@.len() > 0 && old(self).max_positions is Some
                    && final(self).total >= old(self).max_positions->0)
                &&& final(self).started
                &&& final(self).at == old(self).at + 1
                &&& final(self).frontier == old(self).frontier
                &&& final(self).depth == old(self).depth
            },
            !old(self).is_done() && old(self).started && old(self).at == old(self).frontier@.len()
                ==> {
                &&& s matches BfsStep::LevelEnds { depth, total, frontier } && depth ==
                    old(self).depth && total == old(self).total && frontier == old(self).next@.len()
                &&& !final(self).started && !final(self).dropped && final(self).at == 0
                &&& final(self).next@.len() == 0
                &&& final(self).frontier@ == old(self).next@
                &&& final(self).depth == old(self).depth + 1
                &&& final(self).seen == old(self).seen && final(self).total == old(self).total
            },
    {
        if self.dropped {
            return BfsStep::Finished { exhausted: false };
        }
        if !self.started {
            if self.depth > self.last_depth {
                return BfsStep::Finished { exhausted: false };
            }
            if self.frontier.len() == 0 {
                return BfsStep::Finished { exhausted: true };
            }
            self.started = true;
            self.at = 0;
            self.next = Vec::new();
            return BfsStep::LevelBegins { depth: self.depth, frontier: self.frontier.len() };
        }
        if self.at < self.frontier.len() {
            let parent = self.frontier[self.at];
            let e = self.expand(&parent);
            self.at = self.at + 1;
            self.dropped = e.dropout;
            return BfsStep::Expanded(e);
        }
        let ended: usize = self.depth;
        let mut next: Vec<Bitboard> = Vec::new();
        let mut i: usize = 0;
        while i < self.next.len()
            invariant
                i <= self.next@.len(),
                next@ == self.next@.take(i as int),
            decreases self.next@.len() - i,
        {
            next.push(self.next[i]);
            assert(self.next@.take(i + 1) =~= self.next@.take(i as int).push(self.next@[i as int]));
            i = i + 1;
        }
        assert(self.next@.take(i as int) =~= self.next@);
        let frontier: usize = next.len();
        self.frontier = next;
        self.next = Vec::new();
        self.at = 0;
        self.started = false;
        self.depth = self.depth + 1;
        BfsStep::LevelEnds { depth: ended, total: self.total, frontier }
    }
}

/// A key is known after some children exactly if it was known or is one of theirs.
proof fn lemma_known_after(b: Seq<u16>, seen: Set<u128>, n: int, key: u128)
    requires
        0 <= n,
    ensures
        known_after(b, seen, n).contains(key) <==> seen.contains(key) || exists|j: int|
            0 <= j < n && number_of(#[trigger] child_at(b, j)) == key,
    decreases n,
{
    if n > 0 {
        lemma_known_after(b, seen, n - 1, key);
        if number_of(child_at(b, n - 1)) == key {
            assert(number_of(child_at(b, n - 1)) == key);
        }
        if exists|j: int| 0 <= j < n - 1 && number_of(#[trigger] child_at(b, j)) == key {
            let j = choose|j: int| 0 <= j < n - 1 && number_of(#[trigger] child_at(b, j)) == key;
            assert(number_of(child_at(b, j)) == key);
        }
    }
}

proof fn lemma_open_prefix(x: Seq<NewPosition>, y: Seq<NewPosition>, n: int)
    requires
        0 <= n <= x.len(),
        n <= y.len(),
        forall|i: int| 0 <= i < n ==> x[i] == y[i],
    ensures
        open_boards(x, n) == open_boards(y, n),
    decreases n,
{
    if n > 0 {
        lemma_open_prefix(x, y, n - 1);
    }
}

/// An expansion that is not cut short leaves no child unknown, and inserts no two
/// positions that are symmetric to each other or to a known one.
pub proof fn law_expansion_is_complete(e: Expansion, seen: Set<u128>, depth: usize)
    requires
        expansion_of(e, seen, depth),
        !finished(e.parent@),
    ensures
        !e.dropout ==> forall|m: Move|
            #[trigger] legal_move(e.parent@, m) ==> known_after(
                e.parent@,
                seen,
                e.edges@.len() as int,
            ).contains(number_of(applied(e.parent@, m))),
        forall|j: int|
            0 <= j < e.inserted@.len() ==> !seen.contains(
                number_of((#[trigger] e.inserted@[j]).bb@),
            ),
        forall|j: int, k: int|
            0 <= j < k < e.inserted@.len() ==> number_of((#[trigger] e.inserted@[j]).bb@)
                != number_of((#[trigger] e.inserted@[k]).bb@),
{
    let b = e.parent@;
    let n = e.edges@.len() as int;
    lemma_legal_moves(b);
    let places = fresh_places(b, seen, n);
    lemma_fresh_places(b, seen, n);
    if !e.dropout {
        assert forall|m: Move| #[trigger] legal_move(b, m) implies known_after(
            b,
            seen,
            n,
        ).contains(number_of(applied(b, m))) by {
            assert(legal_moves(b).contains(m));
            let i = choose|i: int| 0 <= i < legal_moves(b).len() && legal_moves(b)[i] == m;
            lemma_known_after(b, seen, n, number_of(applied(b, m)));
            assert(number_of(child_at(b, i)) == number_of(applied(b, m)));
        }
    }
    assert forall|j: int| 0 <= j < e.inserted@.len() implies !seen.contains(
        number_of((#[trigger] e.inserted@[j]).bb@),
    ) by {
        assert(describes(e.inserted@[j], child_at(b, places[j]), depth));
        assert(is_fresh(b, seen, places[j]));
    }
    assert forall|j: int, k: int| 0 <= j < k < e.inserted@.len() implies number_of(
        (#[trigger] e.inserted@[j]).bb@,
    ) != number_of((#[trigger] e.inserted@[k]).bb@) by {
        assert(describes(e.inserted@[j], child_at(b, places[j]), depth));
        assert(describes(e.inserted@[k], child_at(b, places[k]), depth));
        assert(places[j] < places[k]);
        assert(is_fresh(b, seen, places[k]));
        assert(number_of(child_at(b, places[j])) != number_of(child_at(b, places[k])));
    }
}

proof fn lemma_fresh_places(b: Seq<u16>, seen: Set<u128>, n: int)
    requires
        0 <= n,
    ensures
        forall|j: int|
            0 <= j < fresh_places(b, seen, n).len() ==> 0 <= #[trigger] fresh_places(b, seen, n)[j]
                < n && is_fresh(b, seen, fresh_places(b, seen, n)[j]),
        forall|j: int, k: int|
            0 <= j < k < fresh_places(b, seen, n).len() ==> #[trigger] fresh_places(b, seen, n)[j]
                < #[trigger] fresh_places(b, seen, n)[k],
    decreases n,
{
    if n > 0 {
        lemma_fresh_places(b, seen, n - 1);
        let before = fresh_places(b, seen, n - 1);
        let now = fresh_places(b, seen, n);
        assert forall|j: int| 0 <= j < now.len() implies 0 <= #[trigger] now[j] < n && is_fresh(
            b,
            seen,
            now[j],
        ) by {
            if j < before.len() {
                assert(now[j] == before[j]);
            }
        }
        assert forall|j: int, k: int| 0 <= j < k < now.len() implies #[trigger] now[j]
            < #[trigger] now[k] by {
            assert(now[j] == before[j]);
            if k < before.len() {
                assert(now[k] == before[k]);
            }
        }
    }
}

} // verus!
