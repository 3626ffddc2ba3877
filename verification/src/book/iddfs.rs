//! Iterative-deepening exploration of an opening book with a table of what is known.
use crate::bench::dataset::{lemma_empty_board, no_pieces};
use crate::bitboard::Bitboard;
use crate::book::exhaustive::{child_at, number_of};
use crate::book::growth::{
    edge_at, full, grown, lemma_grown_before, lemma_grown_by_depth, lemma_grown_by_edge,
    lemma_grown_by_plies, lemma_grown_by_row, lemma_grown_edges, lemma_grown_further,
    lemma_grown_on, lemma_grown_same, lemma_moves_on, lemma_state_on, lemma_state_same, listed,
    moves_listed, plies_explored, row_describes, row_found, state_grown,
};
use crate::book::positions::{determine_winner, is_terminal};
use crate::game::total_pieces;
use crate::game_value::finished;
use crate::invariance::{
    image_move, law_mobility_invariant, law_move_invariant, law_won_invariant, lemma_image_counts,
};
use crate::moves::{
    applied, apply_move, generate_legal_moves, legal_move, legal_moves, lemma_legal_moves, Move,
};
use crate::state::State;
use crate::symmetry::{
    canonical, image, law_canonical_complete, law_canonical_invariant, lemma_canonical,
    lemma_inverse, lemma_payload_injective, Sym,
};
use std::collections::HashMap;
use vstd::prelude::*;

verus! {

/// What is known of a position and those symmetric to it.
#[derive(Clone, Copy, Debug)]
pub struct PositionEntry {
    /// The fewest moves in which it was reached.
    pub depth: usize,
    /// The plies after it that have been explored.
    pub searched_depth: usize,
    pub is_terminal: bool,
    /// Whether `depth` has changed since it was stored.
    pub dirty: bool,
}

/// A position that is new to the book.
#[derive(Clone, Copy, Debug)]
pub struct NewRow {
    pub key: u128,
    pub depth: usize,
    pub terminal: bool,
    pub winner: Option<u8>,
    pub symmetry_count: usize,
}

/// What is known, and what is still to be stored.
#[derive(Debug)]
pub struct BookCache {
    pub entries: HashMap<u128, PositionEntry>,
    pub new_positions: Vec<NewRow>,
    pub edges: Vec<(u128, u128, Move)>,
    pub searched_updates: Vec<(u128, usize)>,
    pub expanded: Vec<u128>,
}

/// The state of one iteration.
#[derive(Clone, Copy, Debug)]
pub struct IddfsState {
    pub new_positions_this_iter: u64,
    /// Whether the limit on positions was reached.
    pub dropout: bool,
    pub max_positions: Option<usize>,
}

/// Whether all positions that are reached from `b` within `r` moves are known, and those
/// after `b` have been explored as far as that.
pub open spec fn covered(m: vstd::map::Map<u128, PositionEntry>, b: Seq<u16>, r: nat) -> bool
    decreases r,
{
    &&& m.contains_key(number_of(b))
    &&& finished(b) || r == 0 || forall|i: int|
        0 <= i < legal_moves(b).len() ==> m[number_of(#[trigger] child_at(b, i))].searched_depth >= r
            - 1 && covered(m, child_at(b, i), (r - 1) as nat)
}

/// Whether it is known truly of every position whether the game is over there.
#[verifier::opaque]
pub open spec fn endings_true(m: vstd::map::Map<u128, PositionEntry>) -> bool {
    forall|b: Seq<u16>|
        b.len() == 8 && #[trigger] m.contains_key(number_of(b)) ==> m[number_of(b)].is_terminal
            == finished(b)
}

proof fn lemma_endings(m: vstd::map::Map<u128, PositionEntry>, b: Seq<u16>)
    requires
        b.len() == 8,
    ensures
        all_true(m) ==> endings_true(m),
        endings_true(m) && m.contains_key(number_of(b)) ==> m[number_of(b)].is_terminal == finished(
            b,
        ),
{
    reveal(endings_true);
    reveal(all_true);
    if all_true(m) {
        assert forall|c: Seq<u16>|
            c.len() == 8 && #[trigger] m.contains_key(number_of(c)) implies m[number_of(
            c,
        )].is_terminal == finished(c) by {
            assert(known_truly(m, c));
        }
    }
}

proof fn lemma_endings_insert(
    m: vstd::map::Map<u128, PositionEntry>,
    b: Seq<u16>,
    e: PositionEntry,
)
    requires
        endings_true(m),
        b.len() == 8,
        e.is_terminal == finished(b),
    ensures
        endings_true(m.insert(number_of(b), e)),
{
    reveal(endings_true);
    let n = m.insert(number_of(b), e);
    assert forall|c: Seq<u16>|
        c.len() == 8 && #[trigger] n.contains_key(number_of(c)) implies n[number_of(c)].is_terminal
        == finished(c) by {
        if number_of(c) == number_of(b) {
            lemma_covered_key(n, b, c, 0);
        } else {
            assert(m.contains_key(number_of(c)));
        }
    }
}

proof fn lemma_endings_kept(
    m: vstd::map::Map<u128, PositionEntry>,
    b: Seq<u16>,
    depth: usize,
    r: usize,
)
    requires
        endings_true(m),
        b.len() == 8,
    ensures
        endings_true(shallower(m, number_of(b), depth)),
        endings_true(deeper(m, number_of(b), r)),
{
    let key = number_of(b);
    if m.contains_key(key) {
        lemma_endings(m, b);
        lemma_endings_insert(m, b, PositionEntry { depth, dirty: true, ..m[key] });
        lemma_endings_insert(m, b, PositionEntry { searched_depth: r, ..m[key] });
    }
}

/// Whether what is known of `b` is true: whether the game is over, and that all
/// positions within the explored plies are known.
pub open spec fn known_truly(m: vstd::map::Map<u128, PositionEntry>, b: Seq<u16>) -> bool {
    let e = m[number_of(b)];
    e.is_terminal == finished(b) && covered(m, b, e.searched_depth as nat)
}

/// Whether all that is known is true.
#[verifier::opaque]
pub open spec fn all_true(m: vstd::map::Map<u128, PositionEntry>) -> bool {
    forall|b: Seq<u16>|
        b.len() == 8 && #[trigger] m.contains_key(number_of(b)) ==> known_truly(m, b)
}

/// Whether every known position has the depth at which it is found: the number of its
/// pieces.
#[verifier::opaque]
pub open spec fn depths_true(m: vstd::map::Map<u128, PositionEntry>) -> bool {
    forall|b: Seq<u16>|
        b.len() == 8 && #[trigger] m.contains_key(number_of(b)) ==> m[number_of(b)].depth
            == total_pieces(b)
}

proof fn lemma_depths_get(m: vstd::map::Map<u128, PositionEntry>, b: Seq<u16>)
    requires
        depths_true(m),
        b.len() == 8,
        m.contains_key(number_of(b)),
    ensures
        m[number_of(b)].depth == total_pieces(b),
{
    reveal(depths_true);
}

proof fn lemma_depths_insert(
    m: vstd::map::Map<u128, PositionEntry>,
    b: Seq<u16>,
    e: PositionEntry,
)
    requires
        depths_true(m),
        b.len() == 8,
        e.depth == total_pieces(b),
    ensures
        depths_true(m.insert(number_of(b), e)),
{
    reveal(depths_true);
    let n = m.insert(number_of(b), e);
    assert forall|c: Seq<u16>|
        c.len() == 8 && #[trigger] n.contains_key(number_of(c)) implies n[number_of(c)].depth
        == total_pieces(c) by {
        if number_of(c) == number_of(b) {
            lemma_same_pieces(c, b);
        } else {
            assert(m.contains_key(number_of(c)));
        }
    }
}

/// Boards with the same key have as many pieces.
proof fn lemma_same_pieces(b: Seq<u16>, c: Seq<u16>)
    requires
        b.len() == 8,
        c.len() == 8,
        number_of(b) == number_of(c),
    ensures
        total_pieces(b) == total_pieces(c),
{
    lemma_canonical(b, b);
    lemma_canonical(c, c);
    crate::symmetry::lemma_payload_bounds(canonical(b));
    crate::symmetry::lemma_payload_bounds(canonical(c));
    lemma_payload_injective(canonical(b), canonical(c));
    law_canonical_complete(c, b);
    let g = choose|g: Sym| g.valid() && c == #[trigger] image(b, g);
    lemma_image_counts(b, g);
}

proof fn lemma_depths_kept(
    m: vstd::map::Map<u128, PositionEntry>,
    b: Seq<u16>,
    depth: usize,
    r: usize,
)
    requires
        depths_true(m),
        b.len() == 8,
        depth == total_pieces(b),
    ensures
        depths_true(shallower(m, number_of(b), depth)),
        depths_true(deeper(m, number_of(b), r)),
{
    let key = number_of(b);
    if m.contains_key(key) {
        lemma_depths_get(m, b);
        lemma_depths_insert(m, b, PositionEntry { searched_depth: r, ..m[key] });
    }
}

/// Whether `n` knows all that `m` knows and nothing of it was taken back.
pub open spec fn extends(
    m: vstd::map::Map<u128, PositionEntry>,
    n: vstd::map::Map<u128, PositionEntry>,
) -> bool {
    forall|k: u128| #[trigger]
        m.contains_key(k) ==> n.contains_key(k) && n[k].searched_depth >= m[k].searched_depth
            && n[k].depth <= m[k].depth && n[k].is_terminal == m[k].is_terminal
}

proof fn lemma_covered_extends(
    m: vstd::map::Map<u128, PositionEntry>,
    n: vstd::map::Map<u128, PositionEntry>,
    b: Seq<u16>,
    r: nat,
)
    requires
        covered(m, b, r),
        forall|k: u128| #[trigger]
            m.contains_key(k) ==> n.contains_key(k) && n[k].searched_depth >= m[k].searched_depth,
    ensures
        covered(n, b, r),
    decreases r,
{
    if !finished(b) && r > 0 {
        assert forall|i: int| 0 <= i < legal_moves(b).len() implies n[number_of(
            #[trigger] child_at(b, i),
        )].searched_depth >= r - 1 && covered(n, child_at(b, i), (r - 1) as nat) by {
            assert(covered(m, child_at(b, i), (r - 1) as nat));
            assert(m.contains_key(number_of(child_at(b, i))));
            lemma_covered_extends(m, n, child_at(b, i), (r - 1) as nat);
        }
    }
}

proof fn lemma_covered_less(m: vstd::map::Map<u128, PositionEntry>, b: Seq<u16>, r: nat, s: nat)
    requires
        covered(m, b, r),
        s <= r,
    ensures
        covered(m, b, s),
    decreases r,
{
    if !finished(b) && s > 0 {
        assert forall|i: int| 0 <= i < legal_moves(b).len() implies m[number_of(
            #[trigger] child_at(b, i),
        )].searched_depth >= s - 1 && covered(m, child_at(b, i), (s - 1) as nat) by {
            lemma_covered_less(m, child_at(b, i), (r - 1) as nat, (s - 1) as nat);
        }
    }
}

/// Symmetric boards have the same key, and both games are over or neither.
proof fn lemma_image_known(b: Seq<u16>, g: Sym)
    requires
        b.len() == 8,
        g.valid(),
    ensures
        number_of(image(b, g)) == number_of(b),
        finished(image(b, g)) == finished(b),
{
    law_canonical_invariant(b, g);
    law_won_invariant(b, g);
    law_mobility_invariant(b, g);
}

proof fn lemma_covered_image(
    m: vstd::map::Map<u128, PositionEntry>,
    b: Seq<u16>,
    g: Sym,
    r: nat,
)
    requires
        b.len() == 8,
        g.valid(),
        covered(m, b, r),
    ensures
        covered(m, image(b, g), r),
    decreases r,
{
    let c = image(b, g);
    lemma_image_known(b, g);
    lemma_inverse(b, g);
    let h = g.inverse();
    if !finished(b) && r > 0 {
        lemma_legal_moves(b);
        lemma_legal_moves(c);
        assert forall|i: int| 0 <= i < legal_moves(c).len() implies m[number_of(
            #[trigger] child_at(c, i),
        )].searched_depth >= r - 1 && covered(m, child_at(c, i), (r - 1) as nat) by {
            let n = legal_moves(c)[i];
            assert(legal_move(c, n));
            let k = image_move(n, h);
            law_move_invariant(c, h, n);
            assert(legal_move(b, k));
            assert(legal_moves(b).contains(k));
            let j = choose|j: int| 0 <= j < legal_moves(b).len() && legal_moves(b)[j] == k;
            assert(covered(m, child_at(b, j), (r - 1) as nat));
            let d = applied(c, n);
            assert(applied(b, k) == image(d, h));
            crate::moves::lemma_legal_move_step(c, n);
            lemma_inverse(d, h);
            crate::moves::lemma_legal_move_step(b, k);
            lemma_covered_image(m, applied(b, k), h.inverse(), (r - 1) as nat);
            lemma_image_known(applied(b, k), h.inverse());
        }
    }
}

/// Boards with the same key.
proof fn lemma_covered_key(
    m: vstd::map::Map<u128, PositionEntry>,
    b: Seq<u16>,
    c: Seq<u16>,
    r: nat,
)
    requires
        b.len() == 8,
        c.len() == 8,
        number_of(b) == number_of(c),
    ensures
        covered(m, b, r) ==> covered(m, c, r),
        finished(b) == finished(c),
{
    lemma_canonical(b, b);
    lemma_canonical(c, c);
    crate::symmetry::lemma_payload_bounds(canonical(b));
    crate::symmetry::lemma_payload_bounds(canonical(c));
    lemma_payload_injective(canonical(b), canonical(c));
    law_canonical_complete(c, b);
    let g = choose|g: Sym| g.valid() && c == #[trigger] image(b, g);
    lemma_image_known(b, g);
    if covered(m, b, r) {
        lemma_covered_image(m, b, g, r);
    }
}

proof fn lemma_all_true_get(m: vstd::map::Map<u128, PositionEntry>, b: Seq<u16>)
    requires
        all_true(m),
        b.len() == 8,
        m.contains_key(number_of(b)),
    ensures
        known_truly(m, b),
{
    reveal(all_true);
}

/// A new position of which nothing was explored.
proof fn lemma_all_true_new(
    m: vstd::map::Map<u128, PositionEntry>,
    b: Seq<u16>,
    e: PositionEntry,
)
    requires
        all_true(m),
        b.len() == 8,
        !m.contains_key(number_of(b)),
        e.searched_depth == 0,
        e.is_terminal == finished(b),
    ensures
        all_true(m.insert(number_of(b), e)),
{
    reveal(all_true);
    let n = m.insert(number_of(b), e);
    assert forall|c: Seq<u16>|
        c.len() == 8 && #[trigger] n.contains_key(number_of(c)) implies known_truly(n, c) by {
        if number_of(c) == number_of(b) {
            lemma_covered_key(n, b, c, 0);
        } else {
            assert(m.contains_key(number_of(c)));
            lemma_covered_extends(m, n, c, m[number_of(c)].searched_depth as nat);
        }
    }
}

/// A change that leaves alone what is said of the game and of the explored plies.
proof fn lemma_all_true_same(
    m: vstd::map::Map<u128, PositionEntry>,
    key: u128,
    e: PositionEntry,
)
    requires
        all_true(m),
        m.contains_key(key),
        e.searched_depth == m[key].searched_depth,
        e.is_terminal == m[key].is_terminal,
    ensures
        all_true(m.insert(key, e)),
{
    reveal(all_true);
    let n = m.insert(key, e);
    assert forall|c: Seq<u16>|
        c.len() == 8 && #[trigger] n.contains_key(number_of(c)) implies known_truly(n, c) by {
        assert(m.contains_key(number_of(c)));
        lemma_covered_extends(m, n, c, m[number_of(c)].searched_depth as nat);
    }
}

/// More plies after a position have been explored.
proof fn lemma_all_true_searched(
    m: vstd::map::Map<u128, PositionEntry>,
    b: Seq<u16>,
    e: PositionEntry,
)
    requires
        all_true(m),
        b.len() == 8,
        m.contains_key(number_of(b)),
        e.is_terminal == m[number_of(b)].is_terminal,
        e.searched_depth >= m[number_of(b)].searched_depth,
        covered(m, b, e.searched_depth as nat),
    ensures
        all_true(m.insert(number_of(b), e)),
{
    reveal(all_true);
    let n = m.insert(number_of(b), e);
    assert forall|c: Seq<u16>|
        c.len() == 8 && #[trigger] n.contains_key(number_of(c)) implies known_truly(n, c) by {
        assert(m.contains_key(number_of(c)));
        if number_of(c) == number_of(b) {
            lemma_covered_key(m, b, c, e.searched_depth as nat);
            lemma_covered_extends(m, n, c, e.searched_depth as nat);
        } else {
            lemma_covered_extends(m, n, c, m[number_of(c)].searched_depth as nat);
        }
    }
}

impl BookCache {
    /// What is known.
    pub open spec fn known(&self) -> vstd::map::Map<u128, PositionEntry> {
        self.entries@
    }

    /// A cache that knows nothing.
    pub fn new() -> (c: Self)
        ensures
            all_true(c.known()),
            endings_true(c.known()),
            depths_true(c.known()),
            c.known().dom() == Set::<u128>::empty(),
            c.new_positions@.len() == 0,
            c.edges@.len() == 0,
            c.searched_updates@.len() == 0,
            c.expanded@.len() == 0,
    {
        broadcast use vstd::std_specs::hash::group_hash_axioms;

        let c = BookCache {
            entries: HashMap::new(),
            new_positions: Vec::new(),
            edges: Vec::new(),
            searched_updates: Vec::new(),
            expanded: Vec::new(),
        };
        proof {
            reveal(all_true);
            reveal(depths_true);
            reveal(endings_true);
            assert(c.known().dom() =~= Set::<u128>::empty());
        }
        c
    }

    pub fn position_count(&self) -> (n: usize)
        ensures
            n == self.known().len(),
    {
        broadcast use vstd::std_specs::hash::group_hash_axioms;

        self.entries.len()
    }

    /// The plies after a position that have been explored; none if it is unknown.
    pub fn searched_depth_for(&self, key: u128) -> (d: usize)
        ensures
            d == if self.known().contains_key(key) {
                self.known()[key].searched_depth
            } else {
                0
            },
    {
        broadcast use vstd::std_specs::hash::group_hash_axioms;

        match self.entries.get(&key) {
            Some(e) => e.searched_depth,
            None => 0,
        }
    }

    /// Whether the game is over in a position, if that is known.
    pub fn is_known_terminal(&self, key: u128) -> (r: Option<bool>)
        ensures
            r == if self.known().contains_key(key) {
                Some(self.known()[key].is_terminal)
            } else {
                None
            },
    {
        broadcast use vstd::std_specs::hash::group_hash_axioms;

        match self.entries.get(&key) {
            Some(e) => Some(e.is_terminal),
            None => None,
        }
    }

    /// Add a position, or note that it was reached in fewer moves. Returns whether it
    /// is new.
    pub fn cache_position(
        &mut self,
        key: u128,
        depth: usize,
        terminal: bool,
        winner: Option<u8>,
        symmetry_count: usize,
    ) -> (is_new: bool)
        ensures
            is_new <==> !old(self).known().contains_key(key),
            is_new ==> final(self).known() == old(self).known().insert(
                key,
                PositionEntry { depth, searched_depth: 0, is_terminal: terminal, dirty: false },
            ) && final(self).new_positions@ == old(self).new_positions@.push(
                NewRow { key, depth, terminal, winner, symmetry_count },
            ),
            !is_new ==> final(self).known() == shallower(old(self).known(), key, depth) && final(
                self).new_positions@ == old(self).new_positions@,
            final(self).edges == old(self).edges,
            final(self).searched_updates == old(self).searched_updates,
            final(self).expanded == old(self).expanded,
    {
        broadcast use vstd::std_specs::hash::group_hash_axioms;

        if self.entries.contains_key(&key) {
            self.update_depth_if_shallower(key, depth);
            return false;
        }
        self.entries.insert(
            key,
            PositionEntry { depth, searched_depth: 0, is_terminal: terminal, dirty: false },
        );
        self.new_positions.push(NewRow { key, depth, terminal, winner, symmetry_count });
        true
    }

    /// Note that a position was reached in fewer moves.
    pub fn update_depth_if_shallower(&mut self, key: u128, depth: usize)
        ensures
            final(self).known() == shallower(old(self).known(), key, depth),
            final(self).new_positions == old(self).new_positions,
            final(self).edges == old(self).edges,
            final(self).searched_updates == old(self).searched_updates,
            final(self).expanded == old(self).expanded,
    {
        broadcast use vstd::std_specs::hash::group_hash_axioms;

        if let Some(e) = self.entries.get(&key) {
            if depth < e.depth {
                let changed = PositionEntry {
                    depth,
                    searched_depth: e.searched_depth,
                    is_terminal: e.is_terminal,
                    dirty: true,
                };
                self.entries.insert(key, changed);
            }
        }
    }

    /// Note that more plies after a position have been explored.
    pub fn update_searched_depth(&mut self, key: u128, new_searched: usize)
        ensures
            final(self).known() == deeper(old(self).known(), key, new_searched),
            final(self).searched_updates@ == if old(self).known().contains_key(key)
                && new_searched > old(self).known()[key].searched_depth {
                old(self).searched_updates@.push((key, new_searched))
            } else {
                old(self).searched_updates@
            },
            final(self).new_positions == old(self).new_positions,
            final(self).edges == old(self).edges,
            final(self).expanded == old(self).expanded,
    {
        broadcast use vstd::std_specs::hash::group_hash_axioms;

        if let Some(e) = self.entries.get(&key) {
            if new_searched > e.searched_depth {
                let changed = PositionEntry {
                    depth: e.depth,
                    searched_depth: new_searched,
                    is_terminal: e.is_terminal,
                    dirty: e.dirty,
                };
                self.entries.insert(key, changed);
                self.searched_updates.push((key, new_searched));
            }
        }
    }
}

/// What is known after a position was reached in `depth` moves.
pub open spec fn shallower(
    m: vstd::map::Map<u128, PositionEntry>,
    key: u128,
    depth: usize,
) -> vstd::map::Map<u128, PositionEntry> {
    if m.contains_key(key) && depth < m[key].depth {
        m.insert(key, PositionEntry { depth, dirty: true, ..m[key] })
    } else {
        m
    }
}

/// What is known after `r` plies after a position were explored.
pub open spec fn deeper(
    m: vstd::map::Map<u128, PositionEntry>,
    key: u128,
    r: usize,
) -> vstd::map::Map<u128, PositionEntry> {
    if m.contains_key(key) && r > m[key].searched_depth {
        m.insert(key, PositionEntry { searched_depth: r, ..m[key] })
    } else {
        m
    }
}

proof fn lemma_shallower(m: vstd::map::Map<u128, PositionEntry>, key: u128, depth: usize)
    ensures
        extends(m, shallower(m, key, depth)),
        all_true(m) ==> all_true(shallower(m, key, depth)),
        forall|k: u128| #[trigger]
            shallower(m, key, depth).contains_key(k) ==> m.contains_key(k)
                && shallower(m, key, depth)[k].searched_depth == m[k].searched_depth
                && shallower(m, key, depth)[k].is_terminal == m[k].is_terminal,
{
    if all_true(m) && m.contains_key(key) && depth < m[key].depth {
        lemma_all_true_same(m, key, PositionEntry { depth, dirty: true, ..m[key] });
    }
}

/// Whether the limit on positions is reached.
fn limit_reached(cache: &BookCache, state: &IddfsState) -> (r: bool)
    ensures
        r <==> full(cache.known(), state.max_positions),
{
    match state.max_positions {
        Some(max) => cache.position_count() >= max,
        None => false,
    }
}

/// Add a board that is not known. The exploration stops where that reaches the limit.
fn add_board(bb: &Bitboard, depth: usize, cache: &mut BookCache, state: &mut IddfsState) -> (t: bool)
    requires
        !old(cache).known().contains_key(number_of(bb@)),
        !old(state).dropout,
    ensures
        t == finished(bb@),
        extends(old(cache).known(), final(cache).known()),
        final(cache).known().contains_key(number_of(bb@)),
        final(cache).known()[number_of(bb@)].searched_depth == 0,
        final(cache).known()[number_of(bb@)].is_terminal == finished(bb@),
        all_true(old(cache).known()) ==> all_true(final(cache).known()),
        endings_true(old(cache).known()) ==> endings_true(final(cache).known()),
        depths_true(old(cache).known()) && depth == total_pieces(bb@) ==> depths_true(
            final(cache).known(),
        ),
        grown(*old(cache), *final(cache), bb@, depth as int, 0),
        state_grown(*old(cache), *final(cache), *old(state), *final(state)),
        final(cache).new_positions@.len() == old(cache).new_positions@.len() + 1,
        final(cache).edges == old(cache).edges,
{
    let ghost b = bb@;
    let key: u128 = State::new(*bb).canonical_number();
    let terminal: bool = is_terminal(bb);
    let winner: Option<u8> = if terminal {
        determine_winner(bb)
    } else {
        None
    };
    let symmetry_count: usize = State::new(*bb).symmetry_count();
    let ghost o = *cache;
    let ghost entry = PositionEntry {
        depth,
        searched_depth: 0,
        is_terminal: terminal,
        dirty: false,
    };
    proof {
        if depths_true(cache.known()) && depth == total_pieces(b) {
            lemma_depths_insert(cache.known(), b, entry);
        }
        if all_true(cache.known()) {
            lemma_all_true_new(cache.known(), b, entry);
        }
        if endings_true(cache.known()) {
            lemma_endings_insert(cache.known(), b, entry);
        }
    }
    cache.cache_position(key, depth, terminal, winner, symmetry_count);
    proof {
        let row = NewRow { key, depth, terminal, winner, symmetry_count };
        lemma_grown_by_row(o, *cache, row, b, depth as int, 0);
    }
    state.new_positions_this_iter = state.new_positions_this_iter.saturating_add(1);
    if limit_reached(cache, state) {
        state.dropout = true;
    }
    terminal
}

/// Explore the positions within `depth_limit` moves of the start, of which `depth` lead
/// to `bb`. Positions whose plies have been explored far enough are left alone.
///
/// The exploration stops where the limit on positions is reached; what it then says of
/// explored plies need not be true.
pub fn iddfs(
    bb: &Bitboard,
    depth: usize,
    depth_limit: usize,
    cache: &mut BookCache,
    state: &mut IddfsState,
)
    requires
        depth <= depth_limit,
    ensures
        extends(old(cache).known(), final(cache).known()),
        old(state).dropout ==> *final(cache) == *old(cache) && *final(state) == *old(state),
        state_grown(*old(cache), *final(cache), *old(state), *final(state)),
        endings_true(old(cache).known()) ==> endings_true(final(cache).known()) && grown(
            *old(cache),
            *final(cache),
            bb@,
            depth as int,
            (depth_limit - depth) as nat,
        ),
        depths_true(old(cache).known()) && depth == total_pieces(bb@) ==> depths_true(
            final(cache).known(),
        ),
        !final(state).dropout ==> plies_explored(final(cache).known(), number_of(bb@)) >= depth_limit
            - depth,
        !final(state).dropout && all_true(old(cache).known()) ==> {
            &&& all_true(final(cache).known())
            &&& depth < depth_limit || old(cache).known().contains_key(number_of(bb@)) ==> covered(
                final(cache).known(),
                bb@,
                (depth_limit - depth) as nat,
            )
        },
    decreases depth_limit - depth,
{
    let ghost b = bb@;
    let ghost o = *cache;
    let ghost s0 = *state;
    let ghost start = cache.known();
    let ghost honest = endings_true(start);
    let ghost d = depth as int;
    let ghost r = (depth_limit - depth) as nat;
    proof {
        lemma_grown_same(o, b, d, r);
        lemma_endings(start, b);
    }
    if state.dropout {
        return;
    }
    let key: u128 = State::new(*bb).canonical_number();
    let remaining: usize = depth_limit - depth;
    proof {
        crate::symmetry::lemma_canonical(b, b);
        crate::symmetry::lemma_payload_bounds(canonical(b));
        assert(key == number_of(b));
    }
    if cache.searched_depth_for(key) >= remaining {
        proof {
            if all_true(start) && start.contains_key(key) {
                lemma_all_true_get(start, b);
                lemma_covered_less(
                    start,
                    b,
                    start[key].searched_depth as nat,
                    remaining as nat,
                );
            }
        }
        return;
    }
    let terminal: bool = match cache.is_known_terminal(key) {
        Some(t) => {
            proof {
                if all_true(start) {
                    lemma_all_true_get(start, b);
                }
            }
            t
        },
        None => {
            let t: bool = add_board(bb, depth, cache, state);
            proof {
                lemma_grown_further(o, *cache, b, d, r);
            }
            if state.dropout {
                return;
            }
            t
        },
    };
    let ghost found = cache.known();
    let ghost o1 = *cache;
    let ghost counted = depths_true(start) && depth == total_pieces(b);
    proof {
        lemma_shallower(found, key, depth);
        if counted {
            lemma_depths_kept(found, b, depth, 0);
        }
        if honest {
            lemma_endings_kept(found, b, depth, 0);
        }
    }
    cache.update_depth_if_shallower(key, depth);
    let ghost noted = cache.known();
    let ghost o2 = *cache;
    proof {
        lemma_grown_by_depth(o1, o2, key, depth, b, d, r);
        lemma_grown_on(o, o1, o2, b, d, r);
    }
    assert(extends(start, noted));
    assert(all_true(start) ==> all_true(noted) && terminal == finished(b));
    assert(honest ==> terminal == finished(b));
    assert(noted[key].is_terminal == terminal);
    assert(noted[key].searched_depth < remaining);
    assert(state_grown(o, o2, s0, *state));
    if depth >= depth_limit || terminal {
        proof {
            if all_true(start) {
                assert(covered(noted, b, remaining as nat));
                lemma_all_true_searched(
                    noted,
                    b,
                    PositionEntry { searched_depth: remaining, ..noted[key] },
                );
            }
            if counted {
                lemma_depths_kept(noted, b, depth, remaining);
            }
            if honest {
                lemma_endings_kept(noted, b, depth, remaining);
            }
        }
        cache.update_searched_depth(key, remaining);
        proof {
            if all_true(start) {
                lemma_covered_extends(noted, cache.known(), b, remaining as nat);
            }
            lemma_grown_by_plies(o, o2, *cache, remaining, b, d, r);
            lemma_state_same(o, o2, *cache, s0, *state);
        }
        return;
    }
    let moves = generate_legal_moves(bb);
    proof {
        lemma_legal_moves(b);
    }
    let mut i: usize = 0;
    while i < moves.len()
        invariant
            i <= moves@.len(),
            depth < depth_limit,
            remaining == depth_limit - depth,
            !s0.dropout,
            o == *old(cache),
            s0 == *old(state),
            b == bb@,
            b.len() == 8,
            d == depth as int,
            r == (depth_limit - depth) as nat,
            moves@ == legal_moves(b),
            key == number_of(b),
            forall|k: int| 0 <= k < moves@.len() ==> legal_move(b, #[trigger] moves@[k]),
            extends(start, cache.known()),
            cache.known().contains_key(key),
            !cache.known()[key].is_terminal,
            start == o.known(),
            honest == endings_true(start),
            honest ==> !finished(b) && endings_true(cache.known()) && grown(o, *cache, b, d, r),
            state_grown(o, *cache, s0, *state),
            honest ==> moves_listed(cache.edges@, o.edges@.len() as int, b, i as int)
                && o.edges@.len() <= cache.edges@.len(),
            counted <==> depths_true(start) && depth == total_pieces(b),
            counted ==> depths_true(cache.known()),
            !state.dropout && all_true(start) ==> all_true(cache.known()) && terminal == finished(b),
            !state.dropout ==> forall|k: int|
                0 <= k < i ==> plies_explored(
                    cache.known(),
                    number_of(#[trigger] child_at(b, k)),
                ) >= remaining - 1,
            !state.dropout && all_true(start) ==> forall|k: int|
                0 <= k < i ==> covered(
                    cache.known(),
                    #[trigger] child_at(b, k),
                    (remaining - 1) as nat,
                ),
        decreases moves@.len() - i,
    {
        if state.dropout {
            return;
        }
        let m = moves[i];
        assert(legal_move(b, moves@[i as int]));
        let child = apply_move(bb, &m);
        let child_key: u128 = State::new(child).canonical_number();
        let ghost before = cache.known();
        let ghost c0 = *cache;
        let ghost t0 = *state;
        proof {
            crate::moves::lemma_legal_move_step(b, m);
            crate::symmetry::lemma_canonical(child@, child@);
            crate::symmetry::lemma_payload_bounds(canonical(child@));
            assert(child_key == number_of(child_at(b, i as int)));
        }
        match cache.is_known_terminal(child_key) {
            None => {
                add_board(&child, depth + 1, cache, state);
                proof {
                    lemma_grown_further(c0, *cache, child@, d + 1, (r - 1) as nat);
                }
            },
            Some(_) => {
                proof {
                    lemma_shallower(before, child_key, (depth + 1) as usize);
                    if counted {
                        lemma_depths_kept(before, child@, (depth + 1) as usize, 0);
                    }
                    if honest {
                        lemma_endings_kept(before, child@, (depth + 1) as usize, 0);
                    }
                }
                cache.update_depth_if_shallower(child_key, depth + 1);
                proof {
                    lemma_grown_by_depth(
                        c0,
                        *cache,
                        child_key,
                        (depth + 1) as usize,
                        child@,
                        d + 1,
                        (r - 1) as nat,
                    );
                }
            },
        }
        let ghost c1 = *cache;
        assert(state_grown(c0, c1, t0, *state));
        assert(grown(c0, c1, child_at(b, i as int), d + 1, (r - 1) as nat));
        assert(cache.edges == c0.edges);
        cache.edges.push((key, child_key, m));
        let ghost c2 = *cache;
        let ghost t2 = *state;
        let ghost added = cache.known();
        assert(extends(before, added));
        proof {
            lemma_state_same(c0, c1, c2, t0, t2);
            if honest {
                lemma_grown_before(c0, c1, b, i as int, d, r);
                lemma_grown_on(o, c0, c1, b, d, r);
                lemma_grown_by_edge(c1, c2, b, i as int, d, r);
                lemma_grown_on(o, c1, c2, b, d, r);
            }
            lemma_state_on(o, c0, c2, s0, t0, t2);
            if honest {
                assert(c2.edges@.take(c0.edges@.len() as int) =~= c0.edges@);
                lemma_moves_on(
                    c0.edges@,
                    c2.edges@,
                    o.edges@.len() as int,
                    o.edges@.len() as int,
                    b,
                    i as int,
                );
                assert(c2.edges@[c0.edges@.len() as int] == edge_at(b, i as int));
                assert(listed(c2.edges@, o.edges@.len() as int, edge_at(b, i as int)));
                assert(moves_listed(c2.edges@, o.edges@.len() as int, b, i + 1));
            }
        }
        if !state.dropout {
            iddfs(&child, depth + 1, depth_limit, cache, state);
            proof {
                lemma_state_on(o, c2, *cache, s0, t2, *state);
                if honest {
                    lemma_grown_before(c2, *cache, b, i as int, d, r);
                    lemma_grown_on(o, c2, *cache, b, d, r);
                    lemma_grown_edges(c2, *cache, b, d, r);
                    lemma_moves_on(
                        c2.edges@,
                        cache.edges@,
                        o.edges@.len() as int,
                        o.edges@.len() as int,
                        b,
                        i + 1,
                    );
                }
                if !state.dropout {
                    assert forall|k: int| 0 <= k < i + 1 implies plies_explored(
                        cache.known(),
                        number_of(#[trigger] child_at(b, k)),
                    ) >= remaining - 1 by {
                        if k < i {
                            assert(plies_explored(before, number_of(child_at(b, k))) >= remaining
                                - 1);
                        }
                    }
                }
                if !state.dropout && all_true(start) {
                    assert(covered(
                        cache.known(),
                        child_at(b, i as int),
                        (remaining - 1) as nat,
                    ));
                    assert forall|k: int| 0 <= k < i implies covered(
                        cache.known(),
                        #[trigger] child_at(b, k),
                        (remaining - 1) as nat,
                    ) by {
                        lemma_covered_extends(
                            before,
                            cache.known(),
                            child_at(b, k),
                            (remaining - 1) as nat,
                        );
                    }
                }
            }
        }
        i = i + 1;
    }
    let ghost explored = cache.known();
    let ghost o3 = *cache;
    proof {
        if !state.dropout && all_true(start) {
            assert forall|k: int| 0 <= k < legal_moves(b).len() implies explored[number_of(
                #[trigger] child_at(b, k),
            )].searched_depth >= remaining - 1 && covered(
                explored,
                child_at(b, k),
                (remaining - 1) as nat,
            ) by {
                assert(plies_explored(explored, number_of(child_at(b, k))) >= remaining - 1);
            }
            assert(covered(explored, b, remaining as nat));
            if remaining > explored[key].searched_depth {
                lemma_all_true_searched(
                    explored,
                    b,
                    PositionEntry { searched_depth: remaining, ..explored[key] },
                );
            }
        }
        if counted {
            lemma_depths_kept(explored, b, depth, remaining);
        }
        if honest {
            lemma_endings_kept(explored, b, depth, remaining);
        }
    }
    cache.update_searched_depth(key, remaining);
    cache.expanded.push(key);
    proof {
        if !state.dropout && all_true(start) {
            lemma_covered_extends(explored, cache.known(), b, remaining as nat);
        }
        if honest {
            lemma_grown_by_plies(o, o3, *cache, remaining, b, d, r);
        }
        assert(cache.known().dom() =~= o3.known().dom());
        lemma_state_same(o, o3, *cache, s0, *state);
    }
}

/// One iteration: explore the book from the empty board to `depth_limit` plies, or until
/// the limit on positions is reached.
pub fn explore_to(cache: &mut BookCache, depth_limit: usize, max_positions: Option<usize>) -> (s:
    IddfsState)
    ensures
        extends(old(cache).known(), final(cache).known()),
        state_grown(
            *old(cache),
            *final(cache),
            IddfsState { new_positions_this_iter: 0, dropout: false, max_positions },
            s,
        ),
        endings_true(old(cache).known()) ==> endings_true(final(cache).known()) && grown(
            *old(cache),
            *final(cache),
            Seq::new(8, |i: int| 0u16),
            0,
            depth_limit as nat,
        ),
        depths_true(old(cache).known()) ==> depths_true(final(cache).known()),
        !s.dropout ==> plies_explored(
            final(cache).known(),
            number_of(Seq::new(8, |i: int| 0u16)),
        ) >= depth_limit,
        !s.dropout && all_true(old(cache).known()) && depth_limit > 0 ==> all_true(
            final(cache).known(),
        ) && covered(final(cache).known(), Seq::new(8, |i: int| 0u16), depth_limit as nat),
{
    let root = Bitboard::empty();
    assert(root@ =~= Seq::new(8, |i: int| 0u16));
    proof {
        lemma_empty_board();
        assert(root@ =~= no_pieces());
    }
    let mut state = IddfsState { new_positions_this_iter: 0, dropout: false, max_positions };
    iddfs(&root, 0, depth_limit, cache, &mut state);
    state
}

/// Whether the position with the key `k` is reached from `b` within `r` moves.
pub open spec fn reached_within(k: u128, b: Seq<u16>, r: nat) -> bool
    decreases r,
{
    ||| k == number_of(b)
    ||| r > 0 && !finished(b) && exists|i: int|
        0 <= i < legal_moves(b).len() && reached_within(
            k,
            #[trigger] child_at(b, i),
            (r - 1) as nat,
        )
}

proof fn lemma_row_reached(row: NewRow, b: Seq<u16>, depth: int, r: nat)
    requires
        row_found(row, b, depth, r),
    ensures
        reached_within(row.key, b, r),
    decreases r,
{
    if !row_describes(row, b, depth) {
        let i = choose|i: int|
            0 <= i < legal_moves(b).len() && row_found(
                row,
                #[trigger] child_at(b, i),
                depth + 1,
                (r - 1) as nat,
            );
        lemma_row_reached(row, child_at(b, i), depth + 1, (r - 1) as nat);
    }
}

/// What an exploration covers is known.
pub proof fn law_covered_positions_are_known(
    m: vstd::map::Map<u128, PositionEntry>,
    k: u128,
    b: Seq<u16>,
    r: nat,
)
    requires
        covered(m, b, r),
        reached_within(k, b, r),
    ensures
        m.contains_key(k),
    decreases r,
{
    if k != number_of(b) {
        let i = choose|i: int|
            0 <= i < legal_moves(b).len() && reached_within(
                k,
                #[trigger] child_at(b, i),
                (r - 1) as nat,
            );
        assert(covered(m, child_at(b, i), (r - 1) as nat));
        law_covered_positions_are_known(m, k, child_at(b, i), (r - 1) as nat);
    }
}

/// A book that knew nothing, explored `r` plies from `b` without a stop, holds exactly the
/// positions that are reached within `r` moves, and has one row to store for each.
pub proof fn law_book_holds_what_is_reached(o: BookCache, n: BookCache, b: Seq<u16>, r: nat)
    requires
        o.known().dom() == Set::<u128>::empty(),
        o.new_positions@.len() == 0,
        grown(o, n, b, 0, r),
        covered(n.known(), b, r),
    ensures
        forall|k: u128| #[trigger] n.known().contains_key(k) <==> reached_within(k, b, r),
        forall|k: u128| #[trigger]
            n.known().contains_key(k) ==> exists|i: int|
                0 <= i < n.new_positions@.len() && (#[trigger] n.new_positions@[i]).key == k,
        forall|i: int, j: int|
            0 <= i < j < n.new_positions@.len() ==> (#[trigger] n.new_positions@[i]).key != (
            #[trigger] n.new_positions@[j]).key,
{
    reveal(grown);
    let rows = n.new_positions@;
    assert forall|k: u128| #[trigger] n.known().contains_key(k) <==> reached_within(k, b, r) by {
        if n.known().contains_key(k) {
            assert(!o.known().dom().contains(k));
            let i = choose|i: int| 0 <= i < rows.len() && (#[trigger] rows[i]).key == k;
            lemma_row_reached(rows[i], b, 0, r);
        }
        if reached_within(k, b, r) {
            law_covered_positions_are_known(n.known(), k, b, r);
        }
    }
    assert forall|k: u128| #[trigger] n.known().contains_key(k) implies exists|i: int|
        0 <= i < n.new_positions@.len() && (#[trigger] n.new_positions@[i]).key == k by {
        assert(!o.known().dom().contains(k));
    }
}

/// Where an exploration covers a board, every board that a line of play within its reach
/// leads to is known.
pub proof fn law_covered_lines_are_known(
    m: vstd::map::Map<u128, PositionEntry>,
    b: Seq<u16>,
    r: nat,
    moves: Seq<Move>,
)
    requires
        covered(m, b, r),
        crate::game_value::legal_line(b, moves),
        moves.len() <= r,
        forall|k: int|
            0 <= k < moves.len() ==> !finished(
                #[trigger] crate::game_value::after_line(b, moves.take(k)),
            ),
    ensures
        m.contains_key(number_of(crate::game_value::after_line(b, moves))),
    decreases moves.len(),
{
    if moves.len() > 0 {
        assert(moves.take(0) =~= Seq::<Move>::empty());
        assert(!finished(crate::game_value::after_line(b, moves.take(0))));
        lemma_legal_moves(b);
        let n = moves[0];
        assert(legal_moves(b).contains(n));
        let i = choose|i: int| 0 <= i < legal_moves(b).len() && legal_moves(b)[i] == n;
        let c = child_at(b, i);
        let rest = moves.drop_first();
        assert(covered(m, c, (r - 1) as nat));
        assert forall|k: int| 0 <= k < rest.len() implies !finished(
            #[trigger] crate::game_value::after_line(c, rest.take(k)),
        ) by {
            assert(!finished(crate::game_value::after_line(b, moves.take(k + 1))));
            assert(moves.take(k + 1).drop_first() =~= rest.take(k));
            assert(moves.take(k + 1)[0] == n);
        }
        law_covered_lines_are_known(m, c, (r - 1) as nat, rest);
    }
}

} // verus!
