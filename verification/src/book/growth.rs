//! What an exploration of an opening book adds to what is known and to be stored.
use crate::book::exhaustive::{child_at, number_of};
use crate::book::iddfs::{
    deeper, extends, shallower, BookCache, IddfsState, NewRow, PositionEntry,
};
use crate::book::positions::winner_of;
use crate::game_value::finished;
use crate::moves::{legal_moves, Move};
use crate::symmetry::lists_orbit;
use vstd::prelude::*;

verus! {

/// Whether `x` stands in `s` at place `from` or later.
pub open spec fn listed<T>(s: Seq<T>, from: int, x: T) -> bool {
    exists|j: int| from <= j < s.len() && #[trigger] s[j] == x
}

/// Whether `s` begins with `start`.
pub open spec fn prolongs<T>(start: Seq<T>, s: Seq<T>) -> bool {
    start.len() <= s.len() && s.take(start.len() as int) == start
}

/// Whether a row describes the board `b`, found at `depth`.
pub open spec fn row_describes(r: NewRow, b: Seq<u16>, depth: int) -> bool {
    &&& r.key == number_of(b)
    &&& r.depth == depth
    &&& r.terminal == finished(b)
    &&& r.winner == if finished(b) {
        winner_of(b)
    } else {
        None
    }
    &&& exists|list: Seq<u128>| #[trigger] lists_orbit(list, b) && r.symmetry_count == list.len()
}

/// Whether a row describes a board that is reached from `b`, at `depth`, within `r` moves.
pub open spec fn row_found(row: NewRow, b: Seq<u16>, depth: int, r: nat) -> bool
    decreases r,
{
    ||| row_describes(row, b, depth)
    ||| r > 0 && !finished(b) && exists|i: int|
        0 <= i < legal_moves(b).len() && row_found(
            row,
            #[trigger] child_at(b, i),
            depth + 1,
            (r - 1) as nat,
        )
}

/// The edge of the move at `i`.
pub open spec fn edge_at(b: Seq<u16>, i: int) -> (u128, u128, Move) {
    (number_of(b), number_of(child_at(b, i)), legal_moves(b)[i])
}

/// Whether an edge is a move from a board that is reached from `b`, and leads to one that is
/// reached within `r` moves.
pub open spec fn edge_found(e: (u128, u128, Move), b: Seq<u16>, r: nat) -> bool
    decreases r,
{
    r > 0 && !finished(b) && exists|i: int|
        0 <= i < legal_moves(b).len() && (e == edge_at(b, i) || edge_found(
            e,
            #[trigger] child_at(b, i),
            (r - 1) as nat,
        ))
}

/// Whether the edges of all moves of a board with the key `k` stand in `edges` at place
/// `from` or later.
pub open spec fn edges_listed(edges: Seq<(u128, u128, Move)>, from: int, k: u128) -> bool {
    exists|b: Seq<u16>| #[trigger]
        number_of(b) == k && b.len() == 8 && moves_listed(edges, from, b, legal_moves(b).len() as int)
}

/// Whether the edges of the first `n` moves stand in `edges` at place `from` or later.
pub open spec fn moves_listed(
    edges: Seq<(u128, u128, Move)>,
    from: int,
    b: Seq<u16>,
    n: int,
) -> bool {
    forall|i: int| 0 <= i < n ==> listed(edges, from, #[trigger] edge_at(b, i))
}

/// The plies after a position that were explored.
pub open spec fn plies_explored(m: vstd::map::Map<u128, PositionEntry>, k: u128) -> int {
    if m.contains_key(k) {
        m[k].searched_depth as int
    } else {
        0
    }
}

/// Whether the new rows are those of the positions that became known, each once, and each
/// within `r` moves of `b`.
pub open spec fn rows_grown(
    o: BookCache,
    n: BookCache,
    b: Seq<u16>,
    depth: int,
    r: nat,
) -> bool {
    let from = o.new_positions@.len() as int;
    let rows = n.new_positions@;
    &&& prolongs(o.new_positions@, rows)
    &&& forall|k: u128| #[trigger]
        n.known().contains_key(k) ==> o.known().contains_key(k) || exists|i: int|
            from <= i < rows.len() && (#[trigger] rows[i]).key == k
    &&& forall|i: int|
        from <= i < rows.len() ==> !o.known().contains_key((#[trigger] rows[i]).key)
            && n.known().contains_key(rows[i].key) && row_found(rows[i], b, depth, r)
    &&& forall|i: int, j: int|
        from <= i < j < rows.len() ==> (#[trigger] rows[i]).key != (#[trigger] rows[j]).key
}

/// Whether the new edges are moves within `r` moves of `b`, those of every position that was
/// expanded among them.
pub open spec fn edges_grown(o: BookCache, n: BookCache, b: Seq<u16>, r: nat) -> bool {
    let from = o.edges@.len() as int;
    &&& prolongs(o.edges@, n.edges@)
    &&& prolongs(o.expanded@, n.expanded@)
    &&& forall|i: int|
        from <= i < n.edges@.len() ==> edge_found(#[trigger] n.edges@[i], b, r)
    &&& forall|i: int|
        o.expanded@.len() <= i < n.expanded@.len() ==> edges_listed(
            n.edges@,
            from,
            #[trigger] n.expanded@[i],
        )
}

/// Whether the updates list every position of which more plies were explored, and the
/// expanded positions those of them on which the game goes on.
pub open spec fn updates_grown(o: BookCache, n: BookCache) -> bool {
    &&& prolongs(o.searched_updates@, n.searched_updates@)
    &&& forall|k: u128| #[trigger]
        plies_explored(n.known(), k) > plies_explored(o.known(), k) ==> listed(
            n.searched_updates@,
            o.searched_updates@.len() as int,
            (k, n.known()[k].searched_depth),
        ) && (n.known()[k].is_terminal || listed(n.expanded@, o.expanded@.len() as int, k))
}

/// Whether `n` may come of `o` by an exploration of the positions within `r` moves of `b`,
/// which is at `depth`.
#[verifier::opaque]
pub open spec fn grown(o: BookCache, n: BookCache, b: Seq<u16>, depth: int, r: nat) -> bool {
    &&& extends(o.known(), n.known())
    &&& rows_grown(o, n, b, depth, r)
    &&& edges_grown(o, n, b, r)
    &&& updates_grown(o, n)
}

/// Whether the limit on positions is reached.
pub open spec fn full(m: vstd::map::Map<u128, PositionEntry>, max: Option<usize>) -> bool {
    max is Some && m.len() >= max->0
}

/// The number of positions that were added in an iteration, as far as it can be counted.
pub open spec fn counted_up(old: u64, added: int) -> int {
    if old + added > u64::MAX {
        u64::MAX as int
    } else {
        old + added
    }
}

/// Whether the state of an iteration goes with what was added: the exploration is stopped
/// exactly when a new position reaches the limit.
pub open spec fn state_grown(o: BookCache, n: BookCache, s: IddfsState, t: IddfsState) -> bool {
    let added = n.new_positions@.len() - o.new_positions@.len();
    &&& added >= 0
    &&& t.max_positions == s.max_positions
    &&& t.new_positions_this_iter == counted_up(s.new_positions_this_iter, added)
    &&& t.dropout <==> s.dropout || (added > 0 && full(n.known(), s.max_positions))
    &&& added == 0 ==> n.known().dom() == o.known().dom()
}

proof fn lemma_prolongs<T>(a: Seq<T>, b: Seq<T>, c: Seq<T>)
    requires
        prolongs(a, b),
        prolongs(b, c),
    ensures
        prolongs(a, c),
        forall|i: int| 0 <= i < b.len() ==> #[trigger] c[i] == b[i],
        forall|from: int, x: T| #[trigger]
            listed(b, from, x) && from >= 0 ==> listed(c, from, x),
{
    assert forall|i: int| 0 <= i < b.len() implies #[trigger] c[i] == b[i] by {
        assert(c.take(b.len() as int)[i] == c[i]);
    }
    assert(c.take(a.len() as int) =~= b.take(a.len() as int));
    assert forall|from: int, x: T| #[trigger] listed(b, from, x) && from >= 0 implies listed(
        c,
        from,
        x,
    ) by {
        let j = choose|j: int| from <= j < b.len() && #[trigger] b[j] == x;
        assert(c[j] == x);
    }
}

pub proof fn lemma_grown_same(o: BookCache, b: Seq<u16>, depth: int, r: nat)
    ensures
        grown(o, o, b, depth, r),
{
    reveal(grown);
    assert(o.new_positions@.take(o.new_positions@.len() as int) =~= o.new_positions@);
    assert(o.edges@.take(o.edges@.len() as int) =~= o.edges@);
    assert(o.expanded@.take(o.expanded@.len() as int) =~= o.expanded@);
    assert(o.searched_updates@.take(o.searched_updates@.len() as int) =~= o.searched_updates@);
}

/// One exploration after another.
pub proof fn lemma_grown_on(
    o: BookCache,
    m: BookCache,
    n: BookCache,
    b: Seq<u16>,
    depth: int,
    r: nat,
)
    requires
        grown(o, m, b, depth, r),
        grown(m, n, b, depth, r),
    ensures
        grown(o, n, b, depth, r),
{
    reveal(grown);
    lemma_prolongs(o.new_positions@, m.new_positions@, n.new_positions@);
    lemma_prolongs(o.edges@, m.edges@, n.edges@);
    lemma_prolongs(o.expanded@, m.expanded@, n.expanded@);
    lemma_prolongs(o.searched_updates@, m.searched_updates@, n.searched_updates@);
    lemma_rows_on(o, m, n, b, depth, r);
    lemma_edges_on(o, m, n, b, r);
    assert forall|k: u128| #[trigger]
        plies_explored(n.known(), k) > plies_explored(o.known(), k) implies listed(
        n.searched_updates@,
        o.searched_updates@.len() as int,
        (k, n.known()[k].searched_depth),
    ) && (n.known()[k].is_terminal || listed(n.expanded@, o.expanded@.len() as int, k)) by {
        if plies_explored(n.known(), k) > plies_explored(m.known(), k) {
            let x = (k, n.known()[k].searched_depth);
            let j = choose|j: int|
                m.searched_updates@.len() <= j < n.searched_updates@.len()
                    && #[trigger] n.searched_updates@[j] == x;
            assert(n.searched_updates@[j] == x);
            if !n.known()[k].is_terminal {
                let i = choose|i: int|
                    m.expanded@.len() <= i < n.expanded@.len() && #[trigger] n.expanded@[i] == k;
                assert(n.expanded@[i] == k);
            }
        } else {
            assert(plies_explored(m.known(), k) > plies_explored(o.known(), k));
            assert(m.known().contains_key(k));
            assert(n.known()[k].searched_depth == m.known()[k].searched_depth);
        }
    }
}

proof fn lemma_rows_on(
    o: BookCache,
    m: BookCache,
    n: BookCache,
    b: Seq<u16>,
    depth: int,
    r: nat,
)
    requires
        extends(o.known(), m.known()),
        extends(m.known(), n.known()),
        rows_grown(o, m, b, depth, r),
        rows_grown(m, n, b, depth, r),
    ensures
        rows_grown(o, n, b, depth, r),
{
    let from = o.new_positions@.len() as int;
    let mid = m.new_positions@.len() as int;
    let rows = n.new_positions@;
    let early = m.new_positions@;
    lemma_prolongs(o.new_positions@, early, rows);
    assert forall|k: u128| #[trigger] n.known().contains_key(k) implies o.known().contains_key(k)
        || exists|i: int| from <= i < rows.len() && (#[trigger] rows[i]).key == k by {
        if m.known().contains_key(k) {
            if !o.known().contains_key(k) {
                let i = choose|i: int| from <= i < early.len() && (#[trigger] early[i]).key == k;
                assert(rows[i] == early[i]);
            }
        } else {
            let i = choose|i: int| mid <= i < rows.len() && (#[trigger] rows[i]).key == k;
            assert(rows[i].key == k);
        }
    }
    assert forall|i: int| from <= i < rows.len() implies !o.known().contains_key(
        (#[trigger] rows[i]).key,
    ) && n.known().contains_key(rows[i].key) && row_found(rows[i], b, depth, r) by {
        if i < mid {
            assert(rows[i] == early[i]);
        } else {
            assert(!m.known().contains_key(rows[i].key));
        }
    }
    assert forall|i: int, j: int| from <= i < j < rows.len() implies (#[trigger] rows[i]).key != (
    #[trigger] rows[j]).key by {
        if i < mid {
            assert(rows[i] == early[i]);
            if j < mid {
                assert(rows[j] == early[j]);
            } else {
                assert(m.known().contains_key(early[i].key));
                assert(!m.known().contains_key(rows[j].key));
            }
        }
    }
}

proof fn lemma_edges_on(o: BookCache, m: BookCache, n: BookCache, b: Seq<u16>, r: nat)
    requires
        edges_grown(o, m, b, r),
        edges_grown(m, n, b, r),
    ensures
        edges_grown(o, n, b, r),
{
    let from = o.edges@.len() as int;
    let mid = m.edges@.len() as int;
    lemma_prolongs(o.edges@, m.edges@, n.edges@);
    lemma_prolongs(o.expanded@, m.expanded@, n.expanded@);
    assert forall|i: int| from <= i < n.edges@.len() implies edge_found(
        #[trigger] n.edges@[i],
        b,
        r,
    ) by {
        if i < mid {
            assert(n.edges@[i] == m.edges@[i]);
        }
    }
    assert forall|i: int| o.expanded@.len() <= i < n.expanded@.len() implies edges_listed(
        n.edges@,
        from,
        #[trigger] n.expanded@[i],
    ) by {
        let k = n.expanded@[i];
        if i < m.expanded@.len() {
            assert(m.expanded@[i] == k);
            lemma_listed_on(m.edges@, n.edges@, from, from, k);
        } else {
            assert(n.edges@.take(n.edges@.len() as int) =~= n.edges@);
            lemma_listed_on(n.edges@, n.edges@, mid, from, k);
        }
    }
}

/// Edges that are listed stay listed.
proof fn lemma_listed_on(
    x: Seq<(u128, u128, Move)>,
    y: Seq<(u128, u128, Move)>,
    from: int,
    earlier: int,
    k: u128,
)
    requires
        prolongs(x, y),
        0 <= earlier <= from,
        edges_listed(x, from, k),
    ensures
        edges_listed(y, earlier, k),
{
    let b = choose|b: Seq<u16>| #[trigger]
        number_of(b) == k && b.len() == 8 && moves_listed(x, from, b, legal_moves(b).len() as int);
    lemma_moves_on(x, y, from, earlier, b, legal_moves(b).len() as int);
    assert(number_of(b) == k);
}

pub proof fn lemma_moves_on(
    x: Seq<(u128, u128, Move)>,
    y: Seq<(u128, u128, Move)>,
    from: int,
    earlier: int,
    b: Seq<u16>,
    n: int,
)
    requires
        prolongs(x, y),
        0 <= earlier <= from,
        moves_listed(x, from, b, n),
    ensures
        moves_listed(y, earlier, b, n),
{
    assert forall|i: int| 0 <= i < n implies listed(y, earlier, #[trigger] edge_at(b, i)) by {
        assert(listed(x, from, edge_at(b, i)));
        let j = choose|j: int| from <= j < x.len() && #[trigger] x[j] == edge_at(b, i);
        assert(y.take(x.len() as int)[j] == x[j]);
        assert(y[j] == edge_at(b, i));
    }
}

/// An exploration that could have gone further.
pub proof fn lemma_grown_further(o: BookCache, n: BookCache, b: Seq<u16>, depth: int, r: nat)
    requires
        grown(o, n, b, depth, 0),
    ensures
        grown(o, n, b, depth, r),
{
    reveal(grown);
    let rows = n.new_positions@;
    assert forall|i: int| o.new_positions@.len() <= i < rows.len() implies !o.known().contains_key(
        (#[trigger] rows[i]).key,
    ) && n.known().contains_key(rows[i].key) && row_found(rows[i], b, depth, r) by {
        assert(row_found(rows[i], b, depth, 0));
    }
    assert forall|i: int| o.edges@.len() <= i < n.edges@.len() implies edge_found(
        #[trigger] n.edges@[i],
        b,
        r,
    ) by {
        assert(edge_found(n.edges@[i], b, 0));
    }
}

pub proof fn lemma_grown_edges(o: BookCache, n: BookCache, b: Seq<u16>, depth: int, r: nat)
    requires
        grown(o, n, b, depth, r),
    ensures
        prolongs(o.edges@, n.edges@),
{
    reveal(grown);
}

/// Changes that make no position known leave the state alone.
pub proof fn lemma_state_same(
    o: BookCache,
    m: BookCache,
    n: BookCache,
    s: IddfsState,
    t: IddfsState,
)
    requires
        state_grown(o, m, s, t),
        n.known().dom() == m.known().dom(),
        n.new_positions@.len() == m.new_positions@.len(),
    ensures
        state_grown(o, n, s, t),
{
    assert(n.known().len() == m.known().len());
}

/// One exploration after another.
pub proof fn lemma_state_on(
    o: BookCache,
    m: BookCache,
    n: BookCache,
    s: IddfsState,
    t: IddfsState,
    u: IddfsState,
)
    requires
        state_grown(o, m, s, t),
        state_grown(m, n, t, u),
        !t.dropout,
    ensures
        state_grown(o, n, s, u),
{
    if n.new_positions@.len() == m.new_positions@.len() {
        assert(n.known().len() == m.known().len());
    }
}

/// An exploration that begins one move later.
pub proof fn lemma_grown_before(
    o: BookCache,
    n: BookCache,
    b: Seq<u16>,
    i: int,
    depth: int,
    r: nat,
)
    requires
        grown(o, n, child_at(b, i), depth + 1, (r - 1) as nat),
        !finished(b),
        0 <= i < legal_moves(b).len(),
        r > 0,
    ensures
        grown(o, n, b, depth, r),
{
    reveal(grown);
    let rows = n.new_positions@;
    assert forall|j: int| o.new_positions@.len() <= j < rows.len() implies !o.known().contains_key(
        (#[trigger] rows[j]).key,
    ) && n.known().contains_key(rows[j].key) && row_found(rows[j], b, depth, r) by {
        assert(row_found(rows[j], child_at(b, i), depth + 1, (r - 1) as nat));
    }
    assert forall|j: int| o.edges@.len() <= j < n.edges@.len() implies edge_found(
        #[trigger] n.edges@[j],
        b,
        r,
    ) by {
        assert(edge_found(n.edges@[j], child_at(b, i), (r - 1) as nat));
    }
}

/// A board becomes known.
pub proof fn lemma_grown_by_row(
    o: BookCache,
    n: BookCache,
    row: NewRow,
    b: Seq<u16>,
    depth: int,
    r: nat,
)
    requires
        !o.known().contains_key(row.key),
        row_describes(row, b, depth),
        n.known() == o.known().insert(
            row.key,
            PositionEntry {
                depth: row.depth,
                searched_depth: 0,
                is_terminal: row.terminal,
                dirty: false,
            },
        ),
        n.new_positions@ == o.new_positions@.push(row),
        n.edges == o.edges,
        n.searched_updates == o.searched_updates,
        n.expanded == o.expanded,
    ensures
        grown(o, n, b, depth, r),
{
    lemma_grown_same(o, b, depth, r);
    reveal(grown);
    let rows = n.new_positions@;
    let from = o.new_positions@.len() as int;
    assert(rows.take(from) =~= o.new_positions@);
    assert(rows[from] == row);
    assert(row_found(row, b, depth, r));
    assert forall|k: u128| #[trigger]
        plies_explored(n.known(), k) > plies_explored(o.known(), k) implies false by {
        if k != row.key {
            assert(n.known().contains_key(k) <==> o.known().contains_key(k));
        }
    }
}

/// A position is known to be nearer to the start.
pub proof fn lemma_grown_by_depth(
    o: BookCache,
    n: BookCache,
    key: u128,
    depth: usize,
    b: Seq<u16>,
    d: int,
    r: nat,
)
    requires
        n.known() == shallower(o.known(), key, depth),
        n.new_positions == o.new_positions,
        n.edges == o.edges,
        n.searched_updates == o.searched_updates,
        n.expanded == o.expanded,
    ensures
        grown(o, n, b, d, r),
        n.known().dom() == o.known().dom(),
{
    lemma_grown_same(o, b, d, r);
    reveal(grown);
    assert(n.known().dom() =~= o.known().dom());
    assert forall|k: u128| #[trigger] n.known().contains_key(k) implies o.known().contains_key(
        k,
    ) by {
        assert(n.known().dom().contains(k));
    }
    assert forall|k: u128| #[trigger]
        plies_explored(n.known(), k) > plies_explored(o.known(), k) implies false by {}
}

/// The edge of a move is noted.
pub proof fn lemma_grown_by_edge(
    o: BookCache,
    n: BookCache,
    b: Seq<u16>,
    i: int,
    depth: int,
    r: nat,
)
    requires
        !finished(b),
        0 <= i < legal_moves(b).len(),
        r > 0,
        n.known() == o.known(),
        n.new_positions == o.new_positions,
        n.edges@ == o.edges@.push(edge_at(b, i)),
        n.searched_updates == o.searched_updates,
        n.expanded == o.expanded,
    ensures
        grown(o, n, b, depth, r),
{
    lemma_grown_same(o, b, depth, r);
    reveal(grown);
    assert(n.edges@.take(o.edges@.len() as int) =~= o.edges@);
    assert(edge_found(edge_at(b, i), b, r)) by {
        let c = child_at(b, i);
    }
}

/// An exploration ends: more plies after the board are explored, and if the game goes on
/// there, the edges of all its moves were noted.
pub proof fn lemma_grown_by_plies(
    start: BookCache,
    o: BookCache,
    n: BookCache,
    plies: usize,
    b: Seq<u16>,
    depth: int,
    r: nat,
)
    requires
        b.len() == 8,
        grown(start, o, b, depth, r),
        o.known().contains_key(number_of(b)),
        n.known() == deeper(o.known(), number_of(b), plies),
        n.searched_updates@ == if plies > o.known()[number_of(b)].searched_depth {
            o.searched_updates@.push((number_of(b), plies))
        } else {
            o.searched_updates@
        },
        n.new_positions == o.new_positions,
        n.edges == o.edges,
        if o.known()[number_of(b)].is_terminal {
            n.expanded@ == o.expanded@ || n.expanded@ == o.expanded@.push(number_of(b))
        } else {
            n.expanded@ == o.expanded@.push(number_of(b))
        },
        n.expanded@ != o.expanded@ ==> moves_listed(
            o.edges@,
            start.edges@.len() as int,
            b,
            legal_moves(b).len() as int,
        ),
    ensures
        grown(start, n, b, depth, r),
        n.known().dom() == o.known().dom(),
{
    reveal(grown);
    let key = number_of(b);
    assert(n.known().dom() =~= o.known().dom());
    assert forall|k: u128| #[trigger] n.known().contains_key(k) <==> o.known().contains_key(k) by {
        assert(n.known().dom().contains(k) <==> o.known().dom().contains(k));
    }
    assert(extends(o.known(), n.known()));
    assert(n.searched_updates@.take(o.searched_updates@.len() as int) =~= o.searched_updates@);
    assert(n.expanded@.take(o.expanded@.len() as int) =~= o.expanded@);
    lemma_prolongs(start.searched_updates@, o.searched_updates@, n.searched_updates@);
    lemma_prolongs(start.expanded@, o.expanded@, n.expanded@);
    assert(rows_grown(start, n, b, depth, r));
    assert forall|i: int| start.expanded@.len() <= i < n.expanded@.len() implies edges_listed(
        n.edges@,
        start.edges@.len() as int,
        #[trigger] n.expanded@[i],
    ) by {
        if i < o.expanded@.len() {
            assert(n.expanded@[i] == o.expanded@[i]);
        } else {
            assert(n.expanded@[i] == number_of(b));
        }
    }
    assert forall|k: u128| #[trigger]
        plies_explored(n.known(), k) > plies_explored(start.known(), k) implies listed(
        n.searched_updates@,
        start.searched_updates@.len() as int,
        (k, n.known()[k].searched_depth),
    ) && (n.known()[k].is_terminal || listed(n.expanded@, start.expanded@.len() as int, k)) by {
        if plies_explored(n.known(), k) > plies_explored(o.known(), k) {
            assert(k == key);
            assert(n.searched_updates@[o.searched_updates@.len() as int] == (key, plies));
            if n.expanded@ != o.expanded@ {
                assert(n.expanded@[o.expanded@.len() as int] == key);
            }
        } else {
            assert(plies_explored(o.known(), k) > plies_explored(start.known(), k));
        }
    }
}

} // verus!
