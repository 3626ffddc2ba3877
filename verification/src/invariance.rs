//! The rules do not change under the symmetries of the board.
use crate::bitboard::{bit, lemma_taken, pieces, placed, plane, popcount, taken};
use crate::constants::line;
use crate::game::{line_complete, shape_union, to_move, total_pieces, won};
use crate::moves::{applied, legal, legal_move, legal_moves, line_free, moves_below, Move};
use crate::symmetry::{image, lemma_cell, lemma_cells, lemma_line, lemma_single_cell, Sym};
use vstd::prelude::*;

verus! {

/// `f(0) + ... + f(n - 1)`.
pub open spec fn sum(f: spec_fn(int) -> int, n: int) -> int
    decreases n,
{
    if n <= 0 {
        0
    } else {
        sum(f, n - 1) + f(n - 1)
    }
}

/// Equal terms have equal sums.
pub proof fn lemma_sum_equal(f: spec_fn(int) -> int, g: spec_fn(int) -> int, n: int)
    requires
        forall|i: int| 0 <= i < n ==> #[trigger] f(i) == g(i),
    ensures
        sum(f, n) == sum(g, n),
    decreases n,
{
    if n > 0 {
        lemma_sum_equal(f, g, n - 1);
    }
}

proof fn lemma_sum_replace(f: spec_fn(int) -> int, g: spec_fn(int) -> int, n: int, j: int)
    requires
        0 <= j < n,
        forall|i: int| 0 <= i < n && i != j ==> #[trigger] f(i) == g(i),
    ensures
        sum(f, n) == sum(g, n) - g(j) + f(j),
    decreases n,
{
    if j == n - 1 {
        lemma_sum_equal(f, g, n - 1);
    } else {
        lemma_sum_replace(f, g, n - 1, j);
    }
}

/// Whether `s` and `t` are inverse to each other on the numbers below `n`.
pub open spec fn inverse_below(s: spec_fn(int) -> int, t: spec_fn(int) -> int, n: int) -> bool {
    &&& forall|i: int| 0 <= i < n ==> 0 <= #[trigger] s(i) < n && t(s(i)) == i
    &&& forall|i: int| 0 <= i < n ==> 0 <= #[trigger] t(i) < n && s(t(i)) == i
}

/// A sum does not depend on the order of its terms.
pub proof fn lemma_sum_permuted(
    f: spec_fn(int) -> int,
    s: spec_fn(int) -> int,
    t: spec_fn(int) -> int,
    n: int,
)
    requires
        inverse_below(s, t, n),
    ensures
        sum(|i: int| f(s(i)), n) == sum(f, n),
    decreases n,
{
    if n > 0 {
        let m = n - 1;
        let j = t(m);
        let v = s(m);
        // `s2` is `s` with the values at `j` and at `m` exchanged.
        let s2 = |i: int|
            if i == j {
                v
            } else {
                s(i)
            };
        let t2 = |i: int|
            if i == v {
                j
            } else {
                t(i)
            };
        assert(s(j) == m);
        assert(t(v) == m);
        if j == m {
            assert forall|i: int| 0 <= i < m implies 0 <= #[trigger] s(i) < m by {
                assert(t(s(i)) == i);
            }
            assert forall|i: int| 0 <= i < m implies 0 <= #[trigger] t(i) < m by {
                assert(s(t(i)) == i);
            }
            lemma_sum_permuted(f, s, t, m);
        } else {
            assert(v != m) by {
                assert(t(s(m)) == m);
            }
            assert forall|i: int| 0 <= i < m implies 0 <= #[trigger] s2(i) < m && t2(s2(i))
                == i by {
                assert(0 <= s(i) < n && t(s(i)) == i);
                if i != j {
                    assert(s(i) != m) by {
                        assert(t(s(i)) == i);
                    }
                    assert(s(i) != v) by {
                        assert(t(s(i)) == i && t(v) == m);
                    }
                }
            }
            assert forall|i: int| 0 <= i < m implies 0 <= #[trigger] t2(i) < m && s2(t2(i))
                == i by {
                assert(0 <= t(i) < n && s(t(i)) == i);
                if i != v {
                    assert(t(i) != m) by {
                        assert(s(t(i)) == i);
                    }
                    assert(t(i) != j) by {
                        assert(s(t(i)) == i && s(j) == m);
                    }
                }
            }
            lemma_sum_permuted(f, s2, t2, m);
            let fs = |i: int| f(s(i));
            let fs2 = |i: int| f(s2(i));
            assert(sum(fs2, m) == sum(f, m));
            lemma_sum_replace(fs, fs2, m, j);
            assert(fs(j) == f(m));
            assert(fs2(j) == f(v));
            assert(sum(fs, n) == sum(fs, m) + f(v));
        }
    }
}

/// Names, cells and lines come back under the inverse symmetry.
pub proof fn lemma_inverse_maps(g: Sym)
    requires
        g.valid(),
    ensures
        g.inverse().valid(),
        forall|s: int|
            0 <= s < 4 ==> 0 <= #[trigger] g.shape(s) < 4 && g.from[g.shape(s)] == s
                && g.inverse().shape(g.shape(s)) == s,
        forall|s: int|
            0 <= s < 4 ==> 0 <= #[trigger] g.inverse().shape(s) < 4 && g.shape(
                g.inverse().shape(s),
            ) == s,
        forall|p: int|
            0 <= p < 16 ==> 0 <= #[trigger] g.cell(p) < 16 && g.inverse().cell(g.cell(p)) == p,
        forall|p: int|
            0 <= p < 16 ==> 0 <= #[trigger] g.inverse().cell(p) < 16 && g.cell(g.inverse().cell(p))
                == p,
        forall|k: int|
            0 <= k < 12 ==> 0 <= #[trigger] g.line_index(k) < 12 && g.inverse().line_index(
                g.line_index(k),
            ) == k,
        forall|k: int|
            0 <= k < 12 ==> 0 <= #[trigger] g.inverse().line_index(k) < 12 && g.line_index(
                g.inverse().line_index(k),
            ) == k,
{
    let h = g.inverse();
    assert(h.from[0] == g.shape(0) && h.from[1] == g.shape(1) && h.from[2] == g.shape(2)
        && h.from[3] == g.shape(3));
}

proof fn lemma_bits_extensional_u16(x: u16, y: u16)
    by (bit_vector)
    requires
        x & 1 == y & 1,
        (x >> 1) & 1 == (y >> 1) & 1,
        (x >> 2) & 1 == (y >> 2) & 1,
        (x >> 3) & 1 == (y >> 3) & 1,
        (x >> 4) & 1 == (y >> 4) & 1,
        (x >> 5) & 1 == (y >> 5) & 1,
        (x >> 6) & 1 == (y >> 6) & 1,
        (x >> 7) & 1 == (y >> 7) & 1,
        (x >> 8) & 1 == (y >> 8) & 1,
        (x >> 9) & 1 == (y >> 9) & 1,
        (x >> 10) & 1 == (y >> 10) & 1,
        (x >> 11) & 1 == (y >> 11) & 1,
        (x >> 12) & 1 == (y >> 12) & 1,
        (x >> 13) & 1 == (y >> 13) & 1,
        (x >> 14) & 1 == (y >> 14) & 1,
        (x >> 15) & 1 == (y >> 15) & 1,
    ensures
        x == y,
{
}

/// Sets with the same cells are equal.
pub proof fn lemma_bits_extensional(x: u16, y: u16)
    requires
        forall|i: int| 0 <= i < 16 ==> (#[trigger] bit(x, i) <==> bit(y, i)),
    ensures
        x == y,
{
    assert forall|i: u16| i < 16 implies #[trigger] ((x >> i) & 1) == (y >> i) & 1 by {
        assert((x >> i) & 1 == 0 || (x >> i) & 1 == 1) by (bit_vector);
        assert((y >> i) & 1 == 0 || (y >> i) & 1 == 1) by (bit_vector);
        assert(bit(x, i as int) <==> bit(y, i as int));
    }
    assert(x >> 0 == x && y >> 0 == y) by (bit_vector);
    assert((x >> 0) & 1 == (y >> 0) & 1);
    lemma_bits_extensional_u16(x, y);
}

/// The plane of a renamed shape holds the moved cells.
pub proof fn lemma_image_plane(b: Seq<u16>, g: Sym, player: int, s: int)
    requires
        b.len() == 8,
        g.valid(),
        0 <= player < 2,
        0 <= s < 4,
    ensures
        plane(image(b, g), player, g.shape(s)) == g.cells(plane(b, player, s)),
        shape_union(image(b, g), g.shape(s)) == g.cells(shape_union(b, s)),
{
    lemma_inverse_maps(g);
    let j = g.shape(s);
    assert(g.from[j] == s);
    assert((player * 4 + j) / 4 == player && (player * 4 + j) % 4 == j);
    assert((j + 4) / 4 == 1 && (j + 4) % 4 == j && j / 4 == 0 && j % 4 == j);
    lemma_cells(g, b[s], b[s + 4]);
}

/// The taken cells move with the board.
pub proof fn lemma_image_taken(b: Seq<u16>, g: Sym)
    requires
        b.len() == 8,
        g.valid(),
    ensures
        taken(image(b, g)) == g.cells(taken(b)),
{
    let a = image(b, g);
    let h = g.inverse();
    lemma_inverse_maps(g);
    assert forall|q: int| 0 <= q < 16 implies (#[trigger] bit(taken(a), q) <==> bit(
        g.cells(taken(b)),
        q,
    )) by {
        let p = h.cell(q);
        assert(g.cell(p) == q);
        lemma_taken(a, q);
        lemma_taken(b, p);
        lemma_cell(g, taken(b), p);
        if bit(taken(a), q) {
            let i = choose|i: int| 0 <= i < 8 && bit(#[trigger] a[i], q);
            let k = 4 * (i / 4) + g.from[i % 4];
            assert(0 <= g.from[i % 4] < 4);
            lemma_cell(g, b[k], p);
            assert(bit(b[k], p));
        }
        if bit(taken(b), p) {
            let k = choose|k: int| 0 <= k < 8 && bit(#[trigger] b[k], p);
            lemma_image_plane(b, g, k / 4, k % 4);
            lemma_cell(g, b[k], p);
            let i = (k / 4) * 4 + g.shape(k % 4);
            assert(plane(b, k / 4, k % 4) == b[k]);
            assert(bit(a[i], q));
        }
    }
    lemma_bits_extensional(taken(a), g.cells(taken(b)));
}

/// Piece counts, and with them the turn, stay as they are.
pub proof fn lemma_image_counts(b: Seq<u16>, g: Sym)
    requires
        b.len() == 8,
        g.valid(),
    ensures
        image(b, g).len() == 8,
        pieces(image(b, g), 0) == pieces(b, 0),
        pieces(image(b, g), 1) == pieces(b, 1),
        to_move(image(b, g)) == to_move(b),
        total_pieces(image(b, g)) == total_pieces(b),
{
    let a = image(b, g);
    assert forall|player: int| 0 <= player < 2 implies #[trigger] pieces(a, player) == pieces(
        b,
        player,
    ) by {
        assert forall|s: int| 0 <= s < 4 implies popcount(
            #[trigger] plane(a, player, g.shape(s)),
        ) == popcount(plane(b, player, s)) by {
            lemma_image_plane(b, g, player, s);
            lemma_cells(g, plane(b, player, s), 0);
        }
        lemma_inverse_maps(g);
        assert(popcount(plane(a, player, g.shape(0))) == popcount(plane(b, player, 0)));
        assert(popcount(plane(a, player, g.shape(1))) == popcount(plane(b, player, 1)));
        assert(popcount(plane(a, player, g.shape(2))) == popcount(plane(b, player, 2)));
        assert(popcount(plane(a, player, g.shape(3))) == popcount(plane(b, player, 3)));
    }
}

/// A set meets a line exactly if its image meets the image of the line.
pub proof fn lemma_image_meets_line(g: Sym, x: u16, k: int)
    requires
        0 <= k < 12,
    ensures
        0 <= g.line_index(k) < 12,
        g.cells(x) & line(g.line_index(k)) == 0 <==> x & line(k) == 0,
        popcount(g.cells(x) & line(g.line_index(k))) == popcount(x & line(k)),
{
    lemma_line(g, k);
    lemma_cells(g, x, line(k));
    lemma_cells(g, x & line(k), 0);
}

/// A line is complete exactly if its image is.
pub proof fn lemma_image_line_complete(b: Seq<u16>, g: Sym, k: int)
    requires
        b.len() == 8,
        g.valid(),
        0 <= k < 12,
    ensures
        line_complete(image(b, g), g.line_index(k)) <==> line_complete(b, k),
{
    let a = image(b, g);
    lemma_inverse_maps(g);
    assert forall|s: int| 0 <= s < 4 implies (#[trigger] shape_union(a, g.shape(s)) & line(
        g.line_index(k),
    ) != 0 <==> shape_union(b, s) & line(k) != 0) by {
        lemma_image_plane(b, g, 0, s);
        lemma_image_meets_line(g, shape_union(b, s), k);
    }
    if line_complete(b, k) {
        assert forall|t: int| 0 <= t < 4 implies #[trigger] shape_union(a, t) & line(
            g.line_index(k),
        ) != 0 by {
            let s = g.inverse().shape(t);
            assert(shape_union(a, g.shape(s)) & line(g.line_index(k)) != 0 <==> shape_union(b, s)
                & line(k) != 0);
        }
    }
    if line_complete(a, g.line_index(k)) {
        assert forall|s: int| 0 <= s < 4 implies #[trigger] shape_union(b, s) & line(k) != 0 by {
            assert(shape_union(a, g.shape(s)) & line(g.line_index(k)) != 0);
        }
    }
}

/// A board is won exactly if its image is.
pub proof fn law_won_invariant(b: Seq<u16>, g: Sym)
    requires
        b.len() == 8,
        g.valid(),
    ensures
        won(image(b, g)) <==> won(b),
{
    let a = image(b, g);
    lemma_inverse_maps(g);
    if won(b) {
        let k = choose|k: int| 0 <= k < 12 && #[trigger] line_complete(b, k);
        lemma_image_line_complete(b, g, k);
        assert(line_complete(a, g.line_index(k)));
    }
    if won(a) {
        let j = choose|j: int| 0 <= j < 12 && #[trigger] line_complete(a, j);
        let k = g.inverse().line_index(j);
        lemma_image_line_complete(b, g, k);
        assert(line_complete(b, k));
    }
}

/// The line rule moves with the board.
pub proof fn lemma_image_line_free(b: Seq<u16>, g: Sym, player: int, s: int, p: int)
    requires
        b.len() == 8,
        g.valid(),
        0 <= player < 2,
        0 <= s < 4,
        0 <= p < 16,
    ensures
        line_free(image(b, g), player, g.shape(s), g.cell(p)) <==> line_free(b, player, s, p),
{
    let a = image(b, g);
    lemma_inverse_maps(g);
    lemma_image_plane(b, g, 1 - player, s);
    let x = plane(b, 1 - player, s);
    assert forall|k: int| 0 <= k < 12 implies ((bit(line(g.line_index(k)), g.cell(p)) ==> plane(
        a,
        1 - player,
        g.shape(s),
    ) & line(g.line_index(k)) == 0) <==> (bit(line(k), p) ==> x & #[trigger] line(k) == 0)) by {
        lemma_image_meets_line(g, x, k);
        lemma_line(g, k);
        lemma_cell(g, line(k), p);
    }
    if line_free(b, player, s, p) {
        assert forall|j: int| 0 <= j < 12 && bit(line(j), g.cell(p)) implies plane(
            a,
            1 - player,
            g.shape(s),
        ) & #[trigger] line(j) == 0 by {
            let k = g.inverse().line_index(j);
            assert(g.line_index(k) == j);
            let through = line(k);
            assert(bit(line(k), p) ==> x & line(k) == 0);
        }
    }
    if line_free(a, player, g.shape(s), g.cell(p)) {
        assert forall|k: int| 0 <= k < 12 && bit(line(k), p) implies x & #[trigger] line(k)
            == 0 by {
            let j = g.line_index(k);
            assert(bit(line(j), g.cell(p)) ==> plane(a, 1 - player, g.shape(s)) & line(j) == 0);
        }
    }
}

/// A placement is legal exactly if its image is.
pub proof fn law_legal_invariant(b: Seq<u16>, g: Sym, player: int, s: int, p: int)
    requires
        b.len() == 8,
        g.valid(),
        0 <= player < 2,
        0 <= s < 4,
        0 <= p < 16,
    ensures
        legal(image(b, g), player, g.shape(s), g.cell(p)) <==> legal(b, player, s, p),
{
    lemma_image_taken(b, g);
    lemma_cell(g, taken(b), p);
    lemma_image_plane(b, g, player, s);
    lemma_cells(g, plane(b, player, s), 0);
    lemma_image_line_free(b, g, player, s, p);
}

/// Placing a piece commutes with the symmetry.
proof fn lemma_image_placed(b: Seq<u16>, g: Sym, player: int, s: int, p: int)
    requires
        b.len() == 8,
        g.valid(),
        0 <= player < 2,
        0 <= s < 4,
        0 <= p < 16,
    ensures
        placed(image(b, g), player, g.shape(s), g.cell(p)) == image(placed(b, player, s, p), g),
{
    let a = image(b, g);
    let x = placed(a, player, g.shape(s), g.cell(p));
    let y = image(placed(b, player, s, p), g);
    lemma_inverse_maps(g);
    let t = g.shape(s);
    assert(0 <= t < 4 && g.from[t] == s);
    lemma_single_cell(g, p);
    lemma_cells(g, plane(b, player, s), 1u16 << (p as u16));
    lemma_image_plane(b, g, player, s);
    assert forall|c: int, j: int| 0 <= c < 2 && 0 <= j < 4 implies #[trigger] plane(x, c, j)
        == plane(y, c, j) by {
        let i = c * 4 + j;
        assert(i / 4 == c && i % 4 == j);
        let f = g.from[j];
        assert(0 <= f < 4);
        assert(y[i] == g.cells(placed(b, player, s, p)[4 * c + f]));
        assert(a[i] == g.cells(b[4 * c + f]));
        if c == player && j == t {
            assert(4 * c + f == player * 4 + s);
        } else {
            assert(i != player * 4 + t);
            assert(4 * c + f != player * 4 + s) by {
                if c == player {
                    assert(f != s);
                }
            }
        }
    }
    assert forall|i: int| 0 <= i < 8 implies x[i] == y[i] by {
        assert(plane(x, i / 4, i % 4) == plane(y, i / 4, i % 4));
    }
    assert(x =~= y);
}

/// The move that `m` becomes.
pub open spec fn image_move(m: Move, g: Sym) -> Move {
    Move {
        player: m.player,
        shape: g.shape(m.shape as int) as u8,
        position: g.cell(m.position as int) as u8,
    }
}

/// A legal move becomes a legal move, and playing it commutes with the symmetry.
pub proof fn law_move_invariant(b: Seq<u16>, g: Sym, m: Move)
    requires
        b.len() == 8,
        g.valid(),
        m.in_range(),
    ensures
        image_move(m, g).in_range(),
        legal_move(image(b, g), image_move(m, g)) <==> legal_move(b, m),
        applied(image(b, g), image_move(m, g)) == image(applied(b, m), g),
{
    let a = image(b, g);
    let n = image_move(m, g);
    lemma_inverse_maps(g);
    assert(0 <= g.shape(m.shape as int) < 4);
    assert(0 <= g.cell(m.position as int) < 16);
    lemma_image_counts(b, g);
    law_legal_invariant(b, g, m.player as int, m.shape as int, m.position as int);
    lemma_image_placed(b, g, m.player as int, m.shape as int, m.position as int);
}

/// One for a legal action of `player`, zero for another.
pub open spec fn legal_weight(b: Seq<u16>, player: int, a: int) -> int {
    if legal(b, player, a / 16, a % 16) {
        1
    } else {
        0
    }
}

/// The number of legal moves is the sum of the weights of the actions.
pub proof fn lemma_moves_below_len(b: Seq<u16>, player: u8, n: int)
    requires
        0 <= n <= 64,
    ensures
        moves_below(b, player, n).len() == sum(|a: int| legal_weight(b, player as int, a), n),
    decreases n,
{
    if n > 0 {
        lemma_moves_below_len(b, player, n - 1);
    }
}

/// A board and its image have equally many legal moves.
pub proof fn law_mobility_invariant(b: Seq<u16>, g: Sym)
    requires
        b.len() == 8,
        g.valid(),
    ensures
        legal_moves(image(b, g)).len() == legal_moves(b).len(),
{
    let a = image(b, g);
    lemma_image_counts(b, g);
    match to_move(b) {
        Some(player) => {
            let h = g.inverse();
            let s = |x: int| g.shape(x / 16) * 16 + g.cell(x % 16);
            let t = |x: int| h.shape(x / 16) * 16 + h.cell(x % 16);
            lemma_inverse_maps(g);
            assert(inverse_below(s, t, 64)) by {
                assert forall|x: int| 0 <= x < 64 implies 0 <= #[trigger] s(x) < 64 && t(s(x))
                    == x by {
                    let u = g.shape(x / 16);
                    let v = g.cell(x % 16);
                    assert(0 <= u < 4 && 0 <= v < 16);
                    assert((u * 16 + v) / 16 == u && (u * 16 + v) % 16 == v);
                }
                assert forall|x: int| 0 <= x < 64 implies 0 <= #[trigger] t(x) < 64 && s(t(x))
                    == x by {
                    let u = h.shape(x / 16);
                    let v = h.cell(x % 16);
                    assert(0 <= u < 4 && 0 <= v < 16);
                    assert((u * 16 + v) / 16 == u && (u * 16 + v) % 16 == v);
                }
            }
            let f = |x: int| legal_weight(a, player as int, x);
            let f0 = |x: int| legal_weight(b, player as int, x);
            lemma_sum_permuted(f, s, t, 64);
            let fs = |x: int| f(s(x));
            assert forall|x: int| 0 <= x < 64 implies #[trigger] fs(x) == f0(x) by {
                law_legal_invariant(b, g, player as int, x / 16, x % 16);
                let u = g.shape(x / 16);
                let v = g.cell(x % 16);
                assert(0 <= u < 4 && 0 <= v < 16);
                assert(s(x) / 16 == u && s(x) % 16 == v);
            }
            lemma_sum_equal(fs, f0, 64);
            lemma_moves_below_len(a, player, 64);
            lemma_moves_below_len(b, player, 64);
        },
        None => {},
    }
}

} // verus!
