//! The rules by rows, columns and zones: where a piece may stand, when a line is complete and
//! who could complete it.
use crate::bitboard::{
    bit, lemma_bit_ops, lemma_popcount, lemma_popcount_union, lemma_taken, placed, plane, popcount,
    taken,
};
use crate::board::{result_of, GameResult};
use crate::constants::line;
use crate::evaluation::{
    completes, feature, held, indicator, lemma_indicator_sum_bounds, lemma_line_sizes, live,
    on_line, shapes_on, threat,
};
use crate::game::{line_complete, shape_union, to_move, won};
use crate::game_value::finished;
use crate::invariance::{lemma_bits_extensional, sum};
use crate::mcts::outcome;
use crate::moves::{applied, legal, legal_move, legal_moves, lemma_legal_moves, Move};
use crate::qfen::disjoint_planes;
use vstd::prelude::*;

verus! {

/// Whether two cells share a row, a column or a zone of two by two cells.
pub open spec fn neighbours(p: int, q: int) -> bool {
    ||| p / 4 == q / 4
    ||| p % 4 == q % 4
    ||| (p / 8 == q / 8 && (p % 4) / 2 == (q % 4) / 2)
}

/// Whether cell `p` is on the row, column or zone with number `k`: the four rows come first,
/// then the four columns, then the four zones.
pub open spec fn lies_on(p: int, k: int) -> bool {
    if k < 4 {
        p / 4 == k
    } else if k < 8 {
        p % 4 == k - 4
    } else {
        (p / 8) * 2 + (p % 4) / 2 == k - 8
    }
}

proof fn lemma_line_cells_u16(p: u16)
    by (bit_vector)
    requires
        p < 16,
    ensures
        (0x000Fu16 >> p) & 1u16 == 1u16 <==> p / 4 == 0,
        (0x00F0u16 >> p) & 1u16 == 1u16 <==> p / 4 == 1,
        (0x0F00u16 >> p) & 1u16 == 1u16 <==> p / 4 == 2,
        (0xF000u16 >> p) & 1u16 == 1u16 <==> p / 4 == 3,
        (0x1111u16 >> p) & 1u16 == 1u16 <==> p % 4 == 0,
        (0x2222u16 >> p) & 1u16 == 1u16 <==> p % 4 == 1,
        (0x4444u16 >> p) & 1u16 == 1u16 <==> p % 4 == 2,
        (0x8888u16 >> p) & 1u16 == 1u16 <==> p % 4 == 3,
        (0x0033u16 >> p) & 1u16 == 1u16 <==> p / 8 == 0 && (p % 4) / 2 == 0,
        (0x00CCu16 >> p) & 1u16 == 1u16 <==> p / 8 == 0 && (p % 4) / 2 == 1,
        (0x3300u16 >> p) & 1u16 == 1u16 <==> p / 8 == 1 && (p % 4) / 2 == 0,
        (0xCC00u16 >> p) & 1u16 == 1u16 <==> p / 8 == 1 && (p % 4) / 2 == 1,
{
}

/// The twelve lines are the rows, the columns and the zones of the board.
pub proof fn law_lines_are_rows_columns_and_zones(p: int, k: int)
    requires
        0 <= p < 16,
        0 <= k < 12,
    ensures
        bit(line(k), p) <==> lies_on(p, k),
{
    lemma_line_cells_u16(p as u16);
}

/// Two cells are neighbours exactly if some line holds both.
proof fn lemma_neighbours(p: int, q: int)
    requires
        0 <= p < 16,
        0 <= q < 16,
    ensures
        neighbours(p, q) <==> exists|k: int|
            0 <= k < 12 && bit(#[trigger] line(k), p) && bit(line(k), q),
{
    assert forall|k: int| 0 <= k < 12 implies (bit(#[trigger] line(k), p) <==> lies_on(p, k)) && (
    bit(line(k), q) <==> lies_on(q, k)) by {
        law_lines_are_rows_columns_and_zones(p, k);
        law_lines_are_rows_columns_and_zones(q, k);
    }
    if neighbours(p, q) {
        let k = if p / 4 == q / 4 {
            p / 4
        } else if p % 4 == q % 4 {
            4 + p % 4
        } else {
            8 + (p / 8) * 2 + (p % 4) / 2
        };
        assert(bit(line(k), p) && bit(line(k), q));
    }
}

/// Two sets meet exactly if they share a cell.
proof fn lemma_meet(x: u16, y: u16)
    ensures
        x & y != 0 <==> exists|q: int| 0 <= q < 16 && #[trigger] bit(x, q) && bit(y, q),
{
    if x & y != 0 {
        if forall|q: int| 0 <= q < 16 ==> !(#[trigger] bit(x, q) && bit(y, q)) {
            assert forall|q: int| 0 <= q < 16 implies (#[trigger] bit(x & y, q) <==> bit(0, q)) by {
                lemma_bit_ops(x, y, q, 0);
                lemma_bit_ops(0, 0, q, 0);
                assert(!(bit(x, q) && bit(y, q)));
                lemma_popcount(0, q);
            }
            lemma_bits_extensional(x & y, 0);
        }
    }
    if exists|q: int| 0 <= q < 16 && #[trigger] bit(x, q) && bit(y, q) {
        let q = choose|q: int| 0 <= q < 16 && #[trigger] bit(x, q) && bit(y, q);
        lemma_bit_ops(x, y, q, 0);
        lemma_bit_ops(x & y, 0, q, 0);
    }
}

/// A player may put a shape on a cell exactly if the cell is empty, the player has put fewer
/// than two pieces of the shape on the board, and no neighbouring cell holds a piece of the
/// shape that is the opponent's.
pub proof fn law_where_a_shape_may_stand(b: Seq<u16>, player: int, shape: int, pos: int)
    requires
        b.len() == 8,
        0 <= player < 2,
        0 <= shape < 4,
        0 <= pos < 16,
    ensures
        legal(b, player, shape, pos) <==> {
            &&& forall|i: int| 0 <= i < 8 ==> !bit(#[trigger] b[i], pos)
            &&& popcount(b[player * 4 + shape]) < 2
            &&& forall|q: int|
                0 <= q < 16 && #[trigger] bit(b[(1 - player) * 4 + shape], q) ==> !neighbours(
                    pos,
                    q,
                )
        },
{
    lemma_taken(b, pos);
    let other = b[(1 - player) * 4 + shape];
    if forall|q: int| 0 <= q < 16 && #[trigger] bit(other, q) ==> !neighbours(pos, q) {
        assert forall|k: int| 0 <= k < 12 && bit(line(k), pos) implies plane(b, 1 - player, shape)
            & #[trigger] line(k) == 0 by {
            lemma_meet(other, line(k));
            if other & line(k) != 0 {
                let q = choose|q: int| 0 <= q < 16 && #[trigger] bit(other, q) && bit(line(k), q);
                lemma_neighbours(pos, q);
            }
        }
    }
    if crate::moves::line_free(b, player, shape, pos) {
        assert forall|q: int| 0 <= q < 16 && #[trigger] bit(other, q) implies !neighbours(
            pos,
            q,
        ) by {
            lemma_neighbours(pos, q);
            if neighbours(pos, q) {
                let k = choose|k: int|
                    0 <= k < 12 && bit(#[trigger] line(k), pos) && bit(line(k), q);
                lemma_meet(other, line(k));
                assert(plane(b, 1 - player, shape) & line(k) == 0);
            }
        }
    }
}

/// A legal move is one of the player to move, who may put the shape on the cell.
pub proof fn law_legal_moves_keep_shapes_apart(b: Seq<u16>, m: Move, q: int)
    requires
        b.len() == 8,
        legal_moves(b).contains(m),
        0 <= q < 16,
        neighbours(m.position as int, q),
    ensures
        to_move(b) == Some(m.player),
        !bit(b[(1 - m.player) * 4 + m.shape], q),
        !bit(applied(b, m)[(1 - m.player) * 4 + m.shape], q),
        bit(applied(b, m)[m.player * 4 + m.shape], m.position as int),
{
    lemma_legal_moves(b);
    assert(legal_move(b, m));
    law_where_a_shape_may_stand(b, m.player as int, m.shape as int, m.position as int);
    lemma_bit_ops(
        b[m.player * 4 + m.shape],
        1u16 << (m.position as u16),
        m.position as int,
        m.position as int,
    );
}

/// A line is complete exactly if each shape stands on one of its cells, whoever put it there.
pub proof fn law_complete_lines_hold_every_shape(b: Seq<u16>, k: int)
    requires
        b.len() == 8,
        0 <= k < 12,
    ensures
        line_complete(b, k) <==> forall|s: int|
            0 <= s < 4 ==> #[trigger] stands_on(b, s, k),
{
    assert forall|s: int| 0 <= s < 4 implies (#[trigger] stands_on(b, s, k) <==> shape_union(b, s)
        & line(k) != 0) by {
        lemma_stands_on(b, s, k);
    }
    if forall|s: int| 0 <= s < 4 ==> #[trigger] stands_on(b, s, k) {
        assert forall|s: int| 0 <= s < 4 implies #[trigger] shape_union(b, s) & line(k) != 0 by {
            assert(stands_on(b, s, k));
        }
    }
}

/// Whether a piece of the shape stands on the row, column or zone `k`.
pub open spec fn stands_on(b: Seq<u16>, s: int, k: int) -> bool {
    exists|q: int| 0 <= q < 16 && #[trigger] lies_on(q, k) && (bit(b[s], q) || bit(b[s + 4], q))
}

proof fn lemma_stands_on(b: Seq<u16>, s: int, k: int)
    requires
        b.len() == 8,
        0 <= k < 12,
        0 <= s < 4,
    ensures
        stands_on(b, s, k) <==> shape_union(b, s) & line(k) != 0,
{
    lemma_meet(shape_union(b, s), line(k));
    assert forall|q: int| 0 <= q < 16 implies (#[trigger] lies_on(q, k) <==> bit(line(k), q)) && (
    bit(shape_union(b, s), q) <==> bit(b[s], q) || bit(b[s + 4], q)) by {
        law_lines_are_rows_columns_and_zones(q, k);
        lemma_bit_ops(b[s], b[s + 4], q, 0);
    }
    if stands_on(b, s, k) {
        let q = choose|q: int|
            0 <= q < 16 && #[trigger] lies_on(q, k) && (bit(b[s], q) || bit(b[s + 4], q));
        assert(bit(shape_union(b, s), q) && bit(line(k), q));
    }
    if shape_union(b, s) & line(k) != 0 {
        let q = choose|q: int|
            0 <= q < 16 && #[trigger] bit(shape_union(b, s), q) && bit(line(k), q);
        assert(lies_on(q, k));
    }
}

/// A finished game is won by the player who is not to move: the mover before completed a line,
/// or the player to move is stuck.
pub proof fn law_the_player_to_move_has_lost(b: Seq<u16>, player: u8)
    requires
        finished(b),
        to_move(b) == Some(player),
    ensures
        player == 0 ==> outcome(b) == -1 && result_of(b) == GameResult::Player1Wins,
        player == 1 ==> outcome(b) == 1 && result_of(b) == GameResult::Player0Wins,
{
}

proof fn lemma_popcount_parts(t: u16, m: u16)
    ensures
        popcount(m & !t) + popcount(t & m) == popcount(m),
{
    reveal(popcount);
    crate::evaluation::lemma_popcount_split(m, t);
}

proof fn lemma_placed_line(b: Seq<u16>, player: int, s: int, p: int, k: int)
    requires
        b.len() == 8,
        0 <= player < 2,
        0 <= s < 4,
        0 <= p < 16,
        0 <= k < 12,
    ensures
        forall|r: int|
            0 <= r < 4 && r != s ==> #[trigger] shape_union(placed(b, player, s, p), r)
                == shape_union(b, r),
        on_line(placed(b, player, s, p), s, k) <==> on_line(b, s, k) || bit(line(k), p),
{
    let one = 1u16 << (p as u16);
    let x = shape_union(b, s);
    let y = shape_union(placed(b, player, s, p), s);
    assert forall|q: int| 0 <= q < 16 implies (#[trigger] bit(y, q) <==> bit(x, q) || q == p) by {
        lemma_bit_ops(b[s], b[s + 4], q, 0);
        lemma_bit_ops(b[player * 4 + s], one, q, p);
        lemma_bit_ops(placed(b, player, s, p)[s], placed(b, player, s, p)[s + 4], q, 0);
    }
    lemma_meet(x, line(k));
    lemma_meet(y, line(k));
    if on_line(b, s, k) {
        let q = choose|q: int| 0 <= q < 16 && #[trigger] bit(x, q) && bit(line(k), q);
        assert(bit(y, q));
    }
    if bit(line(k), p) {
        assert(bit(y, p));
    }
    if y & line(k) != 0 {
        let q = choose|q: int| 0 <= q < 16 && #[trigger] bit(y, q) && bit(line(k), q);
        if q != p {
            assert(bit(x, q));
        }
    }
}

/// Where no cell holds two pieces, the taken cells of a line are those of its shapes.
proof fn lemma_line_pieces(b: Seq<u16>, k: int)
    requires
        b.len() == 8,
        disjoint_planes(b),
        0 <= k < 12,
    ensures
        held(b, k) == popcount(shape_union(b, 0) & line(k)) + popcount(
            shape_union(b, 1) & line(k),
        ) + popcount(shape_union(b, 2) & line(k)) + popcount(shape_union(b, 3) & line(k)),
        forall|s: int| 0 <= s < 4 ==> (#[trigger] on_line(b, s, k) <==> popcount(
            shape_union(b, s) & line(k),
        ) >= 1),
{
    let l = line(k);
    let u0 = shape_union(b, 0) & l;
    let u1 = shape_union(b, 1) & l;
    let u2 = shape_union(b, 2) & l;
    let u3 = shape_union(b, 3) & l;
    assert forall|s: int, q: int|
        0 <= s < 4 && 0 <= q < 16 implies (#[trigger] bit(shape_union(b, s) & l, q) <==> (bit(
        b[s],
        q,
    ) || bit(b[s + 4], q)) && bit(l, q)) by {
        lemma_bit_ops(b[s], b[s + 4], q, 0);
        lemma_bit_ops(shape_union(b, s), l, q, 0);
    }
    assert forall|s: int, r: int| 0 <= s < 4 && 0 <= r < 4 && s != r implies #[trigger] (
    shape_union(b, s) & l) & #[trigger] (shape_union(b, r) & l) == 0 by {
        lemma_meet(shape_union(b, s) & l, shape_union(b, r) & l);
        if (shape_union(b, s) & l) & (shape_union(b, r) & l) != 0 {
            let q = choose|q: int|
                0 <= q < 16 && #[trigger] bit(shape_union(b, s) & l, q) && bit(
                    shape_union(b, r) & l,
                    q,
                );
            let i = if bit(b[s], q) {
                s
            } else {
                s + 4
            };
            let j = if bit(b[r], q) {
                r
            } else {
                r + 4
            };
            assert(bit(b[i], q) && bit(b[j], q));
        }
    }
    lemma_apart(u0, u1, u2, u3);
    let all = u0 | u1 | u2 | u3;
    assert forall|q: int| 0 <= q < 16 implies (#[trigger] bit(taken(b) & l, q) <==> bit(
        all,
        q,
    )) by {
        lemma_bit_ops(taken(b), l, q, 0);
        lemma_taken(b, q);
        lemma_bit_ops(u0, u1, q, 0);
        lemma_bit_ops(u0 | u1, u2, q, 0);
        lemma_bit_ops(u0 | u1 | u2, u3, q, 0);
        assert(bit(u0, q) <==> (bit(b[0], q) || bit(b[4], q)) && bit(l, q));
        assert(bit(u1, q) <==> (bit(b[1], q) || bit(b[5], q)) && bit(l, q));
        assert(bit(u2, q) <==> (bit(b[2], q) || bit(b[6], q)) && bit(l, q));
        assert(bit(u3, q) <==> (bit(b[3], q) || bit(b[7], q)) && bit(l, q));
    }
    lemma_bits_extensional(taken(b) & l, all);
    assert forall|s: int| 0 <= s < 4 implies (#[trigger] on_line(b, s, k) <==> popcount(
        shape_union(b, s) & line(k),
    ) >= 1) by {
        lemma_popcount(shape_union(b, s) & l, 0);
    }
}

proof fn lemma_apart(x: u16, y: u16, z: u16, w: u16)
    requires
        x & y == 0,
        x & z == 0,
        x & w == 0,
        y & z == 0,
        y & w == 0,
        z & w == 0,
    ensures
        popcount(x | y | z | w) == popcount(x) + popcount(y) + popcount(z) + popcount(w),
{
    assert((x | y) & z == 0 && (x | y | z) & w == 0) by (bit_vector)
        requires
            x & z == 0,
            x & w == 0,
            y & z == 0,
            y & w == 0,
            z & w == 0,
    ;
    lemma_popcount_union(x, y);
    lemma_popcount_union(x | y, z);
    lemma_popcount_union(x | y | z, w);
}

/// Only a line on which no shape stands twice can still become complete.
pub proof fn law_live_lines_hold_each_shape_once(b: Seq<u16>, k: int)
    requires
        b.len() == 8,
        disjoint_planes(b),
        0 <= k < 12,
    ensures
        live(b, k) <==> forall|s: int|
            0 <= s < 4 ==> popcount(#[trigger] shape_union(b, s) & line(k)) <= 1,
{
    lemma_line_pieces(b, k);
    let n0 = popcount(shape_union(b, 0) & line(k));
    let n1 = popcount(shape_union(b, 1) & line(k));
    let n2 = popcount(shape_union(b, 2) & line(k));
    let n3 = popcount(shape_union(b, 3) & line(k));
    lemma_popcount(shape_union(b, 0) & line(k), 0);
    lemma_popcount(shape_union(b, 1) & line(k), 0);
    lemma_popcount(shape_union(b, 2) & line(k), 0);
    lemma_popcount(shape_union(b, 3) & line(k), 0);
    assert(on_line(b, 0, k) <==> n0 >= 1);
    assert(on_line(b, 1, k) <==> n1 >= 1);
    assert(on_line(b, 2, k) <==> n2 >= 1);
    assert(on_line(b, 3, k) <==> n3 >= 1);
    if n0 <= 1 && n1 <= 1 && n2 <= 1 && n3 <= 1 {
        assert forall|s: int| 0 <= s < 4 implies popcount(#[trigger] shape_union(b, s) & line(k))
            <= 1 by {
            assert(s == 0 || s == 1 || s == 2 || s == 3);
        }
    }
}

/// A player threatens a line exactly if it could complete the line with one piece, were it its
/// turn.
pub proof fn law_threats_complete_a_line(b: Seq<u16>, player: int, k: int)
    requires
        b.len() == 8,
        disjoint_planes(b),
        !won(b),
        0 <= player < 2,
        0 <= k < 12,
    ensures
        threat(b, player, k) <==> exists|s: int, p: int|
            0 <= s < 4 && 0 <= p < 16 && legal(b, player, s, p) && #[trigger] line_complete(
                placed(b, player, s, p),
                k,
            ),
{
    let l = line(k);
    assert(!line_complete(b, k));
    lemma_line_pieces(b, k);
    lemma_line_sizes(k);
    lemma_popcount(shape_union(b, 0) & l, 0);
    lemma_popcount(shape_union(b, 1) & l, 0);
    lemma_popcount(shape_union(b, 2) & l, 0);
    lemma_popcount(shape_union(b, 3) & l, 0);
    assert(on_line(b, 0, k) <==> popcount(shape_union(b, 0) & l) >= 1);
    assert(on_line(b, 1, k) <==> popcount(shape_union(b, 1) & l) >= 1);
    assert(on_line(b, 2, k) <==> popcount(shape_union(b, 2) & l) >= 1);
    assert(on_line(b, 3, k) <==> popcount(shape_union(b, 3) & l) >= 1);
    if threat(b, player, k) {
        let (s, p) = choose|s: int, p: int| #[trigger] completes(b, player, k, s, p);
        lemma_placed_line(b, player, s, p, k);
        let a = placed(b, player, s, p);
        assert(line_complete(a, k)) by {
            assert forall|r: int| 0 <= r < 4 implies #[trigger] shape_union(a, r) & line(k)
                != 0 by {
                if r != s {
                    assert(on_line(b, r, k)) by {
                        assert(r == 0 || r == 1 || r == 2 || r == 3);
                        assert(s == 0 || s == 1 || s == 2 || s == 3);
                    }
                } else {
                    assert(on_line(a, s, k));
                }
            }
        }
        assert(legal(b, player, s, p));
    }
    if exists|s: int, p: int|
        0 <= s < 4 && 0 <= p < 16 && legal(b, player, s, p) && #[trigger] line_complete(
            placed(b, player, s, p),
            k,
        ) {
        let (s, p) = choose|s: int, p: int|
            0 <= s < 4 && 0 <= p < 16 && legal(b, player, s, p) && #[trigger] line_complete(
                placed(b, player, s, p),
                k,
            );
        let a = placed(b, player, s, p);
        lemma_placed_line(b, player, s, p, k);
        assert forall|r: int| 0 <= r < 4 && r != s implies on_line(b, r, k) by {
            assert(shape_union(a, r) & line(k) != 0);
        }
        assert(!on_line(b, s, k)) by {
            if on_line(b, s, k) {
                assert forall|r: int| 0 <= r < 4 implies #[trigger] shape_union(b, r) & line(k)
                    != 0 by {
                    assert(on_line(b, r, k));
                }
            }
        }
        assert(bit(l, p)) by {
            assert(shape_union(a, s) & line(k) != 0);
        }
        // The empty cell leaves room for three pieces at most.
        lemma_popcount_parts(taken(b), l);
        lemma_bit_ops(l, !taken(b), p, 0);
        lemma_bit_ops(taken(b), 0, p, 0);
        lemma_popcount(l & !taken(b), p);
        assert(held(b, k) <= 3);
        assert(s == 0 || s == 1 || s == 2 || s == 3);
        assert(shapes_on(b, k) == 3);
        assert(completes(b, player, k, s, p));
    }
}

/// The player to move sees a threat of its own exactly if one of its legal moves completes a
/// line.
pub proof fn law_a_threat_is_a_win_at_once(b: Seq<u16>, player: u8)
    requires
        b.len() == 8,
        disjoint_planes(b),
        !won(b),
        to_move(b) == Some(player),
    ensures
        feature(b, player as int, 0) > 0 <==> exists|m: Move| #[trigger]
            legal_move(b, m) && won(applied(b, m)),
{
    let p = player as int;
    let f = |k: int| indicator(threat(b, p, k));
    lemma_some_indicator(b, p, 12);
    if exists|k: int| 0 <= k < 12 && #[trigger] threat(b, p, k) {
        let k = choose|k: int| 0 <= k < 12 && #[trigger] threat(b, p, k);
        law_threats_complete_a_line(b, p, k);
        let (s, q) = choose|s: int, q: int|
            0 <= s < 4 && 0 <= q < 16 && legal(b, p, s, q) && #[trigger] line_complete(
                placed(b, p, s, q),
                k,
            );
        let m = Move { player, shape: s as u8, position: q as u8 };
        assert(legal_move(b, m) && line_complete(applied(b, m), k));
    }
    if exists|m: Move| #[trigger] legal_move(b, m) && won(applied(b, m)) {
        let m = choose|m: Move| #[trigger] legal_move(b, m) && won(applied(b, m));
        let k = choose|k: int| 0 <= k < 12 && #[trigger] line_complete(applied(b, m), k);
        law_threats_complete_a_line(b, p, k);
        assert(line_complete(placed(b, p, m.shape as int, m.position as int), k));
        assert(threat(b, p, k));
    }
}

proof fn lemma_some_indicator(b: Seq<u16>, p: int, n: int)
    requires
        0 <= n,
    ensures
        sum(|k: int| indicator(threat(b, p, k)), n) >= 0,
        sum(|k: int| indicator(threat(b, p, k)), n) > 0 <==> exists|k: int|
            0 <= k < n && #[trigger] threat(b, p, k),
    decreases n,
{
    let f = |k: int| indicator(threat(b, p, k));
    lemma_indicator_sum_bounds(f, n);
    if n > 0 {
        lemma_some_indicator(b, p, n - 1);
        assert(sum(f, n) == sum(f, n - 1) + f(n - 1));
        if exists|k: int| 0 <= k < n && #[trigger] threat(b, p, k) {
            let k = choose|k: int| 0 <= k < n && #[trigger] threat(b, p, k);
            if k < n - 1 {
                assert(threat(b, p, k));
            }
        }
    }
}

} // verus!
