//! Counting the ways in which a game can go on.
use crate::bitboard::{bit, bit_sum, lemma_popcount, placed, popcount, taken};
use crate::game::to_move;
use crate::game_value::{empty_cells, finished, lemma_move_fills_cell};
use crate::invariance::{
    image_move, inverse_below, law_legal_invariant, law_mobility_invariant, law_move_invariant,
    law_won_invariant, legal_weight, lemma_image_counts, lemma_inverse_maps, lemma_moves_below_len,
    lemma_sum_equal, lemma_sum_permuted, sum,
};
use crate::moves::{
    action_move, applied, legal, legal_move, legal_moves, lemma_legal_moves, moves_below, Move,
};
use crate::symmetry::{image, Sym};
use vstd::prelude::*;

verus! {

/// The number of ways in which the game can go on from `b` for `r` moves, or
/// until it is over.
pub open spec fn lines(b: Seq<u16>, r: nat) -> nat
    decreases r, 0nat,
{
    if r == 0 || finished(b) {
        1
    } else {
        lines_below(b, to_move(b)->0, 64, (r - 1) as nat)
    }
}

/// The number of ways that begin with a legal action of `player` below `n` and
/// then go on for `r` moves.
pub open spec fn lines_below(b: Seq<u16>, player: u8, n: nat, r: nat) -> nat
    decreases r, n + 1,
{
    if n == 0 {
        0
    } else {
        let a = (n - 1) as int;
        lines_below(b, player, (n - 1) as nat, r) + if legal(b, player as int, a / 16, a % 16) {
            lines(placed(b, player as int, a / 16, a % 16), r)
        } else {
            0
        }
    }
}

/// The number of ways that begin with one of `moves` and then go on for `r`
/// moves.
pub open spec fn lines_after(b: Seq<u16>, moves: Seq<Move>, r: nat) -> nat
    decreases moves.len(),
{
    if moves.len() == 0 {
        0
    } else {
        lines_after(b, moves.drop_last(), r) + lines(applied(b, moves.last()), r)
    }
}

proof fn lemma_lines_moves(b: Seq<u16>, player: u8, n: nat, r: nat)
    requires
        n <= 64,
    ensures
        lines_below(b, player, n, r) == lines_after(b, moves_below(b, player, n as int), r),
    decreases n,
{
    if n > 0 {
        lemma_lines_moves(b, player, (n - 1) as nat, r);
        let before = moves_below(b, player, n - 1);
        let a = n - 1;
        if legal(b, player as int, a / 16, a % 16) {
            let m = action_move(player, a);
            assert(before.push(m).drop_last() =~= before);
            assert(before.push(m).last() == m);
        }
    }
}

/// The ways to go on are the ways to go on after each of the legal moves.
pub proof fn lemma_lines_step(b: Seq<u16>, r: nat)
    requires
        r > 0,
        !finished(b),
    ensures
        lines(b, r) == lines_after(b, legal_moves(b), (r - 1) as nat),
{
    lemma_lines_moves(b, to_move(b)->0, 64, (r - 1) as nat);
}

/// One for an empty cell, zero for a taken one.
spec fn free_weight(b: Seq<u16>, a: int) -> int {
    if bit(taken(b), a % 16) {
        0
    } else {
        1
    }
}

proof fn lemma_free_sum(x: u16)
    by (bit_vector)
    ensures
        (1 - (x & 1)) + (1 - ((x >> 1) & 1)) + (1 - ((x >> 2) & 1)) + (1 - ((x >> 3) & 1)) + (1 - ((
        x >> 4) & 1)) + (1 - ((x >> 5) & 1)) + (1 - ((x >> 6) & 1)) + (1 - ((x >> 7) & 1)) + (1 - ((
        x >> 8) & 1)) + (1 - ((x >> 9) & 1)) + (1 - ((x >> 10) & 1)) + (1 - ((x >> 11) & 1)) + (1
            - ((x >> 12) & 1)) + (1 - ((x >> 13) & 1)) + (1 - ((x >> 14) & 1)) + (1 - ((x >> 15)
            & 1)) == 16 - bit_sum(x),
        x >> 0 == x,
        forall|i: u16| #[trigger] ((x >> i) & 1) == 0 || (x >> i) & 1 == 1,
{
}

/// Whether a cell is empty is one bit of what is taken.
proof fn lemma_free_bit(b: Seq<u16>, s: int, i: u16)
    requires
        i < 16,
        s % 16 == 0,
    ensures
        free_weight(b, s + i) == 1 - ((taken(b) >> i) & 1),
{
    let x = taken(b);
    lemma_free_sum(x);
    assert(((x >> i) & 1) == 0 || (x >> i) & 1 == 1);
    assert((s + i) % 16 == i as int);
}

/// Sixteen summands.
proof fn lemma_sum_sixteen(g: spec_fn(int) -> int, s: int)
    requires
        s >= 0,
    ensures
        sum(g, s + 16) == sum(g, s) + g(s) + g(s + 1) + g(s + 2) + g(s + 3) + g(s + 4) + g(s + 5) + g(
            s + 6,
        ) + g(s + 7) + g(s + 8) + g(s + 9) + g(s + 10) + g(s + 11) + g(s + 12) + g(s + 13) + g(
            s + 14,
        ) + g(s + 15),
{
    reveal_with_fuel(sum, 17);
}

/// Each shape can go to the empty cells.
proof fn lemma_free_block(b: Seq<u16>, g: spec_fn(int) -> int, k: int)
    requires
        0 <= k < 4,
        forall|a: int| #[trigger] g(a) == free_weight(b, a),
    ensures
        sum(g, 16 * k + 16) == sum(g, 16 * k) + empty_cells(b),
{
    let x = taken(b);
    let s = 16 * k;
    lemma_free_bit(b, s, 0);
    lemma_free_bit(b, s, 1);
    lemma_free_bit(b, s, 2);
    lemma_free_bit(b, s, 3);
    lemma_free_bit(b, s, 4);
    lemma_free_bit(b, s, 5);
    lemma_free_bit(b, s, 6);
    lemma_free_bit(b, s, 7);
    lemma_free_bit(b, s, 8);
    lemma_free_bit(b, s, 9);
    lemma_free_bit(b, s, 10);
    lemma_free_bit(b, s, 11);
    lemma_free_bit(b, s, 12);
    lemma_free_bit(b, s, 13);
    lemma_free_bit(b, s, 14);
    lemma_free_bit(b, s, 15);
    lemma_sum_sixteen(g, s);
    lemma_free_sum(x);
    reveal(popcount);
}

/// A player has at most four legal moves for each empty cell.
pub proof fn lemma_mobility_bound(b: Seq<u16>)
    requires
        b.len() == 8,
    ensures
        legal_moves(b).len() <= 4 * empty_cells(b),
{
    lemma_popcount(taken(b), 0);
    match to_move(b) {
        Some(player) => {
            let f = |a: int| legal_weight(b, player as int, a);
            let g = |a: int| free_weight(b, a);
            lemma_moves_below_len(b, player, 64);
            assert forall|a: int| 0 <= a < 64 implies #[trigger] f(a) <= g(a) by {
            }
            lemma_sum_at_most(f, g, 64);
            lemma_free_block(b, g, 0);
            lemma_free_block(b, g, 1);
            lemma_free_block(b, g, 2);
            lemma_free_block(b, g, 3);
            assert(sum(g, 0) == 0);
        },
        None => {},
    }
}

proof fn lemma_sum_at_most(f: spec_fn(int) -> int, g: spec_fn(int) -> int, n: int)
    requires
        forall|i: int| 0 <= i < n ==> #[trigger] f(i) <= g(i),
    ensures
        sum(f, n) <= sum(g, n),
    decreases n,
{
    if n > 0 {
        lemma_sum_at_most(f, g, n - 1);
    }
}

/// The number of ways to fill `e` cells, each with one of four shapes.
pub open spec fn fillings(e: nat) -> nat
    decreases e,
{
    if e == 0 {
        1
    } else {
        4 * e * fillings((e - 1) as nat)
    }
}

/// There is at least one way to go on, and no more than there are ways to fill
/// the empty cells.
pub proof fn lemma_lines_bounds(b: Seq<u16>, r: nat)
    requires
        b.len() == 8,
    ensures
        1 <= lines(b, r),
        empty_cells(b) >= 0,
        lines(b, r) <= fillings(empty_cells(b) as nat),
    decreases r,
{
    lemma_popcount(taken(b), 0);
    lemma_fillings_positive(empty_cells(b) as nat);
    if r > 0 && !finished(b) {
        lemma_lines_step(b, r);
        lemma_legal_moves(b);
        lemma_mobility_bound(b);
        let moves = legal_moves(b);
        let m = moves[0];
        assert(legal_move(b, m));
        lemma_move_fills_cell(b, m);
        let e = empty_cells(b);
        let cap = fillings((e - 1) as nat);
        assert forall|i: int| 0 <= i < moves.len() implies 1 <= lines(
            applied(b, #[trigger] moves[i]),
            (r - 1) as nat,
        ) <= cap by {
            assert(legal_move(b, moves[i]));
            lemma_move_fills_cell(b, moves[i]);
            lemma_lines_bounds(applied(b, moves[i]), (r - 1) as nat);
        }
        lemma_after_bounds(b, moves, (r - 1) as nat, cap);
        assert(moves.len() * cap <= 4 * e * cap) by (nonlinear_arith)
            requires
                moves.len() <= 4 * e,
                cap >= 0,
        ;
    }
}

proof fn lemma_fillings_positive(e: nat)
    ensures
        fillings(e) >= 1,
    decreases e,
{
    if e > 0 {
        lemma_fillings_positive((e - 1) as nat);
        assert(4 * e * fillings((e - 1) as nat) >= 1) by (nonlinear_arith)
            requires
                e >= 1,
                fillings((e - 1) as nat) >= 1,
        ;
    }
}

proof fn lemma_after_bounds(b: Seq<u16>, moves: Seq<Move>, r: nat, cap: nat)
    requires
        forall|i: int|
            0 <= i < moves.len() ==> 1 <= lines(applied(b, #[trigger] moves[i]), r) <= cap,
    ensures
        moves.len() <= lines_after(b, moves, r) <= moves.len() * cap,
    decreases moves.len(),
{
    if moves.len() > 0 {
        let rest = moves.drop_last();
        assert forall|i: int| 0 <= i < rest.len() implies 1 <= lines(
            applied(b, #[trigger] rest[i]),
            r,
        ) <= cap by {
            assert(rest[i] == moves[i]);
        }
        lemma_after_bounds(b, rest, r, cap);
        assert(moves[moves.len() - 1] == moves.last());
        assert(moves.len() * cap == rest.len() * cap + cap) by (nonlinear_arith)
            requires
                moves.len() == rest.len() + 1,
        ;
    }
}

proof fn lemma_fillings_step(e: nat, before: nat, after: nat)
    requires
        e > 0,
        fillings((e - 1) as nat) == before,
        after == 4 * e * before,
    ensures
        fillings(e) == after,
{
}

/// Sixteen cells can be filled in fewer than two to the power 77 ways.
pub proof fn lemma_fillings_sixteen(e: nat)
    requires
        e <= 16,
    ensures
        fillings(e) <= 0x2000_0000_0000_0000_0000,
{
    assert(fillings(0) == 1);
    lemma_fillings_step(1, 1, 4);
    lemma_fillings_step(2, 4, 32);
    lemma_fillings_step(3, 32, 384);
    lemma_fillings_step(4, 384, 6144);
    lemma_fillings_step(5, 6144, 122880);
    lemma_fillings_step(6, 122880, 2949120);
    lemma_fillings_step(7, 2949120, 82575360);
    lemma_fillings_step(8, 82575360, 2642411520);
    lemma_fillings_step(9, 2642411520, 95126814720);
    lemma_fillings_step(10, 95126814720, 3805072588800);
    lemma_fillings_step(11, 3805072588800, 167423193907200);
    lemma_fillings_step(12, 167423193907200, 8036313307545600);
    lemma_fillings_step(13, 8036313307545600, 417888291992371200);
    lemma_fillings_step(14, 417888291992371200, 23401744351572787200);
    lemma_fillings_step(15, 23401744351572787200, 1404104661094367232000);
    lemma_fillings_step(16, 1404104661094367232000, 89862698310039502848000);
}

/// The ways to go on with action `a`.
spec fn action_lines(b: Seq<u16>, player: int, r: nat, a: int) -> int {
    if legal(b, player, a / 16, a % 16) {
        lines(placed(b, player, a / 16, a % 16), r) as int
    } else {
        0
    }
}

proof fn lemma_below_sum(b: Seq<u16>, player: u8, n: nat, r: nat)
    ensures
        lines_below(b, player, n, r) == sum(|a: int| action_lines(b, player as int, r, a), n as int),
    decreases n,
{
    if n > 0 {
        lemma_below_sum(b, player, (n - 1) as nat, r);
    }
}

/// Symmetric boards have equally many ways to go on.
pub proof fn law_lines_invariant(b: Seq<u16>, g: Sym, r: nat)
    requires
        b.len() == 8,
        g.valid(),
    ensures
        lines(image(b, g), r) == lines(b, r),
    decreases r,
{
    let a = image(b, g);
    law_won_invariant(b, g);
    law_mobility_invariant(b, g);
    lemma_image_counts(b, g);
    if r > 0 && !finished(b) {
        let player = to_move(b)->0;
        let q = (r - 1) as nat;
        let h = g.inverse();
        let s = |x: int| g.shape(x / 16) * 16 + g.cell(x % 16);
        let t = |x: int| h.shape(x / 16) * 16 + h.cell(x % 16);
        lemma_inverse_maps(g);
        assert(inverse_below(s, t, 64)) by {
            assert forall|x: int| 0 <= x < 64 implies 0 <= #[trigger] s(x) < 64 && t(s(x)) == x by {
                let u = g.shape(x / 16);
                let v = g.cell(x % 16);
                assert(0 <= u < 4 && 0 <= v < 16);
                assert((u * 16 + v) / 16 == u && (u * 16 + v) % 16 == v);
            }
            assert forall|x: int| 0 <= x < 64 implies 0 <= #[trigger] t(x) < 64 && s(t(x)) == x by {
                let u = h.shape(x / 16);
                let v = h.cell(x % 16);
                assert(0 <= u < 4 && 0 <= v < 16);
                assert((u * 16 + v) / 16 == u && (u * 16 + v) % 16 == v);
            }
        }
        let f = |x: int| action_lines(a, player as int, q, x);
        let f0 = |x: int| action_lines(b, player as int, q, x);
        lemma_sum_permuted(f, s, t, 64);
        let fs = |x: int| f(s(x));
        assert forall|x: int| 0 <= x < 64 implies #[trigger] fs(x) == f0(x) by {
            let m = action_move(player, x);
            law_legal_invariant(b, g, player as int, x / 16, x % 16);
            law_move_invariant(b, g, m);
            let u = g.shape(x / 16);
            let v = g.cell(x % 16);
            assert(0 <= u < 4 && 0 <= v < 16);
            assert(s(x) / 16 == u && s(x) % 16 == v);
            let n = image_move(m, g);
            assert(applied(a, n) == placed(a, player as int, u, v));
            assert(applied(b, m) == placed(b, player as int, x / 16, x % 16));
            law_lines_invariant(applied(b, m), g, q);
        }
        lemma_sum_equal(fs, f0, 64);
        lemma_below_sum(a, player, 64, q);
        lemma_below_sum(b, player, 64, q);
    }
}

} // verus!
