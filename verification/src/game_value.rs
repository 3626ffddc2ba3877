//! What a position is worth: the minimax value that the search engines compute.
use crate::bitboard::{
    bit, lemma_bit_ops, lemma_popcount, lemma_popcount_union, lemma_taken, popcount, taken,
};
use crate::evaluation::{eval_value, law_evaluation_invariant, lemma_eval_bounds, EvalConfig};
use crate::game::{to_move, total_pieces, won};
use crate::invariance::{
    image_move, law_mobility_invariant, law_move_invariant, law_won_invariant,
    lemma_bits_extensional, lemma_image_counts,
};
use crate::moves::{
    applied, legal_move, legal_moves, lemma_legal_move_step, lemma_legal_moves, Move,
};
use crate::qfen::disjoint_planes;
use crate::symmetry::{
    canonical, image, law_canonical_complete, lemma_canonical, lemma_inverse,
    lemma_payload_injective, payload_number, Sym,
};
use vstd::prelude::*;

verus! {

/// The side to move; player 0 where the piece counts fit no turn.
pub open spec fn side_to_move(b: Seq<u16>) -> int {
    match to_move(b) {
        Some(p) => p as int,
        None => 0,
    }
}

/// Whether nothing can be played any more: a line is complete or the side to
/// move has no legal move. Either way the side to move has lost.
pub open spec fn finished(b: Seq<u16>) -> bool {
    won(b) || legal_moves(b).len() == 0
}

/// The negamax value of `b` for the side to move, looking `d` plies ahead.
///
/// A finished game is lost for the side to move, by less the later it ends:
/// `ply` plies after the root it is worth `-(win - ply)`, in units of the
/// evaluation. At the horizon the evaluation decides.
pub open spec fn value(b: Seq<u16>, d: nat, ply: int, cfg: EvalConfig) -> int
    decreases d, 0nat,
{
    if finished(b) {
        -(cfg.win - ply * cfg.unit)
    } else if d == 0 {
        eval_value(b, side_to_move(b), cfg)
    } else {
        best_reply(b, legal_moves(b), (d - 1) as nat, ply + 1, cfg)
    }
}

/// What the mover gets from the move `m` if `d` plies are looked at after it.
pub open spec fn move_value(b: Seq<u16>, m: Move, d: nat, ply: int, cfg: EvalConfig) -> int
    decreases d, 1nat,
{
    -value(applied(b, m), d, ply, cfg)
}

/// The best that the mover gets from one of `moves`.
pub open spec fn best_reply(
    b: Seq<u16>,
    moves: Seq<Move>,
    d: nat,
    ply: int,
    cfg: EvalConfig,
) -> int
    decreases d, moves.len() + 2,
{
    if moves.len() == 0 {
        0
    } else if moves.len() == 1 {
        move_value(b, moves[0], d, ply, cfg)
    } else {
        let rest = best_reply(b, moves.drop_last(), d, ply, cfg);
        let last = move_value(b, moves.last(), d, ply, cfg);
        if last > rest {
            last
        } else {
            rest
        }
    }
}

/// The value of a root position for its mover, looking `d` plies ahead: a root
/// is never taken to be finished, its moves are tried in any case.
pub open spec fn root_value(b: Seq<u16>, d: nat, cfg: EvalConfig) -> int {
    best_reply(b, legal_moves(b), (d - 1) as nat, 1, cfg)
}

/// [`best_reply`] is the maximum over the moves.
pub proof fn lemma_best_reply(b: Seq<u16>, moves: Seq<Move>, d: nat, ply: int, cfg: EvalConfig)
    requires
        moves.len() > 0,
    ensures
        forall|i: int|
            0 <= i < moves.len() ==> #[trigger] move_value(b, moves[i], d, ply, cfg) <= best_reply(
                b,
                moves,
                d,
                ply,
                cfg,
            ),
        exists|i: int|
            0 <= i < moves.len() && #[trigger] move_value(b, moves[i], d, ply, cfg) == best_reply(
                b,
                moves,
                d,
                ply,
                cfg,
            ),
    decreases moves.len(),
{
    if moves.len() == 1 {
        assert(move_value(b, moves[0], d, ply, cfg) == best_reply(b, moves, d, ply, cfg));
    } else {
        let rest = moves.drop_last();
        lemma_best_reply(b, rest, d, ply, cfg);
        let last = move_value(b, moves.last(), d, ply, cfg);
        let best = best_reply(b, rest, d, ply, cfg);
        let k = choose|i: int|
            0 <= i < rest.len() && #[trigger] move_value(b, rest[i], d, ply, cfg) == best;
        assert(rest[k] == moves[k]);
        assert forall|i: int| 0 <= i < moves.len() implies #[trigger] move_value(
            b,
            moves[i],
            d,
            ply,
            cfg,
        ) <= best_reply(b, moves, d, ply, cfg) by {
            if i < rest.len() {
                assert(rest[i] == moves[i]);
                assert(move_value(b, rest[i], d, ply, cfg) <= best);
            } else {
                assert(moves[i] == moves.last());
            }
        }
        if last > best {
            assert(moves[moves.len() - 1] == moves.last());
            assert(move_value(b, moves[moves.len() - 1], d, ply, cfg) == best_reply(
                b,
                moves,
                d,
                ply,
                cfg,
            ));
        } else {
            assert(move_value(b, moves[k], d, ply, cfg) == best_reply(b, moves, d, ply, cfg));
        }
    }
}

/// Largest absolute value of a position in a search of at most `u32::MAX` plies.
pub const VALUE_BOUND: i64 = 0x4004_0000_0000_0000;

/// Values stay inside the range of an `i64`.
pub proof fn lemma_value_bounds(b: Seq<u16>, d: nat, ply: int, cfg: EvalConfig)
    requires
        cfg.valid(),
        0 <= ply,
        ply + d <= u32::MAX,
    ensures
        -VALUE_BOUND <= value(b, d, ply, cfg) <= VALUE_BOUND,
    decreases d,
{
    if finished(b) {
        assert(0 <= ply * cfg.unit <= 0x4000_0000_0000_0000) by (nonlinear_arith)
            requires
                0 <= ply <= 0xFFFF_FFFF,
                1 <= cfg.unit <= 0x4000_0000,
        ;
    } else if d == 0 {
        lemma_eval_bounds(b, side_to_move(b), cfg);
    } else {
        let moves = legal_moves(b);
        lemma_best_reply(b, moves, (d - 1) as nat, ply + 1, cfg);
        let i = choose|i: int|
            0 <= i < moves.len() && #[trigger] move_value(b, moves[i], (d - 1) as nat, ply + 1, cfg)
                == best_reply(b, moves, (d - 1) as nat, ply + 1, cfg);
        lemma_value_bounds(applied(b, moves[i]), (d - 1) as nat, ply + 1, cfg);
    }
}

/// The value of a position does not change under the symmetries of the board.
pub proof fn law_value_invariant(b: Seq<u16>, g: Sym, d: nat, ply: int, cfg: EvalConfig)
    requires
        b.len() == 8,
        g.valid(),
    ensures
        value(image(b, g), d, ply, cfg) == value(b, d, ply, cfg),
{
    lemma_value_step(b, g, d, ply, cfg);
}

/// No reply on `b` is worth more than the best reply on an image of `b`.
proof fn lemma_replies_invariant(b: Seq<u16>, g: Sym, d: nat, ply: int, cfg: EvalConfig)
    requires
        b.len() == 8,
        g.valid(),
        legal_moves(b).len() > 0,
        legal_moves(image(b, g)).len() > 0,
    ensures
        best_reply(b, legal_moves(b), d, ply, cfg) <= best_reply(
            image(b, g),
            legal_moves(image(b, g)),
            d,
            ply,
            cfg,
        ),
    decreases d, 1nat,
{
    let a = image(b, g);
    let moves = legal_moves(b);
    let others = legal_moves(a);
    lemma_legal_moves(b);
    lemma_legal_moves(a);
    lemma_best_reply(b, moves, d, ply, cfg);
    lemma_best_reply(a, others, d, ply, cfg);
    let i = choose|i: int|
        0 <= i < moves.len() && #[trigger] move_value(b, moves[i], d, ply, cfg) == best_reply(
            b,
            moves,
            d,
            ply,
            cfg,
        );
    let m = moves[i];
    assert(legal_move(b, m));
    let n = image_move(m, g);
    law_move_invariant(b, g, m);
    assert(legal_move(a, n));
    assert(others.contains(n));
    let j = choose|j: int| 0 <= j < others.len() && others[j] == n;
    lemma_legal_move_step(b, m);
    lemma_value_step(applied(b, m), g, d, ply, cfg);
    assert(move_value(a, others[j], d, ply, cfg) == move_value(b, m, d, ply, cfg));
}

proof fn lemma_value_step(b: Seq<u16>, g: Sym, d: nat, ply: int, cfg: EvalConfig)
    requires
        b.len() == 8,
        g.valid(),
    ensures
        value(image(b, g), d, ply, cfg) == value(b, d, ply, cfg),
    decreases d, 0nat,
{
    let a = image(b, g);
    law_won_invariant(b, g);
    law_mobility_invariant(b, g);
    lemma_image_counts(b, g);
    if finished(b) {
    } else if d == 0 {
        assert(0 <= side_to_move(b) < 2);
        law_evaluation_invariant(b, g, side_to_move(b), cfg);
    } else {
        lemma_inverse(b, g);
        lemma_replies_invariant(b, g, (d - 1) as nat, ply + 1, cfg);
        lemma_replies_invariant(a, g.inverse(), (d - 1) as nat, ply + 1, cfg);
    }
}

/// Boards with the same canonical payload have the same value and hold equally
/// many pieces.
pub proof fn law_value_by_canonical_key(
    a: Seq<u16>,
    b: Seq<u16>,
    d: nat,
    ply: int,
    cfg: EvalConfig,
)
    requires
        a.len() == 8,
        b.len() == 8,
        payload_number(canonical(a)) == payload_number(canonical(b)),
    ensures
        value(a, d, ply, cfg) == value(b, d, ply, cfg),
        total_pieces(a) == total_pieces(b),
{
    lemma_canonical(a, a);
    lemma_canonical(b, b);
    lemma_payload_injective(canonical(a), canonical(b));
    law_canonical_complete(a, b);
    let g = choose|g: Sym| g.valid() && a == #[trigger] image(b, g);
    law_value_invariant(b, g, d, ply, cfg);
    lemma_image_counts(b, g);
}

/// The number of empty cells.
pub open spec fn empty_cells(b: Seq<u16>) -> int {
    16 - popcount(taken(b))
}

/// A legal move fills one empty cell.
pub proof fn lemma_move_fills_cell(b: Seq<u16>, m: Move)
    requires
        b.len() == 8,
        legal_move(b, m),
    ensures
        applied(b, m).len() == 8,
        empty_cells(applied(b, m)) == empty_cells(b) - 1,
        empty_cells(b) >= 1,
{
    let a = applied(b, m);
    let p = m.position as int;
    let k = m.player * 4 + m.shape;
    let one = 1u16 << (p as u16);
    assert forall|q: int| 0 <= q < 16 implies (#[trigger] bit(taken(a), q) <==> bit(
        taken(b) | one,
        q,
    )) by {
        lemma_taken(a, q);
        lemma_taken(b, q);
        lemma_bit_ops(taken(b), one, q, p);
        lemma_bit_ops(b[k], one, q, p);
        if bit(taken(b), q) {
            let i = choose|i: int| 0 <= i < 8 && bit(#[trigger] b[i], q);
            assert(bit(a[i], q));
        }
        if q == p {
            assert(bit(a[k], q));
        }
        if bit(taken(a), q) {
            let i = choose|i: int| 0 <= i < 8 && bit(#[trigger] a[i], q);
            if i != k {
                assert(bit(b[i], q));
            }
        }
    }
    lemma_bits_extensional(taken(a), taken(b) | one);
    lemma_popcount(taken(b), p);
    lemma_popcount(taken(a), p);
}

/// The planes below `n` together.
spec fn union_below(b: Seq<u16>, n: int) -> u16
    decreases n,
{
    if n <= 1 {
        b[0]
    } else {
        union_below(b, n - 1) | b[n - 1]
    }
}

/// The numbers of members of the planes below `n`, added up.
spec fn count_below(b: Seq<u16>, n: int) -> int
    decreases n,
{
    if n <= 1 {
        popcount(b[0])
    } else {
        count_below(b, n - 1) + popcount(b[n - 1])
    }
}

proof fn lemma_union_below(b: Seq<u16>, n: int)
    requires
        b.len() == 8,
        disjoint_planes(b),
        1 <= n <= 8,
    ensures
        popcount(union_below(b, n)) == count_below(b, n),
        forall|p: int|
            0 <= p < 16 && #[trigger] bit(union_below(b, n), p) ==> exists|i: int|
                0 <= i < n && bit(#[trigger] b[i], p),
    decreases n,
{
    if n > 1 {
        lemma_union_below(b, n - 1);
        let u = union_below(b, n - 1);
        let v = b[n - 1];
        assert forall|p: int| 0 <= p < 16 implies (#[trigger] bit(u & v, p) <==> bit(0, p)) by {
            lemma_bit_ops(u, v, p, p);
            lemma_bit_ops(0, 0, p, p);
            if bit(u & v, p) {
                let i = choose|i: int| 0 <= i < n - 1 && bit(#[trigger] b[i], p);
                assert(bit(b[i], p) && bit(b[n - 1], p));
            }
        }
        lemma_bits_extensional(u & v, 0);
        lemma_popcount_union(u, v);
        assert forall|p: int| 0 <= p < 16 && #[trigger] bit(u | v, p) implies exists|i: int|
            0 <= i < n && bit(#[trigger] b[i], p) by {
            lemma_bit_ops(u, v, p, p);
            if bit(u, p) {
                let i = choose|i: int| 0 <= i < n - 1 && bit(#[trigger] b[i], p);
                assert(bit(b[i], p));
            } else {
                assert(bit(b[n - 1], p));
            }
        }
    } else {
        assert forall|p: int| 0 <= p < 16 && #[trigger] bit(b[0], p) implies exists|i: int|
            0 <= i < n && bit(#[trigger] b[i], p) by {
            assert(bit(b[0], p));
        }
    }
}

/// Where no cell holds two pieces, each piece fills a cell of its own.
pub proof fn lemma_pieces_fill_cells(b: Seq<u16>)
    requires
        b.len() == 8,
        disjoint_planes(b),
    ensures
        empty_cells(b) == 16 - total_pieces(b),
{
    lemma_union_below(b, 8);
    reveal_with_fuel(union_below, 9);
    reveal_with_fuel(count_below, 9);
}

/// A legal move puts its piece on a cell that no other piece holds.
pub proof fn lemma_move_keeps_disjoint(b: Seq<u16>, m: Move)
    requires
        b.len() == 8,
        disjoint_planes(b),
        legal_move(b, m),
    ensures
        disjoint_planes(applied(b, m)),
{
    let a = applied(b, m);
    let k = m.player * 4 + m.shape;
    let q = m.position as int;
    assert forall|i: int, j: int, p: int|
        0 <= i < 8 && 0 <= j < 8 && 0 <= p < 16 && #[trigger] bit(a[i], p) && #[trigger] bit(
            a[j],
            p,
        ) implies i == j by {
        lemma_bit_ops(b[k], 1u16 << (q as u16), p, q);
        lemma_taken(b, p);
        if p == q {
            assert(!bit(b[i], p) && !bit(b[j], p));
        } else {
            assert(bit(b[i], p) && bit(b[j], p));
        }
    }
}

/// The value of a position when the game is played to its end: minus the
/// distance-adjusted win if the side to move has lost, else the best reply.
pub open spec fn exact_value(b: Seq<u16>, left: nat, ply: int, win: int, unit: int) -> int
    decreases left, 0nat,
{
    if finished(b) || left == 0 {
        -(win - ply * unit)
    } else {
        exact_best(b, legal_moves(b), (left - 1) as nat, ply + 1, win, unit)
    }
}

pub open spec fn exact_best(
    b: Seq<u16>,
    moves: Seq<Move>,
    left: nat,
    ply: int,
    win: int,
    unit: int,
) -> int
    decreases left, moves.len() + 1,
{
    if moves.len() == 0 {
        0
    } else {
        let last = -exact_value(applied(b, moves.last()), left, ply, win, unit);
        if moves.len() == 1 {
            last
        } else {
            let rest = exact_best(b, moves.drop_last(), left, ply, win, unit);
            if last > rest {
                last
            } else {
                rest
            }
        }
    }
}

/// Looking at least as many plies ahead as there are empty cells sees every
/// game to its end: the value is the exact one and the evaluation plays no part.
pub proof fn law_deep_search_is_exact(
    b: Seq<u16>,
    d: nat,
    left: nat,
    ply: int,
    cfg: EvalConfig,
)
    requires
        b.len() == 8,
        d >= empty_cells(b),
        left >= empty_cells(b),
    ensures
        value(b, d, ply, cfg) == exact_value(b, left, ply, cfg.win as int, cfg.unit as int),
    decreases d, 0nat,
{
    lemma_popcount(taken(b), 0);
    if !finished(b) {
        lemma_legal_moves(b);
        let m = legal_moves(b)[0];
        assert(legal_move(b, m));
        lemma_move_fills_cell(b, m);
        lemma_exact_best(b, legal_moves(b), (d - 1) as nat, (left - 1) as nat, ply + 1, cfg);
    }
}

/// The same for the best of several moves.
pub proof fn lemma_exact_best(
    b: Seq<u16>,
    moves: Seq<Move>,
    d: nat,
    left: nat,
    ply: int,
    cfg: EvalConfig,
)
    requires
        b.len() == 8,
        moves.len() > 0,
        forall|i: int| 0 <= i < moves.len() ==> legal_move(b, #[trigger] moves[i]),
        d >= empty_cells(b) - 1,
        left >= empty_cells(b) - 1,
    ensures
        best_reply(b, moves, d, ply, cfg) == exact_best(
            b,
            moves,
            left,
            ply,
            cfg.win as int,
            cfg.unit as int,
        ),
    decreases d, moves.len() + 1,
{
    let last = moves.last();
    assert(legal_move(b, moves[moves.len() - 1]));
    lemma_move_fills_cell(b, last);
    law_deep_search_is_exact(applied(b, last), d, left, ply, cfg);
    assert(move_value(b, last, d, ply, cfg) == -exact_value(
        applied(b, last),
        left,
        ply,
        cfg.win as int,
        cfg.unit as int,
    ));
    if moves.len() == 1 {
        assert(moves[0] == last);
    } else {
        let rest = moves.drop_last();
        assert forall|i: int| 0 <= i < rest.len() implies legal_move(b, #[trigger] rest[i]) by {
            assert(rest[i] == moves[i]);
        }
        lemma_exact_best(b, rest, d, left, ply, cfg);
    }
}

/// Whether the side to move can force a win within `left` plies: some move leads
/// to a position from which the opponent cannot.
pub open spec fn wins(b: Seq<u16>, left: nat) -> bool
    decreases left,
{
    left > 0 && !finished(b) && exists|i: int|
        0 <= i < legal_moves(b).len() && !wins(
            applied(b, #[trigger] legal_moves(b)[i]),
            (left - 1) as nat,
        )
}

/// The exact value is positive for the side that can force a win and negative
/// for the side that cannot: there are no draws.
pub proof fn law_exact_value_tells_the_winner(
    b: Seq<u16>,
    left: nat,
    ply: int,
    win: int,
    unit: int,
)
    requires
        b.len() == 8,
        left >= empty_cells(b),
        ply >= 0,
        unit >= 0,
        win > (ply + left) * unit,
    ensures
        wins(b, left) <==> exact_value(b, left, ply, win, unit) > 0,
        !wins(b, left) <==> exact_value(b, left, ply, win, unit) < 0,
    decreases left, 0nat,
{
    lemma_popcount(taken(b), 0);
    assert(ply * unit <= (ply + left) * unit) by (nonlinear_arith)
        requires
            unit >= 0,
            left >= 0,
    ;
    if !finished(b) {
        lemma_legal_moves(b);
        assert(legal_move(b, legal_moves(b)[0]));
        lemma_move_fills_cell(b, legal_moves(b)[0]);
        assert(ply + 1 + (left - 1) == ply + left);
        let moves = legal_moves(b);
        lemma_exact_best_sign(b, moves, (left - 1) as nat, ply + 1, win, unit);
    }
}

/// The best of several moves wins if one of them does.
pub proof fn lemma_exact_best_sign(
    b: Seq<u16>,
    moves: Seq<Move>,
    left: nat,
    ply: int,
    win: int,
    unit: int,
)
    requires
        b.len() == 8,
        moves.len() > 0,
        forall|i: int| 0 <= i < moves.len() ==> legal_move(b, #[trigger] moves[i]),
        left >= empty_cells(b) - 1,
        ply >= 0,
        unit >= 0,
        win > (ply + left) * unit,
    ensures
        exact_best(b, moves, left, ply, win, unit) > 0 <==> exists|i: int|
            0 <= i < moves.len() && !wins(applied(b, #[trigger] moves[i]), left),
        exact_best(b, moves, left, ply, win, unit) != 0,
    decreases left, moves.len() + 1,
{
    let last = moves.last();
    assert(legal_move(b, moves[moves.len() - 1]));
    lemma_move_fills_cell(b, last);
    law_exact_value_tells_the_winner(applied(b, last), left, ply, win, unit);
    if moves.len() > 1 {
        let rest = moves.drop_last();
        assert forall|i: int| 0 <= i < rest.len() implies legal_move(b, #[trigger] rest[i]) by {
            assert(rest[i] == moves[i]);
        }
        lemma_exact_best_sign(b, rest, left, ply, win, unit);
        if exists|i: int| 0 <= i < rest.len() && !wins(applied(b, #[trigger] rest[i]), left) {
            let i = choose|i: int|
                0 <= i < rest.len() && !wins(applied(b, #[trigger] rest[i]), left);
            assert(!wins(applied(b, moves[i]), left));
        }
        if exists|i: int| 0 <= i < moves.len() && !wins(applied(b, #[trigger] moves[i]), left) {
            let i = choose|i: int|
                0 <= i < moves.len() && !wins(applied(b, #[trigger] moves[i]), left);
            if i < rest.len() {
                assert(!wins(applied(b, rest[i]), left));
            }
        }
    }
}

/// No game lasts more than sixteen moves: a sequence of legal moves is no longer
/// than the board has empty cells.
pub proof fn law_lines_are_short(b: Seq<u16>, moves: Seq<Move>)
    requires
        b.len() == 8,
        legal_line(b, moves),
    ensures
        moves.len() <= empty_cells(b) <= 16,
    decreases moves.len(),
{
    lemma_popcount(taken(b), 0);
    if moves.len() > 0 {
        lemma_move_fills_cell(b, moves[0]);
        law_lines_are_short(applied(b, moves[0]), moves.drop_first());
    }
}

/// On a full board nothing can be played.
pub proof fn lemma_no_room(b: Seq<u16>)
    requires
        b.len() == 8,
        empty_cells(b) <= 0,
    ensures
        finished(b),
{
    lemma_legal_moves(b);
    if legal_moves(b).len() > 0 {
        lemma_move_fills_cell(b, legal_moves(b)[0]);
    }
}

/// Whether `moves` can be played from `b`, each of them legal in its turn.
pub open spec fn legal_line(b: Seq<u16>, moves: Seq<Move>) -> bool
    decreases moves.len(),
{
    moves.len() == 0 || (legal_move(b, moves[0]) && legal_line(
        applied(b, moves[0]),
        moves.drop_first(),
    ))
}

/// The board after the moves of a line.
pub open spec fn after_line(b: Seq<u16>, moves: Seq<Move>) -> Seq<u16>
    decreases moves.len(),
{
    if moves.len() == 0 {
        b
    } else {
        after_line(applied(b, moves[0]), moves.drop_first())
    }
}

/// A line can be prolonged by a move that is legal at its end.
pub proof fn lemma_line_push(b: Seq<u16>, moves: Seq<Move>, m: Move)
    requires
        legal_line(b, moves),
        legal_move(after_line(b, moves), m),
    ensures
        legal_line(b, moves.push(m)),
        after_line(b, moves.push(m)) == applied(after_line(b, moves), m),
    decreases moves.len(),
{
    let longer = moves.push(m);
    if moves.len() == 0 {
        assert(longer.drop_first() =~= Seq::<Move>::empty());
        assert(longer[0] == m);
        assert(legal_line(applied(b, m), longer.drop_first()));
        assert(after_line(applied(b, m), longer.drop_first()) == applied(b, m));
    } else {
        assert(longer.drop_first() =~= moves.drop_first().push(m));
        lemma_line_push(applied(b, moves[0]), moves.drop_first(), m);
        assert(longer[0] == moves[0]);
    }
}

/// A line can be put in front of another one.
pub proof fn lemma_line_prepend(b: Seq<u16>, m: Move, rest: Seq<Move>)
    requires
        legal_move(b, m),
        legal_line(applied(b, m), rest),
    ensures
        legal_line(b, seq![m] + rest),
{
    assert((seq![m] + rest).drop_first() =~= rest);
}

} // verus!
