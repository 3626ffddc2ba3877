//! Linear handcrafted evaluation for non-terminal Quantik positions.
//!
//! A position scores as the dot product of a small, hand-designed feature
//! vector and a weight vector ([`EvalConfig::weights`]). Features are whole
//! numbers, and weights and scores are fixed-point numbers: `unit` of
//! [`EvalConfig`] is the number that stands for one.
use crate::bitboard::{
    bit, bit_sum, lemma_bit_ops, lemma_popcount, plane, popcount, taken, Bitboard,
};
use crate::constants::{lemma_win_masks, line, WIN_MASKS};
use crate::game::{current_player, line_complete, shape_union, to_move, won};
use crate::invariance::{
    inverse_below, law_mobility_invariant, lemma_image_counts,
    lemma_image_line_free, lemma_image_meets_line, lemma_image_plane, lemma_image_taken,
    lemma_inverse_maps, lemma_sum_equal, lemma_sum_permuted, sum,
};
use crate::moves::{
    generate_legal_moves, legal_moves, lemma_legal_moves, line_free, placement_is_legal,
};
use crate::symmetry::{image, lemma_cell, lemma_cells, lemma_line, Sym};
use vstd::prelude::*;
use vstd::std_specs::bits::axiom_u16_trailing_zeros;

verus! {

/// Largest absolute value of a weight.
pub const MAX_WEIGHT: i64 = 1_099_511_627_776;

/// Largest absolute value of the win bonus.
pub const MAX_WIN: i64 = 1_125_899_906_842_624;

/// Largest fixed-point unit.
pub const MAX_UNIT: i64 = 1_073_741_824;

/// Weights of the linear evaluation and the terminal win bonus.
///
/// `weights` follows the order of [`feature_name`]. `win` is not consumed by
/// [`evaluate`], which only scores non-terminal positions: search engines
/// built on top of this module score forced wins with it. All of them count in
/// units of `unit`.
#[derive(Clone, Copy, Debug)]
pub struct EvalConfig {
    pub weights: [i64; 6],
    pub win: i64,
    pub unit: i64,
}

impl EvalConfig {
    /// Whether all scores made of these weights fit in an `i64` with room to
    /// spare.
    pub open spec fn valid(self) -> bool {
        &&& forall|i: int| 0 <= i < 6 ==> -MAX_WEIGHT <= #[trigger] self.weights@[i] <= MAX_WEIGHT
        &&& -MAX_WIN <= self.win <= MAX_WIN
        &&& 1 <= self.unit <= MAX_UNIT
    }

    /// Whether the configuration is in range.
    pub fn is_valid(&self) -> (r: bool)
        ensures
            r <==> self.valid(),
    {
        let mut i: usize = 0;
        while i < 6
            invariant
                i <= 6,
                forall|j: int|
                    0 <= j < i ==> -MAX_WEIGHT <= #[trigger] self.weights@[j] <= MAX_WEIGHT,
            decreases 6 - i,
        {
            let w: i64 = self.weights[i];
            if w < -MAX_WEIGHT || w > MAX_WEIGHT {
                assert(!(-MAX_WEIGHT <= self.weights@[i as int] <= MAX_WEIGHT));
                return false;
            }
            i = i + 1;
        }
        -MAX_WIN <= self.win && self.win <= MAX_WIN && 1 <= self.unit && self.unit <= MAX_UNIT
    }
}

impl Default for EvalConfig {
    fn default() -> (cfg: Self)
        ensures
            cfg.valid(),
            cfg.weights@ == seq![100i64, -100i64, 20i64, 3i64, 2i64, 0i64],
            cfg.win == 10_000,
            cfg.unit == 1,
    {
        let weights: [i64; 6] = [100, -100, 20, 3, 2, 0];
        assert(weights@ =~= seq![100i64, -100i64, 20i64, 3i64, 2i64, 0i64]);
        Self { weights, win: 10_000, unit: 1 }
    }
}

/// The name of feature `i`.
pub fn feature_name(i: usize) -> (name: &'static str)
    requires
        i < 6,
    ensures
        name@ == (if i == 0 {
            "threat_own"@
        } else if i == 1 {
            "threat_opp"@
        } else if i == 2 {
            "threat_shared"@
        } else if i == 3 {
            "mobility_diff"@
        } else if i == 4 {
            "build_two"@
        } else {
            "build_one"@
        }),
{
    if i == 0 {
        "threat_own"
    } else if i == 1 {
        "threat_opp"
    } else if i == 2 {
        "threat_shared"
    } else if i == 3 {
        "mobility_diff"
    } else if i == 4 {
        "build_two"
    } else {
        "build_one"
    }
}

pub open spec fn indicator(c: bool) -> int {
    if c {
        1
    } else {
        0
    }
}

/// Whether line `k` holds `shape`.
pub open spec fn on_line(b: Seq<u16>, shape: int, k: int) -> bool {
    shape_union(b, shape) & line(k) != 0
}

/// The number of different shapes on line `k`.
pub open spec fn shapes_on(b: Seq<u16>, k: int) -> int {
    indicator(on_line(b, 0, k)) + indicator(on_line(b, 1, k)) + indicator(on_line(b, 2, k))
        + indicator(on_line(b, 3, k))
}

/// The number of taken cells of line `k`.
pub open spec fn held(b: Seq<u16>, k: int) -> int {
    popcount(taken(b) & line(k))
}

/// Whether no shape repeats on line `k`: only such a line can still become
/// complete.
pub open spec fn live(b: Seq<u16>, k: int) -> bool {
    shapes_on(b, k) >= held(b, k)
}

/// Whether `side` has a piece of a shape that line `k` misses and may put it on
/// an empty cell of the line.
pub open spec fn completable(b: Seq<u16>, side: int, k: int) -> bool {
    exists|s: int, p: int| #[trigger] completes(b, side, k, s, p)
}

/// Whether `side` may put shape `s`, which line `k` misses, on the empty cell
/// `p` of the line.
pub open spec fn completes(b: Seq<u16>, side: int, k: int, s: int, p: int) -> bool {
    &&& 0 <= s < 4
    &&& 0 <= p < 16
    &&& !on_line(b, s, k)
    &&& bit(line(k), p)
    &&& !bit(taken(b), p)
    &&& popcount(plane(b, side, s)) < 2
    &&& line_free(b, side, s, p)
}

/// Whether `side` could complete line `k`, which holds three different shapes
/// on three cells.
pub open spec fn threat(b: Seq<u16>, side: int, k: int) -> bool {
    live(b, k) && held(b, k) == 3 && completable(b, side, k)
}

/// The legal moves of `player`, none unless it is `player`'s turn.
pub open spec fn mobility(b: Seq<u16>, player: int) -> int {
    if to_move(b) is Some && to_move(b)->0 == player {
        legal_moves(b).len() as int
    } else {
        0
    }
}

/// Plus one if `player` is to move, else minus one. Player 0 is taken to be to
/// move where the piece counts fit no turn.
pub open spec fn turn_sign(b: Seq<u16>, player: int) -> int {
    let side: int = match to_move(b) {
        Some(p) => p as int,
        None => 0,
    };
    if side == player {
        1
    } else {
        -1
    }
}

/// Feature `i` of the planes `b` as `player` sees them.
pub open spec fn feature(b: Seq<u16>, player: int, i: int) -> int {
    if i == 0 {
        sum(|k: int| indicator(threat(b, player, k)), 12)
    } else if i == 1 {
        sum(|k: int| indicator(threat(b, 1 - player, k)), 12)
    } else if i == 2 {
        turn_sign(b, player) * sum(|k: int| indicator(threat(b, 0, k) && threat(b, 1, k)), 12)
    } else if i == 3 {
        mobility(b, player) - mobility(b, 1 - player)
    } else if i == 4 {
        turn_sign(b, player) * sum(|k: int| indicator(live(b, k) && held(b, k) == 2), 12)
    } else {
        turn_sign(b, player) * sum(|k: int| indicator(live(b, k) && held(b, k) == 1), 12)
    }
}

/// The score of the planes `b` as `player` sees them.
#[verifier::opaque]
pub open spec fn eval_value(b: Seq<u16>, player: int, cfg: EvalConfig) -> int {
    feature(b, player, 0) * cfg.weights@[0] + feature(b, player, 1) * cfg.weights@[1] + feature(
        b,
        player,
        2,
    ) * cfg.weights@[2] + feature(b, player, 3) * cfg.weights@[3] + feature(b, player, 4)
        * cfg.weights@[4] + feature(b, player, 5) * cfg.weights@[5]
}

pub(crate) proof fn lemma_indicator_sum_bounds(f: spec_fn(int) -> int, n: int)
    requires
        n >= 0,
        forall|k: int| 0 <= k < n ==> 0 <= #[trigger] f(k) <= 1,
    ensures
        0 <= sum(f, n) <= n,
    decreases n,
{
    if n > 0 {
        lemma_indicator_sum_bounds(f, n - 1);
    }
}

/// No feature exceeds 64 in absolute value.
pub proof fn lemma_feature_bounds(b: Seq<u16>, player: int)
    ensures
        forall|i: int| -64 <= #[trigger] feature(b, player, i) <= 64,
{
    lemma_legal_moves(b);
    lemma_indicator_sum_bounds(|k: int| indicator(threat(b, player, k)), 12);
    lemma_indicator_sum_bounds(|k: int| indicator(threat(b, 1 - player, k)), 12);
    lemma_indicator_sum_bounds(|k: int| indicator(threat(b, 0, k) && threat(b, 1, k)), 12);
    lemma_indicator_sum_bounds(|k: int| indicator(live(b, k) && held(b, k) == 2), 12);
    lemma_indicator_sum_bounds(|k: int| indicator(live(b, k) && held(b, k) == 1), 12);
    let t = turn_sign(b, player);
    assert forall|x: int| #[trigger] (t * x) == x || t * x == -x by {
        assert(t == 1 || t == -1);
        assert(1 * x == x && -1 * x == -x);
    }
    assert forall|i: int| -64 <= #[trigger] feature(b, player, i) <= 64 by {
        let s2 = sum(|k: int| indicator(threat(b, 0, k) && threat(b, 1, k)), 12);
        let s4 = sum(|k: int| indicator(live(b, k) && held(b, k) == 2), 12);
        let s5 = sum(|k: int| indicator(live(b, k) && held(b, k) == 1), 12);
        assert(t * s2 == s2 || t * s2 == -s2);
        assert(t * s4 == s4 || t * s4 == -s4);
        assert(t * s5 == s5 || t * s5 == -s5);
    }
}

proof fn lemma_product_bounds(f: int, w: int)
    requires
        -64 <= f <= 64,
        -MAX_WEIGHT <= w <= MAX_WEIGHT,
    ensures
        -64 * MAX_WEIGHT <= f * w <= 64 * MAX_WEIGHT,
{
    assert(-64 * MAX_WEIGHT <= f * w <= 64 * MAX_WEIGHT) by (nonlinear_arith)
        requires
            -64 <= f <= 64,
            -MAX_WEIGHT <= w <= MAX_WEIGHT,
    ;
}

/// Scores stay far inside the range of an `i64`.
pub proof fn lemma_eval_bounds(b: Seq<u16>, player: int, cfg: EvalConfig)
    requires
        cfg.valid(),
    ensures
        -384 * MAX_WEIGHT <= eval_value(b, player, cfg) <= 384 * MAX_WEIGHT,
{
    reveal(eval_value);
    lemma_feature_bounds(b, player);
    lemma_product_bounds(feature(b, player, 0), cfg.weights@[0] as int);
    lemma_product_bounds(feature(b, player, 1), cfg.weights@[1] as int);
    lemma_product_bounds(feature(b, player, 2), cfg.weights@[2] as int);
    lemma_product_bounds(feature(b, player, 3), cfg.weights@[3] as int);
    lemma_product_bounds(feature(b, player, 4), cfg.weights@[4] as int);
    lemma_product_bounds(feature(b, player, 5), cfg.weights@[5] as int);
}

pub(crate) proof fn lemma_popcount_split(m: u16, t: u16)
    by (bit_vector)
    ensures
        bit_sum(m & !t) + bit_sum(t & m) == bit_sum(m),
{
}

proof fn lemma_only_cell_u16(x: u16, p: u16, q: u16)
    by (bit_vector)
    requires
        p < 16,
        q < 16,
        bit_sum(x) == 1,
        (x >> p) & 1u16 == 1u16,
        (x >> q) & 1u16 == 1u16,
    ensures
        p == q,
{
}

pub(crate) proof fn lemma_line_sizes(k: int)
    requires
        0 <= k < 12,
    ensures
        popcount(line(k)) == 4,
{
    reveal(popcount);
    assert(bit_sum(0x000F) == 4 && bit_sum(0x00F0) == 4 && bit_sum(0x0F00) == 4 && bit_sum(
        0xF000,
    ) == 4 && bit_sum(0x1111) == 4 && bit_sum(0x2222) == 4 && bit_sum(0x4444) == 4 && bit_sum(
        0x8888,
    ) == 4 && bit_sum(0x0033) == 4 && bit_sum(0x00CC) == 4 && bit_sum(0x3300) == 4 && bit_sum(
        0xCC00,
    ) == 4) by (bit_vector);
}

/// Count `player`'s legal moves, 0 if it is not `player`'s turn.
pub fn count_legal_moves(bb: &Bitboard, player: u8) -> (n: usize)
    ensures
        n == mobility(bb@, player as int),
        n <= 64,
{
    proof {
        lemma_legal_moves(bb@);
    }
    match current_player(bb) {
        Some(p) => {
            if p == player {
                generate_legal_moves(bb).len()
            } else {
                0
            }
        },
        None => 0,
    }
}

/// The shape that line `k` misses and its empty cell.
fn missing_piece(bb: &Bitboard, k: usize) -> (r: (u8, u8))
    requires
        k < 12,
        !won(bb@),
        live(bb@, k as int),
        held(bb@, k as int) == 3,
    ensures
        r.0 < 4,
        r.1 < 16,
        forall|side: int, s: int, p: int|
            #[trigger] completes(bb@, side, k as int, s, p) ==> s == r.0 && p == r.1,
        !on_line(bb@, r.0 as int, k as int),
        bit(line(k as int), r.1 as int),
        !bit(taken(bb@), r.1 as int),
{
    proof {
        lemma_win_masks();
        assert(!line_complete(bb@, k as int));
        lemma_line_sizes(k as int);
    }
    let mask = WIN_MASKS[k];
    let shape: u8 = if (bb.planes[0] | bb.planes[4]) & mask == 0 {
        0
    } else if (bb.planes[1] | bb.planes[5]) & mask == 0 {
        1
    } else if (bb.planes[2] | bb.planes[6]) & mask == 0 {
        2
    } else {
        3
    };
    let occupied = bb.occupied();
    let open = mask & !occupied;
    proof {
        assert(shape_union(bb@, 0) & mask == 0 <==> !on_line(bb@, 0, k as int));
        assert(shape_union(bb@, 1) & mask == 0 <==> !on_line(bb@, 1, k as int));
        assert(shape_union(bb@, 2) & mask == 0 <==> !on_line(bb@, 2, k as int));
        assert(!(on_line(bb@, 0, k as int) && on_line(bb@, 1, k as int) && on_line(
            bb@,
            2,
            k as int,
        ) && on_line(bb@, 3, k as int))) by {
            if on_line(bb@, 0, k as int) && on_line(bb@, 1, k as int) && on_line(bb@, 2, k as int)
                && on_line(bb@, 3, k as int) {
                assert(line_complete(bb@, k as int));
            }
        }
        reveal(popcount);
        lemma_popcount_split(mask, occupied);
        assert(popcount(open) == 1);
        lemma_popcount(open, 0);
        axiom_u16_trailing_zeros(open);
    }
    let cell = open.trailing_zeros() as u8;
    proof {
        assert(bit(open, cell as int));
        lemma_bit_ops(mask, !occupied, cell as int, 0);
        lemma_bit_ops(occupied, 0, cell as int, 0);
        assert forall|side: int, s: int, p: int|
            #[trigger] completes(bb@, side, k as int, s, p) implies s == shape && p == cell by {
            lemma_bit_ops(mask, !occupied, p, 0);
            lemma_bit_ops(occupied, 0, p, 0);
            assert(bit(open, p));
            lemma_only_cell_u16(open, p as u16, cell as u16);
        }
    }
    (shape, cell)
}

/// Whether `side` can complete line `k`, given what the line misses.
fn can_complete(bb: &Bitboard, side: u8, k: usize, missing: (u8, u8)) -> (r: bool)
    requires
        k < 12,
        side < 2,
        missing.0 < 4,
        missing.1 < 16,
        forall|x: int, s: int, p: int|
            #[trigger] completes(bb@, x, k as int, s, p) ==> s == missing.0 && p == missing.1,
        !on_line(bb@, missing.0 as int, k as int),
        bit(line(k as int), missing.1 as int),
        !bit(taken(bb@), missing.1 as int),
    ensures
        r <==> completable(bb@, side as int, k as int),
{
    let r = bb.shape_piece_count(side, missing.0) < 2 && placement_is_legal(
        bb,
        side,
        missing.0,
        missing.1,
    );
    assert(r <==> completes(bb@, side as int, k as int, missing.0 as int, missing.1 as int));
    r
}

/// Compute the 6-dimensional handcrafted feature vector for `bb`.
///
/// Features are from `player`'s perspective (see [`feature_name`]), but
/// `player` need not be the side to move. No line of `bb` may be complete.
pub fn features(bb: &Bitboard, player: u8) -> (f: [i64; 6])
    requires
        player < 2,
        !won(bb@),
    ensures
        forall|i: int|
            0 <= i < 6 ==> #[trigger] f@[i] == feature(bb@, player as int, i) && -64 <= f@[i] <= 64,
{
    let side_to_move: u8 = match current_player(bb) {
        Some(p) => p,
        None => 0,
    };
    let sign: i64 = if side_to_move == player {
        1
    } else {
        -1
    };
    let occupied = bb.occupied();
    let ghost b = bb@;
    let ghost f0 = |j: int| indicator(threat(b, player as int, j));
    let ghost f1 = |j: int| indicator(threat(b, 1 - player, j));
    let ghost f2 = |j: int| indicator(threat(b, 0, j) && threat(b, 1, j));
    let ghost f4 = |j: int| indicator(live(b, j) && held(b, j) == 2);
    let ghost f5 = |j: int| indicator(live(b, j) && held(b, j) == 1);
    let mut own: i64 = 0;
    let mut opp: i64 = 0;
    let mut shared: i64 = 0;
    let mut two: i64 = 0;
    let mut one: i64 = 0;
    let mut k: usize = 0;
    while k < 12
        invariant
            k <= 12,
            player < 2,
            b == bb@,
            !won(b),
            occupied == taken(b),
            f0 == (|j: int| indicator(threat(b, player as int, j))),
            f1 == (|j: int| indicator(threat(b, 1 - player, j))),
            f2 == (|j: int| indicator(threat(b, 0, j) && threat(b, 1, j))),
            f4 == (|j: int| indicator(live(b, j) && held(b, j) == 2)),
            f5 == (|j: int| indicator(live(b, j) && held(b, j) == 1)),
            own == sum(f0, k as int),
            opp == sum(f1, k as int),
            shared == sum(f2, k as int),
            two == sum(f4, k as int),
            one == sum(f5, k as int),
            0 <= own <= k,
            0 <= opp <= k,
            0 <= shared <= k,
            0 <= two <= k,
            0 <= one <= k,
        decreases 12 - k,
    {
        proof {
            lemma_win_masks();
            lemma_popcount(occupied & line(k as int), 0);
        }
        let mask = WIN_MASKS[k];
        let mut present: u32 = 0;
        if (bb.planes[0] | bb.planes[4]) & mask != 0 {
            present = present + 1;
        }
        if (bb.planes[1] | bb.planes[5]) & mask != 0 {
            present = present + 1;
        }
        if (bb.planes[2] | bb.planes[6]) & mask != 0 {
            present = present + 1;
        }
        if (bb.planes[3] | bb.planes[7]) & mask != 0 {
            present = present + 1;
        }
        assert(present == shapes_on(b, k as int));
        let count: u32 = (occupied & mask).count_ones();
        assert(count == held(b, k as int));
        if present >= count {
            if count == 3 {
                let missing = missing_piece(bb, k);
                let can0 = can_complete(bb, 0, k, missing);
                let can1 = can_complete(bb, 1, k, missing);
                let (mine, theirs) = if player == 0 {
                    (can0, can1)
                } else {
                    (can1, can0)
                };
                if mine {
                    own = own + 1;
                }
                if theirs {
                    opp = opp + 1;
                }
                if can0 && can1 {
                    shared = shared + 1;
                }
            } else if count == 2 {
                two = two + 1;
            } else if count == 1 {
                one = one + 1;
            }
        }
        assert(sum(f0, k + 1) == sum(f0, k as int) + f0(k as int));
        assert(sum(f1, k + 1) == sum(f1, k as int) + f1(k as int));
        assert(sum(f2, k + 1) == sum(f2, k as int) + f2(k as int));
        assert(sum(f4, k + 1) == sum(f4, k as int) + f4(k as int));
        assert(sum(f5, k + 1) == sum(f5, k as int) + f5(k as int));
        k = k + 1;
    }
    let mobility_diff: i64 = count_legal_moves(bb, player) as i64 - count_legal_moves(
        bb,
        1 - player,
    ) as i64;
    proof {
        assert(sign * shared == turn_sign(b, player as int) * shared);
        assert(sign == 1 || sign == -1);
    }
    let shared_signed: i64 = if sign == 1 {
        shared
    } else {
        -shared
    };
    let two_signed: i64 = if sign == 1 {
        two
    } else {
        -two
    };
    let one_signed: i64 = if sign == 1 {
        one
    } else {
        -one
    };
    let f: [i64; 6] = [own, opp, shared_signed, mobility_diff, two_signed, one_signed];
    proof {
        assert(feature(b, player as int, 0) == own);
        assert(feature(b, player as int, 1) == opp);
        assert(feature(b, player as int, 2) == shared_signed);
        assert(feature(b, player as int, 3) == mobility_diff);
        assert(feature(b, player as int, 4) == two_signed);
        assert(feature(b, player as int, 5) == one_signed);
        assert(f@ =~= seq![own, opp, shared_signed, mobility_diff, two_signed, one_signed]);
    }
    f
}

/// Score a non-terminal position as `cfg.weights · features(bb, player)`.
pub fn evaluate(bb: &Bitboard, player: u8, cfg: &EvalConfig) -> (score: i64)
    requires
        player < 2,
        !won(bb@),
        cfg.valid(),
    ensures
        score == eval_value(bb@, player as int, *cfg),
{
    let f = features(bb, player);
    let mut score: i64 = 0;
    let mut i: usize = 0;
    while i < 6
        invariant
            i <= 6,
            cfg.valid(),
            forall|j: int|
                0 <= j < 6 ==> #[trigger] f@[j] == feature(bb@, player as int, j) && -64 <= f@[j]
                    <= 64,
            score == sum(|j: int| f@[j] * cfg.weights@[j], i as int),
            -70_368_744_177_664 * i <= score <= 70_368_744_177_664 * i,
        decreases 6 - i,
    {
        proof {
            lemma_product_bounds(f@[i as int] as int, cfg.weights@[i as int] as int);
        }
        score = score + f[i] * cfg.weights[i];
        i = i + 1;
    }
    proof {
        reveal(eval_value);
        reveal_with_fuel(sum, 7);
    }
    score
}

proof fn lemma_image_line_counts(b: Seq<u16>, g: Sym, k: int)
    requires
        b.len() == 8,
        g.valid(),
        0 <= k < 12,
    ensures
        0 <= g.line_index(k) < 12,
        shapes_on(image(b, g), g.line_index(k)) == shapes_on(b, k),
        held(image(b, g), g.line_index(k)) == held(b, k),
        live(image(b, g), g.line_index(k)) <==> live(b, k),
        forall|s: int|
            0 <= s < 4 ==> (on_line(image(b, g), #[trigger] g.shape(s), g.line_index(k))
                <==> on_line(b, s, k)),
{
    let a = image(b, g);
    let j = g.line_index(k);
    lemma_inverse_maps(g);
    assert forall|s: int| 0 <= s < 4 implies (on_line(a, #[trigger] g.shape(s), j) <==> on_line(
        b,
        s,
        k,
    )) by {
        lemma_image_plane(b, g, 0, s);
        lemma_image_meets_line(g, shape_union(b, s), k);
    }
    assert(on_line(a, g.shape(0), j) <==> on_line(b, 0, k));
    assert(on_line(a, g.shape(1), j) <==> on_line(b, 1, k));
    assert(on_line(a, g.shape(2), j) <==> on_line(b, 2, k));
    assert(on_line(a, g.shape(3), j) <==> on_line(b, 3, k));
    lemma_image_taken(b, g);
    lemma_image_meets_line(g, taken(b), k);
}

proof fn lemma_image_completes(b: Seq<u16>, g: Sym, side: int, k: int, s: int, p: int)
    requires
        b.len() == 8,
        g.valid(),
        0 <= side < 2,
        0 <= k < 12,
        0 <= s < 4,
        0 <= p < 16,
    ensures
        completes(image(b, g), side, g.line_index(k), g.shape(s), g.cell(p)) <==> completes(
            b,
            side,
            k,
            s,
            p,
        ),
{
    lemma_inverse_maps(g);
    lemma_image_line_counts(b, g, k);
    lemma_image_taken(b, g);
    lemma_cell(g, taken(b), p);
    lemma_line(g, k);
    lemma_cell(g, line(k), p);
    lemma_image_plane(b, g, side, s);
    lemma_cells(g, plane(b, side, s), 0);
    lemma_image_line_free(b, g, side, s, p);
}

proof fn lemma_image_threat(b: Seq<u16>, g: Sym, side: int, k: int)
    requires
        b.len() == 8,
        g.valid(),
        0 <= side < 2,
        0 <= k < 12,
    ensures
        threat(image(b, g), side, g.line_index(k)) <==> threat(b, side, k),
{
    let a = image(b, g);
    let j = g.line_index(k);
    lemma_inverse_maps(g);
    lemma_image_line_counts(b, g, k);
    if completable(b, side, k) {
        let (s, p) = choose|s: int, p: int| #[trigger] completes(b, side, k, s, p);
        lemma_image_completes(b, g, side, k, s, p);
        assert(completes(a, side, j, g.shape(s), g.cell(p)));
    }
    if completable(a, side, j) {
        let (s, p) = choose|s: int, p: int| #[trigger] completes(a, side, j, s, p);
        let s0 = g.inverse().shape(s);
        let p0 = g.inverse().cell(p);
        lemma_image_completes(b, g, side, k, s0, p0);
        assert(completes(b, side, k, s0, p0));
    }
}

proof fn lemma_image_line_sum(f: spec_fn(int) -> int, f0: spec_fn(int) -> int, g: Sym)
    requires
        g.valid(),
        forall|k: int| 0 <= k < 12 ==> f(g.line_index(k)) == #[trigger] f0(k),
    ensures
        sum(f, 12) == sum(f0, 12),
{
    lemma_inverse_maps(g);
    let s = |k: int| g.line_index(k);
    let t = |k: int| g.inverse().line_index(k);
    assert(inverse_below(s, t, 12)) by {
        assert forall|i: int| 0 <= i < 12 implies 0 <= #[trigger] s(i) < 12 && t(s(i)) == i by {
            assert(0 <= g.line_index(i) < 12);
        }
        assert forall|i: int| 0 <= i < 12 implies 0 <= #[trigger] t(i) < 12 && s(t(i)) == i by {
            assert(0 <= g.inverse().line_index(i) < 12);
        }
    }
    lemma_sum_permuted(f, s, t, 12);
    lemma_sum_equal(|k: int| f(s(k)), f0, 12);
}

/// Features and scores do not change under the symmetries of the board.
pub proof fn law_evaluation_invariant(b: Seq<u16>, g: Sym, player: int, cfg: EvalConfig)
    requires
        b.len() == 8,
        g.valid(),
        0 <= player < 2,
    ensures
        forall|i: int| #[trigger] feature(image(b, g), player, i) == feature(b, player, i),
        eval_value(image(b, g), player, cfg) == eval_value(b, player, cfg),
{
    reveal(eval_value);
    let a = image(b, g);
    lemma_image_counts(b, g);
    law_mobility_invariant(b, g);
    assert forall|k: int| 0 <= k < 12 implies (#[trigger] threat(a, 0, g.line_index(k)) <==> threat(
        b,
        0,
        k,
    )) && (threat(a, 1, g.line_index(k)) <==> threat(b, 1, k)) && (live(a, g.line_index(k))
        <==> live(b, k)) && held(a, g.line_index(k)) == held(b, k) by {
        lemma_image_threat(b, g, 0, k);
        lemma_image_threat(b, g, 1, k);
        lemma_image_line_counts(b, g, k);
    }
    let own = |k: int| indicator(threat(a, player, k));
    let own0 = |k: int| indicator(threat(b, player, k));
    assert forall|k: int| 0 <= k < 12 implies own(g.line_index(k)) == #[trigger] own0(k) by {
        assert(threat(a, 0, g.line_index(k)) <==> threat(b, 0, k));
    }
    lemma_image_line_sum(own, own0, g);
    let opp = |k: int| indicator(threat(a, 1 - player, k));
    let opp0 = |k: int| indicator(threat(b, 1 - player, k));
    assert forall|k: int| 0 <= k < 12 implies opp(g.line_index(k)) == #[trigger] opp0(k) by {
        assert(threat(a, 0, g.line_index(k)) <==> threat(b, 0, k));
    }
    lemma_image_line_sum(opp, opp0, g);
    let both = |k: int| indicator(threat(a, 0, k) && threat(a, 1, k));
    let both0 = |k: int| indicator(threat(b, 0, k) && threat(b, 1, k));
    assert forall|k: int| 0 <= k < 12 implies both(g.line_index(k)) == #[trigger] both0(k) by {
        assert(threat(a, 0, g.line_index(k)) <==> threat(b, 0, k));
    }
    lemma_image_line_sum(both, both0, g);
    let two = |k: int| indicator(live(a, k) && held(a, k) == 2);
    let two0 = |k: int| indicator(live(b, k) && held(b, k) == 2);
    assert forall|k: int| 0 <= k < 12 implies two(g.line_index(k)) == #[trigger] two0(k) by {
        assert(threat(a, 0, g.line_index(k)) <==> threat(b, 0, k));
    }
    lemma_image_line_sum(two, two0, g);
    let one = |k: int| indicator(live(a, k) && held(a, k) == 1);
    let one0 = |k: int| indicator(live(b, k) && held(b, k) == 1);
    assert forall|k: int| 0 <= k < 12 implies one(g.line_index(k)) == #[trigger] one0(k) by {
        assert(threat(a, 0, g.line_index(k)) <==> threat(b, 0, k));
    }
    lemma_image_line_sum(one, one0, g);
}

} // verus!
