//! Actions, their masks and what makes a board state valid.
use crate::bench::fields::{complain, concat, either, item_field, item_name};
use crate::bitboard::{bit, lemma_bit_ops, plane, popcount, Bitboard};
use crate::constants::{line, lemma_win_masks, MAX_PIECES_PER_SHAPE, WIN_MASKS};
use crate::game::{current_player, to_move};
use crate::moves::{action_of, is_move_legal, legal, legal_move, legal_moves, moves_below, Move};
use crate::qfen::disjoint_planes;
use crate::state::{canonical_key_of, State};
use crate::text::{hex_of, hex_text};
use vstd::prelude::*;
use vstd::string::*;

verus! {

/// The action number of a shape on a cell.
pub fn action_index(shape: u8, position: u8) -> (a: u8)
    requires
        shape * 16 + position <= 255,
    ensures
        a == shape * 16 + position,
{
    shape * 16 + position
}

/// Whether the side to move may play action `a`: shape `a / 16` on cell `a % 16`.
pub open spec fn action_legal(b: Seq<u16>, a: int) -> bool {
    match to_move(b) {
        Some(p) => legal(b, p as int, a / 16, a % 16),
        None => false,
    }
}

/// Whether bit `a` of `mask` is set.
pub open spec fn mask_bit(mask: u64, a: int) -> bool {
    (mask >> (a as u64)) & 1 == 1
}

/// The mask of the legal actions below `n`.
pub open spec fn mask_below(b: Seq<u16>, n: int) -> u64
    decreases n,
{
    if n <= 0 {
        0
    } else if action_legal(b, n - 1) {
        mask_below(b, n - 1) | (1u64 << ((n - 1) as u64))
    } else {
        mask_below(b, n - 1)
    }
}

/// The mask of the legal actions.
pub open spec fn mask_of(b: Seq<u16>) -> u64 {
    mask_below(b, 64)
}

/// Setting and reading the bits of a mask.
pub proof fn lemma_mask_ops(m: u64, a: u64, p: u64)
    by (bit_vector)
    requires
        a < 64,
        p < 64,
    ensures
        ((m | (1u64 << p)) >> a) & 1 == 1 <==> ((m >> a) & 1 == 1 || a == p),
        (0u64 >> a) & 1 != 1,
        (m >> a) & 1 == 1 ==> m != 0,
        m | (1u64 << p) != 0,
{
}

proof fn lemma_mask_below(b: Seq<u16>, n: int)
    requires
        0 <= n <= 64,
    ensures
        forall|a: int|
            0 <= a < 64 ==> (#[trigger] mask_bit(mask_below(b, n), a) <==> a < n && action_legal(
                b,
                a,
            )),
        mask_below(b, n) != 0 ==> exists|a: int| 0 <= a < n && #[trigger] action_legal(b, a),
    decreases n,
{
    if n > 0 {
        lemma_mask_below(b, n - 1);
        let m = mask_below(b, n - 1);
        assert forall|a: int| 0 <= a < 64 implies (#[trigger] mask_bit(mask_below(b, n), a) <==> a
            < n && action_legal(b, a)) by {
            lemma_mask_ops(m, a as u64, (n - 1) as u64);
            assert(mask_bit(m, a) <==> a < n - 1 && action_legal(b, a));
        }
        if action_legal(b, n - 1) {
        } else if m != 0 {
            let a = choose|a: int| 0 <= a < n - 1 && #[trigger] action_legal(b, a);
            assert(0 <= a < n && action_legal(b, a));
        }
    } else {
        assert forall|a: int| 0 <= a < 64 implies !#[trigger] mask_bit(0, a) by {
            lemma_mask_ops(0, a as u64, 0);
        }
    }
}

/// A bit of the mask is set exactly if the side to move may play its action, and
/// the mask is empty exactly if there is no legal move.
pub proof fn law_mask_marks_legal_actions(b: Seq<u16>)
    ensures
        forall|a: int|
            0 <= a < 64 ==> (#[trigger] mask_bit(mask_of(b), a) <==> action_legal(b, a)),
        forall|m: Move|
            to_move(b) == Some(m.player) && m.in_range() ==> (#[trigger] legal_move(b, m)
                <==> mask_bit(mask_of(b), action_of(m))),
        mask_of(b) != 0 <==> exists|a: int| 0 <= a < 64 && #[trigger] action_legal(b, a),
{
    lemma_mask_below(b, 64);
    assert forall|m: Move| to_move(b) == Some(m.player) && m.in_range() implies (
    #[trigger] legal_move(b, m) <==> mask_bit(mask_of(b), action_of(m))) by {
        let a = action_of(m);
        assert(a / 16 == m.shape && a % 16 == m.position);
        assert(mask_bit(mask_of(b), a) <==> action_legal(b, a));
    }
    if exists|a: int| 0 <= a < 64 && #[trigger] action_legal(b, a) {
        let a = choose|a: int| 0 <= a < 64 && #[trigger] action_legal(b, a);
        assert(mask_bit(mask_of(b), a));
        lemma_mask_ops(mask_of(b), a as u64, 0);
    }
}

/// The number of set bits among the first `n` of a mask.
pub open spec fn set_bits(mask: u64, n: int) -> int
    decreases n,
{
    if n <= 0 {
        0
    } else {
        set_bits(mask, n - 1) + if mask_bit(mask, n - 1) {
            1int
        } else {
            0
        }
    }
}

proof fn lemma_mask_counts(b: Seq<u16>, player: u8, n: int)
    requires
        0 <= n <= 64,
        to_move(b) == Some(player),
    ensures
        set_bits(mask_of(b), n) == moves_below(b, player, n).len(),
    decreases n,
{
    law_mask_marks_legal_actions(b);
    if n > 0 {
        lemma_mask_counts(b, player, n - 1);
        assert(mask_bit(mask_of(b), n - 1) <==> action_legal(b, n - 1));
    }
}

/// The mask has as many set bits as there are legal moves.
pub proof fn law_mask_counts_moves(b: Seq<u16>)
    ensures
        set_bits(mask_of(b), 64) == legal_moves(b).len(),
{
    match to_move(b) {
        Some(p) => {
            lemma_mask_counts(b, p, 64);
        },
        None => {
            law_mask_marks_legal_actions(b);
            assert forall|a: int| 0 <= a < 64 implies !#[trigger] mask_bit(mask_of(b), a) by {
                assert(!action_legal(b, a));
            }
            lemma_no_bits(mask_of(b), 64);
        },
    }
}

proof fn lemma_no_bits(mask: u64, n: int)
    requires
        forall|a: int| 0 <= a < n ==> !#[trigger] mask_bit(mask, a),
    ensures
        set_bits(mask, n) == 0,
    decreases n,
{
    if n > 0 {
        lemma_no_bits(mask, n - 1);
    }
}

/// The mask of the actions that the side to move may play.
pub fn legal_action_mask(bb: &Bitboard) -> (mask: u64)
    ensures
        mask == mask_of(bb@),
{
    let player: u8 = match current_player(bb) {
        Some(p) => p,
        None => {
            proof {
                lemma_mask_below(bb@, 64);
            }
            return 0;
        },
    };
    let mut mask: u64 = 0;
    let mut a: u8 = 0;
    while a < 64
        invariant
            a <= 64,
            player < 2,
            to_move(bb@) == Some(player),
            mask == mask_below(bb@, a as int),
        decreases 64 - a,
    {
        if is_move_legal(bb, player, a / 16, a % 16) {
            mask = mask | (1u64 << (a as u64));
        }
        a = a + 1;
    }
    mask
}

/// Whether bit `a` of a mask is set.
pub fn mask_holds(mask: u64, a: u8) -> (r: bool)
    requires
        a < 64,
    ensures
        r <==> mask_bit(mask, a as int),
{
    (mask >> (a as u64)) & 1 == 1
}

/// The canonical key of a state in hexadecimal.
pub fn canonical_key_hex(state: &State) -> (hex: String)
    ensures
        hex@ == hex_of(canonical_key_of(state.bb@)),
{
    let key = state.canonical_key();
    let mut bytes: Vec<u8> = Vec::new();
    let mut i: usize = 0;
    while i < 18
        invariant
            i <= 18,
            bytes@ == key@.take(i as int),
        decreases 18 - i,
    {
        bytes.push(key[i]);
        assert(key@.take(i + 1) =~= key@.take(i as int).push(key@[i as int]));
        i = i + 1;
    }
    assert(key@.take(18) =~= key@);
    hex_text(&bytes)
}

/// The planes below `i` together.
pub open spec fn planes_below(b: Seq<u16>, i: int) -> u16
    decreases i,
{
    if i <= 0 {
        0
    } else {
        planes_below(b, i - 1) | b[i - 1]
    }
}

/// The complaint about the planes from the one at `i` on: too many pieces of a
/// shape, or two pieces on one cell.
pub open spec fn planes_complaint(b: Seq<u16>, i: int) -> Option<Seq<char>>
    decreases 8 - i,
{
    if i < 0 || i >= 8 {
        None
    } else {
        either(
            complain(
                popcount(b[i]) > 2,
                item_name("bitboards"@, i) + " exceeds max pieces per shape"@,
            ),
            either(
                complain(
                    planes_below(b, i) & b[i] != 0,
                    "bitboards contain overlapping pieces"@,
                ),
                planes_complaint(b, i + 1),
            ),
        )
    }
}

/// Whether both players hold `shape` on line `k`.
pub open spec fn line_conflict(b: Seq<u16>, shape: int, k: int) -> bool {
    plane(b, 0, shape) & line(k) != 0 && plane(b, 1, shape) & line(k) != 0
}

/// Whether both players hold the same shape on some line.
pub open spec fn has_conflict(b: Seq<u16>) -> bool {
    exists|shape: int, k: int|
        0 <= shape < 4 && 0 <= k < 12 && #[trigger] line_conflict(b, shape, k)
}

/// The first thing that is wrong with a board state.
pub open spec fn board_complaint(b: Seq<u16>) -> Option<Seq<char>> {
    either(
        planes_complaint(b, 0),
        either(
            complain(has_conflict(b), "bitboards contain illegal same-shape line conflict"@),
            complain(to_move(b) is None, "side_to_move does not match bitboards"@),
        ),
    )
}

/// Check a board state; the side to move if nothing is wrong with it.
pub fn validate_bitboard_state(bitboards: &Bitboard) -> (r: Result<u8, String>)
    ensures
        match r {
            Ok(p) => board_complaint(bitboards@) is None && to_move(bitboards@) == Some(p),
            Err(m) => board_complaint(bitboards@) == Some(m@),
        },
{
    let ghost b = bitboards@;
    let mut occupied: u16 = 0;
    let mut i: usize = 0;
    while i < 8
        invariant
            i <= 8,
            b == bitboards@,
            occupied == planes_below(b, i as int),
            planes_complaint(b, 0) == planes_complaint(b, i as int),
        decreases 8 - i,
    {
        let cells: u16 = bitboards.planes[i];
        assert(cells == b[i as int]);
        if cells.count_ones() > MAX_PIECES_PER_SHAPE as u32 {
            let name = item_field("bitboards", i);
            return Err(concat(name.as_str(), " exceeds max pieces per shape"));
        }
        if occupied & cells != 0 {
            return Err("bitboards contain overlapping pieces".to_owned());
        }
        occupied = occupied | cells;
        i = i + 1;
    }
    let mut shape: usize = 0;
    while shape < 4
        invariant
            shape <= 4,
            b == bitboards@,
            planes_complaint(b, 0) is None,
            forall|s: int, k: int|
                0 <= s < shape && 0 <= k < 12 ==> !#[trigger] line_conflict(b, s, k),
        decreases 4 - shape,
    {
        let p0: u16 = bitboards.planes[shape];
        let p1: u16 = bitboards.planes[shape + 4];
        let mut k: usize = 0;
        while k < 12
            invariant
                k <= 12,
                shape < 4,
                b == bitboards@,
                p0 == plane(b, 0, shape as int),
                p1 == plane(b, 1, shape as int),
                planes_complaint(b, 0) is None,
                forall|j: int| 0 <= j < k ==> !#[trigger] line_conflict(b, shape as int, j),
            decreases 12 - k,
        {
            proof {
                lemma_win_masks();
            }
            let mask: u16 = WIN_MASKS[k];
            assert(mask == line(k as int));
            if p0 & mask != 0 && p1 & mask != 0 {
                assert(line_conflict(b, shape as int, k as int));
                return Err("bitboards contain illegal same-shape line conflict".to_owned());
            }
            k = k + 1;
        }
        shape = shape + 1;
    }
    match current_player(bitboards) {
        Some(p) => Ok(p),
        None => Err("side_to_move does not match bitboards".to_owned()),
    }
}

/// On a valid board state no cell holds two pieces and no player has more than
/// two pieces of a shape.
pub proof fn law_valid_boards(b: Seq<u16>)
    requires
        b.len() == 8,
        board_complaint(b) is None,
    ensures
        disjoint_planes(b),
        forall|i: int| 0 <= i < 8 ==> popcount(#[trigger] b[i]) <= 2,
        to_move(b) is Some,
{
    assert forall|i: int| 0 <= i < 8 implies popcount(#[trigger] b[i]) <= 2 && planes_below(b, i)
        & b[i] == 0 by {
        lemma_no_plane_complaint(b, i);
    }
    assert forall|i: int, j: int, p: int|
        0 <= i < 8 && 0 <= j < 8 && 0 <= p < 16 && #[trigger] bit(b[i], p) && #[trigger] bit(
            b[j],
            p,
        ) implies i == j by {
        if i < j {
            lemma_planes_below(b, i, j, p);
            lemma_bit_ops(planes_below(b, j), b[j], p, p);
            lemma_bit_ops(planes_below(b, j) & b[j], 0, p, p);
            assert(planes_below(b, j) & b[j] == 0);
        } else if j < i {
            lemma_planes_below(b, j, i, p);
            lemma_bit_ops(planes_below(b, i), b[i], p, p);
            lemma_bit_ops(planes_below(b, i) & b[i], 0, p, p);
            assert(planes_below(b, i) & b[i] == 0);
        }
    }
}

proof fn lemma_no_plane_complaint(b: Seq<u16>, i: int)
    requires
        0 <= i < 8,
        planes_complaint(b, 0) is None,
    ensures
        planes_complaint(b, i) is None,
        popcount(b[i]) <= 2,
        planes_below(b, i) & b[i] == 0,
    decreases i,
{
    if i > 0 {
        lemma_no_plane_complaint(b, i - 1);
    }
}

proof fn lemma_planes_below(b: Seq<u16>, i: int, j: int, p: int)
    requires
        0 <= i < j,
        0 <= p < 16,
        bit(b[i], p),
    ensures
        bit(planes_below(b, j), p),
    decreases j,
{
    lemma_bit_ops(planes_below(b, j - 1), b[j - 1], p, p);
    if i < j - 1 {
        lemma_planes_below(b, i, j - 1, p);
    }
}

} // verus!
