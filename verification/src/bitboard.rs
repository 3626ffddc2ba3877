//! The board as eight planes of sixteen bits.
use crate::constants::NUM_PLANES;
use vstd::prelude::*;

verus! {

/// Whether bit `i` of `x` is set.
pub open spec fn bit(x: u16, i: int) -> bool {
    (x >> (i as u16)) & 1u16 == 1u16
}

/// The sum of the bits of `x`.
pub open spec fn bit_sum(x: u16) -> int {
    (x & 1) + ((x >> 1) & 1) + ((x >> 2) & 1) + ((x >> 3) & 1) + ((x >> 4) & 1) + ((x >> 5) & 1) + (
    (x >> 6) & 1) + ((x >> 7) & 1) + ((x >> 8) & 1) + ((x >> 9) & 1) + ((x >> 10) & 1) + ((x >> 11)
        & 1) + ((x >> 12) & 1) + ((x >> 13) & 1) + ((x >> 14) & 1) + ((x >> 15) & 1)
}

/// The number of bits that are set in `x`.
#[verifier::opaque]
pub open spec fn popcount(x: u16) -> int {
    bit_sum(x)
}

/// `u16::count_ones` of the standard library returns the number of one bits.
pub assume_specification[ u16::count_ones ](x: u16) -> (n: u32)
    ensures
        n == popcount(x),
;

proof fn lemma_bit_ops_u16(x: u16, y: u16, i: u16, p: u16)
    by (bit_vector)
    requires
        i < 16,
        p < 16,
    ensures
        ((x | y) >> i) & 1u16 == 1u16 <==> ((x >> i) & 1u16 == 1u16 || (y >> i) & 1u16 == 1u16),
        ((x & y) >> i) & 1u16 == 1u16 <==> ((x >> i) & 1u16 == 1u16 && (y >> i) & 1u16 == 1u16),
        ((!x) >> i) & 1u16 == 1u16 <==> !((x >> i) & 1u16 == 1u16),
        ((1u16 << p) >> i) & 1u16 == 1u16 <==> i == p,
        (1u16 << p) & x != 0 <==> (x >> p) & 1u16 == 1u16,
        x & (1u16 << p) != 0 <==> (x >> p) & 1u16 == 1u16,
        (x >> i) & 1u16 == 1u16 ==> x != 0,
{
}

/// Membership of a cell in unions, intersections, complements and singletons.
pub proof fn lemma_bit_ops(x: u16, y: u16, i: int, p: int)
    requires
        0 <= i < 16,
        0 <= p < 16,
    ensures
        bit(x | y, i) <==> (bit(x, i) || bit(y, i)),
        bit(x & y, i) <==> (bit(x, i) && bit(y, i)),
        bit(!x, i) <==> !bit(x, i),
        bit(1u16 << (p as u16), i) <==> i == p,
        (1u16 << (p as u16)) & x != 0 <==> bit(x, p),
        x & (1u16 << (p as u16)) != 0 <==> bit(x, p),
        bit(x, i) ==> x != 0,
{
    lemma_bit_ops_u16(x, y, i as u16, p as u16);
}

proof fn lemma_popcount_u16(x: u16, p: u16)
    by (bit_vector)
    requires
        p < 16,
    ensures
        0 <= bit_sum(x) <= 16,
        bit_sum(0) == 0,
        bit_sum(x) == 0 ==> x == 0,
        (x >> p) & 1u16 == 1u16 ==> bit_sum(x) >= 1,
        !((x >> p) & 1u16 == 1u16) ==> bit_sum(x | (1u16 << p)) == bit_sum(x) + 1,
        (x >> p) & 1u16 == 1u16 ==> (x | (1u16 << p)) == x,
{
}

/// A set of cells counts its members; adding a new cell adds one.
pub proof fn lemma_popcount(x: u16, p: int)
    requires
        0 <= p < 16,
    ensures
        0 <= popcount(x) <= 16,
        popcount(0) == 0,
        popcount(x) == 0 ==> x == 0,
        bit(x, p) ==> popcount(x) >= 1,
        !bit(x, p) ==> popcount(x | (1u16 << (p as u16))) == popcount(x) + 1,
        bit(x, p) ==> (x | (1u16 << (p as u16))) == x,
{
    reveal(popcount);
    lemma_popcount_u16(x, p as u16);
}

proof fn lemma_popcount_union_u16(x: u16, y: u16)
    by (bit_vector)
    requires
        x & y == 0,
    ensures
        bit_sum(x | y) == bit_sum(x) + bit_sum(y),
{
}

/// The members of two sets without common members add up.
pub proof fn lemma_popcount_union(x: u16, y: u16)
    requires
        x & y == 0,
    ensures
        popcount(x | y) == popcount(x) + popcount(y),
{
    reveal(popcount);
    lemma_popcount_union_u16(x, y);
}

/// The plane of `player` and `shape` in the planes `b`.
pub open spec fn plane(b: Seq<u16>, player: int, shape: int) -> u16 {
    b[player * 4 + shape]
}

/// All the cells that hold a piece.
pub open spec fn taken(b: Seq<u16>) -> u16 {
    b[0] | b[1] | b[2] | b[3] | b[4] | b[5] | b[6] | b[7]
}

/// The number of pieces that `player` has on the board.
pub open spec fn pieces(b: Seq<u16>, player: int) -> int {
    popcount(plane(b, player, 0)) + popcount(plane(b, player, 1)) + popcount(plane(b, player, 2))
        + popcount(plane(b, player, 3))
}

/// The planes after `player` has put `shape` on cell `pos`.
pub open spec fn placed(b: Seq<u16>, player: int, shape: int, pos: int) -> Seq<u16> {
    b.update(player * 4 + shape, plane(b, player, shape) | (1u16 << (pos as u16)))
}

/// The sixteen bytes of the planes, low byte first.
pub open spec fn le_bytes(b: Seq<u16>) -> Seq<u8> {
    Seq::new(
        16,
        |i: int|
            if i % 2 == 0 {
                (b[i / 2] % 256) as u8
            } else {
                (b[i / 2] / 256) as u8
            },
    )
}

/// A cell is taken exactly if some plane holds it.
pub proof fn lemma_taken(b: Seq<u16>, pos: int)
    requires
        b.len() == 8,
        0 <= pos < 16,
    ensures
        bit(taken(b), pos) <==> exists|i: int| 0 <= i < 8 && bit(#[trigger] b[i], pos),
{
    let u1 = b[0] | b[1];
    let u2 = u1 | b[2];
    let u3 = u2 | b[3];
    let u4 = u3 | b[4];
    let u5 = u4 | b[5];
    let u6 = u5 | b[6];
    lemma_bit_ops(b[0], b[1], pos, 0);
    lemma_bit_ops(u1, b[2], pos, 0);
    lemma_bit_ops(u2, b[3], pos, 0);
    lemma_bit_ops(u3, b[4], pos, 0);
    lemma_bit_ops(u4, b[5], pos, 0);
    lemma_bit_ops(u5, b[6], pos, 0);
    lemma_bit_ops(u6, b[7], pos, 0);
}

/// Putting a piece on a cell that its plane does not hold adds one piece to the
/// player's count and leaves the other player's count as it was.
pub proof fn lemma_placed_pieces(b: Seq<u16>, player: int, shape: int, pos: int)
    requires
        b.len() == 8,
        0 <= player < 2,
        0 <= shape < 4,
        0 <= pos < 16,
        !bit(plane(b, player, shape), pos),
    ensures
        pieces(placed(b, player, shape, pos), player) == pieces(b, player) + 1,
        pieces(placed(b, player, shape, pos), 1 - player) == pieces(b, 1 - player),
{
    lemma_popcount(plane(b, player, shape), pos);
}

/// The planes can be read back from their bytes.
pub proof fn lemma_le_bytes_injective(a: Seq<u16>, b: Seq<u16>)
    requires
        a.len() == 8,
        b.len() == 8,
        le_bytes(a) == le_bytes(b),
    ensures
        a == b,
{
    assert forall|i: int| 0 <= i < 8 implies a[i] == b[i] by {
        let low = 2 * i;
        let high = 2 * i + 1;
        assert(low / 2 == i && low % 2 == 0 && high / 2 == i && high % 2 == 1);
        assert(le_bytes(a)[low] == le_bytes(b)[low]);
        assert(le_bytes(a)[high] == le_bytes(b)[high]);
        assert(le_bytes(a)[low] == (a[i] % 256) as u8 && le_bytes(b)[low] == (b[i] % 256) as u8);
        assert(le_bytes(a)[high] == (a[i] / 256) as u8 && le_bytes(b)[high] == (b[i] / 256) as u8);
        assert(0 <= a[i] % 256 < 256 && 0 <= b[i] % 256 < 256);
        assert(0 <= a[i] / 256 < 256 && 0 <= b[i] / 256 < 256);
        assert(a[i] == 256 * (a[i] / 256) + a[i] % 256);
        assert(b[i] == 256 * (b[i] / 256) + b[i] % 256);
    }
    assert(a =~= b);
}

/// A Quantik board: one plane of sixteen cells per player and shape.
///
/// Layout: plane `4 * player + shape`, with the shapes A to D numbered 0 to 3.
/// Cell `4 * row + column` is bit `4 * row + column` of a plane.
#[derive(Clone, Copy, Hash, Debug)]
pub struct Bitboard {
    pub planes: [u16; NUM_PLANES],
}

impl View for Bitboard {
    type V = Seq<u16>;

    open spec fn view(&self) -> Seq<u16> {
        self.planes@
    }
}

impl PartialEq for Bitboard {
    fn eq(&self, other: &Self) -> (r: bool) {
        let mut i: usize = 0;
        while i < 8
            invariant
                i <= 8,
                forall|j: int| 0 <= j < i ==> self.planes@[j] == other.planes@[j],
            decreases 8 - i,
        {
            if self.planes[i] != other.planes[i] {
                return false;
            }
            i = i + 1;
        }
        assert(self.planes@ =~= other.planes@);
        true
    }
}

impl vstd::std_specs::cmp::PartialEqSpecImpl for Bitboard {
    open spec fn obeys_eq_spec() -> bool {
        true
    }

    open spec fn eq_spec(&self, other: &Self) -> bool {
        self.planes@ == other.planes@
    }
}

impl Eq for Bitboard {

}

impl Bitboard {
    /// The board without any piece.
    #[inline]
    pub fn empty() -> (bb: Self)
        ensures
            bb@ == Seq::new(8, |i: int| 0u16),
    {
        let bb = Self { planes: [0;NUM_PLANES] };
        assert(bb@ =~= Seq::new(8, |i: int| 0u16));
        bb
    }

    #[inline]
    pub fn new(planes: [u16; NUM_PLANES]) -> (bb: Self)
        ensures
            bb@ == planes@,
    {
        Self { planes }
    }

    /// The index of the plane that holds `player`'s pieces of `shape`.
    #[inline]
    pub fn plane_index(player: u8, shape: u8) -> (i: usize)
        ensures
            i == player * 4 + shape,
    {
        (player as usize) * 4 + (shape as usize)
    }

    /// The cells that hold a piece, as a mask.
    #[inline]
    pub fn occupied(&self) -> (cells: u16)
        ensures
            cells == taken(self@),
            forall|pos: int|
                0 <= pos < 16 ==> (#[trigger] bit(cells, pos) <==> exists|i: int|
                    0 <= i < 8 && bit(#[trigger] self@[i], pos)),
    {
        proof {
            assert forall|pos: int| 0 <= pos < 16 implies (#[trigger] bit(taken(self@), pos)
                <==> exists|i: int| 0 <= i < 8 && bit(#[trigger] self@[i], pos)) by {
                lemma_taken(self@, pos);
            }
        }
        self.planes[0] | self.planes[1] | self.planes[2] | self.planes[3] | self.planes[4]
            | self.planes[5] | self.planes[6] | self.planes[7]
    }

    #[inline]
    pub fn is_position_occupied(&self, pos: u8) -> (r: bool)
        requires
            pos < 16,
        ensures
            r <==> bit(taken(self@), pos as int),
            r <==> exists|i: int| 0 <= i < 8 && bit(#[trigger] self@[i], pos as int),
    {
        proof {
            lemma_taken(self@, pos as int);
            lemma_bit_ops(taken(self@), 0, pos as int, pos as int);
        }
        self.occupied() & (1u16 << (pos as u16)) != 0
    }

    /// Set one bit and return a new bitboard.
    #[inline]
    pub fn with_move(&self, player: u8, shape: u8, position: u8) -> (bb: Self)
        requires
            player < 2,
            shape < 4,
            position < 16,
        ensures
            bb@ == placed(self@, player as int, shape as int, position as int),
            forall|i: int, pos: int|
                0 <= i < 8 && 0 <= pos < 16 ==> (#[trigger] bit(bb@[i], pos) <==> bit(self@[i], pos)
                    || (i == player * 4 + shape && pos == position)),
    {
        let mut bb = *self;
        let index = Self::plane_index(player, shape);
        let old_plane = bb.planes[index];
        bb.planes[index] = old_plane | (1u16 << (position as u16));
        proof {
            assert forall|i: int, pos: int| 0 <= i < 8 && 0 <= pos < 16 implies (#[trigger] bit(
                bb@[i],
                pos,
            ) <==> bit(self@[i], pos) || (i == player * 4 + shape && pos == position)) by {
                lemma_bit_ops(old_plane, 1u16 << (position as u16), pos, position as int);
            }
        }
        bb
    }

    /// Total number of pieces for a given player.
    #[inline]
    pub fn player_piece_count(&self, player: u8) -> (n: u32)
        requires
            player < 2,
        ensures
            n == pieces(self@, player as int),
            n <= 64,
    {
        let base = (player as usize) * 4;
        proof {
            lemma_popcount(self@[base as int], 0);
            lemma_popcount(self@[base + 1], 0);
            lemma_popcount(self@[base + 2], 0);
            lemma_popcount(self@[base + 3], 0);
        }
        self.planes[base].count_ones() + self.planes[base + 1].count_ones() + self.planes[base
            + 2].count_ones() + self.planes[base + 3].count_ones()
    }

    /// Piece count for a specific (player, shape) pair.
    #[inline]
    pub fn shape_piece_count(&self, player: u8, shape: u8) -> (n: u32)
        requires
            player < 2,
            shape < 4,
        ensures
            n == popcount(plane(self@, player as int, shape as int)),
            n <= 16,
    {
        proof {
            lemma_popcount(plane(self@, player as int, shape as int), 0);
        }
        self.planes[Self::plane_index(player, shape)].count_ones()
    }

    /// Pack to 16 little-endian bytes.
    pub fn to_le_bytes(&self) -> (buf: [u8; 16])
        ensures
            buf@ == le_bytes(self@),
    {
        let mut buf = [0u8;16];
        let mut i: usize = 0;
        while i < 8
            invariant
                i <= 8,
                forall|j: int| 0 <= j < 2 * i ==> buf@[j] == le_bytes(self@)[j],
            decreases 8 - i,
        {
            let plane = self.planes[i];
            buf[i * 2] = (plane % 256) as u8;
            buf[i * 2 + 1] = (plane / 256) as u8;
            i = i + 1;
        }
        assert(buf@ =~= le_bytes(self@));
        buf
    }

    /// Unpack from 16 little-endian bytes.
    pub fn from_le_bytes(buf: &[u8; 16]) -> (bb: Self)
        ensures
            le_bytes(bb@) == buf@,
            forall|i: int|
                0 <= i < 8 ==> #[trigger] bb@[i] == buf@[2 * i] + 256 * buf@[2 * i + 1],
    {
        let mut planes = [0u16;NUM_PLANES];
        let mut i: usize = 0;
        while i < 8
            invariant
                i <= 8,
                forall|j: int|
                    0 <= j < i ==> #[trigger] planes@[j] == buf@[2 * j] + 256 * buf@[2 * j + 1],
            decreases 8 - i,
        {
            planes[i] = (buf[i * 2] as u16) + 256 * (buf[i * 2 + 1] as u16);
            i = i + 1;
        }
        let bb = Self { planes };
        proof {
            assert forall|j: int| 0 <= j < 16 implies le_bytes(bb@)[j] == buf@[j] by {
                let k = j / 2;
                assert(planes@[k] == buf@[2 * k] + 256 * buf@[2 * k + 1]);
            }
            assert(le_bytes(bb@) =~= buf@);
        }
        bb
    }
}

impl Default for Bitboard {
    fn default() -> (bb: Self)
        ensures
            bb@ == Seq::new(8, |i: int| 0u16),
    {
        Self::empty()
    }
}

/// Packing and unpacking are inverse: the planes whose bytes are those of `b`
/// are `b` itself.
pub proof fn law_bytes_round_trip(b: Seq<u16>, unpacked: Seq<u16>)
    requires
        b.len() == 8,
        unpacked.len() == 8,
        le_bytes(unpacked) == le_bytes(b),
    ensures
        unpacked == b,
{
    lemma_le_bytes_injective(unpacked, b);
}

} // verus!
