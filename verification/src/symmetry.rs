//! The symmetries of the board and canonical representatives.
//!
//! A symmetry turns or mirrors the board (eight ways) and renames the four
//! shapes (twenty-four ways). Colors are never swapped.
use crate::bitboard::{bit, bit_sum, le_bytes, popcount, Bitboard};
use crate::constants::line;
use vstd::prelude::*;

verus! {

/// The cells mirrored top to bottom.
pub open spec fn mirror_rows(x: u16) -> u16 {
    (x << 12) | ((x & 0x00F0) << 4) | ((x & 0x0F00) >> 4) | (x >> 12)
}

/// The cells mirrored left to right.
pub open spec fn mirror_cols(x: u16) -> u16 {
    ((x & 0x1111) << 3) | ((x & 0x2222) << 1) | ((x & 0x4444) >> 1) | ((x & 0x8888) >> 3)
}

/// The cells mirrored at the main diagonal.
pub open spec fn transposed(x: u16) -> u16 {
    (x & 0x8421) | ((x & 0x0842) << 3) | ((x & 0x0084) << 6) | ((x & 0x0008) << 9) | ((x & 0x4210)
        >> 3) | ((x & 0x2100) >> 6) | ((x & 0x1000) >> 9)
}

/// A symmetry: mirror the rows, mirror the columns and transpose as the flags
/// say, in this order, and let shape `j` of the result be shape `from[j]`.
pub struct Sym {
    pub transpose: bool,
    pub cols: bool,
    pub rows: bool,
    pub from: Seq<int>,
}

/// Whether `from` names each of the four shapes once.
pub open spec fn is_relabeling(from: Seq<int>) -> bool {
    &&& from.len() == 4
    &&& 0 <= from[0] < 4 && 0 <= from[1] < 4 && 0 <= from[2] < 4 && 0 <= from[3] < 4
    &&& from[0] != from[1] && from[0] != from[2] && from[0] != from[3]
    &&& from[1] != from[2] && from[1] != from[3] && from[2] != from[3]
}

impl Sym {
    pub open spec fn valid(self) -> bool {
        is_relabeling(self.from)
    }

    /// Where the symmetry takes a set of cells.
    pub open spec fn cells(self, x: u16) -> u16 {
        let a = if self.rows {
            mirror_rows(x)
        } else {
            x
        };
        let b = if self.cols {
            mirror_cols(a)
        } else {
            a
        };
        if self.transpose {
            transposed(b)
        } else {
            b
        }
    }

    /// Where the symmetry takes one cell.
    pub open spec fn cell(self, p: int) -> int {
        let r0 = if self.rows {
            3 - p / 4
        } else {
            p / 4
        };
        let c0 = if self.cols {
            3 - p % 4
        } else {
            p % 4
        };
        if self.transpose {
            c0 * 4 + r0
        } else {
            r0 * 4 + c0
        }
    }

    /// Where the symmetry takes line `k`.
    pub open spec fn line_index(self, k: int) -> int {
        let a = if self.rows {
            rows_line(k)
        } else {
            k
        };
        let b = if self.cols {
            cols_line(a)
        } else {
            a
        };
        if self.transpose {
            transposed_line(b)
        } else {
            b
        }
    }

    /// The new name of shape `s`.
    pub open spec fn shape(self, s: int) -> int {
        if self.from[0] == s {
            0
        } else if self.from[1] == s {
            1
        } else if self.from[2] == s {
            2
        } else {
            3
        }
    }

    /// First `self`, and `then` after it.
    pub open spec fn followed_by(self, then_sym: Sym) -> Sym {
        Sym {
            transpose: self.transpose != then_sym.transpose,
            cols: if self.transpose {
                then_sym.rows != self.cols
            } else {
                then_sym.cols != self.cols
            },
            rows: if self.transpose {
                then_sym.cols != self.rows
            } else {
                then_sym.rows != self.rows
            },
            from: Seq::new(4, |j: int| self.from[then_sym.from[j]]),
        }
    }

    /// The symmetry that takes `self` back.
    pub open spec fn inverse(self) -> Sym {
        Sym {
            transpose: self.transpose,
            cols: if self.transpose {
                self.rows
            } else {
                self.cols
            },
            rows: if self.transpose {
                self.cols
            } else {
                self.rows
            },
            from: Seq::new(4, |j: int| self.shape(j)),
        }
    }
}

/// The symmetry that changes nothing.
pub open spec fn identity_sym() -> Sym {
    Sym { transpose: false, cols: false, rows: false, from: seq![0int, 1, 2, 3] }
}

/// The line that line `k` becomes when the rows are mirrored.
pub open spec fn rows_line(k: int) -> int {
    if k < 4 {
        3 - k
    } else if k < 8 {
        k
    } else if k < 10 {
        k + 2
    } else {
        k - 2
    }
}

/// The line that line `k` becomes when the columns are mirrored.
pub open spec fn cols_line(k: int) -> int {
    if k < 4 {
        k
    } else if k < 8 {
        11 - k
    } else if k == 8 || k == 10 {
        k + 1
    } else {
        k - 1
    }
}

/// The line that line `k` becomes when the board is transposed.
pub open spec fn transposed_line(k: int) -> int {
    if k < 4 {
        k + 4
    } else if k < 8 {
        k - 4
    } else if k == 9 {
        10
    } else if k == 10 {
        9
    } else {
        k
    }
}

/// The planes `b` seen through the symmetry `g`.
pub open spec fn image(b: Seq<u16>, g: Sym) -> Seq<u16> {
    Seq::new(8, |i: int| g.cells(b[4 * (i / 4) + g.from[i % 4]]))
}

proof fn lemma_mirror_rows(x: u16, y: u16, p: u16)
    by (bit_vector)
    requires
        p < 16,
    ensures
        mirror_rows(x & y) == mirror_rows(x) & mirror_rows(y),
        mirror_rows(x | y) == mirror_rows(x) | mirror_rows(y),
        mirror_rows(x) == 0 <==> x == 0,
        mirror_rows(mirror_rows(x)) == x,
        bit_sum(mirror_rows(x)) == bit_sum(x),
        (mirror_rows(x) >> (((3 - p / 4) * 4 + p % 4) as u16)) & 1u16 == (x >> p) & 1u16,
{
}

proof fn lemma_mirror_cols(x: u16, y: u16, p: u16)
    by (bit_vector)
    requires
        p < 16,
    ensures
        mirror_cols(x & y) == mirror_cols(x) & mirror_cols(y),
        mirror_cols(x | y) == mirror_cols(x) | mirror_cols(y),
        mirror_cols(x) == 0 <==> x == 0,
        mirror_cols(mirror_cols(x)) == x,
        bit_sum(mirror_cols(x)) == bit_sum(x),
        (mirror_cols(x) >> (((p / 4) * 4 + (3 - p % 4)) as u16)) & 1u16 == (x >> p) & 1u16,
{
}

proof fn lemma_transposed(x: u16, y: u16, p: u16)
    by (bit_vector)
    requires
        p < 16,
    ensures
        transposed(x & y) == transposed(x) & transposed(y),
        transposed(x | y) == transposed(x) | transposed(y),
        transposed(x) == 0 <==> x == 0,
        transposed(transposed(x)) == x,
        bit_sum(transposed(x)) == bit_sum(x),
        (transposed(x) >> (((p % 4) * 4 + p / 4) as u16)) & 1u16 == (x >> p) & 1u16,
{
}

proof fn lemma_mirrors_commute(x: u16)
    by (bit_vector)
    ensures
        mirror_rows(mirror_cols(x)) == mirror_cols(mirror_rows(x)),
        transposed(mirror_rows(x)) == mirror_cols(transposed(x)),
        transposed(mirror_cols(x)) == mirror_rows(transposed(x)),
{
}

proof fn lemma_line_mirrors()
    ensures
        forall|k: int| 0 <= k < 12 ==> mirror_rows(#[trigger] line(k)) == line(rows_line(k)),
        forall|k: int| 0 <= k < 12 ==> mirror_cols(#[trigger] line(k)) == line(cols_line(k)),
        forall|k: int| 0 <= k < 12 ==> transposed(#[trigger] line(k)) == line(transposed_line(k)),
{
    assert(mirror_rows(0x000F) == 0xF000 && mirror_rows(0x00F0) == 0x0F00 && mirror_rows(0x0F00)
        == 0x00F0 && mirror_rows(0xF000) == 0x000F && mirror_rows(0x1111) == 0x1111 && mirror_rows(
        0x2222,
    ) == 0x2222 && mirror_rows(0x4444) == 0x4444 && mirror_rows(0x8888) == 0x8888 && mirror_rows(
        0x0033,
    ) == 0x3300 && mirror_rows(0x00CC) == 0xCC00 && mirror_rows(0x3300) == 0x0033 && mirror_rows(
        0xCC00,
    ) == 0x00CC) by (bit_vector);
    assert(mirror_cols(0x000F) == 0x000F && mirror_cols(0x00F0) == 0x00F0 && mirror_cols(0x0F00)
        == 0x0F00 && mirror_cols(0xF000) == 0xF000 && mirror_cols(0x1111) == 0x8888 && mirror_cols(
        0x2222,
    ) == 0x4444 && mirror_cols(0x4444) == 0x2222 && mirror_cols(0x8888) == 0x1111 && mirror_cols(
        0x0033,
    ) == 0x00CC && mirror_cols(0x00CC) == 0x0033 && mirror_cols(0x3300) == 0xCC00 && mirror_cols(
        0xCC00,
    ) == 0x3300) by (bit_vector);
    assert(transposed(0x000F) == 0x1111 && transposed(0x00F0) == 0x2222 && transposed(0x0F00)
        == 0x4444 && transposed(0xF000) == 0x8888 && transposed(0x1111) == 0x000F && transposed(
        0x2222,
    ) == 0x00F0 && transposed(0x4444) == 0x0F00 && transposed(0x8888) == 0xF000 && transposed(
        0x0033,
    ) == 0x0033 && transposed(0x00CC) == 0x3300 && transposed(0x3300) == 0x00CC && transposed(
        0xCC00,
    ) == 0xCC00) by (bit_vector);
}

/// A symmetry respects intersections, unions, emptiness and the number of cells.
pub proof fn lemma_cells(g: Sym, x: u16, y: u16)
    ensures
        g.cells(x & y) == g.cells(x) & g.cells(y),
        g.cells(x | y) == g.cells(x) | g.cells(y),
        g.cells(x) == 0 <==> x == 0,
        popcount(g.cells(x)) == popcount(x),
{
    reveal(popcount);
    lemma_mirror_rows(x, y, 0);
    let (x1, y1) = if g.rows {
        (mirror_rows(x), mirror_rows(y))
    } else {
        (x, y)
    };
    lemma_mirror_cols(x1, y1, 0);
    let (x2, y2) = if g.cols {
        (mirror_cols(x1), mirror_cols(y1))
    } else {
        (x1, y1)
    };
    lemma_transposed(x2, y2, 0);
}

/// A symmetry takes the members of a set of cells to the members of its image.
pub proof fn lemma_cell(g: Sym, x: u16, p: int)
    requires
        0 <= p < 16,
    ensures
        0 <= g.cell(p) < 16,
        bit(g.cells(x), g.cell(p)) <==> bit(x, p),
{
    lemma_mirror_rows(x, 0, p as u16);
    let (x1, p1) = if g.rows {
        (mirror_rows(x), (3 - p / 4) * 4 + p % 4)
    } else {
        (x, p)
    };
    assert(0 <= p1 < 16);
    assert(bit(x1, p1) <==> bit(x, p));
    lemma_mirror_cols(x1, 0, p1 as u16);
    let (x2, p2) = if g.cols {
        (mirror_cols(x1), (p1 / 4) * 4 + (3 - p1 % 4))
    } else {
        (x1, p1)
    };
    assert(0 <= p2 < 16);
    assert(bit(x2, p2) <==> bit(x1, p1));
    lemma_transposed(x2, 0, p2 as u16);
    assert(g.cell(p) == if g.transpose {
        (p2 % 4) * 4 + p2 / 4
    } else {
        p2
    });
}

/// A symmetry takes a cell that is alone to a cell that is alone.
pub proof fn lemma_single_cell(g: Sym, p: int)
    requires
        0 <= p < 16,
    ensures
        g.cells(1u16 << (p as u16)) == 1u16 << (g.cell(p) as u16),
{
    let one = 1u16 << (p as u16);
    let p16 = p as u16;
    assert(mirror_rows(1u16 << p16) == 1u16 << (((3 - p16 / 4) * 4 + p16 % 4) as u16)) by (bit_vector)
        requires
            p16 < 16,
    ;
    let p1 = if g.rows {
        (3 - p / 4) * 4 + p % 4
    } else {
        p
    };
    let q16 = p1 as u16;
    assert(mirror_cols(1u16 << q16) == 1u16 << (((q16 / 4) * 4 + (3 - q16 % 4)) as u16)) by (
    bit_vector)
        requires
            q16 < 16,
    ;
    let p2 = if g.cols {
        (p1 / 4) * 4 + (3 - p1 % 4)
    } else {
        p1
    };
    let r16 = p2 as u16;
    assert(transposed(1u16 << r16) == 1u16 << (((r16 % 4) * 4 + r16 / 4) as u16)) by (bit_vector)
        requires
            r16 < 16,
    ;
    assert(g.cell(p) == if g.transpose {
        (p2 % 4) * 4 + p2 / 4
    } else {
        p2
    });
}

/// A symmetry takes lines to lines.
pub proof fn lemma_line(g: Sym, k: int)
    requires
        0 <= k < 12,
    ensures
        0 <= g.line_index(k) < 12,
        g.cells(line(k)) == line(g.line_index(k)),
{
    lemma_line_mirrors();
    let k1 = if g.rows {
        rows_line(k)
    } else {
        k
    };
    assert(0 <= k1 < 12);
    let k2 = if g.cols {
        cols_line(k1)
    } else {
        k1
    };
    assert(0 <= k2 < 12);
    assert(mirror_rows(line(k)) == line(rows_line(k)));
    assert(mirror_cols(line(k1)) == line(cols_line(k1)));
    assert(transposed(line(k2)) == line(transposed_line(k2)));
}

/// One symmetry after another is a symmetry.
pub proof fn lemma_followed_by(b: Seq<u16>, g: Sym, h: Sym)
    requires
        b.len() == 8,
        g.valid(),
        h.valid(),
    ensures
        g.followed_by(h).valid(),
        image(image(b, g), h) == image(b, g.followed_by(h)),
{
    let c = g.followed_by(h);
    assert forall|x: u16| h.cells(#[trigger] g.cells(x)) == c.cells(x) by {
        lemma_cells_followed_by(x, g, h);
    }
    assert forall|i: int| 0 <= i < 8 implies image(image(b, g), h)[i] == image(b, c)[i] by {
        let j = h.from[i % 4];
        assert(0 <= j < 4);
        let i1 = 4 * (i / 4) + j;
        assert(i1 / 4 == i / 4 && i1 % 4 == j);
        assert(image(b, g)[i1] == g.cells(b[4 * (i / 4) + g.from[j]]));
    }
    assert(image(image(b, g), h) =~= image(b, c));
}

proof fn lemma_cells_followed_by(x: u16, g: Sym, h: Sym)
    ensures
        h.cells(g.cells(x)) == g.followed_by(h).cells(x),
{
    let x1 = if g.rows {
        mirror_rows(x)
    } else {
        x
    };
    let x2 = if g.cols {
        mirror_cols(x1)
    } else {
        x1
    };
    let x3 = if g.transpose {
        transposed(x2)
    } else {
        x2
    };
    let m = if g.transpose {
        h.cols
    } else {
        h.rows
    };
    let n = if g.transpose {
        h.rows
    } else {
        h.cols
    };
    // The mirrors of `h` are moved in front of the transposition of `g`.
    let y1 = if m {
        mirror_rows(x2)
    } else {
        x2
    };
    let y2 = if n {
        mirror_cols(y1)
    } else {
        y1
    };
    lemma_mirrors_commute(x);
    lemma_mirrors_commute(x1);
    lemma_mirrors_commute(x2);
    lemma_mirrors_commute(y1);
    lemma_mirrors_commute(mirror_rows(x2));
    lemma_mirrors_commute(mirror_cols(x2));
    lemma_mirrors_commute(mirror_rows(x));
    lemma_mirror_rows(x, 0, 0);
    lemma_mirror_cols(x, 0, 0);
    lemma_mirror_rows(x1, 0, 0);
    lemma_mirror_cols(x1, 0, 0);
    lemma_mirror_cols(mirror_rows(x), 0, 0);
    lemma_mirror_cols(mirror_rows(x1), 0, 0);
    lemma_transposed(x2, 0, 0);
    lemma_transposed(y2, 0, 0);
}

/// Every symmetry can be taken back.
pub proof fn lemma_inverse(b: Seq<u16>, g: Sym)
    requires
        b.len() == 8,
        g.valid(),
    ensures
        g.inverse().valid(),
        image(image(b, g), g.inverse()) == b,
{
    let h = g.inverse();
    lemma_followed_by(b, g, h);
    let c = g.followed_by(h);
    assert(!c.transpose && !c.cols && !c.rows);
    assert forall|i: int| 0 <= i < 8 implies image(b, c)[i] == b[i] by {
        let j = i % 4;
        assert(c.from[j] == g.from[g.shape(j)]);
        assert(g.from[g.shape(j)] == j);
        assert(i == 4 * (i / 4) + i % 4);
    }
    assert(image(b, c) =~= b);
}

/// The identity leaves every board as it is.
pub proof fn lemma_identity(b: Seq<u16>)
    requires
        b.len() == 8,
    ensures
        identity_sym().valid(),
        image(b, identity_sym()) == b,
{
    let c = identity_sym();
    assert forall|i: int| 0 <= i < 8 implies image(b, c)[i] == b[i] by {
        assert(c.from[i % 4] == i % 4);
    }
    assert(image(b, c) =~= b);
}

/// The two bytes of a plane, low byte first, read as a big-endian number.
pub open spec fn word(x: u16) -> int {
    (x % 256) * 256 + x / 256
}

/// The sixteen bytes of the planes read as one big-endian number. Comparing two
/// such numbers compares the bytes lexicographically.
#[verifier::opaque]
pub open spec fn payload_number(b: Seq<u16>) -> int {
    ((((((word(b[0]) * 65536 + word(b[1])) * 65536 + word(b[2])) * 65536 + word(b[3])) * 65536
        + word(b[4])) * 65536 + word(b[5])) * 65536 + word(b[6])) * 65536 + word(b[7])
}

/// Whether the bytes `x` come before the bytes `y`: at the first place where
/// they differ, `x` has the smaller byte.
pub open spec fn bytes_less(x: Seq<u8>, y: Seq<u8>) -> bool {
    exists|i: int|
        0 <= i < x.len() && i < y.len() && #[trigger] x[i] < y[i] && forall|j: int|
            0 <= j < i ==> #[trigger] x[j] == y[j]
}

/// Whether `c` is the canonical representative of `b`: an image of `b` whose
/// payload comes no later than that of any other image.
pub open spec fn is_canonical_for(c: Seq<u16>, b: Seq<u16>) -> bool {
    &&& exists|g: Sym| g.valid() && c == #[trigger] image(b, g)
    &&& forall|g: Sym| g.valid() ==> payload_number(c) <= payload_number(#[trigger] image(b, g))
}

/// The canonical representative of `b`.
#[verifier::opaque]
pub open spec fn canonical(b: Seq<u16>) -> Seq<u16> {
    choose|c: Seq<u16>| is_canonical_for(c, b)
}

proof fn lemma_word(x: u16, y: u16)
    ensures
        0 <= word(x) < 65536,
        word(x) == word(y) ==> x == y,
{
    assert(x == 256 * (x / 256) + x % 256);
    assert(y == 256 * (y / 256) + y % 256);
    assert(0 <= x % 256 < 256 && 0 <= y % 256 < 256);
    assert(0 <= x / 256 < 256 && 0 <= y / 256 < 256);
}

proof fn lemma_split(p: int, u: int, q: int, v: int)
    requires
        p * 65536 + u == q * 65536 + v,
        0 <= u < 65536,
        0 <= v < 65536,
    ensures
        p == q,
        u == v,
{
}

/// Boards with the same payload are the same.
pub proof fn lemma_payload_injective(a: Seq<u16>, b: Seq<u16>)
    requires
        a.len() == 8,
        b.len() == 8,
        payload_number(a) == payload_number(b),
    ensures
        a == b,
{
    reveal(payload_number);
    assert forall|i: int| 0 <= i < 8 implies 0 <= #[trigger] word(a[i]) < 65536 && 0 <= word(b[i])
        < 65536 by {
        lemma_word(a[i], b[i]);
    }
    let a1 = word(a[0]) * 65536 + word(a[1]);
    let a2 = a1 * 65536 + word(a[2]);
    let a3 = a2 * 65536 + word(a[3]);
    let a4 = a3 * 65536 + word(a[4]);
    let a5 = a4 * 65536 + word(a[5]);
    let a6 = a5 * 65536 + word(a[6]);
    let b1 = word(b[0]) * 65536 + word(b[1]);
    let b2 = b1 * 65536 + word(b[2]);
    let b3 = b2 * 65536 + word(b[3]);
    let b4 = b3 * 65536 + word(b[4]);
    let b5 = b4 * 65536 + word(b[5]);
    let b6 = b5 * 65536 + word(b[6]);
    lemma_split(a6, word(a[7]), b6, word(b[7]));
    lemma_split(a5, word(a[6]), b5, word(b[6]));
    lemma_split(a4, word(a[5]), b4, word(b[5]));
    lemma_split(a3, word(a[4]), b3, word(b[4]));
    lemma_split(a2, word(a[3]), b2, word(b[3]));
    lemma_split(a1, word(a[2]), b1, word(b[2]));
    lemma_split(word(a[0]), word(a[1]), word(b[0]), word(b[1]));
    assert forall|i: int| 0 <= i < 8 implies a[i] == b[i] by {
        assert(i == 0 || i == 1 || i == 2 || i == 3 || i == 4 || i == 5 || i == 6 || i == 7);
        lemma_word(a[i], b[i]);
    }
    assert(a =~= b);
}

/// The payload of a board fits in sixteen bytes.
pub proof fn lemma_payload_bounds(b: Seq<u16>)
    requires
        b.len() == 8,
    ensures
        0 <= payload_number(b) <= u128::MAX,
{
    reveal(payload_number);
    assert forall|i: int| 0 <= i < 8 implies 0 <= #[trigger] word(b[i]) < 65536 by {
        lemma_word(b[i], b[i]);
    }
    let w0 = word(b[0]);
    let w1 = word(b[1]);
    let w2 = word(b[2]);
    let w3 = word(b[3]);
    let w4 = word(b[4]);
    let w5 = word(b[5]);
    let w6 = word(b[6]);
    let w7 = word(b[7]);
}

/// The number made of the first `n` bytes of `x`, most significant byte first.
pub open spec fn bytes_number(x: Seq<u8>, n: int) -> int
    decreases n,
{
    if n <= 0 {
        0
    } else {
        bytes_number(x, n - 1) * 256 + x[n - 1]
    }
}

proof fn lemma_bytes_number_prefix(x: Seq<u8>, y: Seq<u8>, n: int)
    requires
        forall|j: int| 0 <= j < n ==> x[j] == y[j],
    ensures
        bytes_number(x, n) == bytes_number(y, n),
    decreases n,
{
    if n > 0 {
        lemma_bytes_number_prefix(x, y, n - 1);
    }
}

proof fn lemma_bytes_number_less(x: Seq<u8>, y: Seq<u8>, i: int, n: int)
    requires
        0 <= i < n,
        x[i] < y[i],
        forall|j: int| 0 <= j < i ==> x[j] == y[j],
    ensures
        bytes_number(x, n) < bytes_number(y, n),
    decreases n,
{
    if i == n - 1 {
        lemma_bytes_number_prefix(x, y, n - 1);
    } else {
        lemma_bytes_number_less(x, y, i, n - 1);
    }
}

proof fn lemma_word_bytes(b: Seq<u16>, i: int)
    requires
        b.len() == 8,
        0 <= i < 8,
    ensures
        word(b[i]) == le_bytes(b)[2 * i] * 256 + le_bytes(b)[2 * i + 1],
{
    let low = 2 * i;
    let high = 2 * i + 1;
    assert(low / 2 == i && low % 2 == 0 && high / 2 == i && high % 2 == 1);
    assert(0 <= b[i] % 256 < 256 && 0 <= b[i] / 256 < 256);
}

proof fn lemma_payload_is_bytes_number(b: Seq<u16>)
    requires
        b.len() == 8,
    ensures
        payload_number(b) == bytes_number(le_bytes(b), 16),
{
    reveal(payload_number);
    lemma_word_bytes(b, 0);
    lemma_word_bytes(b, 1);
    lemma_word_bytes(b, 2);
    lemma_word_bytes(b, 3);
    lemma_word_bytes(b, 4);
    lemma_word_bytes(b, 5);
    lemma_word_bytes(b, 6);
    lemma_word_bytes(b, 7);
    reveal_with_fuel(bytes_number, 17);
}

/// Payload numbers order boards as their bytes are ordered lexicographically.
pub proof fn law_payload_order_is_lexicographic(a: Seq<u16>, b: Seq<u16>)
    requires
        a.len() == 8,
        b.len() == 8,
    ensures
        payload_number(a) < payload_number(b) <==> bytes_less(le_bytes(a), le_bytes(b)),
{
    let x = le_bytes(a);
    let y = le_bytes(b);
    lemma_payload_is_bytes_number(a);
    lemma_payload_is_bytes_number(b);
    if bytes_less(x, y) {
        let i = choose|i: int|
            0 <= i < x.len() && i < y.len() && #[trigger] x[i] < y[i] && forall|j: int|
                0 <= j < i ==> #[trigger] x[j] == y[j];
        lemma_bytes_number_less(x, y, i, 16);
    }
    if payload_number(a) < payload_number(b) {
        lemma_first_difference(x, y, 16);
        let i = choose|i: int|
            0 <= i < 16 && #[trigger] x[i] != y[i] && forall|j: int|
                0 <= j < i ==> #[trigger] x[j] == y[j];
        if x[i] > y[i] {
            lemma_bytes_number_less(y, x, i, 16);
        }
        assert(x[i] < y[i]);
    }
}

proof fn lemma_first_difference(x: Seq<u8>, y: Seq<u8>, n: int)
    requires
        n >= 0,
        bytes_number(x, n) != bytes_number(y, n),
    ensures
        exists|i: int|
            0 <= i < n && #[trigger] x[i] != y[i] && forall|j: int|
                0 <= j < i ==> #[trigger] x[j] == y[j],
    decreases n,
{
    if n > 0 {
        if bytes_number(x, n - 1) != bytes_number(y, n - 1) {
            lemma_first_difference(x, y, n - 1);
        } else if exists|j: int| 0 <= j < n - 1 && x[j] != y[j] {
            lemma_first_difference_from(x, y, n - 1, 0);
        } else {
            assert(x[n - 1] != y[n - 1]);
        }
    }
}

proof fn lemma_first_difference_from(x: Seq<u8>, y: Seq<u8>, n: int, k: int)
    requires
        0 <= k <= n,
        exists|j: int| k <= j < n && x[j] != y[j],
        forall|j: int| 0 <= j < k ==> x[j] == y[j],
    ensures
        exists|i: int|
            0 <= i < n && #[trigger] x[i] != y[i] && forall|j: int|
                0 <= j < i ==> #[trigger] x[j] == y[j],
    decreases n - k,
{
    if x[k] == y[k] {
        lemma_first_difference_from(x, y, n, k + 1);
    }
}

proof fn lemma_canonical_from(b: Seq<u16>, g: Sym)
    requires
        b.len() == 8,
        g.valid(),
    ensures
        exists|c: Seq<u16>| is_canonical_for(c, b),
    decreases payload_number(image(b, g)),
{
    lemma_payload_bounds(image(b, g));
    if exists|h: Sym|
        h.valid() && payload_number(#[trigger] image(b, h)) < payload_number(image(b, g)) {
        let h = choose|h: Sym|
            h.valid() && payload_number(#[trigger] image(b, h)) < payload_number(image(b, g));
        lemma_payload_bounds(image(b, h));
        lemma_canonical_from(b, h);
    } else {
        assert(is_canonical_for(image(b, g), b));
    }
}

/// Every board has exactly one canonical representative.
pub proof fn lemma_canonical(b: Seq<u16>, c: Seq<u16>)
    requires
        b.len() == 8,
    ensures
        is_canonical_for(canonical(b), b),
        canonical(b).len() == 8,
        is_canonical_for(c, b) ==> c == canonical(b),
{
    reveal(canonical);
    lemma_identity(b);
    lemma_canonical_from(b, identity_sym());
    let d = canonical(b);
    assert(is_canonical_for(d, b));
    if is_canonical_for(c, b) {
        let g = choose|g: Sym| g.valid() && c == #[trigger] image(b, g);
        let h = choose|h: Sym| h.valid() && d == #[trigger] image(b, h);
        assert(payload_number(c) <= payload_number(image(b, h)));
        assert(payload_number(d) <= payload_number(image(b, g)));
        lemma_payload_injective(c, d);
    }
}

/// Symmetric boards have the same canonical representative.
pub proof fn law_canonical_invariant(b: Seq<u16>, g: Sym)
    requires
        b.len() == 8,
        g.valid(),
    ensures
        canonical(image(b, g)) == canonical(b),
{
    let a = image(b, g);
    let c = canonical(b);
    lemma_canonical(b, c);
    lemma_inverse(b, g);
    let back = g.inverse();
    let h = choose|h: Sym| h.valid() && c == #[trigger] image(b, h);
    lemma_followed_by(a, back, h);
    assert(c == image(a, back.followed_by(h)));
    assert forall|k: Sym| k.valid() implies payload_number(c) <= payload_number(
        #[trigger] image(a, k),
    ) by {
        lemma_followed_by(b, g, k);
    }
    assert(is_canonical_for(c, a));
    lemma_canonical(a, c);
}

/// Boards with the same canonical representative are symmetric.
pub proof fn law_canonical_complete(a: Seq<u16>, b: Seq<u16>)
    requires
        a.len() == 8,
        b.len() == 8,
        canonical(a) == canonical(b),
    ensures
        exists|g: Sym| g.valid() && a == #[trigger] image(b, g),
{
    let c = canonical(a);
    lemma_canonical(a, c);
    lemma_canonical(b, c);
    let g = choose|g: Sym| g.valid() && c == #[trigger] image(a, g);
    let h = choose|h: Sym| h.valid() && c == #[trigger] image(b, h);
    lemma_inverse(a, g);
    lemma_followed_by(b, h, g.inverse());
    assert(a == image(b, h.followed_by(g.inverse())));
}

/// A canonical representative represents itself.
pub proof fn law_canonical_idempotent(b: Seq<u16>)
    requires
        b.len() == 8,
    ensures
        canonical(canonical(b)) == canonical(b),
{
    lemma_canonical(b, b);
    let g = choose|g: Sym| g.valid() && canonical(b) == #[trigger] image(b, g);
    law_canonical_invariant(b, g);
}

/// The relabelings of the shapes: entry `j` of a row is the shape that becomes
/// shape `j`.
const RELABELINGS: [[u8; 4]; 24] = [
    [0, 1, 2, 3],
    [0, 1, 3, 2],
    [0, 2, 1, 3],
    [0, 2, 3, 1],
    [0, 3, 1, 2],
    [0, 3, 2, 1],
    [1, 0, 2, 3],
    [1, 0, 3, 2],
    [1, 2, 0, 3],
    [1, 2, 3, 0],
    [1, 3, 0, 2],
    [1, 3, 2, 0],
    [2, 0, 1, 3],
    [2, 0, 3, 1],
    [2, 1, 0, 3],
    [2, 1, 3, 0],
    [2, 3, 0, 1],
    [2, 3, 1, 0],
    [3, 0, 1, 2],
    [3, 0, 2, 1],
    [3, 1, 0, 2],
    [3, 1, 2, 0],
    [3, 2, 0, 1],
    [3, 2, 1, 0],
];

/// Row `n` of [`RELABELINGS`].
spec fn relabeling(n: int) -> Seq<int> {
    Seq::new(4, |j: int| RELABELINGS@[n]@[j] as int)
}

proof fn lemma_relabelings_valid(n: int)
    requires
        0 <= n < 24,
    ensures
        is_relabeling(relabeling(n)),
{
}


proof fn lemma_relabelings_complete(from: Seq<int>)
    requires
        is_relabeling(from),
    ensures
        exists|n: int| 0 <= n < 24 && #[trigger] relabeling(n) == from,
{
    if from[0] == 0 && from[1] == 1 && from[2] == 2 {
        assert(relabeling(0) =~= from);
    }
    if from[0] == 0 && from[1] == 1 && from[2] == 3 {
        assert(relabeling(1) =~= from);
    }
    if from[0] == 0 && from[1] == 2 && from[2] == 1 {
        assert(relabeling(2) =~= from);
    }
    if from[0] == 0 && from[1] == 2 && from[2] == 3 {
        assert(relabeling(3) =~= from);
    }
    if from[0] == 0 && from[1] == 3 && from[2] == 1 {
        assert(relabeling(4) =~= from);
    }
    if from[0] == 0 && from[1] == 3 && from[2] == 2 {
        assert(relabeling(5) =~= from);
    }
    if from[0] == 1 && from[1] == 0 && from[2] == 2 {
        assert(relabeling(6) =~= from);
    }
    if from[0] == 1 && from[1] == 0 && from[2] == 3 {
        assert(relabeling(7) =~= from);
    }
    if from[0] == 1 && from[1] == 2 && from[2] == 0 {
        assert(relabeling(8) =~= from);
    }
    if from[0] == 1 && from[1] == 2 && from[2] == 3 {
        assert(relabeling(9) =~= from);
    }
    if from[0] == 1 && from[1] == 3 && from[2] == 0 {
        assert(relabeling(10) =~= from);
    }
    if from[0] == 1 && from[1] == 3 && from[2] == 2 {
        assert(relabeling(11) =~= from);
    }
    if from[0] == 2 && from[1] == 0 && from[2] == 1 {
        assert(relabeling(12) =~= from);
    }
    if from[0] == 2 && from[1] == 0 && from[2] == 3 {
        assert(relabeling(13) =~= from);
    }
    if from[0] == 2 && from[1] == 1 && from[2] == 0 {
        assert(relabeling(14) =~= from);
    }
    if from[0] == 2 && from[1] == 1 && from[2] == 3 {
        assert(relabeling(15) =~= from);
    }
    if from[0] == 2 && from[1] == 3 && from[2] == 0 {
        assert(relabeling(16) =~= from);
    }
    if from[0] == 2 && from[1] == 3 && from[2] == 1 {
        assert(relabeling(17) =~= from);
    }
    if from[0] == 3 && from[1] == 0 && from[2] == 1 {
        assert(relabeling(18) =~= from);
    }
    if from[0] == 3 && from[1] == 0 && from[2] == 2 {
        assert(relabeling(19) =~= from);
    }
    if from[0] == 3 && from[1] == 1 && from[2] == 0 {
        assert(relabeling(20) =~= from);
    }
    if from[0] == 3 && from[1] == 1 && from[2] == 2 {
        assert(relabeling(21) =~= from);
    }
    if from[0] == 3 && from[1] == 2 && from[2] == 0 {
        assert(relabeling(22) =~= from);
    }
    if from[0] == 3 && from[1] == 2 && from[2] == 1 {
        assert(relabeling(23) =~= from);
    }
}

/// The symmetry made of orientation `d` and of relabeling `n`.
spec fn numbered_sym(d: int, n: int) -> Sym {
    Sym {
        transpose: (d / 4) % 2 == 1,
        cols: (d / 2) % 2 == 1,
        rows: d % 2 == 1,
        from: relabeling(n),
    }
}

proof fn lemma_numbered_syms_complete(g: Sym)
    requires
        g.valid(),
    ensures
        exists|d: int, n: int| 0 <= d < 8 && 0 <= n < 24 && #[trigger] numbered_sym(d, n) == g,
{
    lemma_relabelings_complete(g.from);
    let n = choose|n: int| 0 <= n < 24 && #[trigger] relabeling(n) == g.from;
    let t: int = if g.transpose {
        4
    } else {
        0
    };
    let c: int = if g.cols {
        2
    } else {
        0
    };
    let r: int = if g.rows {
        1
    } else {
        0
    };
    let d = t + c + r;
    assert(numbered_sym(d, n).transpose == g.transpose);
    assert(numbered_sym(d, n).cols == g.cols);
    assert(numbered_sym(d, n).rows == g.rows);
    assert(numbered_sym(d, n) == g);
}

/// Whether `v` is the payload of an image of `b`.
pub open spec fn is_image_number(b: Seq<u16>, v: u128) -> bool {
    exists|g: Sym| g.valid() && v == payload_number(#[trigger] image(b, g))
}

/// Whether `list` holds the payload of every image of `b`, each once.
pub open spec fn lists_orbit(list: Seq<u128>, b: Seq<u16>) -> bool {
    &&& list.no_duplicates()
    &&& forall|v: u128| list.contains(v) <==> #[trigger] is_image_number(b, v)
}

/// The number of distinct images of a board does not depend on how they are
/// listed.
pub proof fn law_orbit_size_unique(x: Seq<u128>, y: Seq<u128>, b: Seq<u16>)
    requires
        lists_orbit(x, b),
        lists_orbit(y, b),
    ensures
        x.len() == y.len(),
{
    assert forall|v: u128| x.to_set().contains(v) <==> y.to_set().contains(v) by {
        assert(x.contains(v) <==> is_image_number(b, v));
    }
    assert(x.to_set() =~= y.to_set());
    x.unique_seq_to_set();
    y.unique_seq_to_set();
}

/// Symmetric boards have the same images.
pub proof fn law_orbit_invariant(list: Seq<u128>, b: Seq<u16>, g: Sym)
    requires
        b.len() == 8,
        g.valid(),
        lists_orbit(list, b),
    ensures
        lists_orbit(list, image(b, g)),
{
    let a = image(b, g);
    lemma_inverse(b, g);
    assert forall|v: u128| list.contains(v) <==> #[trigger] is_image_number(a, v) by {
        assert(list.contains(v) <==> is_image_number(b, v));
        if list.contains(v) {
            let h = choose|h: Sym| h.valid() && v == payload_number(#[trigger] image(b, h));
            lemma_followed_by(a, g.inverse(), h);
            let k = g.inverse().followed_by(h);
            assert(k.valid() && v == payload_number(image(a, k)));
        }
        if is_image_number(a, v) {
            let h = choose|h: Sym| h.valid() && v == payload_number(#[trigger] image(a, h));
            lemma_followed_by(b, g, h);
            let k = g.followed_by(h);
            assert(k.valid() && v == payload_number(image(b, k)));
        }
    }
}

fn mirror_rows_cells(x: u16) -> (r: u16)
    ensures
        r == mirror_rows(x),
{
    (x << 12) | ((x & 0x00F0) << 4) | ((x & 0x0F00) >> 4) | (x >> 12)
}

fn mirror_cols_cells(x: u16) -> (r: u16)
    ensures
        r == mirror_cols(x),
{
    ((x & 0x1111) << 3) | ((x & 0x2222) << 1) | ((x & 0x4444) >> 1) | ((x & 0x8888) >> 3)
}

fn transpose_cells(x: u16) -> (r: u16)
    ensures
        r == transposed(x),
{
    (x & 0x8421) | ((x & 0x0842) << 3) | ((x & 0x0084) << 6) | ((x & 0x0008) << 9) | ((x & 0x4210)
        >> 3) | ((x & 0x2100) >> 6) | ((x & 0x1000) >> 9)
}

/// The planes of `bb` in orientation `d`.
fn oriented(bb: &Bitboard, d: u8) -> (planes: [u16; 8])
    requires
        d < 8,
    ensures
        forall|i: int, n: int|
            0 <= i < 8 ==> #[trigger] planes@[i] == (#[trigger] numbered_sym(d as int, n)).cells(
                bb@[i],
            ),
{
    let transpose = (d / 4) % 2 == 1;
    let cols = (d / 2) % 2 == 1;
    let rows = d % 2 == 1;
    let mut planes = [0u16;8];
    let mut i: usize = 0;
    while i < 8
        invariant
            i <= 8,
            transpose == ((d / 4) % 2 == 1),
            cols == ((d / 2) % 2 == 1),
            rows == (d % 2 == 1),
            forall|j: int, n: int|
                0 <= j < i ==> #[trigger] planes@[j] == (#[trigger] numbered_sym(
                    d as int,
                    n,
                )).cells(bb@[j]),
        decreases 8 - i,
    {
        let mut x = bb.planes[i];
        if rows {
            x = mirror_rows_cells(x);
        }
        if cols {
            x = mirror_cols_cells(x);
        }
        if transpose {
            x = transpose_cells(x);
        }
        planes[i] = x;
        i = i + 1;
    }
    planes
}

/// The payload of the oriented planes under relabeling `n`, as a number.
fn relabeled_number(planes: &[u16; 8], n: usize) -> (number: u128)
    requires
        n < 24,
    ensures
        forall|b: Seq<u16>, d: int|
            (forall|i: int| 0 <= i < 8 ==> planes@[i] == numbered_sym(d, n as int).cells(b[i]))
                ==> number == payload_number(#[trigger] image(b, numbered_sym(d, n as int))),
{
    let from = RELABELINGS[n];
    proof {
        lemma_relabelings_valid(n as int);
    }
    let ghost r = relabeling(n as int);
    let ghost relabeled: Seq<u16> = Seq::new(8, |i: int| planes@[4 * (i / 4) + r[i % 4]]);
    let mut number: u128 = 0;
    let mut i: usize = 0;
    while i < 8
        invariant
            i <= 8,
            n < 24,
            from@ == RELABELINGS@[n as int]@,
            r == relabeling(n as int),
            is_relabeling(r),
            relabeled == Seq::new(8, |i: int| planes@[4 * (i / 4) + r[i % 4]]),
            number == number_prefix(relabeled, i as int),
            number < bound_prefix(i as int),
            i < 8 ==> bound_prefix(i as int) * 65536 <= 0x1_0000_0000_0000_0000_0000_0000_0000_0000,
        decreases 8 - i,
    {
        let j = 4 * (i / 4) + from[i % 4] as usize;
        assert(from@[i as int % 4] as int == r[i as int % 4]);
        let x = planes[j];
        assert(x == relabeled[i as int]);
        proof {
            lemma_word(x, x);
            assert(0 <= x % 256 < 256 && 0 <= x / 256 < 256);
        }
        let w: u128 = (x % 256) as u128 * 256 + (x / 256) as u128;
        assert(w == word(x));
        number = number * 65536 + w;
        i = i + 1;
        proof {
            lemma_bound_prefix();
        }
    }
    proof {
        reveal(payload_number);
        reveal_with_fuel(number_prefix, 9);
        assert(number == payload_number(relabeled));
        assert forall|b: Seq<u16>, d: int|
            (forall|i: int|
                0 <= i < 8 ==> planes@[i] == numbered_sym(d, n as int).cells(b[i])) implies number
            == payload_number(#[trigger] image(b, numbered_sym(d, n as int))) by {
            let g = numbered_sym(d, n as int);
            assert forall|i: int| 0 <= i < 8 implies image(b, g)[i] == relabeled[i] by {
                let k = 4 * (i / 4) + r[i % 4];
                assert(0 <= r[i % 4] < 4);
                assert(0 <= k < 8);
                assert(planes@[k] == g.cells(b[k]));
            }
            assert(image(b, g) =~= relabeled);
        }
    }
    number
}

/// The number made of the first `n` words of `b`.
spec fn number_prefix(b: Seq<u16>, n: int) -> int
    decreases n,
{
    if n <= 0 {
        0
    } else {
        number_prefix(b, n - 1) * 65536 + word(b[n - 1])
    }
}

spec fn bound_prefix(n: int) -> int
    decreases n,
{
    if n <= 0 {
        1
    } else {
        bound_prefix(n - 1) * 65536
    }
}

proof fn lemma_bound_prefix()
    ensures
        bound_prefix(0) == 1,
        bound_prefix(1) == 0x1_0000,
        bound_prefix(2) == 0x1_0000_0000,
        bound_prefix(3) == 0x1_0000_0000_0000,
        bound_prefix(4) == 0x1_0000_0000_0000_0000,
        bound_prefix(5) == 0x1_0000_0000_0000_0000_0000,
        bound_prefix(6) == 0x1_0000_0000_0000_0000_0000_0000,
        bound_prefix(7) == 0x1_0000_0000_0000_0000_0000_0000_0000,
        bound_prefix(8) == 0x1_0000_0000_0000_0000_0000_0000_0000_0000,
{
    reveal_with_fuel(bound_prefix, 9);
}

/// Canonical representatives and orbits under the 192 symmetries.
pub struct SymmetryHandler;

impl SymmetryHandler {
    /// The smallest payload among the images of `bb`, as a number, with the
    /// orientation and the relabeling that reach it.
    fn smallest_image(bb: &Bitboard) -> (r: (u128, u8, usize))
        ensures
            r.1 < 8,
            r.2 < 24,
            r.0 == payload_number(image(bb@, numbered_sym(r.1 as int, r.2 as int))),
            forall|g: Sym| g.valid() ==> r.0 <= payload_number(#[trigger] image(bb@, g)),
    {
        let first = oriented(bb, 0);
        let mut best: u128 = relabeled_number(&first, 0);
        assert(best == payload_number(image(bb@, numbered_sym(0, 0))));
        let mut best_d: u8 = 0;
        let mut best_n: usize = 0;
        let mut d: u8 = 0;
        while d < 8
            invariant
                d <= 8,
                best_d < 8,
                best_n < 24,
                best == payload_number(image(bb@, numbered_sym(best_d as int, best_n as int))),
                forall|e: int, m: int|
                    0 <= e < d && 0 <= m < 24 ==> best <= payload_number(
                        image(bb@, #[trigger] numbered_sym(e, m)),
                    ),
            decreases 8 - d,
        {
            let planes = oriented(bb, d);
            let mut n: usize = 0;
            while n < 24
                invariant
                    d < 8,
                    n <= 24,
                    best_d < 8,
                    best_n < 24,
                    best == payload_number(image(bb@, numbered_sym(best_d as int, best_n as int))),
                    forall|i: int, m: int|
                        0 <= i < 8 ==> #[trigger] planes@[i] == (#[trigger] numbered_sym(
                            d as int,
                            m,
                        )).cells(bb@[i]),
                    forall|e: int, m: int|
                        0 <= e < d && 0 <= m < 24 ==> best <= payload_number(
                            image(bb@, #[trigger] numbered_sym(e, m)),
                        ),
                    forall|m: int|
                        0 <= m < n ==> best <= payload_number(
                            image(bb@, #[trigger] numbered_sym(d as int, m)),
                        ),
                decreases 24 - n,
            {
                let number = relabeled_number(&planes, n);
                assert(number == payload_number(image(bb@, numbered_sym(d as int, n as int))));
                if number < best {
                    best = number;
                    best_d = d;
                    best_n = n;
                }
                n = n + 1;
            }
            d = d + 1;
        }
        proof {
            assert forall|g: Sym| g.valid() implies best <= payload_number(
                #[trigger] image(bb@, g),
            ) by {
                lemma_numbered_syms_complete(g);
                let (e, m) = choose|e: int, m: int|
                    0 <= e < 8 && 0 <= m < 24 && #[trigger] numbered_sym(e, m) == g;
                assert(best <= payload_number(image(bb@, numbered_sym(e, m))));
            }
        }
        (best, best_d, best_n)
    }

    /// The canonical representative of `bb`: among its images, the one whose
    /// little-endian payload is lexicographically smallest.
    pub fn find_canonical(bb: &Bitboard) -> (c: Bitboard)
        ensures
            is_canonical_for(c@, bb@),
            c@ == canonical(bb@),
    {
        let (_best, d, n) = Self::smallest_image(bb);
        let planes = oriented(bb, d);
        let from = RELABELINGS[n];
        proof {
            lemma_relabelings_valid(n as int);
        }
        let ghost g = numbered_sym(d as int, n as int);
        let mut out = [0u16;8];
        let mut i: usize = 0;
        while i < 8
            invariant
                i <= 8,
                n < 24,
                from@ == RELABELINGS@[n as int]@,
                g == numbered_sym(d as int, n as int),
                g.valid(),
                forall|j: int, m: int|
                    0 <= j < 8 ==> #[trigger] planes@[j] == (#[trigger] numbered_sym(
                        d as int,
                        m,
                    )).cells(bb@[j]),
                forall|j: int| 0 <= j < i ==> out@[j] == image(bb@, g)[j],
            decreases 8 - i,
        {
            assert(from@[i as int % 4] as int == g.from[i as int % 4]);
            let j = 4 * (i / 4) + from[i % 4] as usize;
            assert(planes@[j as int] == numbered_sym(d as int, n as int).cells(bb@[j as int]));
            out[i] = planes[j];
            i = i + 1;
        }
        let c = Bitboard { planes: out };
        proof {
            assert(c@ =~= image(bb@, g));
            lemma_canonical(bb@, c@);
        }
        c
    }

    /// The sixteen bytes of the canonical representative.
    pub fn canonical_payload(bb: &Bitboard) -> (payload: [u8; 16])
        ensures
            payload@ == le_bytes(canonical(bb@)),
    {
        Self::find_canonical(bb).to_le_bytes()
    }

    /// The canonical payload read as a big-endian number.
    pub fn canonical_number(bb: &Bitboard) -> (number: u128)
        ensures
            number == payload_number(canonical(bb@)),
    {
        let (best, d, n) = Self::smallest_image(bb);
        proof {
            let g = numbered_sym(d as int, n as int);
            lemma_relabelings_valid(n as int);
            lemma_canonical(bb@, image(bb@, g));
        }
        best
    }

    /// The number of distinct images of `bb` under the symmetries.
    pub fn orbit_size(bb: &Bitboard) -> (size: usize)
        ensures
            1 <= size <= 192,
            exists|list: Seq<u128>| #[trigger] lists_orbit(list, bb@) && size == list.len(),
            forall|list: Seq<u128>| #[trigger] lists_orbit(list, bb@) ==> size == list.len(),
    {
        let mut seen: Vec<u128> = Vec::new();
        let mut d: u8 = 0;
        while d < 8
            invariant
                d <= 8,
                seen@.no_duplicates(),
                seen@.len() <= 24 * d,
                d > 0 ==> seen@.len() > 0,
                forall|e: int, m: int|
                    0 <= e < d && 0 <= m < 24 ==> seen@.contains(
                        payload_number(image(bb@, #[trigger] numbered_sym(e, m))) as u128,
                    ),
                forall|j: int| 0 <= j < seen@.len() ==> is_image_number(bb@, #[trigger] seen@[j]),
            decreases 8 - d,
        {
            let planes = oriented(bb, d);
            let mut n: usize = 0;
            while n < 24
                invariant
                    d < 8,
                    n <= 24,
                    seen@.no_duplicates(),
                    seen@.len() <= 24 * d + n,
                    d > 0 || n > 0 ==> seen@.len() > 0,
                    forall|i: int, m: int|
                        0 <= i < 8 ==> #[trigger] planes@[i] == (#[trigger] numbered_sym(
                            d as int,
                            m,
                        )).cells(bb@[i]),
                    forall|e: int, m: int|
                        0 <= e < d && 0 <= m < 24 ==> seen@.contains(
                            payload_number(image(bb@, #[trigger] numbered_sym(e, m))) as u128,
                        ),
                    forall|m: int|
                        0 <= m < n ==> seen@.contains(
                            payload_number(image(bb@, #[trigger] numbered_sym(d as int, m))) as u128,
                        ),
                    forall|j: int| 0 <= j < seen@.len() ==> is_image_number(bb@, #[trigger] seen@[j]),
                decreases 24 - n,
            {
                let number = relabeled_number(&planes, n);
                let ghost g = numbered_sym(d as int, n as int);
                proof {
                    lemma_relabelings_valid(n as int);
                    assert(number == payload_number(image(bb@, g)));
                }
                let ghost before = seen@;
                if !contains_number(&seen, number) {
                    seen.push(number);
                    proof {
                        assert(seen@[before.len() as int] == number);
                        assert forall|v: u128| before.contains(v) implies seen@.contains(v) by {
                            let j = choose|j: int| 0 <= j < before.len() && before[j] == v;
                            assert(seen@[j] == v);
                        }
                        assert forall|j: int| 0 <= j < seen@.len() implies is_image_number(
                            bb@,
                            #[trigger] seen@[j],
                        ) by {
                            if j < before.len() {
                                assert(seen@[j] == before[j]);
                            } else {
                                assert(g.valid() && seen@[j] == payload_number(image(bb@, g)));
                            }
                        }
                    }
                }
                n = n + 1;
            }
            d = d + 1;
        }
        proof {
            assert forall|v: u128| seen@.contains(v) <==> #[trigger] is_image_number(bb@, v) by {
                if is_image_number(bb@, v) {
                    let g = choose|g: Sym| g.valid() && v == payload_number(#[trigger] image(bb@, g));
                    lemma_numbered_syms_complete(g);
                    let (e, m) = choose|e: int, m: int|
                        0 <= e < 8 && 0 <= m < 24 && #[trigger] numbered_sym(e, m) == g;
                    assert(seen@.contains(payload_number(image(bb@, numbered_sym(e, m))) as u128));
                }
                if seen@.contains(v) {
                    let j = choose|j: int| 0 <= j < seen@.len() && seen@[j] == v;
                    assert(seen@[j] == v);
                }
            }
            assert(lists_orbit(seen@, bb@));
            assert forall|list: Seq<u128>| #[trigger] lists_orbit(list, bb@) implies seen@.len()
                == list.len() by {
                law_orbit_size_unique(list, seen@, bb@);
            }
        }
        seen.len()
    }
}

/// Whether `list` holds `number`.
fn contains_number(list: &Vec<u128>, number: u128) -> (r: bool)
    ensures
        r <==> list@.contains(number),
{
    let mut i: usize = 0;
    while i < list.len()
        invariant
            i <= list@.len(),
            forall|j: int| 0 <= j < i ==> list@[j] != number,
        decreases list@.len() - i,
    {
        if list[i] == number {
            return true;
        }
        i = i + 1;
    }
    false
}

} // verus!
