//! QFEN: the board as four ranks of four characters.
use crate::bitboard::lemma_bit_ops;
use crate::bitboard::{bit, lemma_popcount, Bitboard};
use crate::invariance::lemma_bits_extensional;
use crate::text::{from_chars, to_chars};
use vstd::prelude::*;

verus! {

/// The plane that a QFEN character stands for; 8 for an empty cell, 9 for a
/// character that QFEN does not know.
pub open spec fn plane_of_char(c: char) -> int {
    if c == 'A' {
        0
    } else if c == 'B' {
        1
    } else if c == 'C' {
        2
    } else if c == 'D' {
        3
    } else if c == 'a' {
        4
    } else if c == 'b' {
        5
    } else if c == 'c' {
        6
    } else if c == 'd' {
        7
    } else if c == '.' {
        8
    } else {
        9
    }
}

/// The QFEN character of plane `i`; an empty cell for 8.
pub open spec fn char_of_plane(i: int) -> char {
    if i == 0 {
        'A'
    } else if i == 1 {
        'B'
    } else if i == 2 {
        'C'
    } else if i == 3 {
        'D'
    } else if i == 4 {
        'a'
    } else if i == 5 {
        'b'
    } else if i == 6 {
        'c'
    } else if i == 7 {
        'd'
    } else {
        '.'
    }
}

/// The place of cell `p` in a QFEN text: each rank is followed by a slash.
pub open spec fn qfen_place(p: int) -> int {
    p + p / 4
}

/// Whether the ranks of `q` have the right lengths.
pub open spec fn qfen_shape(q: Seq<char>) -> bool {
    q.len() == 19 && q[4] == '/' && q[9] == '/' && q[14] == '/'
}

/// Whether `q` is a QFEN text: four ranks of four known characters.
pub open spec fn is_qfen(q: Seq<char>) -> bool {
    &&& qfen_shape(q)
    &&& forall|p: int| 0 <= p < 16 ==> plane_of_char(q[#[trigger] qfen_place(p)]) <= 8
}

/// Whether the planes `b` hold exactly the pieces that `q` shows.
pub open spec fn qfen_describes(q: Seq<char>, b: Seq<u16>) -> bool {
    &&& b.len() == 8
    &&& forall|i: int, p: int|
        0 <= i < 8 && 0 <= p < 16 ==> (#[trigger] bit(b[i], p) <==> plane_of_char(
            q[qfen_place(p)],
        ) == i)
}

/// The first plane that holds cell `p`; 8 for an empty cell.
pub open spec fn first_plane(b: Seq<u16>, p: int) -> int {
    if bit(b[0], p) {
        0
    } else if bit(b[1], p) {
        1
    } else if bit(b[2], p) {
        2
    } else if bit(b[3], p) {
        3
    } else if bit(b[4], p) {
        4
    } else if bit(b[5], p) {
        5
    } else if bit(b[6], p) {
        6
    } else if bit(b[7], p) {
        7
    } else {
        8
    }
}

/// The QFEN text of the planes `b`.
pub open spec fn qfen_of(b: Seq<u16>) -> Seq<char> {
    Seq::new(
        19,
        |i: int|
            if i % 5 == 4 {
                '/'
            } else {
                char_of_plane(first_plane(b, i - i / 5))
            },
    )
}

/// Whether no cell holds two pieces.
pub open spec fn disjoint_planes(b: Seq<u16>) -> bool {
    forall|i: int, j: int, p: int|
        0 <= i < 8 && 0 <= j < 8 && 0 <= p < 16 && #[trigger] bit(b[i], p) && #[trigger] bit(
            b[j],
            p,
        ) ==> i == j
}

/// The board that a QFEN text shows.
pub open spec fn qfen_board(q: Seq<char>) -> Seq<u16> {
    choose|b: Seq<u16>| b.len() == 8 && #[trigger] qfen_describes(q, b)
}

/// Why a text is no QFEN text.
pub open spec fn qfen_complaint(q: Seq<char>) -> Option<Seq<char>> {
    if is_qfen(q) {
        None
    } else if qfen_shape(q) {
        Some("QFEN holds a character that is no piece"@)
    } else {
        Some("QFEN must be four ranks of four characters"@)
    }
}

/// A QFEN text shows one board.
pub proof fn lemma_qfen_unique(q: Seq<char>, a: Seq<u16>, b: Seq<u16>)
    requires
        qfen_describes(q, a),
        qfen_describes(q, b),
    ensures
        a == b,
{
    assert forall|i: int| 0 <= i < 8 implies a[i] == b[i] by {
        assert forall|p: int| 0 <= p < 16 implies (#[trigger] bit(a[i], p) <==> bit(b[i], p)) by {
            assert(bit(a[i], p) <==> plane_of_char(q[qfen_place(p)]) == i);
            assert(bit(b[i], p) <==> plane_of_char(q[qfen_place(p)]) == i);
        }
        lemma_bits_extensional(a[i], b[i]);
    }
    assert(a =~= b);
}

/// The cells below `n` where `q` shows a piece of plane `i`.
spec fn shown_cells(q: Seq<char>, i: int, n: int) -> u16
    decreases n,
{
    if n <= 0 {
        0
    } else if plane_of_char(q[qfen_place(n - 1)]) == i {
        shown_cells(q, i, n - 1) | (1u16 << ((n - 1) as u16))
    } else {
        shown_cells(q, i, n - 1)
    }
}

proof fn lemma_shown_cells(q: Seq<char>, i: int, n: int, p: int)
    requires
        0 <= n <= 16,
        0 <= p < 16,
    ensures
        bit(shown_cells(q, i, n), p) <==> p < n && plane_of_char(q[qfen_place(p)]) == i,
    decreases n,
{
    if n > 0 {
        lemma_shown_cells(q, i, n - 1, p);
        lemma_bit_ops(shown_cells(q, i, n - 1), 1u16 << ((n - 1) as u16), p, n - 1);
    } else {
        lemma_popcount(0, p);
    }
}

/// Every QFEN text shows a board.
pub proof fn lemma_qfen_shows_board(q: Seq<char>)
    requires
        is_qfen(q),
    ensures
        qfen_board(q).len() == 8,
        qfen_describes(q, qfen_board(q)),
{
    let b = Seq::new(8, |i: int| shown_cells(q, i, 16));
    assert forall|i: int, p: int| 0 <= i < 8 && 0 <= p < 16 implies (#[trigger] bit(b[i], p)
        <==> plane_of_char(q[qfen_place(p)]) == i) by {
        lemma_shown_cells(q, i, 16, p);
    }
    assert(b.len() == 8 && qfen_describes(q, b));
}

/// The text of a board that was read from a QFEN text is that text.
pub proof fn law_qfen_text_round_trip(q: Seq<char>, b: Seq<u16>)
    requires
        is_qfen(q),
        qfen_describes(q, b),
    ensures
        qfen_of(b) == q,
{
    assert forall|i: int| 0 <= i < 19 implies qfen_of(b)[i] == q[i] by {
        if i % 5 != 4 {
            let p = i - i / 5;
            assert(0 <= p < 16 && qfen_place(p) == i);
            let k = plane_of_char(q[qfen_place(p)]);
            assert(0 <= k <= 8);
            assert(first_plane(b, p) == k) by {
                assert forall|j: int| 0 <= j < 8 implies (#[trigger] bit(b[j], p) <==> j == k) by {
                }
            }
            assert(char_of_plane(k) == q[i]);
        }
    }
    assert(qfen_of(b) =~= q);
}

/// Reading the text of a board without double pieces gives the board back.
pub proof fn law_qfen_board_round_trip(b: Seq<u16>)
    requires
        b.len() == 8,
        disjoint_planes(b),
    ensures
        is_qfen(qfen_of(b)),
        qfen_describes(qfen_of(b), b),
{
    let q = qfen_of(b);
    assert forall|p: int| 0 <= p < 16 implies plane_of_char(q[#[trigger] qfen_place(p)])
        == first_plane(b, p) by {
        let i = qfen_place(p);
        assert(0 <= i < 19 && i % 5 != 4 && i - i / 5 == p);
    }
    assert forall|i: int, p: int| 0 <= i < 8 && 0 <= p < 16 implies (#[trigger] bit(b[i], p)
        <==> plane_of_char(q[qfen_place(p)]) == i) by {
        let k = first_plane(b, p);
        assert(plane_of_char(q[qfen_place(p)]) == k);
        if bit(b[i], p) {
            assert(0 <= k < 8 && bit(b[k], p));
        }
    }
}

fn plane_number(c: char) -> (i: usize)
    ensures
        i == plane_of_char(c),
{
    if c == 'A' {
        0
    } else if c == 'B' {
        1
    } else if c == 'C' {
        2
    } else if c == 'D' {
        3
    } else if c == 'a' {
        4
    } else if c == 'b' {
        5
    } else if c == 'c' {
        6
    } else if c == 'd' {
        7
    } else if c == '.' {
        8
    } else {
        9
    }
}

fn plane_char(i: usize) -> (c: char)
    ensures
        c == char_of_plane(i as int),
{
    if i == 0 {
        'A'
    } else if i == 1 {
        'B'
    } else if i == 2 {
        'C'
    } else if i == 3 {
        'D'
    } else if i == 4 {
        'a'
    } else if i == 5 {
        'b'
    } else if i == 6 {
        'c'
    } else if i == 7 {
        'd'
    } else {
        '.'
    }
}

/// Read a board from its QFEN text.
pub fn bb_from_qfen(qfen: &str) -> (r: Result<Bitboard, String>)
    ensures
        r is Ok <==> is_qfen(qfen@),
        r matches Ok(bb) ==> qfen_describes(qfen@, bb@),
        r matches Err(e) ==> e@ == (if qfen_shape(qfen@) {
            "QFEN holds a character that is no piece"@
        } else {
            "QFEN must be four ranks of four characters"@
        }),
{
    let chars = to_chars(qfen);
    if chars.len() != 19 || chars[4] != '/' || chars[9] != '/' || chars[14] != '/' {
        return Err("QFEN must be four ranks of four characters".to_owned());
    }
    let mut bb = Bitboard::empty();
    proof {
        assert forall|i: int, p: int| 0 <= i < 8 && 0 <= p < 16 implies !#[trigger] bit(
            bb@[i],
            p,
        ) by {
            lemma_popcount(0, p);
        }
    }
    let mut p: u8 = 0;
    while p < 16
        invariant
            p <= 16,
            chars@ == qfen@,
            qfen_shape(qfen@),
            forall|j: int| 0 <= j < p ==> plane_of_char(qfen@[#[trigger] qfen_place(j)]) <= 8,
            forall|i: int, j: int|
                0 <= i < 8 && 0 <= j < 16 ==> (#[trigger] bit(bb@[i], j) <==> j < p
                    && plane_of_char(qfen@[qfen_place(j)]) == i),
        decreases 16 - p,
    {
        let c = chars[(p + p / 4) as usize];
        assert(c == qfen@[qfen_place(p as int)]);
        let k = plane_number(c);
        if k == 9 {
            return Err("QFEN holds a character that is no piece".to_owned());
        }
        if k < 8 {
            let player: u8 = (k / 4) as u8;
            let shape: u8 = (k % 4) as u8;
            let ghost before = bb@;
            bb = bb.with_move(player, shape, p);
            proof {
                assert(player * 4 + shape == k);
                assert forall|i: int, j: int| 0 <= i < 8 && 0 <= j < 16 implies (#[trigger] bit(
                    bb@[i],
                    j,
                ) <==> j < p + 1 && plane_of_char(qfen@[qfen_place(j)]) == i) by {
                    assert(bit(before[i], j) <==> j < p && plane_of_char(qfen@[qfen_place(j)])
                        == i);
                }
            }
        }
        p = p + 1;
    }
    Ok(bb)
}

/// The QFEN text of a board.
pub fn bb_to_qfen(bb: &Bitboard) -> (s: String)
    ensures
        s@ == qfen_of(bb@),
{
    let mut chars: Vec<char> = Vec::new();
    let mut place: usize = 0;
    while place < 19
        invariant
            place <= 19,
            chars@.len() == place,
            forall|j: int| 0 <= j < place ==> chars@[j] == qfen_of(bb@)[j],
        decreases 19 - place,
    {
        if place % 5 == 4 {
            chars.push('/');
        } else {
            let p: usize = place - place / 5;
            let mut i: usize = 0;
            while i < 8 && (bb.planes[i] >> (p as u16)) & 1 != 1
                invariant
                    i <= 8,
                    p < 16,
                    forall|j: int| 0 <= j < i ==> !#[trigger] bit(bb@[j], p as int),
                decreases 8 - i,
            {
                assert(!bit(bb@[i as int], p as int));
                i = i + 1;
            }
            assert(i == first_plane(bb@, p as int)) by {
                assert(i < 8 ==> bit(bb@[i as int], p as int));
                assert(i > 0 ==> !bit(bb@[0], p as int));
                assert(i > 1 ==> !bit(bb@[1], p as int));
                assert(i > 2 ==> !bit(bb@[2], p as int));
                assert(i > 3 ==> !bit(bb@[3], p as int));
                assert(i > 4 ==> !bit(bb@[4], p as int));
                assert(i > 5 ==> !bit(bb@[5], p as int));
                assert(i > 6 ==> !bit(bb@[6], p as int));
                assert(i > 7 ==> !bit(bb@[7], p as int));
            }
            chars.push(plane_char(i));
        }
        place = place + 1;
    }
    assert(chars@ =~= qfen_of(bb@));
    from_chars(&chars)
}

} // verus!
