//! A board with its binary encodings and canonical keys.
use crate::bitboard::{le_bytes, lemma_le_bytes_injective, Bitboard};
use crate::constants::{FLAG_CANON, VERSION};
use crate::qfen::{
    bb_from_qfen, bb_to_qfen, is_qfen, lemma_qfen_unique, qfen_board, qfen_complaint,
    qfen_describes, qfen_of,
};
use crate::symmetry::{
    canonical, image, law_canonical_complete, law_canonical_invariant, lemma_canonical,
    lists_orbit, payload_number, Sym, SymmetryHandler,
};
use vstd::prelude::*;

verus! {

/// The eighteen bytes of an encoded board: version, flags, planes.
pub open spec fn packed(b: Seq<u16>, flags: u8) -> Seq<u8> {
    seq![VERSION, flags] + le_bytes(b)
}

/// The canonical key of the planes `b`.
pub open spec fn canonical_key_of(b: Seq<u16>) -> Seq<u8> {
    packed(canonical(b), FLAG_CANON)
}

/// Packing loses nothing.
pub proof fn law_pack_round_trip(a: Seq<u16>, b: Seq<u16>, f: u8, g: u8)
    requires
        a.len() == 8,
        b.len() == 8,
        packed(a, f) == packed(b, g),
    ensures
        a == b,
        f == g,
{
    assert(packed(a, f)[1] == f && packed(b, g)[1] == g);
    assert(packed(a, f).subrange(2, 18) =~= le_bytes(a));
    assert(packed(b, g).subrange(2, 18) =~= le_bytes(b));
    lemma_le_bytes_injective(a, b);
}

/// Two boards have the same canonical key exactly if a symmetry takes one to
/// the other.
pub proof fn law_canonical_key_identifies_orbits(a: Seq<u16>, b: Seq<u16>)
    requires
        a.len() == 8,
        b.len() == 8,
    ensures
        canonical_key_of(a) == canonical_key_of(b) <==> exists|g: Sym|
            g.valid() && a == #[trigger] image(b, g),
{
    lemma_canonical(a, a);
    lemma_canonical(b, b);
    if canonical_key_of(a) == canonical_key_of(b) {
        law_pack_round_trip(canonical(a), canonical(b), FLAG_CANON, FLAG_CANON);
        law_canonical_complete(a, b);
    }
    if exists|g: Sym| g.valid() && a == #[trigger] image(b, g) {
        let g = choose|g: Sym| g.valid() && a == #[trigger] image(b, g);
        law_canonical_invariant(b, g);
    }
}

/// A board with serialization, QFEN conversion and canonical keys.
#[derive(Clone, Copy, Debug, PartialEq, Eq, Hash)]
pub struct State {
    pub bb: Bitboard,
}

impl State {
    pub fn new(bb: Bitboard) -> (s: Self)
        ensures
            s.bb == bb,
    {
        Self { bb }
    }

    /// The state of the board without any piece.
    pub fn empty() -> (s: Self)
        ensures
            s.bb@ == Seq::new(8, |i: int| 0u16),
    {
        Self { bb: Bitboard::empty() }
    }

    pub fn from_qfen(qfen: &str) -> (r: Result<Self, String>)
        ensures
            r is Ok <==> is_qfen(qfen@),
            r matches Ok(s) ==> qfen_describes(qfen@, s.bb@) && s.bb@ == qfen_board(qfen@),
            r matches Err(e) ==> qfen_complaint(qfen@) == Some(e@),
    {
        match bb_from_qfen(qfen) {
            Ok(bb) => {
                proof {
                    lemma_qfen_unique(qfen@, bb@, qfen_board(qfen@));
                }
                Ok(Self { bb })
            },
            Err(e) => Err(e),
        }
    }

    pub fn to_qfen(&self) -> (q: String)
        ensures
            q@ == qfen_of(self.bb@),
    {
        bb_to_qfen(&self.bb)
    }

    /// The eighteen bytes of the state: version, `flags`, little-endian planes.
    pub fn pack(&self, flags: u8) -> (data: [u8; 18])
        ensures
            data@ == packed(self.bb@, flags),
    {
        let payload = self.bb.to_le_bytes();
        let mut data = [0u8;18];
        data[0] = VERSION;
        data[1] = flags;
        let mut i: usize = 0;
        while i < 16
            invariant
                i <= 16,
                data@[0] == VERSION,
                data@[1] == flags,
                payload@ == le_bytes(self.bb@),
                forall|j: int| 0 <= j < i ==> data@[j + 2] == payload@[j],
            decreases 16 - i,
        {
            data[i + 2] = payload[i];
            i = i + 1;
        }
        assert(data@ =~= packed(self.bb@, flags)) by {
            assert forall|k: int| 2 <= k < 18 implies data@[k] == packed(self.bb@, flags)[k] by {
                assert(data@[(k - 2) + 2] == payload@[k - 2]);
            }
        }
        data
    }

    /// Read a state from a buffer of at least eighteen bytes. The version byte
    /// must be [`VERSION`]; the flags are not looked at.
    pub fn unpack(data: &[u8]) -> (r: Result<Self, String>)
        ensures
            r is Ok <==> data@.len() >= 18 && data@[0] == VERSION,
            r matches Ok(s) ==> packed(s.bb@, data@[1]) == data@.subrange(0, 18),
            r matches Err(e) ==> e@ == (if data@.len() < 18 {
                "packed state is shorter than eighteen bytes"@
            } else {
                "packed state has an unknown version"@
            }),
    {
        if data.len() < 18 {
            return Err("packed state is shorter than eighteen bytes".to_owned());
        }
        if data[0] != VERSION {
            return Err("packed state has an unknown version".to_owned());
        }
        let mut payload = [0u8;16];
        let mut i: usize = 0;
        while i < 16
            invariant
                i <= 16,
                data@.len() >= 18,
                forall|j: int| 0 <= j < i ==> payload@[j] == data@[j + 2],
            decreases 16 - i,
        {
            payload[i] = data[i + 2];
            i = i + 1;
        }
        let bb = Bitboard::from_le_bytes(&payload);
        assert(packed(bb@, data@[1]) =~= data@.subrange(0, 18)) by {
            assert forall|k: int| 2 <= k < 18 implies packed(bb@, data@[1])[k] == data@.subrange(
                0,
                18,
            )[k] by {
                assert(payload@[k - 2] == data@[(k - 2) + 2]);
            }
        }
        Ok(Self { bb })
    }

    /// The canonical key: the eighteen bytes of the canonical representative,
    /// with [`FLAG_CANON`] set.
    pub fn canonical_key(&self) -> (key: [u8; 18])
        ensures
            key@ == canonical_key_of(self.bb@),
    {
        let canon = SymmetryHandler::find_canonical(&self.bb);
        State { bb: canon }.pack(FLAG_CANON)
    }

    /// The sixteen bytes of the canonical representative.
    pub fn canonical_payload(&self) -> (payload: [u8; 16])
        ensures
            payload@ == le_bytes(canonical(self.bb@)),
    {
        SymmetryHandler::canonical_payload(&self.bb)
    }

    /// The canonical payload read as a big-endian number.
    pub fn canonical_number(&self) -> (number: u128)
        ensures
            number == payload_number(canonical(self.bb@)),
    {
        SymmetryHandler::canonical_number(&self.bb)
    }

    /// The number of distinct boards that are symmetric to this one.
    pub fn symmetry_count(&self) -> (size: usize)
        ensures
            1 <= size <= 192,
            exists|list: Seq<u128>| #[trigger] lists_orbit(list, self.bb@) && size == list.len(),
            forall|list: Seq<u128>| #[trigger] lists_orbit(list, self.bb@) ==> size == list.len(),
    {
        SymmetryHandler::orbit_size(&self.bb)
    }

    /// Whether the board is its own canonical representative.
    pub fn is_canonical(&self) -> (r: bool)
        ensures
            r <==> canonical(self.bb@) == self.bb@,
    {
        SymmetryHandler::find_canonical(&self.bb) == self.bb
    }
}

impl Default for State {
    fn default() -> (s: Self)
        ensures
            s.bb@ == Seq::new(8, |i: int| 0u16),
    {
        Self::empty()
    }
}

} // verus!
