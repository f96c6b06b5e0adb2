use vstd::prelude::*;

use crate::text::chars_to_string;

verus! {

/// A set of castling rights, one bit each: white king side 1, white queen side 2,
/// black king side 4, black queen side 8.
#[derive(Debug, Clone, Copy, PartialEq, Eq, Structural)]
pub struct CastleRights(u8);

/// The letters of the rights in `bits`, in the order K, Q, k, q.
pub open spec fn rights_text(bits: int) -> Seq<char> {
    (if bits % 2 == 1 {
        seq!['K']
    } else {
        Seq::empty()
    }) + (if (bits / 2) % 2 == 1 {
        seq!['Q']
    } else {
        Seq::empty()
    }) + (if (bits / 4) % 2 == 1 {
        seq!['k']
    } else {
        Seq::empty()
    }) + (if (bits / 8) % 2 == 1 {
        seq!['q']
    } else {
        Seq::empty()
    })
}

impl CastleRights {
    /// The bits of the set.
    pub closed spec fn view(self) -> u8 {
        self.0
    }

    /// The set with the given bits, which must be below 16.
    pub fn new(rights: u8) -> (r: CastleRights)
        requires
            rights < 16,
        ensures
            r@ == rights,
    {
        CastleRights(rights)
    }

    /// No right.
    pub fn none() -> (r: CastleRights)
        ensures
            r@ == 0,
    {
        CastleRights(0)
    }

    /// White may castle on the king side.
    pub fn white_king_side() -> (r: CastleRights)
        ensures
            r@ == 1,
    {
        CastleRights(1)
    }

    /// White may castle on the queen side.
    pub fn white_queen_side() -> (r: CastleRights)
        ensures
            r@ == 2,
    {
        CastleRights(2)
    }

    /// Black may castle on the king side.
    pub fn black_king_side() -> (r: CastleRights)
        ensures
            r@ == 4,
    {
        CastleRights(4)
    }

    /// Black may castle on the queen side.
    pub fn black_queen_side() -> (r: CastleRights)
        ensures
            r@ == 8,
    {
        CastleRights(8)
    }

    /// Whether the set holds `right`, a single right.
    pub fn has(self, right: CastleRights) -> (r: bool)
        requires
            right@ == 1 || right@ == 2 || right@ == 4 || right@ == 8,
        ensures
            r == ((self@ & right@) != 0),
    {
        (self.0 & right.0) > 0
    }

    /// The rights in both sets.
    pub fn bit_and(self, rhs: CastleRights) -> (r: CastleRights)
        ensures
            r@ == self@ & rhs@,
    {
        CastleRights(self.0 & rhs.0)
    }

    /// The rights in either set.
    pub fn bit_or(self, rhs: CastleRights) -> (r: CastleRights)
        ensures
            r@ == self@ | rhs@,
    {
        CastleRights(self.0 | rhs.0)
    }

    /// The rights as FEN letters, such as "KQq".
    pub fn to_string(self) -> (r: String)
        requires
            self@ < 16,
        ensures
            r@ == rights_text(self@ as int),
    {
        let v = self.0;
        let mut out: Vec<char> = Vec::new();
        assert((v & 1 != 0) == (v % 2 == 1)) by (bit_vector);
        assert((v & 2 != 0) == ((v / 2) % 2 == 1)) by (bit_vector);
        assert((v & 4 != 0) == ((v / 4) % 2 == 1)) by (bit_vector);
        assert((v & 8 != 0) == ((v / 8) % 2 == 1)) by (bit_vector);
        if self.has(CastleRights::white_king_side()) {
            out.push('K');
        }
        let ghost a = out@;
        if self.has(CastleRights::white_queen_side()) {
            out.push('Q');
        }
        let ghost b = out@;
        if self.has(CastleRights::black_king_side()) {
            out.push('k');
        }
        let ghost c = out@;
        if self.has(CastleRights::black_queen_side()) {
            out.push('q');
        }
        proof {
            assert(out@ =~= rights_text(v as int));
        }
        chars_to_string(&out)
    }
}

} // verus!
