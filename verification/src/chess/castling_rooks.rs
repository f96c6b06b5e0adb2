use vstd::prelude::*;

use crate::chess::castle_rights::rights_text;
use crate::text::chars_to_string;
use crate::types::{Color, Square};

verus! {

/// The rooks a side may still castle with.
#[derive(Debug, Clone, Copy, PartialEq, Eq, Structural)]
pub struct RookPair {
    pub king_side: Option<Square>,
    pub queen_side: Option<Square>,
}

impl RookPair {
    /// Forgets the rook on `sq`, the king side one first.
    pub fn remove(&mut self, sq: Square)
        ensures
            if old(self).king_side == Some(sq) {
                final(self).king_side is None && final(self).queen_side == old(self).queen_side
            } else if old(self).queen_side == Some(sq) {
                final(self).king_side == old(self).king_side && final(self).queen_side is None
            } else {
                *final(self) == *old(self)
            },
    {
        if self.king_side == Some(sq) {
            self.king_side = None;
        } else if self.queen_side == Some(sq) {
            self.queen_side = None;
        }
    }

    /// Forgets both rooks.
    pub fn remove_both(&mut self)
        ensures
            final(self).king_side is None,
            final(self).queen_side is None,
    {
        self.king_side = None;
        self.queen_side = None;
    }
}

/// The castling rooks of both sides, white first, and whether the game is Chess960.
#[derive(Debug, Clone, Copy, PartialEq, Eq)]
pub struct CastlingRooks {
    pub rooks: [RookPair; 2],
    pub frc: bool,
}

/// The right bits of castling rooks: 1 and 2 for white's king and queen side, 4 and 8 for
/// black's.
pub open spec fn right_bits_spec(w: RookPair, b: RookPair) -> int {
    (if w.king_side is Some {
        1int
    } else {
        0
    }) + (if w.queen_side is Some {
        2int
    } else {
        0
    }) + (if b.king_side is Some {
        4int
    } else {
        0
    }) + (if b.queen_side is Some {
        8int
    } else {
        0
    })
}

impl CastlingRooks {
    /// No castling rook, standard chess.
    pub open spec fn empty_spec() -> CastlingRooks {
        CastlingRooks {
            rooks: [
                RookPair { king_side: None, queen_side: None },
                RookPair { king_side: None, queen_side: None },
            ],
            frc: false,
        }
    }

    /// No castling rook, standard chess.
    pub fn empty() -> (r: CastlingRooks)
        ensures
            r == CastlingRooks::empty_spec(),
            r.rooks[0].king_side is None,
            r.rooks[0].queen_side is None,
            r.rooks[1].king_side is None,
            r.rooks[1].queen_side is None,
            !r.frc,
    {
        CastlingRooks {
            rooks: [
                RookPair { king_side: None, queen_side: None },
                RookPair { king_side: None, queen_side: None },
            ],
            frc: false,
        }
    }

    /// Castling rooks on the given squares.
    pub fn new(wk: Square, wq: Square, bk: Square, bq: Square, frc: bool) -> (r: CastlingRooks)
        ensures
            r.rooks[0] == (RookPair { king_side: Some(wk), queen_side: Some(wq) }),
            r.rooks[1] == (RookPair { king_side: Some(bk), queen_side: Some(bq) }),
            r.frc == frc,
    {
        CastlingRooks {
            rooks: [
                RookPair { king_side: Some(wk), queen_side: Some(wq) },
                RookPair { king_side: Some(bk), queen_side: Some(bq) },
            ],
            frc: frc,
        }
    }

    /// The castling rooks of side `c`.
    pub fn color(&self, c: Color) -> (r: &RookPair)
        ensures
            *r == self.rooks[c@],
    {
        &self.rooks[c.index()]
    }

    /// The castling rooks of side `c`, to change them.
    pub fn color_mut(&mut self, c: Color) -> (r: &mut RookPair)
        ensures
            *r == old(self).rooks[c@],
            final(self).rooks[c@] == *final(r),
            final(self).rooks[1 - c@] == old(self).rooks[1 - c@],
            final(self).frc == old(self).frc,
    {
        &mut self.rooks[c.index()]
    }

    /// Replaces the castling rooks of side `c`.
    pub fn set_color(&mut self, c: Color, pair: RookPair)
        ensures
            final(self).rooks[c@] == pair,
            final(self).rooks[1 - c@] == old(self).rooks[1 - c@],
            final(self).frc == old(self).frc,
    {
        self.rooks[c.index()] = pair;
    }

    /// The castling rights as bits: 1 and 2 for white's king and queen side, 4 and 8 for
    /// black's.
    pub fn right_bits(&self) -> (r: u32)
        ensures
            r == right_bits_spec(self.rooks[0], self.rooks[1]),
    {
        let mut rights: u32 = 0;
        assert(0u32 | 1 == 1) by (bit_vector);
        if self.color(Color::White).king_side.is_some() {
            rights = rights | 1;
        }
        assert(rights < 2 ==> rights | 2 == rights + 2) by (bit_vector);
        if self.color(Color::White).queen_side.is_some() {
            rights = rights | 2;
        }
        assert(rights < 4 ==> rights | 4 == rights + 4) by (bit_vector);
        if self.color(Color::Black).king_side.is_some() {
            rights = rights | 4;
        }
        assert(rights < 8 ==> rights | 8 == rights + 8) by (bit_vector);
        if self.color(Color::Black).queen_side.is_some() {
            rights = rights | 8;
        }
        rights
    }

    /// Where the king lands when castling on the given side.
    pub fn king_to(king_side: bool, c: Color) -> (r: Square)
        ensures
            r@ == (if king_side {
                6int
            } else {
                2int
            }) + if c == Color::White {
                0int
            } else {
                56int
            },
    {
        match (king_side, c) {
            (false, Color::White) => Square::C1,
            (false, Color::Black) => Square::C8,
            (true, Color::White) => Square::G1,
            (true, Color::Black) => Square::G8,
        }
    }

    /// Where the rook lands when castling on the given side.
    pub fn rook_to(king_side: bool, c: Color) -> (r: Square)
        ensures
            r@ == (if king_side {
                5int
            } else {
                3int
            }) + if c == Color::White {
                0int
            } else {
                56int
            },
    {
        match (king_side, c) {
            (false, Color::White) => Square::D1,
            (false, Color::Black) => Square::D8,
            (true, Color::White) => Square::F1,
            (true, Color::Black) => Square::F8,
        }
    }

    /// The rights as FEN letters such as "KQkq", or "-" when there is none.
    pub open spec fn text(self) -> Seq<char> {
        if right_bits_spec(self.rooks[0], self.rooks[1]) == 0 {
            seq!['-']
        } else {
            rights_text(right_bits_spec(self.rooks[0], self.rooks[1]))
        }
    }

    /// The rights as FEN letters such as "KQkq", or "-" when there is none; standard chess
    /// only.
    pub fn to_string(&self) -> (r: String)
        requires
            !self.frc,
        ensures
            r@ == self.text(),
    {
        let out = self.to_chars();
        chars_to_string(&out)
    }

    /// The characters of `to_string`.
    pub fn to_chars(&self) -> (r: Vec<char>)
        requires
            !self.frc,
        ensures
            r@ == self.text(),
    {
        let mut out: Vec<char> = Vec::new();
        if self.color(Color::White).king_side.is_some() {
            out.push('K');
        }
        if self.color(Color::White).queen_side.is_some() {
            out.push('Q');
        }
        if self.color(Color::Black).king_side.is_some() {
            out.push('k');
        }
        if self.color(Color::Black).queen_side.is_some() {
            out.push('q');
        }
        if out.len() == 0 {
            out.push('-');
        }
        proof {
            let bits = right_bits_spec(self.rooks[0], self.rooks[1]);
            if bits != 0 {
                assert(out@ =~= rights_text(bits));
            } else {
                assert(out@ =~= seq!['-']);
            }
        }
        out
    }
}

} // verus!
