use vstd::prelude::*;

use crate::text::{chars_to_string, str_to_chars};
use crate::types::piece::piece_char;
use crate::types::square::{parse_square_spec, square_name};
use crate::types::{Color, Piece, PieceType, Square};

verus! {

/// How a move is carried out besides moving a piece.
#[derive(Debug, Clone, Copy, PartialEq, Eq, Structural)]
pub enum MoveKind {
    Normal,
    Enpassant,
    Castle,
    Promotion,
}

impl MoveKind {
    /// The index of the kind, 0 to 3.
    pub open spec fn view(self) -> int {
        self as int
    }

    /// The kind with the given index.
    pub fn from_raw(value: u8) -> (r: MoveKind)
        requires
            value <= 3,
        ensures
            r@ == value,
    {
        match value {
            0u8 => MoveKind::Normal,
            1u8 => MoveKind::Enpassant,
            2u8 => MoveKind::Castle,
            _ => MoveKind::Promotion,
        }
    }
}

/// A move packed in 16 bits: origin in bits 0-5, target in bits 6-11, kind in bits 12-13,
/// promotion piece (knight 0 to queen 3) in bits 14-15.
#[derive(Debug, Clone, Copy, PartialEq, Eq, Structural)]
pub struct Move {
    data: u16,
}

/// Error returned when a move cannot be parsed.
#[derive(Debug, Clone, Copy, PartialEq, Eq, Structural)]
pub struct MoveParseErr;

/// The number of bytes that UTF-8 takes for `c`.
pub open spec fn utf8_width(c: char) -> int {
    if (c as u32) < 0x80u32 {
        1
    } else if (c as u32) < 0x800u32 {
        2
    } else if (c as u32) < 0x10000u32 {
        3
    } else {
        4
    }
}

/// The number of UTF-8 bytes of the first `n` characters of `s`.
pub open spec fn byte_offset(s: Seq<char>, n: int) -> int
    decreases n,
{
    if n <= 0 {
        0
    } else {
        byte_offset(s, n - 1) + utf8_width(s[n - 1])
    }
}

/// Whether byte `b` of the UTF-8 form of `s` starts a character (or ends the string).
pub open spec fn is_byte_boundary(s: Seq<char>, b: int) -> bool {
    exists|n: int| 0 <= n <= s.len() && #[trigger] byte_offset(s, n) == b
}

/// Whether the first four characters are ASCII.
pub open spec fn ascii_prefix4(s: Seq<char>) -> bool {
    s.len() >= 4 && forall|i: int| 0 <= i < 4 ==> (s[i] as u32) < 0x80u32
}

/// The promotion piece a move name asks for: the fifth character n, b, r or q in either
/// case, knight to queen as 0 to 3.
pub open spec fn promo_letter(s: Seq<char>) -> Option<int> {
    if s.len() > 4 && (s[4] == 'n' || s[4] == 'N') {
        Some(0)
    } else if s.len() > 4 && (s[4] == 'b' || s[4] == 'B') {
        Some(1)
    } else if s.len() > 4 && (s[4] == 'r' || s[4] == 'R') {
        Some(2)
    } else if s.len() > 4 && (s[4] == 'q' || s[4] == 'Q') {
        Some(3)
    } else {
        None
    }
}

/// What parsing a move name yields: origin, target and promotion piece. The name is split
/// after its second and fourth byte; each half must name a square. When one of the first
/// four characters is not ASCII, a half is a single character and cannot name a square.
pub open spec fn parse_move_spec(s: Seq<char>) -> Option<(int, int, Option<int>)> {
    if !ascii_prefix4(s) {
        None
    } else {
        match (parse_square_spec(s.subrange(0, 2)), parse_square_spec(s.subrange(2, 4))) {
            (Some(f), Some(t)) => Some((f, t, promo_letter(s))),
            _ => None,
        }
    }
}

/// The name of a move: its two squares, then the lower-case promotion piece or a space.
pub open spec fn move_name(from: int, to: int, kind: int, promo: int) -> Seq<char> {
    square_name(from) + square_name(to) + seq![
        if kind == 3 {
            piece_char(1 + 2 * (promo + 1))
        } else {
            ' '
        },
    ]
}

impl Move {
    /// The origin square index.
    pub closed spec fn from_spec(self) -> int {
        (self.data & 63) as int
    }

    /// The target square index.
    pub closed spec fn to_spec(self) -> int {
        ((self.data >> 6) & 63) as int
    }

    /// The kind index.
    pub closed spec fn kind_spec(self) -> int {
        ((self.data >> 12) & 3) as int
    }

    /// The promotion index, knight 0 to queen 3.
    pub closed spec fn promo_spec(self) -> int {
        (self.data >> 14) as int
    }

    /// The move with the given fields; a move is determined by them.
    pub proof fn lemma_fields(self)
        ensures
            0 <= self.from_spec() < 64,
            0 <= self.to_spec() < 64,
            0 <= self.kind_spec() < 4,
            0 <= self.promo_spec() < 4,
    {
        let d = self.data;
        assert(d & 63 < 64 && (d >> 6) & 63 < 64 && (d >> 12) & 3 < 4 && d >> 14 < 4)
            by (bit_vector);
    }

    /// Moves with the same fields are equal.
    pub proof fn lemma_eq(a: Move, b: Move)
        requires
            a.from_spec() == b.from_spec(),
            a.to_spec() == b.to_spec(),
            a.kind_spec() == b.kind_spec(),
            a.promo_spec() == b.promo_spec(),
        ensures
            a == b,
    {
        let x = a.data;
        let y = b.data;
        assert(x & 63 == y & 63 && (x >> 6) & 63 == (y >> 6) & 63 && (x >> 12) & 3 == (y >> 12)
            & 3 && x >> 14 == y >> 14 ==> x == y) by (bit_vector);
    }

    /// The null move, from a1 to a1.
    pub fn null() -> (r: Move)
        ensures
            r.from_spec() == 0 && r.to_spec() == 0 && r.kind_spec() == 0 && r.promo_spec() == 0,
    {
        let m = Move { data: 0 };
        assert(0u16 & 63 == 0 && (0u16 >> 6) & 63 == 0 && (0u16 >> 12) & 3 == 0 && 0u16 >> 14 == 0)
            by (bit_vector);
        m
    }

    fn new(from: Square, to: Square, kind: MoveKind, promo: u8) -> (r: Move)
        requires
            promo < 4,
        ensures
            r.from_spec() == from@,
            r.to_spec() == to@,
            r.kind_spec() == kind@,
            r.promo_spec() == promo,
    {
        let f = from.value() as u16;
        let t = to.value() as u16;
        let k: u16 = match kind {
            MoveKind::Normal => 0,
            MoveKind::Enpassant => 1,
            MoveKind::Castle => 2,
            MoveKind::Promotion => 3,
        };
        let p = promo as u16;
        let data: u16 = f | (t << 6) | (k << 12) | (p << 14);
        assert(f < 64 && t < 64 && k < 4 && p < 4 && data == f | (t << 6) | (k << 12) | (p << 14)
            ==> data & 63 == f && (data >> 6) & 63 == t && (data >> 12) & 3 == k && data >> 14
            == p) by (bit_vector);
        Move { data }
    }

    /// A move of a piece from one square to another.
    pub fn normal(from: Square, to: Square) -> (r: Move)
        ensures
            r.from_spec() == from@,
            r.to_spec() == to@,
            r.kind_spec() == 0,
            r.promo_spec() == 0,
    {
        Self::new(from, to, MoveKind::Normal, 0)
    }

    /// A castling move.
    pub fn castle(from: Square, to: Square) -> (r: Move)
        ensures
            r.from_spec() == from@,
            r.to_spec() == to@,
            r.kind_spec() == 2,
            r.promo_spec() == 0,
    {
        Self::new(from, to, MoveKind::Castle, 0)
    }

    /// An en passant capture.
    pub fn enpassant(from: Square, to: Square) -> (r: Move)
        ensures
            r.from_spec() == from@,
            r.to_spec() == to@,
            r.kind_spec() == 1,
            r.promo_spec() == 0,
    {
        Self::new(from, to, MoveKind::Enpassant, 0)
    }

    /// A pawn move that promotes to `promo`, a knight, bishop, rook or queen.
    pub fn promo(from: Square, to: Square, promo: PieceType) -> (r: Move)
        requires
            1 <= promo@ <= 4,
        ensures
            r.from_spec() == from@,
            r.to_spec() == to@,
            r.kind_spec() == 3,
            r.promo_spec() == promo@ - 1,
    {
        Self::new(from, to, MoveKind::Promotion, (promo as u8) - 1)
    }

    /// The origin square.
    pub fn from_sq(&self) -> (r: Square)
        ensures
            r@ == self.from_spec(),
    {
        let d = self.data;
        assert(d & 63 < 64) by (bit_vector);
        Square::from_raw((d & 63) as u8)
    }

    /// The target square.
    pub fn to_sq(&self) -> (r: Square)
        ensures
            r@ == self.to_spec(),
    {
        let d = self.data;
        assert((d >> 6) & 63 < 64) by (bit_vector);
        Square::from_raw(((d >> 6) & 63) as u8)
    }

    /// The kind of the move.
    pub fn kind(&self) -> (r: MoveKind)
        ensures
            r@ == self.kind_spec(),
    {
        let d = self.data;
        assert((d >> 12) & 3 < 4) by (bit_vector);
        MoveKind::from_raw(((d >> 12) & 3) as u8)
    }

    /// The promotion piece; meaningful for promotions only.
    pub fn promo_piece(&self) -> (r: PieceType)
        ensures
            r@ == self.promo_spec() + 1,
    {
        let d = self.data;
        assert(d >> 14 < 4) by (bit_vector);
        PieceType::from_raw(((d >> 14) + 1) as u8)
    }

    /// The name of the move, such as "e7e8q"; moves other than promotions end in a space.
    pub fn to_string(&self) -> (r: String)
        ensures
            r@ == move_name(self.from_spec(), self.to_spec(), self.kind_spec(), self.promo_spec()),
    {
        let mut out: Vec<char> = Vec::new();
        let from = self.from_sq();
        let to = self.to_sq();
        out.push((from.file() + 97) as char);
        out.push((from.rank() + 49) as char);
        out.push((to.file() + 97) as char);
        out.push((to.rank() + 49) as char);
        if self.kind() == MoveKind::Promotion {
            out.push(Piece::new(Color::Black, self.promo_piece()).char_repr());
        } else {
            out.push(' ');
        }
        proof {
            assert(out@ =~= move_name(
                self.from_spec(),
                self.to_spec(),
                self.kind_spec(),
                self.promo_spec(),
            ));
        }
        chars_to_string(&out)
    }

    /// Parses a move name such as "e2e4" or "e7e8q"; the name must be split after its second
    /// and fourth byte at character boundaries.
    pub fn from_str(s: &str) -> (r: Result<Move, MoveParseErr>)
        requires
            is_byte_boundary(s@, 2),
            is_byte_boundary(s@, 4),
        ensures
            match parse_move_spec(s@) {
                Some((f, t, p)) => r matches Ok(m) && m.from_spec() == f && m.to_spec() == t
                    && match p {
                    Some(pi) => m.kind_spec() == 3 && m.promo_spec() == pi,
                    None => m.kind_spec() == 0 && m.promo_spec() == 0,
                },
                None => r is Err,
            },
    {
        let chars = str_to_chars(s);
        Self::parse_chars(&chars)
    }

    /// Parses a move name given as characters, as `from_str` does.
    pub fn parse_chars(s: &Vec<char>) -> (r: Result<Move, MoveParseErr>)
        ensures
            match parse_move_spec(s@) {
                Some((f, t, p)) => r matches Ok(m) && m.from_spec() == f && m.to_spec() == t
                    && match p {
                    Some(pi) => m.kind_spec() == 3 && m.promo_spec() == pi,
                    None => m.kind_spec() == 0 && m.promo_spec() == 0,
                },
                None => r is Err,
            },
    {
        if s.len() < 4 {
            return Err(MoveParseErr);
        }
        let mut i: usize = 0;
        while i < 4
            invariant
                i <= 4,
                s.len() >= 4,
                forall|j: int| 0 <= j < i ==> (s@[j] as u32) < 0x80u32,
            decreases 4 - i,
        {
            if (s[i] as u32) >= 0x80u32 {
                return Err(MoveParseErr);
            }
            i = i + 1;
        }
        let mut a: Vec<char> = Vec::new();
        a.push(s[0]);
        a.push(s[1]);
        let mut b: Vec<char> = Vec::new();
        b.push(s[2]);
        b.push(s[3]);
        proof {
            assert(a@ =~= s@.subrange(0, 2));
            assert(b@ =~= s@.subrange(2, 4));
        }
        let from = match Square::parse_chars(&a) {
            Ok(q) => q,
            Err(_) => {
                return Err(MoveParseErr);
            },
        };
        let to = match Square::parse_chars(&b) {
            Ok(q) => q,
            Err(_) => {
                return Err(MoveParseErr);
            },
        };
        if s.len() > 4 {
            let c = s[4];
            if c == 'n' || c == 'N' {
                return Ok(Move::promo(from, to, PieceType::Knight));
            } else if c == 'b' || c == 'B' {
                return Ok(Move::promo(from, to, PieceType::Bishop));
            } else if c == 'r' || c == 'R' {
                return Ok(Move::promo(from, to, PieceType::Rook));
            } else if c == 'q' || c == 'Q' {
                return Ok(Move::promo(from, to, PieceType::Queen));
            }
        }
        Ok(Move::normal(from, to))
    }
}

} // verus!
