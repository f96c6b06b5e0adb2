use vstd::prelude::*;

use crate::text::{chars_to_string, str_to_chars};

verus! {

/// The kind of a chess piece.
#[derive(Debug, Clone, Copy, PartialEq, Eq, Structural)]
pub enum PieceType {
    Pawn,
    Knight,
    Bishop,
    Rook,
    Queen,
    King,
}

/// The side a piece belongs to.
#[derive(Debug, Clone, Copy, PartialEq, Eq, Structural)]
pub enum Color {
    White,
    Black,
}

/// A piece of a given color and kind; its index is `color | (kind << 1)`.
#[derive(Debug, Clone, Copy, PartialEq, Eq, Structural)]
pub enum Piece {
    WhitePawn,
    BlackPawn,
    WhiteKnight,
    BlackKnight,
    WhiteBishop,
    BlackBishop,
    WhiteRook,
    BlackRook,
    WhiteQueen,
    BlackQueen,
    WhiteKing,
    BlackKing,
}

/// The character that stands for a piece index in FEN: upper case for white.
pub open spec fn piece_char(p: int) -> char {
    let c = if p / 2 == 0 {
        'p'
    } else if p / 2 == 1 {
        'n'
    } else if p / 2 == 2 {
        'b'
    } else if p / 2 == 3 {
        'r'
    } else if p / 2 == 4 {
        'q'
    } else {
        'k'
    };
    if p % 2 == 0 {
        ((c as int) - 32) as char
    } else {
        c
    }
}

/// The piece of color `c` and kind `pt`.
pub open spec fn piece_of(c: Color, pt: PieceType) -> Piece {
    match (c, pt) {
        (Color::White, PieceType::Pawn) => Piece::WhitePawn,
        (Color::Black, PieceType::Pawn) => Piece::BlackPawn,
        (Color::White, PieceType::Knight) => Piece::WhiteKnight,
        (Color::Black, PieceType::Knight) => Piece::BlackKnight,
        (Color::White, PieceType::Bishop) => Piece::WhiteBishop,
        (Color::Black, PieceType::Bishop) => Piece::BlackBishop,
        (Color::White, PieceType::Rook) => Piece::WhiteRook,
        (Color::Black, PieceType::Rook) => Piece::BlackRook,
        (Color::White, PieceType::Queen) => Piece::WhiteQueen,
        (Color::Black, PieceType::Queen) => Piece::BlackQueen,
        (Color::White, PieceType::King) => Piece::WhiteKing,
        (Color::Black, PieceType::King) => Piece::BlackKing,
    }
}

impl PieceType {
    /// The index of the kind, 0 (pawn) to 5 (king).
    pub open spec fn view(self) -> int {
        self as int
    }

    /// The kind with the given index.
    pub fn from_raw(value: u8) -> (r: PieceType)
        requires
            value <= 5,
        ensures
            r@ == value,
    {
        match value {
            0u8 => PieceType::Pawn,
            1u8 => PieceType::Knight,
            2u8 => PieceType::Bishop,
            3u8 => PieceType::Rook,
            4u8 => PieceType::Queen,
            _ => PieceType::King,
        }
    }

    /// The index of the kind.
    pub fn index(self) -> (r: usize)
        ensures
            r == self@,
            r < 6,
    {
        self as usize
    }

    /// The name of the kind, such as "Knight".
    pub open spec fn name(self) -> Seq<char> {
        match self {
            PieceType::Pawn => "Pawn"@,
            PieceType::Knight => "Knight"@,
            PieceType::Bishop => "Bishop"@,
            PieceType::Rook => "Rook"@,
            PieceType::Queen => "Queen"@,
            PieceType::King => "King"@,
        }
    }

    /// The name of the kind, such as "Knight".
    pub fn to_string(self) -> (r: String)
        ensures
            r@ == self.name(),
    {
        let s = match self {
            PieceType::Pawn => "Pawn",
            PieceType::Knight => "Knight",
            PieceType::Bishop => "Bishop",
            PieceType::Rook => "Rook",
            PieceType::Queen => "Queen",
            PieceType::King => "King",
        };
        chars_to_string(&str_to_chars(s))
    }
}

impl Color {
    /// The index of the color, 0 for white and 1 for black.
    pub open spec fn view(self) -> int {
        self as int
    }

    /// The other color.
    pub open spec fn opp(self) -> Color {
        match self {
            Color::White => Color::Black,
            Color::Black => Color::White,
        }
    }

    /// The color with the given index.
    pub fn from_raw(value: u8) -> (r: Color)
        requires
            value <= 1,
        ensures
            r@ == value,
    {
        if value == 0 {
            Color::White
        } else {
            Color::Black
        }
    }

    /// The index of the color.
    pub fn index(self) -> (r: usize)
        ensures
            r == self@,
            r < 2,
    {
        self as usize
    }

    /// The other color.
    pub fn flip(self) -> (r: Color)
        ensures
            r == self.opp(),
            r@ == 1 - self@,
    {
        match self {
            Color::White => Color::Black,
            Color::Black => Color::White,
        }
    }

    /// The name of the side, "White" or "Black".
    pub open spec fn name(self) -> Seq<char> {
        match self {
            Color::White => "White"@,
            Color::Black => "Black"@,
        }
    }

    /// The name of the side, "White" or "Black".
    pub fn to_string(self) -> (r: String)
        ensures
            r@ == self.name(),
    {
        let s = match self {
            Color::White => "White",
            Color::Black => "Black",
        };
        chars_to_string(&str_to_chars(s))
    }
}

impl Piece {
    /// The index of the piece, `color | (kind << 1)`.
    pub open spec fn view(self) -> int {
        self as int
    }

    /// The piece with the given index.
    pub fn from_raw(value: u8) -> (r: Piece)
        requires
            value <= 11,
        ensures
            r@ == value,
    {
        match value {
            0u8 => Piece::WhitePawn,
            1u8 => Piece::BlackPawn,
            2u8 => Piece::WhiteKnight,
            3u8 => Piece::BlackKnight,
            4u8 => Piece::WhiteBishop,
            5u8 => Piece::BlackBishop,
            6u8 => Piece::WhiteRook,
            7u8 => Piece::BlackRook,
            8u8 => Piece::WhiteQueen,
            9u8 => Piece::BlackQueen,
            10u8 => Piece::WhiteKing,
            _ => Piece::BlackKing,
        }
    }

    /// The piece of the given color and kind.
    pub fn new(c: Color, pt: PieceType) -> (r: Piece)
        ensures
            r@ == c@ + 2 * pt@,
            r == piece_of(c, pt),
            r.color_spec() == c,
            r.type_spec() == pt,
    {
        Self::from_raw((c as u8) + (pt as u8) * 2)
    }

    /// The color of a piece.
    pub open spec fn color_spec(self) -> Color {
        if self@ % 2 == 0 {
            Color::White
        } else {
            Color::Black
        }
    }

    /// The kind of a piece.
    pub open spec fn type_spec(self) -> PieceType {
        let k = self@ / 2;
        if k == 0 {
            PieceType::Pawn
        } else if k == 1 {
            PieceType::Knight
        } else if k == 2 {
            PieceType::Bishop
        } else if k == 3 {
            PieceType::Rook
        } else if k == 4 {
            PieceType::Queen
        } else {
            PieceType::King
        }
    }

    /// The color of the piece.
    pub fn color(self) -> (r: Color)
        ensures
            r == self.color_spec(),
            r@ == self@ % 2,
    {
        Color::from_raw((self as u8) % 2)
    }

    /// The kind of the piece.
    pub fn piece_type(self) -> (r: PieceType)
        ensures
            r == self.type_spec(),
            r@ == self@ / 2,
    {
        PieceType::from_raw((self as u8) / 2)
    }

    /// The FEN character of the piece: upper case for white.
    pub fn char_repr(self) -> (r: char)
        ensures
            r == piece_char(self@),
    {
        match self {
            Piece::WhitePawn => 'P',
            Piece::BlackPawn => 'p',
            Piece::WhiteKnight => 'N',
            Piece::BlackKnight => 'n',
            Piece::WhiteBishop => 'B',
            Piece::BlackBishop => 'b',
            Piece::WhiteRook => 'R',
            Piece::BlackRook => 'r',
            Piece::WhiteQueen => 'Q',
            Piece::BlackQueen => 'q',
            Piece::WhiteKing => 'K',
            Piece::BlackKing => 'k',
        }
    }

    /// The name of the piece: its side, then its kind, such as "BlackKnight".
    pub fn to_string(self) -> (r: String)
        ensures
            r@ == self.color_spec().name() + self.type_spec().name(),
    {
        let mut v = str_to_chars(match self.color() {
            Color::White => "White",
            Color::Black => "Black",
        });
        let t = str_to_chars(match self.piece_type() {
            PieceType::Pawn => "Pawn",
            PieceType::Knight => "Knight",
            PieceType::Bishop => "Bishop",
            PieceType::Rook => "Rook",
            PieceType::Queen => "Queen",
            PieceType::King => "King",
        });
        let mut i: usize = 0;
        let ghost start = v@;
        while i < t.len()
            invariant
                i <= t.len(),
                v@ == start + t@.take(i as int),
            decreases t.len() - i,
        {
            v.push(t[i]);
            proof {
                assert(t@.take(i as int + 1) =~= t@.take(i as int).push(t[i as int]));
            }
            i = i + 1;
        }
        proof {
            assert(t@.take(t.len() as int) =~= t@);
        }
        chars_to_string(&v)
    }
}

/// A piece is determined by its color and kind, and both can be read back.
pub proof fn lemma_piece_round_trip(p: Piece, c: Color, pt: PieceType)
    ensures
        (p.color_spec() == c && p.type_spec() == pt) <==> p@ == c@ + 2 * pt@,
        (p.color_spec() == c && p.type_spec() == pt) <==> p == piece_of(c, pt),
        piece_of(c, pt).color_spec() == c,
        piece_of(c, pt).type_spec() == pt,
        piece_of(p.color_spec(), p.type_spec()) == p,
{
}

} // verus!
