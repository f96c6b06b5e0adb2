use vstd::prelude::*;

use super::piece::Color;
use crate::text::{trim_chars, trim_bounds, chars_to_string, str_to_chars};

verus! {

/// A square of the board, numbered from A1 (0) to H8 (63) rank by rank.
#[derive(Debug, Clone, Copy, PartialEq, Eq, Structural)]
pub enum Square {
    A1, B1, C1, D1, E1, F1, G1, H1,
    A2, B2, C2, D2, E2, F2, G2, H2,
    A3, B3, C3, D3, E3, F3, G3, H3,
    A4, B4, C4, D4, E4, F4, G4, H4,
    A5, B5, C5, D5, E5, F5, G5, H5,
    A6, B6, C6, D6, E6, F6, G6, H6,
    A7, B7, C7, D7, E7, F7, G7, H7,
    A8, B8, C8, D8, E8, F8, G8, H8,
}

/// Error returned when a square name cannot be parsed.
#[derive(Debug, Clone, Copy, PartialEq, Eq, Structural)]
pub struct SquareParseErr;

/// The rank (0-7) of a square index.
pub open spec fn rank_of(s: int) -> int {
    s / 8
}

/// The file (0-7) of a square index.
pub open spec fn file_of(s: int) -> int {
    s % 8
}

/// The absolute value of an integer.
pub open spec fn abs_int(x: int) -> int {
    if x < 0 {
        -x
    } else {
        x
    }
}

/// The larger of two integers.
pub open spec fn max_int(a: int, b: int) -> int {
    if a < b {
        b
    } else {
        a
    }
}

/// The square index seen from the side of `white`: unchanged for white, mirrored
/// vertically for black.
pub open spec fn relative_index(s: int, white: bool) -> int {
    if white {
        s
    } else {
        s + 56 - 16 * (s / 8)
    }
}

/// The square index mirrored vertically (rank r becomes rank 7 - r).
pub open spec fn flipped_index(s: int) -> int {
    s + 56 - 16 * (s / 8)
}

/// The king distance between two square indices.
pub open spec fn chebyshev_dist(a: int, b: int) -> int {
    max_int(abs_int(rank_of(a) - rank_of(b)), abs_int(file_of(a) - file_of(b)))
}

/// The lower-case character that names a file.
pub open spec fn file_char(f: int) -> char {
    (f + 97) as char
}

/// The character that names a rank.
pub open spec fn rank_char(r: int) -> char {
    (r + 49) as char
}

/// The two characters that name a square, such as "e4".
pub open spec fn square_name(s: int) -> Seq<char> {
    seq![file_char(file_of(s)), rank_char(rank_of(s))]
}


/// The ASCII lower case of a character; other characters are unchanged.
pub open spec fn ascii_lower(c: char) -> char {
    if 'A' <= c <= 'Z' {
        ((c as int) + 32) as char
    } else {
        c
    }
}

/// What parsing a square name yields: the first two characters after trimming
/// must be a file letter (either case) and a rank digit; anything after them is ignored.
pub open spec fn parse_square_spec(s: Seq<char>) -> Option<int> {
    let t = trim_chars(s);
    if t.len() >= 2 && 'a' <= ascii_lower(t[0]) <= 'h' && '1' <= t[1] <= '8' {
        Some((t[1] as int - 49) * 8 + (ascii_lower(t[0]) as int - 97))
    } else {
        None
    }
}

impl Square {
    /// The index of the square, 0 to 63.
    pub open spec fn view(self) -> int {
        self as int
    }

    /// The square with index `v`, 0 to 63.
    pub open spec fn from_index(v: int) -> Square {
        choose|q: Square| q@ == v
    }

    /// `from_index` names the square with the given index.
    pub proof fn lemma_from_index(q: Square)
        ensures
            Square::from_index(q@) == q,
    {
        let r = Square::from_index(q@);
        assert(r@ == q@);
    }

    /// The square with the given index.
    pub fn from_raw(value: u8) -> (r: Square)
        requires
            value < 64,
        ensures
            r@ == value,
            r == Square::from_index(value as int),
    {
        let r = match value {
        0u8 => Square::A1,
        1u8 => Square::B1,
        2u8 => Square::C1,
        3u8 => Square::D1,
        4u8 => Square::E1,
        5u8 => Square::F1,
        6u8 => Square::G1,
        7u8 => Square::H1,
        8u8 => Square::A2,
        9u8 => Square::B2,
        10u8 => Square::C2,
        11u8 => Square::D2,
        12u8 => Square::E2,
        13u8 => Square::F2,
        14u8 => Square::G2,
        15u8 => Square::H2,
        16u8 => Square::A3,
        17u8 => Square::B3,
        18u8 => Square::C3,
        19u8 => Square::D3,
        20u8 => Square::E3,
        21u8 => Square::F3,
        22u8 => Square::G3,
        23u8 => Square::H3,
        24u8 => Square::A4,
        25u8 => Square::B4,
        26u8 => Square::C4,
        27u8 => Square::D4,
        28u8 => Square::E4,
        29u8 => Square::F4,
        30u8 => Square::G4,
        31u8 => Square::H4,
        32u8 => Square::A5,
        33u8 => Square::B5,
        34u8 => Square::C5,
        35u8 => Square::D5,
        36u8 => Square::E5,
        37u8 => Square::F5,
        38u8 => Square::G5,
        39u8 => Square::H5,
        40u8 => Square::A6,
        41u8 => Square::B6,
        42u8 => Square::C6,
        43u8 => Square::D6,
        44u8 => Square::E6,
        45u8 => Square::F6,
        46u8 => Square::G6,
        47u8 => Square::H6,
        48u8 => Square::A7,
        49u8 => Square::B7,
        50u8 => Square::C7,
        51u8 => Square::D7,
        52u8 => Square::E7,
        53u8 => Square::F7,
        54u8 => Square::G7,
        55u8 => Square::H7,
        56u8 => Square::A8,
        57u8 => Square::B8,
        58u8 => Square::C8,
        59u8 => Square::D8,
        60u8 => Square::E8,
        61u8 => Square::F8,
        62u8 => Square::G8,
            _ => Square::H8,
        };
        proof {
            Square::lemma_from_index(r);
        }
        r
    }

    /// The square on the given rank and file.
    pub fn from_rank_file(rank: u8, file: u8) -> (r: Square)
        requires
            rank <= 7,
            file <= 7,
        ensures
            r@ == rank * 8 + file,
            rank_of(r@) == rank,
            file_of(r@) == file,
    {
        Self::from_raw(rank * 8 + file)
    }

    /// The index of the square.
    pub fn value(self) -> (r: u8)
        ensures
            r == self@,
            r < 64,
    {
        self as u8
    }

    /// The rank of the square, 0 for the first rank.
    pub fn rank(self) -> (r: u8)
        ensures
            r == rank_of(self@),
            r < 8,
    {
        self.value() / 8
    }

    /// The file of the square, 0 for the a-file.
    pub fn file(self) -> (r: u8)
        ensures
            r == file_of(self@),
            r < 8,
    {
        self.value() % 8
    }

    /// The square mirrored vertically.
    pub fn flip(self) -> (r: Square)
        ensures
            r@ == flipped_index(self@),
            rank_of(r@) == 7 - rank_of(self@),
            file_of(r@) == file_of(self@),
    {
        Self::from_rank_file(7 - self.rank(), self.file())
    }

    /// The square as seen from the side `c`: unchanged for white, mirrored for black.
    pub fn relative_sq(self, c: Color) -> (r: Square)
        ensures
            r@ == relative_index(self@, c == Color::White),
    {
        match c {
            Color::White => self,
            Color::Black => self.flip(),
        }
    }

    /// The number of king steps between two squares.
    pub fn chebyshev(a: Square, b: Square) -> (r: i32)
        ensures
            r == chebyshev_dist(a@, b@),
            0 <= r <= 7,
    {
        let dr: i32 = if a.rank() >= b.rank() {
            (a.rank() - b.rank()) as i32
        } else {
            (b.rank() - a.rank()) as i32
        };
        let df: i32 = if a.file() >= b.file() {
            (a.file() - b.file()) as i32
        } else {
            (b.file() - a.file()) as i32
        };
        if dr < df {
            df
        } else {
            dr
        }
    }

    /// The square `delta` indices further on.
    pub fn offset(self, delta: i32) -> (r: Square)
        requires
            0 <= self@ + delta < 64,
        ensures
            r@ == self@ + delta,
    {
        let v: i32 = self.value() as i32 + delta;
        Self::from_raw(v as u8)
    }

    /// The difference of the indices of two squares.
    pub fn diff(self, other: Square) -> (r: i32)
        ensures
            r == self@ - other@,
    {
        self.value() as i32 - other.value() as i32
    }

    /// The name of the square, such as "e4".
    pub fn to_string(self) -> (r: String)
        ensures
            r@ == square_name(self@),
    {
        let mut v: Vec<char> = Vec::new();
        v.push(((self.file() + 97) as char));
        v.push(((self.rank() + 49) as char));
        chars_to_string(&v)
    }

    /// Parses a square name; surrounding white space is ignored, as is anything
    /// after the first two characters.
    pub fn from_str(s: &str) -> (r: Result<Square, SquareParseErr>)
        ensures
            match parse_square_spec(s@) {
                Some(v) => r matches Ok(q) && q@ == v,
                None => r is Err,
            },
    {
        let chars = str_to_chars(s);
        Self::parse_chars(&chars)
    }

    /// Parses a square name given as characters, as `from_str` does.
    pub fn parse_chars(s: &Vec<char>) -> (r: Result<Square, SquareParseErr>)
        ensures
            match parse_square_spec(s@) {
                Some(v) => r matches Ok(q) && q@ == v,
                None => r is Err,
            },
    {
        let (start, end) = trim_bounds(s);
        proof {
            assert(trim_chars(s@) =~= s@.subrange(start as int, end as int));
        }
        if end - start < 2 {
            return Err(SquareParseErr);
        }
        let mut file = s[start];
        if 'A' <= file && file <= 'Z' {
            file = (((file as u32) + 32) as u8) as char;
        }
        let rank = s[start + 1];
        if 'a' <= file && file <= 'h' && '1' <= rank && rank <= '8' {
            let r: u8 = (rank as u32 - 49) as u8;
            let f: u8 = (file as u32 - 97) as u8;
            return Ok(Square::from_rank_file(r, f));
        }
        Err(SquareParseErr)
    }
}

} // verus!
