use vstd::prelude::*;

use super::castling_rooks::{CastlingRooks, RookPair};
use super::chess_move::utf8_width;
use crate::text::{parse_u8_spec, split_ws};
use crate::types::piece::piece_of;
use super::board::Board;
use crate::types::square::square_name;
use crate::types::piece::piece_char;
use crate::types::{Color, Piece, PieceType, Square};

verus! {

/// The piece a FEN letter stands for: upper case for white.
pub open spec fn piece_of_letter(c: char) -> Option<Piece> {
    if c == 'P' {
        Some(Piece::WhitePawn)
    } else if c == 'N' {
        Some(Piece::WhiteKnight)
    } else if c == 'B' {
        Some(Piece::WhiteBishop)
    } else if c == 'R' {
        Some(Piece::WhiteRook)
    } else if c == 'Q' {
        Some(Piece::WhiteQueen)
    } else if c == 'K' {
        Some(Piece::WhiteKing)
    } else if c == 'p' {
        Some(Piece::BlackPawn)
    } else if c == 'n' {
        Some(Piece::BlackKnight)
    } else if c == 'b' {
        Some(Piece::BlackBishop)
    } else if c == 'r' {
        Some(Piece::BlackRook)
    } else if c == 'q' {
        Some(Piece::BlackQueen)
    } else if c == 'k' {
        Some(Piece::BlackKing)
    } else {
        None
    }
}

/// The state of the scan of a piece placement field before its character `n`: a status
/// (0 going on, 1 rejected, 2 a piece falls off the board), the index of the square the
/// next piece goes to, and the number of '/' read. The scan starts on a8; a digit 1 to 9
/// skips that many squares; a piece letter puts a piece and moves on one square; '/'
/// must come exactly at the end of a rank and moves to the start of the next one down.
pub open spec fn place_scan(p: Seq<char>, n: int) -> (int, int, int)
    decreases n,
{
    if n <= 0 {
        (0, 56, 0)
    } else {
        let prev = place_scan(p, n - 1);
        let c = p[n - 1];
        if prev.0 != 0 {
            prev
        } else if '1' <= c <= '9' {
            (0, prev.1 + (c as int - 48), prev.2)
        } else if piece_of_letter(c) is Some {
            if 0 <= prev.1 < 64 {
                (0, prev.1 + 1, prev.2)
            } else {
                (2, prev.1, prev.2)
            }
        } else if c == '/' {
            if prev.1 != 64 - 8 * prev.2 {
                (1, prev.1, prev.2)
            } else {
                (0, prev.1 - 16, prev.2 + 1)
            }
        } else {
            (1, prev.1, prev.2)
        }
    }
}

/// The outcome of scanning a piece placement field: 0 accepted, 1 rejected, 2 a piece falls
/// off the board. It is accepted when the scan ends on the square after h1 having read
/// seven '/'.
pub open spec fn placement_outcome(p: Seq<char>) -> int {
    let st = place_scan(p, p.len() as int);
    if st.0 != 0 {
        st.0
    } else if st.1 == 8 && st.2 == 7 {
        0
    } else {
        1
    }
}

/// Whether character `j` of the placement field puts a piece on square `sq`.
pub open spec fn placed_at(p: Seq<char>, j: int, sq: int) -> bool {
    &&& 0 <= j < p.len()
    &&& piece_of_letter(p[j]) is Some
    &&& place_scan(p, j).0 == 0
    &&& place_scan(p, j).1 == sq
}

/// Whether one of the first `n` characters of the placement field puts a piece of color
/// `c` on square `sq`.
pub open spec fn fen_color_before(p: Seq<char>, n: int, c: Color, sq: int) -> bool {
    exists|j: int|
        0 <= j < n && #[trigger] placed_at(p, j, sq) && piece_of_letter(p[j])->0.color_spec() == c
}

/// Whether one of the first `n` characters of the placement field puts a piece of kind
/// `pt` on square `sq`.
pub open spec fn fen_type_before(p: Seq<char>, n: int, pt: PieceType, sq: int) -> bool {
    exists|j: int|
        0 <= j < n && #[trigger] placed_at(p, j, sq) && piece_of_letter(p[j])->0.type_spec() == pt
}

/// Whether the placement field puts a piece of color `c` on `sq`.
pub open spec fn fen_color_at(p: Seq<char>, c: Color, sq: int) -> bool {
    fen_color_before(p, p.len() as int, c, sq)
}

/// Whether the placement field puts a piece of kind `pt` on `sq`.
pub open spec fn fen_type_at(p: Seq<char>, pt: PieceType, sq: int) -> bool {
    fen_type_before(p, p.len() as int, pt, sq)
}

/// The side to move a FEN field names: "w" or "b".
pub open spec fn stm_of(p: Seq<char>) -> Option<Color> {
    if p == seq!['w'] {
        Some(Color::White)
    } else if p == seq!['b'] {
        Some(Color::Black)
    } else {
        None
    }
}

/// Whether a castling field is accepted: one to four of the letters K, Q, k, q and '-',
/// where '-' may only stand alone.
pub open spec fn castling_ok(p: Seq<char>) -> bool {
    &&& 1 <= p.len() <= 4
    &&& forall|i: int|
        0 <= i < p.len() ==> (#[trigger] p[i] == 'K' || p[i] == 'Q' || p[i] == 'k' || p[i] == 'q'
            || p[i] == '-')
    &&& p.contains('-') ==> p.len() == 1
}

/// The castling rooks a castling field gives: the corner rooks of the sides and wings whose
/// letters it holds.
pub open spec fn castling_of(p: Seq<char>) -> CastlingRooks {
    CastlingRooks {
        rooks: [
            RookPair {
                king_side: if p.contains('K') {
                    Some(Square::H1)
                } else {
                    None
                },
                queen_side: if p.contains('Q') {
                    Some(Square::A1)
                } else {
                    None
                },
            },
            RookPair {
                king_side: if p.contains('k') {
                    Some(Square::H8)
                } else {
                    None
                },
                queen_side: if p.contains('q') {
                    Some(Square::A8)
                } else {
                    None
                },
            },
        ],
        frc: false,
    }
}

/// The outcome of the en passant field: 0 no square ("-"), 1 a square, 2 rejected,
/// 3 a square name that cannot be read. The field is read by its length in bytes: one
/// byte must be '-', two bytes are read as a file letter and a rank digit, anything else is
/// rejected.
pub open spec fn ep_outcome(p: Seq<char>) -> int {
    if p.len() == 1 && p[0] == '-' {
        0
    } else if p.len() == 1 && utf8_width(p[0]) == 2 {
        3
    } else if p.len() == 2 && utf8_width(p[0]) == 1 && utf8_width(p[1]) == 1 {
        if 'a' <= p[0] <= 'h' && '1' <= p[1] <= '8' {
            1
        } else {
            3
        }
    } else {
        2
    }
}

/// The en passant square an accepted two-letter field names.
pub open spec fn ep_square_of(p: Seq<char>) -> int {
    (p[1] as int - 49) * 8 + (p[0] as int - 97)
}

/// Whether the side `c` has a king in the placement field.
pub open spec fn fen_has_king(p: Seq<char>, c: Color) -> bool {
    exists|sq: int| fen_color_at(p, c, sq) && #[trigger] fen_type_at(p, PieceType::King, sq)
}

/// The outcome of reading a FEN string: 0 accepted, 1 rejected, 2 a failure of the reader
/// (a piece off the board, an unreadable en passant square, or no king for the side to
/// move). The string must have six fields; the fields are read in order and the first
/// that is rejected decides; the half move clock must be a `u8` of at most 100; the sixth
/// field is not read.
pub open spec fn fen_outcome(s: Seq<char>) -> int {
    let parts = split_ws(s);
    if parts.len() != 6 {
        1
    } else if placement_outcome(parts[0]) != 0 {
        placement_outcome(parts[0])
    } else if stm_of(parts[1]) is None {
        1
    } else if !castling_ok(parts[2]) {
        1
    } else if ep_outcome(parts[3]) == 3 {
        2
    } else if ep_outcome(parts[3]) == 2 {
        1
    } else if !(parse_u8_spec(parts[4]) matches Some(n) && n <= 100) {
        1
    } else if !fen_has_king(parts[0], stm_of(parts[1])->0) {
        2
    } else {
        0
    }
}

/// The kind of the piece that starts on file `f` of the back rank.
pub open spec fn back_rank_type(f: int) -> PieceType {
    if f == 0 || f == 7 {
        PieceType::Rook
    } else if f == 1 || f == 6 {
        PieceType::Knight
    } else if f == 2 || f == 5 {
        PieceType::Bishop
    } else if f == 3 {
        PieceType::Queen
    } else {
        PieceType::King
    }
}

/// The piece on square `sq` in the starting position.
pub open spec fn start_piece(sq: int) -> Option<Piece> {
    let r = sq / 8;
    let f = sq % 8;
    if !(0 <= sq < 64) {
        None
    } else if r == 0 {
        Some(piece_of(Color::White, back_rank_type(f)))
    } else if r == 1 {
        Some(Piece::WhitePawn)
    } else if r == 6 {
        Some(Piece::BlackPawn)
    } else if r == 7 {
        Some(piece_of(Color::Black, back_rank_type(f)))
    } else {
        None
    }
}

/// Whether a piece of color `c` stands on `sq` in the starting position.
pub open spec fn start_has_color(c: Color, sq: int) -> bool {
    match start_piece(sq) {
        Some(p) => p.color_spec() == c,
        None => false,
    }
}

/// Whether a piece of kind `pt` stands on `sq` in the starting position.
pub open spec fn start_has_type(pt: PieceType, sq: int) -> bool {
    match start_piece(sq) {
        Some(p) => p.type_spec() == pt,
        None => false,
    }
}

/// The digit character of `n`, 0 to 9.
pub open spec fn digit_char(n: int) -> char {
    (n + 48) as char
}

/// The file of the last piece on rank `rank` among the files below `f`, or -1.
pub open spec fn last_piece_file(b: Board, rank: int, f: int) -> int
    decreases f,
{
    if f <= 0 {
        -1
    } else if b.piece_at_spec(8 * rank + f - 1) is Some {
        f - 1
    } else {
        last_piece_file(b, rank, f - 1)
    }
}

/// The FEN text of files 0 to `f - 1` of rank `rank`: each piece letter, preceded by the
/// number of empty squares before it when there are any.
pub open spec fn row_text_upto(b: Board, rank: int, f: int) -> Seq<char>
    decreases f,
{
    if f <= 0 {
        Seq::empty()
    } else {
        let prev = row_text_upto(b, rank, f - 1);
        match b.piece_at_spec(8 * rank + f - 1) {
            Some(p) => {
                let gap = f - 1 - last_piece_file(b, rank, f - 1) - 1;
                (if gap > 0 {
                    prev.push(digit_char(gap))
                } else {
                    prev
                }).push(piece_char(p@))
            },
            None => prev,
        }
    }
}

/// The FEN text of rank `rank`: its pieces and the number of empty squares after the last.
pub open spec fn row_text(b: Board, rank: int) -> Seq<char> {
    let gap = 7 - last_piece_file(b, rank, 8);
    if gap > 0 {
        row_text_upto(b, rank, 8).push(digit_char(gap))
    } else {
        row_text_upto(b, rank, 8)
    }
}

/// The FEN text of the ranks 8 down to `8 - k + 1`, separated by '/'.
pub open spec fn rows_text(b: Board, k: int) -> Seq<char>
    decreases k,
{
    if k <= 0 {
        Seq::empty()
    } else if k == 1 {
        row_text(b, 7)
    } else {
        rows_text(b, k - 1).push('/') + row_text(b, 8 - k)
    }
}

/// The decimal digits of `n`, without leading zeros.
pub open spec fn decimal_text(n: int) -> Seq<char>
    decreases n,
{
    if n < 10 {
        seq![digit_char(n)]
    } else {
        decimal_text(n / 10).push(digit_char(n % 10))
    }
}

/// The FEN of a board: placement, side to move, castling rights, en passant square, half
/// move clock, and 1 as the full move number.
pub open spec fn fen_text(b: Board) -> Seq<char> {
    rows_text(b, 8) + (if b.stm_spec() == Color::White {
        seq![' ', 'w', ' ']
    } else {
        seq![' ', 'b', ' ']
    }) + b.rooks_spec().text() + (match b.ep_spec() {
        Some(q) => seq![' '] + square_name(q@) + seq![' '],
        None => seq![' ', '-', ' '],
    }) + decimal_text(b.hmc_spec() as int) + seq![' ', '1']
}

/// The character that shows square `s` in the board diagram: its piece letter, or '.'.
pub open spec fn diagram_char(b: Board, s: int) -> char {
    match b.piece_at_spec(s) {
        Some(p) => piece_char(p@),
        None => '.',
    }
}

/// The diagram line of rank `r`: files a to h, then a line break.
pub open spec fn diagram_row(b: Board, r: int) -> Seq<char> {
    Seq::new(8, |f: int| diagram_char(b, 8 * r + f)).push('\n')
}

/// The diagram lines of the ranks 8 down to `9 - k`.
pub open spec fn diagram_rows(b: Board, k: int) -> Seq<char>
    decreases k,
{
    if k <= 0 {
        Seq::empty()
    } else {
        diagram_rows(b, k - 1) + diagram_row(b, 8 - k)
    }
}

/// The name of a side.
pub open spec fn color_name(c: Color) -> Seq<char> {
    if c == Color::White {
        "White"@
    } else {
        "Black"@
    }
}

/// The text that shows a board: the diagram, then one line each for the side to move, the
/// castling rights, the en passant square, the half move clock and the FEN.
pub open spec fn board_text(b: Board) -> Seq<char> {
    diagram_rows(b, 8) + "stm: "@ + color_name(b.stm_spec()) + seq!['\n'] + "castling rights: "@
        + b.rooks_spec().text() + seq!['\n'] + "ep square: "@ + (match b.ep_spec() {
        Some(q) => square_name(q@),
        None => "N/A"@,
    }) + seq!['\n'] + "half move clock: "@ + decimal_text(b.hmc_spec() as int) + seq!['\n'] + "fen: "@
        + fen_text(b) + seq!['\n']
}

} // verus!
