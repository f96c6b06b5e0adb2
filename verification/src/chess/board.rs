use vstd::prelude::*;

use super::attacks::{
    self, bishop_reach, king_step, knight_step, pawn_capture_step, rook_reach, strictly_between,
};
use super::castling_rooks::CastlingRooks;
use super::chess_move::{Move, MoveKind};
use super::fen::{
    back_rank_type, start_piece, start_has_color, start_has_type, decimal_text, digit_char, fen_text, last_piece_file, row_text, row_text_upto, rows_text,
    castling_of, castling_ok, ep_outcome, ep_square_of, fen_color_at, fen_color_before,
    fen_has_king, fen_outcome, fen_type_at, fen_type_before, piece_of_letter, place_scan,
    placed_at, placement_outcome, stm_of, board_text, color_name, diagram_char, diagram_row, diagram_rows,
};
use crate::text::{chars_to_string, parse_u8, parse_u8_spec, split_whitespace, split_ws, str_to_chars};
use crate::types::piece::{lemma_piece_round_trip, piece_of};
use crate::types::{Bitboard, Color, Piece, PieceType, Square};
use crate::types::bitboard::{bit, lemma_bits_equal};

verus! {

/// A chess position: one set of squares per piece kind and per color, the side to move,
/// the castling rooks, the en passant square, the half move clock, and the checks and pins
/// against the side to move.
#[derive(Clone, Copy)]
pub struct Board {
    pieces: [Bitboard; 6],
    colors: [Bitboard; 2],
    checkers: Bitboard,
    diag_pinned: Bitboard,
    hv_pinned: Bitboard,
    castling_rooks: CastlingRooks,
    stm: Color,
    ep_square: Option<Square>,
    half_move_clock: u8,
}


/// The kind with index `i`, 0 (pawn) to 5 (king).
pub open spec fn type_of_index(i: int) -> PieceType {
    if i == 0 {
        PieceType::Pawn
    } else if i == 1 {
        PieceType::Knight
    } else if i == 2 {
        PieceType::Bishop
    } else if i == 3 {
        PieceType::Rook
    } else if i == 4 {
        PieceType::Queen
    } else {
        PieceType::King
    }
}

/// The square of the pawn taken en passant by side `c` moving to `to`.
pub open spec fn ep_capture_square(c: Color, to: int) -> int {
    if c == Color::White {
        to - 8
    } else {
        to + 8
    }
}

/// Where the king lands when side `c` castles on the king side or the queen side.
pub open spec fn castle_king_to(c: Color, king_side: bool) -> int {
    (if king_side {
        6int
    } else {
        2int
    }) + if c == Color::White {
        0int
    } else {
        56int
    }
}

/// Where the rook lands when side `c` castles on the king side or the queen side.
pub open spec fn castle_rook_to(c: Color, king_side: bool) -> int {
    (if king_side {
        5int
    } else {
        3int
    }) + if c == Color::White {
        0int
    } else {
        56int
    }
}

/// The absolute value of an integer.
pub open spec fn abs_diff(a: int, b: int) -> int {
    if a < b {
        b - a
    } else {
        a - b
    }
}

/// Some square holding a king of color `c` is the lowest one.
proof fn lemma_lowest_exists(b: Board, c: Color, s: int)
    requires
        b.has_color(c, s),
        b.has_type(PieceType::King, s),
    ensures
        exists|x: int| b.lowest_king(c, x),
    decreases s,
{
    if s < 0 || s >= 64 {
        assert(false) by {
            if s < 0 || s >= 64 {
                assert(!b.colors_bb(c@).contains(s));
            }
        }
    } else if b.lowest_king(c, s) {
    } else {
        let u = choose|u: int| 0 <= u < s && b.has_color(c, u) && #[trigger] b.has_type(PieceType::King, u);
        lemma_lowest_exists(b, c, u);
    }
}

impl Board {
    /// The squares of the pieces of kind index `pt`.
    pub closed spec fn pieces_bb(self, pt: int) -> Bitboard {
        self.pieces[pt]
    }

    /// The squares of the pieces of color index `c`.
    pub closed spec fn colors_bb(self, c: int) -> Bitboard {
        self.colors[c]
    }

    /// The side to move.
    pub closed spec fn stm_spec(self) -> Color {
        self.stm
    }

    /// The en passant square.
    pub closed spec fn ep_spec(self) -> Option<Square> {
        self.ep_square
    }

    /// The half move clock.
    pub closed spec fn hmc_spec(self) -> u8 {
        self.half_move_clock
    }

    /// The castling rooks.
    pub closed spec fn rooks_spec(self) -> CastlingRooks {
        self.castling_rooks
    }

    /// The pieces of the other side that give check.
    pub closed spec fn checkers_spec(self) -> Bitboard {
        self.checkers
    }

    /// The pieces pinned to the king of the side to move.
    pub closed spec fn diag_pinned_spec(self) -> Bitboard {
        self.diag_pinned
    }

    /// The pieces pinned along ranks and files, as recorded.
    pub closed spec fn hv_pinned_spec(self) -> Bitboard {
        self.hv_pinned
    }

    /// Whether square `s` holds a piece of color `c`.
    pub open spec fn has_color(self, c: Color, s: int) -> bool {
        self.colors_bb(c@).contains(s)
    }

    /// Whether square `s` holds a piece of kind `pt`.
    pub open spec fn has_type(self, pt: PieceType, s: int) -> bool {
        self.pieces_bb(pt@).contains(s)
    }

    /// Whether square `s` holds a piece of either color.
    pub open spec fn occupied(self, s: int) -> bool {
        self.has_color(Color::White, s) || self.has_color(Color::Black, s)
    }

    /// The sets are consistent: no square has two colors or two kinds, and a square has a
    /// color exactly when it has a kind.
    pub open spec fn wf(self) -> bool {
        &&& forall|s: int|
            !(#[trigger] self.has_color(Color::White, s) && self.has_color(Color::Black, s))
        &&& forall|s: int, a: PieceType, b: PieceType|
            a != b ==> !(#[trigger] self.has_type(a, s) && #[trigger] self.has_type(b, s))
        &&& forall|s: int|
            #[trigger] self.occupied(s) <==> exists|pt: PieceType| #[trigger] self.has_type(pt, s)
    }

    /// The kind on square `s`: the first kind, pawn to king, whose set holds it.
    pub open spec fn type_at(self, s: int) -> Option<PieceType> {
        if self.has_type(PieceType::Pawn, s) {
            Some(PieceType::Pawn)
        } else if self.has_type(PieceType::Knight, s) {
            Some(PieceType::Knight)
        } else if self.has_type(PieceType::Bishop, s) {
            Some(PieceType::Bishop)
        } else if self.has_type(PieceType::Rook, s) {
            Some(PieceType::Rook)
        } else if self.has_type(PieceType::Queen, s) {
            Some(PieceType::Queen)
        } else if self.has_type(PieceType::King, s) {
            Some(PieceType::King)
        } else {
            None
        }
    }

    /// The piece on square `s`: its color is white when the white set holds it, black when
    /// only the black set does.
    pub open spec fn piece_at_spec(self, s: int) -> Option<Piece> {
        let c = if self.has_color(Color::White, s) {
            Color::White
        } else {
            Color::Black
        };
        if !self.occupied(s) {
            None
        } else {
            match self.type_at(s) {
                Some(pt) => Some(piece_of(c, pt)),
                None => None,
            }
        }
    }

    /// Whether reading square `s` is consistent: a colored square also has a kind.
    pub open spec fn readable(self, s: int) -> bool {
        self.occupied(s) ==> self.type_at(s) is Some
    }

    /// The side to move.
    pub fn stm(&self) -> (r: Color)
        ensures
            r == self.stm_spec(),
    {
        self.stm
    }

    /// The squares of the pieces of color `color`.
    pub fn colors(&self, color: Color) -> (r: Bitboard)
        ensures
            r == self.colors_bb(color@),
    {
        self.colors[color.index()]
    }

    /// The occupied squares.
    pub fn occ(&self) -> (r: Bitboard)
        ensures
            forall|s: int| #[trigger] r.contains(s) <==> self.occupied(s),
            r@ == self.colors_bb(0)@ | self.colors_bb(1)@,
            r == self.occ_bb(),
    {
        let r = self.colors(Color::White).bit_or(self.colors(Color::Black));
        proof {
            Bitboard::lemma_from_raw_spec(r@);
            Bitboard::lemma_view_injective(r, self.occ_bb());
        }
        r
    }

    /// The occupied squares as a set.
    pub open spec fn occ_bb(self) -> Bitboard {
        Bitboard::from_raw_spec(self.colors_bb(0)@ | self.colors_bb(1)@)
    }

    /// The squares of the pieces of kind `piece`.
    pub fn pieces(&self, piece: PieceType) -> (r: Bitboard)
        ensures
            r == self.pieces_bb(piece@),
    {
        self.pieces[piece.index()]
    }

    /// The squares of `piece`.
    pub fn colored_pieces(&self, piece: Piece) -> (r: Bitboard)
        ensures
            forall|s: int| #[trigger]
                r.contains(s) <==> self.has_color(piece.color_spec(), s) && self.has_type(
                    piece.type_spec(),
                    s,
                ),
            r == self.colored_bb(piece.color_spec(), piece.type_spec()),
    {
        let r = self.colors(piece.color()).bit_and(self.pieces(piece.piece_type()));
        proof {
            Bitboard::lemma_from_raw_spec(r@);
            Bitboard::lemma_view_injective(r, self.colored_bb(piece.color_spec(), piece.type_spec()));
        }
        r
    }

    /// The number of pieces of color `c` and kind `pt`.
    pub fn piece_count(&self, c: Color, pt: PieceType) -> (r: i32)
        ensures
            r == crate::types::bitboard::pop_count(self.colored_bb(c, pt)@),
            0 <= r <= 64,
    {
        self.colored_pieces(Piece::new(c, pt)).popcount() as i32
    }

    /// The squares of the pieces of color `c` and kind `pt`, as a set.
    pub open spec fn colored_bb(self, c: Color, pt: PieceType) -> Bitboard {
        Bitboard::from_raw_spec(self.colors_bb(c@)@ & self.pieces_bb(pt@)@)
    }

    /// Whether `s` holds a king of color `c` and no lower square does.
    pub open spec fn lowest_king(self, c: Color, s: int) -> bool {
        &&& 0 <= s < 64
        &&& self.has_color(c, s)
        &&& self.has_type(PieceType::King, s)
        &&& forall|u: int|
            0 <= u < s ==> !(self.has_color(c, u) && #[trigger] self.has_type(PieceType::King, u))
    }

    /// Whether side `c` has a king.
    pub open spec fn has_king(self, c: Color) -> bool {
        exists|s: int| self.has_color(c, s) && #[trigger] self.has_type(PieceType::King, s)
    }

    /// The lowest square holding a king of color `c`.
    pub open spec fn king_square(self, c: Color) -> int {
        choose|s: int| self.lowest_king(c, s)
    }

    /// Snipers and single blockers depend on the pieces only.
    proof fn lemma_pins_transfer(a: Board, b: Board, k: int, c: Color, x: int, q: int)
        requires
            forall|c: Color, sq: int| #[trigger] a.has_color(c, sq) == b.has_color(c, sq),
            forall|pt: PieceType, sq: int| #[trigger] a.has_type(pt, sq) == b.has_type(pt, sq),
        ensures
            a.diag_snipers(k, c, x) == b.diag_snipers(k, c, x),
            a.hv_snipers(k, c, x) == b.hv_snipers(k, c, x),
            a.diag_blocker(k, c, x, q) == b.diag_blocker(k, c, x, q),
            a.hv_blocker(k, c, x, q) == b.hv_blocker(k, c, x, q),
    {
        assert forall|u: int| #[trigger] a.diag_masked(k, c, u) == b.diag_masked(k, c, u) && a.hv_masked(k, c, u)
            == b.hv_masked(k, c, u) by {
            assert(a.has_color(Color::White, u) == b.has_color(Color::White, u));
            assert(a.has_color(Color::Black, u) == b.has_color(Color::Black, u));
            assert(a.has_color(c, u) == b.has_color(c, u));
            assert(a.has_type(PieceType::Bishop, u) == b.has_type(PieceType::Bishop, u));
            assert(a.has_type(PieceType::Rook, u) == b.has_type(PieceType::Rook, u));
            assert(a.has_type(PieceType::Queen, u) == b.has_type(PieceType::Queen, u));
        }
        assert(a.has_color(c, x) == b.has_color(c, x));
        assert(a.has_type(PieceType::Bishop, x) == b.has_type(PieceType::Bishop, x));
        assert(a.has_type(PieceType::Rook, x) == b.has_type(PieceType::Rook, x));
        assert(a.has_type(PieceType::Queen, x) == b.has_type(PieceType::Queen, x));
    }

    /// Two boards with the same pieces, side to move (which has a king), castling rooks, en
    /// passant square and half move clock, and with their check information computed, are the
    /// same board.
    pub proof fn lemma_board_ext(a: Board, b: Board)
        requires
            forall|c: Color, sq: int| #[trigger] a.has_color(c, sq) == b.has_color(c, sq),
            forall|pt: PieceType, sq: int| #[trigger] a.has_type(pt, sq) == b.has_type(pt, sq),
            a.stm_spec() == b.stm_spec(),
            a.rooks_spec() == b.rooks_spec(),
            a.ep_spec() == b.ep_spec(),
            a.hmc_spec() == b.hmc_spec(),
            a.has_king(a.stm_spec()),
            a.check_info_ok(),
            b.check_info_ok(),
        ensures
            a == b,
    {
        assert forall|i: int| 0 <= i < 2 implies a.colors[i] == b.colors[i] by {
            let c = if i == 0 {
                Color::White
            } else {
                Color::Black
            };
            assert forall|q: int| 0 <= q < 64 implies bit(a.colors[i]@, q) == bit(b.colors[i]@, q) by {
                assert(a.has_color(c, q) == b.has_color(c, q));
            }
            lemma_bits_equal(a.colors[i]@, b.colors[i]@);
            Bitboard::lemma_view_injective(a.colors[i], b.colors[i]);
        }
        assert forall|i: int| 0 <= i < 6 implies a.pieces[i] == b.pieces[i] by {
            let pt = type_of_index(i);
            assert(pt@ == i);
            assert forall|q: int| 0 <= q < 64 implies bit(a.pieces[i]@, q) == bit(b.pieces[i]@, q) by {
                assert(a.has_type(pt, q) == b.has_type(pt, q));
            }
            lemma_bits_equal(a.pieces[i]@, b.pieces[i]@);
            Bitboard::lemma_view_injective(a.pieces[i], b.pieces[i]);
        }
        assert(a.colors =~= b.colors);
        assert(a.pieces =~= b.pieces);
        let c = a.stm_spec();
        a.lemma_king_square_is_king(c);
        let k = a.king_square(c);
        assert forall|u: int| 0 <= u < k implies !(b.has_color(c, u) && #[trigger] b.has_type(PieceType::King, u)) by {
            assert(a.has_color(c, u) == b.has_color(c, u));
            assert(a.has_type(PieceType::King, u) == b.has_type(PieceType::King, u));
        }
        assert(b.lowest_king(c, k));
        b.lemma_king_square(c, k);
        let opp = c.opp();
        assert forall|q: int| 0 <= q < 64 implies bit(a.checkers@, q) == bit(b.checkers@, q) by {
            assert(a.checkers_spec().contains(q) == b.checkers_spec().contains(q));
        }
        lemma_bits_equal(a.checkers@, b.checkers@);
        Bitboard::lemma_view_injective(a.checkers, b.checkers);
        assert forall|q: int| 0 <= q < 64 implies bit(a.diag_pinned@, q) == bit(b.diag_pinned@, q) by {
            if a.diag_pinned_spec().contains(q) {
                if exists|x: int| a.diag_snipers(k, opp, x) && #[trigger] a.diag_blocker(k, opp, x, q) {
                    let x = choose|x: int| a.diag_snipers(k, opp, x) && #[trigger] a.diag_blocker(k, opp, x, q);
                    Board::lemma_pins_transfer(a, b, k, opp, x, q);
                } else {
                    let x = choose|x: int| a.hv_snipers(k, opp, x) && #[trigger] a.hv_blocker(k, opp, x, q);
                    Board::lemma_pins_transfer(a, b, k, opp, x, q);
                }
            }
            if b.diag_pinned_spec().contains(q) {
                if exists|x: int| b.diag_snipers(k, opp, x) && #[trigger] b.diag_blocker(k, opp, x, q) {
                    let x = choose|x: int| b.diag_snipers(k, opp, x) && #[trigger] b.diag_blocker(k, opp, x, q);
                    Board::lemma_pins_transfer(a, b, k, opp, x, q);
                } else {
                    let x = choose|x: int| b.hv_snipers(k, opp, x) && #[trigger] b.hv_blocker(k, opp, x, q);
                    Board::lemma_pins_transfer(a, b, k, opp, x, q);
                }
            }
        }
        lemma_bits_equal(a.diag_pinned@, b.diag_pinned@);
        Bitboard::lemma_view_injective(a.diag_pinned, b.diag_pinned);
        Bitboard::lemma_view_injective(a.hv_pinned, b.hv_pinned);
    }

    /// A side that has a king has a lowest one, on the square `king_square` names.
    pub proof fn lemma_king_square_is_king(self, c: Color)
        requires
            self.has_king(c),
        ensures
            self.lowest_king(c, self.king_square(c)),
    {
        let s = choose|s: int| self.has_color(c, s) && #[trigger] self.has_type(PieceType::King, s);
        self.lemma_lowest_king_from(c, s);
    }

    /// Below a king of side `c` on `s` there is a lowest one.
    proof fn lemma_lowest_king_from(self, c: Color, s: int)
        requires
            self.has_color(c, s),
            self.has_type(PieceType::King, s),
        ensures
            self.lowest_king(c, self.king_square(c)),
        decreases s,
    {
        if exists|u: int| 0 <= u < s && self.has_color(c, u) && #[trigger] self.has_type(PieceType::King, u) {
            let u = choose|u: int| 0 <= u < s && self.has_color(c, u) && #[trigger] self.has_type(PieceType::King, u);
            self.lemma_lowest_king_from(c, u);
        } else {
            assert(0 <= s < 64) by {
                assert(self.colors_bb(c@).contains(s));
            }
            assert(self.lowest_king(c, s));
        }
    }

    /// The lowest king square is unique.
    pub proof fn lemma_king_square(self, c: Color, s: int)
        requires
            self.lowest_king(c, s),
        ensures
            self.king_square(c) == s,
    {
        let k = self.king_square(c);
        assert(self.lowest_king(c, k));
        if k < s {
            assert(!(self.has_color(c, k) && self.has_type(PieceType::King, k)));
        }
        if s < k {
            assert(!(self.has_color(c, s) && self.has_type(PieceType::King, s)));
        }
    }

    /// The lowest square holding a king of color `color`, which must have one.
    pub fn king_sq(&self, color: Color) -> (r: Square)
        requires
            self.has_king(color),
        ensures
            r@ == self.king_square(color),
            self.has_color(color, r@),
            self.has_type(PieceType::King, r@),
            forall|s: int|
                0 <= s < r@ ==> !(self.has_color(color, s) && #[trigger] self.has_type(
                    PieceType::King,
                    s,
                )),
    {
        let kings = self.colored_pieces(Piece::new(color, PieceType::King));
        proof {
            let s = choose|s: int|
                self.has_color(color, s) && #[trigger] self.has_type(PieceType::King, s);
            assert(kings.contains(s));
            if kings@ == 0 {
                crate::types::bitboard::lemma_bit_zero(s);
            }
        }
        let r = kings.lsb();
        assert forall|s: int|
            0 <= s < r@ implies !(self.has_color(color, s) && #[trigger] self.has_type(
                PieceType::King,
                s,
            )) by {
            assert(!kings.contains(s));
        }
        proof {
            self.lemma_king_square(color, r@);
        }
        r
    }

    /// The castling rooks.
    pub fn castling_rooks(&self) -> (r: CastlingRooks)
        ensures
            r == self.rooks_spec(),
    {
        self.castling_rooks
    }

    /// The pieces giving check to the side to move.
    pub fn checkers(&self) -> (r: Bitboard)
        ensures
            r == self.checkers_spec(),
    {
        self.checkers
    }

    /// The pinned pieces.
    pub fn pinned(&self) -> (r: Bitboard)
        ensures
            r@ == self.hv_pinned_spec()@ | self.diag_pinned_spec()@,
    {
        self.hv_pinned.bit_or(self.diag_pinned)
    }

    /// The pieces recorded as pinned along diagonals; the check information records the pins
    /// along ranks and files here too.
    pub fn diag_pinned(&self) -> (r: Bitboard)
        ensures
            r == self.diag_pinned_spec(),
    {
        self.diag_pinned
    }

    /// The pieces recorded as pinned along ranks and files; the check information leaves this
    /// set empty and records those pins with the diagonal ones.
    pub fn hv_pinned(&self) -> (r: Bitboard)
        ensures
            r == self.hv_pinned_spec(),
    {
        self.hv_pinned
    }

    /// The en passant square.
    pub fn ep_square(&self) -> (r: Option<Square>)
        ensures
            r == self.ep_spec(),
    {
        self.ep_square
    }

    /// The half move clock.
    pub fn half_move_clock(&self) -> (r: u8)
        ensures
            r == self.hmc_spec(),
    {
        self.half_move_clock
    }

    /// The piece on `sq`, which must be readable.
    pub fn piece_at(&self, sq: Square) -> (r: Option<Piece>)
        requires
            self.readable(sq@),
        ensures
            r == self.piece_at_spec(sq@),
    {
        let c = if self.colors[0].has(sq) {
            Color::White
        } else if self.colors[1].has(sq) {
            Color::Black
        } else {
            return None;
        };
        if self.pieces[0].has(sq) {
            Some(Piece::new(c, PieceType::Pawn))
        } else if self.pieces[1].has(sq) {
            Some(Piece::new(c, PieceType::Knight))
        } else if self.pieces[2].has(sq) {
            Some(Piece::new(c, PieceType::Bishop))
        } else if self.pieces[3].has(sq) {
            Some(Piece::new(c, PieceType::Rook))
        } else if self.pieces[4].has(sq) {
            Some(Piece::new(c, PieceType::Queen))
        } else {
            Some(Piece::new(c, PieceType::King))
        }
    }

    /// A well-formed board reads consistently everywhere, and its piece map names the
    /// color and the kind of each occupied square.
    pub proof fn lemma_wf_piece_at(self, s: int)
        requires
            self.wf(),
        ensures
            self.readable(s),
            self.piece_at_spec(s) matches Some(p) ==> self.has_color(p.color_spec(), s)
                && self.has_type(p.type_spec(), s),
            self.piece_at_spec(s) is None <==> !self.occupied(s),
            forall|pt: PieceType| #[trigger] self.has_type(pt, s) ==> self.type_at(s) == Some(pt),
    {
        if self.occupied(s) {
            let pt = choose|pt: PieceType| #[trigger] self.has_type(pt, s);
            assert(self.has_type(pt, s));
        } else {
            assert forall|pt: PieceType| !#[trigger] self.has_type(pt, s) by {
                if self.has_type(pt, s) {
                    assert(exists|q: PieceType| #[trigger] self.has_type(q, s));
                }
            }
        }
        assert forall|pt: PieceType| #[trigger] self.has_type(pt, s) implies self.type_at(s)
            == Some(pt) by {
            assert forall|q: PieceType| q != pt implies !#[trigger] self.has_type(q, s) by {
                assert(!(self.has_type(pt, s) && self.has_type(q, s)));
            }
        }
    }

    /// Whether the piece on `t` attacks square `sq`, sliders looking through the occupied
    /// squares `occ`.
    pub open spec fn attacks_from(self, sq: int, occ: Bitboard, t: int) -> bool {
        ||| king_step(sq, t) && self.has_type(PieceType::King, t)
        ||| knight_step(sq, t) && self.has_type(PieceType::Knight, t)
        ||| bishop_reach(sq, t, occ) && (self.has_type(PieceType::Bishop, t) || self.has_type(
            PieceType::Queen,
            t,
        ))
        ||| rook_reach(sq, t, occ) && (self.has_type(PieceType::Rook, t) || self.has_type(
            PieceType::Queen,
            t,
        ))
        ||| pawn_capture_step(true, sq, t) && self.has_color(Color::Black, t) && self.has_type(
            PieceType::Pawn,
            t,
        )
        ||| pawn_capture_step(false, sq, t) && self.has_color(Color::White, t) && self.has_type(
            PieceType::Pawn,
            t,
        )
    }

    /// The occupied squares other than those holding a king.
    pub open spec fn occ_without_kings(self) -> Bitboard {
        Bitboard::from_raw_spec(
            (self.colors_bb(0)@ | self.colors_bb(1)@) ^ self.pieces_bb(PieceType::King@)@,
        )
    }

    /// The other fields than the piece and color sets are equal.
    pub open spec fn same_state(self, other: Board) -> bool {
        &&& self.stm_spec() == other.stm_spec()
        &&& self.ep_spec() == other.ep_spec()
        &&& self.hmc_spec() == other.hmc_spec()
        &&& self.rooks_spec() == other.rooks_spec()
        &&& self.checkers_spec() == other.checkers_spec()
        &&& self.diag_pinned_spec() == other.diag_pinned_spec()
        &&& self.hv_pinned_spec() == other.hv_pinned_spec()
    }

    /// The pieces that attack `sq`, kings not blocking sliders.
    pub fn attackers_to(&self, sq: Square) -> (r: Bitboard)
        ensures
            forall|t: int| #[trigger] r.contains(t) <==> self.attacks_from(sq@, self.occ_without_kings(), t),
    {
        let occ = self.occ().bit_xor(self.pieces(PieceType::King));
        proof {
            Bitboard::lemma_from_raw_spec(occ@);
            crate::types::bitboard::lemma_bits_equal(occ@, self.occ_without_kings()@);
            Bitboard::lemma_view_injective(occ, self.occ_without_kings());
        }
        self.all_attackers_to(sq, occ)
    }

    /// The pieces that attack `sq`, sliders looking through the occupied squares `occ`.
    pub fn all_attackers_to(&self, sq: Square, occ: Bitboard) -> (r: Bitboard)
        ensures
            forall|t: int| #[trigger] r.contains(t) <==> self.attacks_from(sq@, occ, t),
    {
        let diags = self.pieces(PieceType::Bishop).bit_or(self.pieces(PieceType::Queen));
        let hvs = self.pieces(PieceType::Rook).bit_or(self.pieces(PieceType::Queen));
        let bpawns = self.colored_pieces(Piece::new(Color::Black, PieceType::Pawn));
        let wpawns = self.colored_pieces(Piece::new(Color::White, PieceType::Pawn));
        let k = attacks::king_attacks(sq).bit_and(self.pieces(PieceType::King));
        let n = attacks::knight_attacks(sq).bit_and(self.pieces(PieceType::Knight));
        let b = attacks::bishop_attacks(sq, occ).bit_and(diags);
        let ro = attacks::rook_attacks(sq, occ).bit_and(hvs);
        let pw = attacks::pawn_attacks(Color::White, sq).bit_and(bpawns);
        let pb = attacks::pawn_attacks(Color::Black, sq).bit_and(wpawns);
        k.bit_or(n).bit_or(b).bit_or(ro).bit_or(pw).bit_or(pb)
    }

    /// The pieces of color `c` that attack `sq`, kings not blocking sliders.
    pub fn colored_attackers_to(&self, sq: Square, c: Color) -> (r: Bitboard)
        ensures
            forall|t: int| #[trigger] r.contains(t) <==> self.attacks_from(sq@, self.occ_without_kings(), t)
                && self.has_color(c, t),
    {
        self.attackers_to(sq).bit_and(self.colors(c))
    }

    /// The board with no piece, white to move, no castling rook, no en passant square.
    fn empty() -> (r: Board)
        ensures
            forall|c: Color, s: int| !#[trigger] r.has_color(c, s),
            forall|pt: PieceType, s: int| !#[trigger] r.has_type(pt, s),
            r.stm_spec() == Color::White,
            r.ep_spec() is None,
            r.hmc_spec() == 0,
            r.rooks_spec() == CastlingRooks::empty_spec(),
            r.checkers_spec()@ == 0,
            r.diag_pinned_spec()@ == 0,
            r.hv_pinned_spec()@ == 0,
    {
        Board {
            pieces: [
                Bitboard::none(),
                Bitboard::none(),
                Bitboard::none(),
                Bitboard::none(),
                Bitboard::none(),
                Bitboard::none(),
            ],
            colors: [Bitboard::none(), Bitboard::none()],
            checkers: Bitboard::none(),
            diag_pinned: Bitboard::none(),
            hv_pinned: Bitboard::none(),
            castling_rooks: CastlingRooks::empty(),
            stm: Color::White,
            ep_square: None,
            half_move_clock: 0,
        }
    }

    /// Puts `piece` on `sq`, adding the square to the sets of its kind and color.
    fn add_piece(&mut self, sq: Square, piece: Piece)
        ensures
            forall|pt: PieceType, s: int| #[trigger]
                final(self).has_type(pt, s) == (old(self).has_type(pt, s) || (s == sq@ && pt
                    == piece.type_spec())),
            forall|c: Color, s: int| #[trigger]
                final(self).has_color(c, s) == (old(self).has_color(c, s) || (s == sq@ && c
                    == piece.color_spec())),
            final(self).same_state(*old(self)),
            old(self).wf() && !old(self).occupied(sq@) ==> final(self).wf(),
    {
        let sq_bb = Bitboard::from_square(sq);
        let t = piece.piece_type().index();
        let c = piece.color().index();
        self.pieces[t] = self.pieces[t].bit_or(sq_bb);
        self.colors[c] = self.colors[c].bit_or(sq_bb);
        proof {
            if old(self).wf() && !old(self).occupied(sq@) {
                let o = *old(self);
                assert forall|s: int|
                    !(#[trigger] self.has_color(Color::White, s) && self.has_color(Color::Black, s)) by {
                    o.lemma_wf_clean(s);
                }
                assert forall|s: int| #[trigger] self.occupied(s) <==> exists|pt: PieceType| #[trigger] self.has_type(pt, s) by {
                    o.lemma_wf_clean(s);
                    if s == sq@ {
                        assert(self.has_type(piece.type_spec(), s));
                        assert(self.occupied(s));
                    } else {
                        if o.occupied(s) {
                            let pt = choose|pt: PieceType| #[trigger] o.has_type(pt, s);
                            assert(self.has_type(pt, s));
                        }
                        if exists|pt: PieceType| #[trigger] self.has_type(pt, s) {
                            let pt = choose|pt: PieceType| #[trigger] self.has_type(pt, s);
                            assert(o.has_type(pt, s));
                        }
                    }
                }
                assert forall|s: int, a: PieceType, b: PieceType|
                    a != b implies !(#[trigger] self.has_type(a, s) && #[trigger] self.has_type(b, s)) by {
                    o.lemma_wf_clean(s);
                    if s == sq@ {
                        if o.has_type(a, s) {
                            assert(o.occupied(s));
                        }
                        if o.has_type(b, s) {
                            assert(o.occupied(s));
                        }
                    } else {
                        assert(!(o.has_type(a, s) && o.has_type(b, s)));
                    }
                }
            }
        }
    }

    /// Whether square `s` holds at most one color and one kind, and a color exactly when a
    /// kind.
    pub open spec fn clean_at(self, s: int) -> bool {
        &&& !(self.has_color(Color::White, s) && self.has_color(Color::Black, s))
        &&& forall|a: PieceType, b: PieceType|
            a != b ==> !(#[trigger] self.has_type(a, s) && #[trigger] self.has_type(b, s))
        &&& self.occupied(s) <==> exists|pt: PieceType| #[trigger] self.has_type(pt, s)
    }

    /// Cleanliness at a square depends on that square only.
    pub proof fn lemma_clean_transfer(a: Board, b: Board, s: int)
        requires
            a.clean_at(s),
            forall|c: Color| #[trigger] a.has_color(c, s) == b.has_color(c, s),
            forall|pt: PieceType| #[trigger] a.has_type(pt, s) == b.has_type(pt, s),
        ensures
            b.clean_at(s),
    {
        assert(a.has_color(Color::White, s) == b.has_color(Color::White, s));
        assert(a.has_color(Color::Black, s) == b.has_color(Color::Black, s));
        assert forall|x: PieceType, y: PieceType|
            x != y implies !(#[trigger] b.has_type(x, s) && #[trigger] b.has_type(y, s)) by {
            assert(a.has_type(x, s) == b.has_type(x, s));
            assert(a.has_type(y, s) == b.has_type(y, s));
        }
        if b.occupied(s) {
            let pt = choose|pt: PieceType| #[trigger] a.has_type(pt, s);
            assert(b.has_type(pt, s));
        }
        if exists|pt: PieceType| #[trigger] b.has_type(pt, s) {
            let pt = choose|pt: PieceType| #[trigger] b.has_type(pt, s);
            assert(a.has_type(pt, s));
        }
    }

    /// A well-formed board is clean at every square.
    pub proof fn lemma_wf_clean(self, s: int)
        requires
            self.wf(),
        ensures
            self.clean_at(s),
    {
        assert(self.occupied(s) <==> exists|pt: PieceType| #[trigger] self.has_type(pt, s));
    }

    /// Takes the piece off the occupied square `sq` and returns it.
    fn take_piece(&mut self, sq: Square) -> (r: Piece)
        requires
            old(self).clean_at(sq@),
            old(self).occupied(sq@),
        ensures
            Some(r) == old(self).piece_at_spec(sq@),
            forall|pt: PieceType, s: int| #[trigger]
                final(self).has_type(pt, s) == (old(self).has_type(pt, s) && s != sq@),
            forall|c: Color, s: int| #[trigger]
                final(self).has_color(c, s) == (old(self).has_color(c, s) && s != sq@),
            final(self).same_state(*old(self)),
            old(self).wf() ==> final(self).wf(),
    {
        proof {
            let o = *old(self);
            let pt = choose|pt: PieceType| #[trigger] o.has_type(pt, sq@);
            assert forall|q: PieceType| #[trigger] o.has_type(q, sq@) implies o.type_at(sq@) == Some(q) by {
                assert forall|q2: PieceType| q2 != q implies !#[trigger] o.has_type(q2, sq@) by {
                    assert(!(o.has_type(q, sq@) && o.has_type(q2, sq@)));
                }
            }
            assert(o.has_type(pt, sq@));
        }
        let p = self.piece_at(sq).unwrap();
        self.remove_piece(sq, p);
        proof {
            let o = *old(self);
            assert forall|pt: PieceType, s: int| #[trigger]
                self.has_type(pt, s) == (o.has_type(pt, s) && s != sq@) by {
                if s == sq@ && pt != p.type_spec() && o.has_type(pt, s) {
                    assert(!(o.has_type(pt, s) && o.has_type(p.type_spec(), s)));
                }
            }
            assert forall|c: Color, s: int| #[trigger]
                self.has_color(c, s) == (o.has_color(c, s) && s != sq@) by {
                if s == sq@ && c != p.color_spec() && o.has_color(c, s) {
                    assert(!(o.has_color(Color::White, s) && o.has_color(Color::Black, s)));
                }
            }
            if o.wf() {
            assert forall|s: int| #[trigger] self.occupied(s) <==> exists|pt: PieceType| #[trigger] self.has_type(pt, s) by {
                if s != sq@ {
                    o.lemma_wf_clean(s);
                    if self.occupied(s) {
                        let pt = choose|pt: PieceType| #[trigger] o.has_type(pt, s);
                        assert(self.has_type(pt, s));
                    }
                    if exists|pt: PieceType| #[trigger] self.has_type(pt, s) {
                        let pt = choose|pt: PieceType| #[trigger] self.has_type(pt, s);
                        assert(o.has_type(pt, s));
                    }
                }
            }
            }
        }
        p
    }

    /// Takes `piece` off `sq`, which must hold it, toggling the square in the sets of its kind
    /// and color.
    fn remove_piece(&mut self, sq: Square, piece: Piece)
        requires
            old(self).readable(sq@),
            old(self).piece_at_spec(sq@) == Some(piece),
        ensures
            forall|pt: PieceType, s: int| #[trigger]
                final(self).has_type(pt, s) == (old(self).has_type(pt, s) != (s == sq@ && pt
                    == piece.type_spec())),
            forall|c: Color, s: int| #[trigger]
                final(self).has_color(c, s) == (old(self).has_color(c, s) != (s == sq@ && c
                    == piece.color_spec())),
            final(self).same_state(*old(self)),
    {
        let sq_bb = Bitboard::from_square(sq);
        let t = piece.piece_type().index();
        let c = piece.color().index();
        self.pieces[t] = self.pieces[t].bit_xor(sq_bb);
        self.colors[c] = self.colors[c].bit_xor(sq_bb);
    }

    /// The attackers of color `c` along diagonals of an empty board from `k`: its bishops
    /// and queens there.
    pub open spec fn diag_snipers(self, k: int, c: Color, a: int) -> bool {
        &&& bishop_reach(k, a, Bitboard::empty_spec())
        &&& self.has_color(c, a)
        &&& (self.has_type(PieceType::Bishop, a) || self.has_type(PieceType::Queen, a))
    }

    /// The attackers of color `c` along ranks and files of an empty board from `k`: its rooks
    /// and queens there.
    pub open spec fn hv_snipers(self, k: int, c: Color, a: int) -> bool {
        &&& rook_reach(k, a, Bitboard::empty_spec())
        &&& self.has_color(c, a)
        &&& (self.has_type(PieceType::Rook, a) || self.has_type(PieceType::Queen, a))
    }

    /// Whether `u` counts as a blocker for diagonal pins: occupied and not a diagonal sniper.
    pub open spec fn diag_masked(self, k: int, c: Color, u: int) -> bool {
        self.occupied(u) != self.diag_snipers(k, c, u)
    }

    /// Whether `u` counts as a blocker for rank and file pins: occupied and not such a
    /// sniper.
    pub open spec fn hv_masked(self, k: int, c: Color, u: int) -> bool {
        self.occupied(u) != self.hv_snipers(k, c, u)
    }

    /// Whether `t` is the only diagonal blocker between `k` and `a`.
    pub open spec fn diag_blocker(self, k: int, c: Color, a: int, t: int) -> bool {
        &&& strictly_between(k, a, t)
        &&& self.diag_masked(k, c, t)
        &&& forall|u: int|
            #[trigger] strictly_between(k, a, u) && self.diag_masked(k, c, u) ==> u == t
    }

    /// Whether `t` is the only rank and file blocker between `k` and `a`.
    pub open spec fn hv_blocker(self, k: int, c: Color, a: int, t: int) -> bool {
        &&& strictly_between(k, a, t)
        &&& self.hv_masked(k, c, t)
        &&& forall|u: int|
            #[trigger] strictly_between(k, a, u) && self.hv_masked(k, c, u) ==> u == t
    }

    /// The check information of the side to move as recomputed: the pieces of the other
    /// side attacking its king, and the single blockers between that king and a sniper. Both
    /// kinds of blockers are recorded as diagonal pins; none as pins along ranks and files.
    pub open spec fn check_info_ok(self) -> bool {
        let k = self.king_square(self.stm_spec());
        let opp = self.stm_spec().opp();
        &&& forall|t: int| #[trigger]
            self.checkers_spec().contains(t) <==> self.attacks_from(
                k,
                self.occ_without_kings(),
                t,
            ) && self.has_color(opp, t)
        &&& forall|t: int| #[trigger]
            self.diag_pinned_spec().contains(t) <==> (exists|a: int|
                self.diag_snipers(k, opp, a) && #[trigger] self.diag_blocker(k, opp, a, t)) || (
            exists|a: int| self.hv_snipers(k, opp, a) && #[trigger] self.hv_blocker(k, opp, a, t))
        &&& self.hv_pinned_spec()@ == 0
    }

    /// The pieces and the other fields of two boards are equal, the check information aside.
    pub open spec fn same_position(self, other: Board) -> bool {
        &&& forall|c: Color, s: int| #[trigger] self.has_color(c, s) == other.has_color(c, s)
        &&& forall|pt: PieceType, s: int| #[trigger] self.has_type(pt, s) == other.has_type(pt, s)
        &&& self.stm_spec() == other.stm_spec()
        &&& self.ep_spec() == other.ep_spec()
        &&& self.hmc_spec() == other.hmc_spec()
        &&& self.rooks_spec() == other.rooks_spec()
    }

    proof fn lemma_diag_blockers(self, k: int, c: Color, a: int, between: Bitboard)
        requires
            forall|t: int| #[trigger] between.contains(t) <==> strictly_between(k, a, t) && self.diag_masked(k, c, t),
        ensures
            (between.nonempty() && !between.has_two()) ==> forall|t: int| #[trigger] between.contains(t) <==> self.diag_blocker(k, c, a, t),
            !(between.nonempty() && !between.has_two()) ==> forall|t: int| !#[trigger] self.diag_blocker(k, c, a, t),
    {
        if between.nonempty() && !between.has_two() {
            let t0 = choose|t: int| #[trigger] between.contains(t);
            assert forall|t: int| #[trigger] between.contains(t) <==> self.diag_blocker(k, c, a, t) by {
                if between.contains(t) {
                    assert forall|u: int| #[trigger] strictly_between(k, a, u) && self.diag_masked(k, c, u) implies u == t by {
                        assert(between.contains(u));
                        if u != t {
                            assert(between.has_two());
                        }
                    }
                }
            }
        } else {
            assert forall|t: int| !#[trigger] self.diag_blocker(k, c, a, t) by {
                if self.diag_blocker(k, c, a, t) {
                    assert(between.contains(t));
                    if between.has_two() {
                        let (i, j) = choose|i: int, j: int| i != j && #[trigger] between.contains(i) && #[trigger] between.contains(j);
                        assert(i == t);
                        assert(j == t);
                    }
                }
            }
        }
    }

    proof fn lemma_hv_blockers(self, k: int, c: Color, a: int, between: Bitboard)
        requires
            forall|t: int| #[trigger] between.contains(t) <==> strictly_between(k, a, t) && self.hv_masked(k, c, t),
        ensures
            (between.nonempty() && !between.has_two()) ==> forall|t: int| #[trigger] between.contains(t) <==> self.hv_blocker(k, c, a, t),
            !(between.nonempty() && !between.has_two()) ==> forall|t: int| !#[trigger] self.hv_blocker(k, c, a, t),
    {
        if between.nonempty() && !between.has_two() {
            let t0 = choose|t: int| #[trigger] between.contains(t);
            assert forall|t: int| #[trigger] between.contains(t) <==> self.hv_blocker(k, c, a, t) by {
                if between.contains(t) {
                    assert forall|u: int| #[trigger] strictly_between(k, a, u) && self.hv_masked(k, c, u) implies u == t by {
                        assert(between.contains(u));
                        if u != t {
                            assert(between.has_two());
                        }
                    }
                }
            }
        } else {
            assert forall|t: int| !#[trigger] self.hv_blocker(k, c, a, t) by {
                if self.hv_blocker(k, c, a, t) {
                    assert(between.contains(t));
                    if between.has_two() {
                        let (i, j) = choose|i: int, j: int| i != j && #[trigger] between.contains(i) && #[trigger] between.contains(j);
                        assert(i == t);
                        assert(j == t);
                    }
                }
            }
        }
    }

    /// Recomputes the checkers and the pins of the side to move, which must have a king.
    fn compute_check_info(&self) -> (r: (Bitboard, Bitboard))
        requires
            self.has_king(self.stm_spec()),
        ensures
            ({
                let k = self.king_square(self.stm_spec());
                let opp = self.stm_spec().opp();
                &&& forall|t: int| #[trigger]
                    r.0.contains(t) <==> self.attacks_from(k, self.occ_without_kings(), t)
                        && self.has_color(opp, t)
                &&& forall|t: int| #[trigger]
                    r.1.contains(t) <==> (exists|a: int|
                        self.diag_snipers(k, opp, a) && #[trigger] self.diag_blocker(k, opp, a, t))
                        || (exists|a: int|
                        self.hv_snipers(k, opp, a) && #[trigger] self.hv_blocker(k, opp, a, t))
            }),
    {
        let king_sq = self.king_sq(self.stm());
        let opp = self.stm().flip();
        let checkers = self.colored_attackers_to(king_sq, opp);
        let mut pinned = Bitboard::none();
        let ghost k = king_sq@;
        let queens = self.colored_pieces(Piece::new(opp, PieceType::Queen));
        let rooks = self.colored_pieces(Piece::new(opp, PieceType::Rook));
        let bishops = self.colored_pieces(Piece::new(opp, PieceType::Bishop));

        let diag_attackers = attacks::bishop_attacks(king_sq, Bitboard::none()).bit_and(
            bishops.bit_or(queens),
        );
        assert(forall|a: int| #[trigger] diag_attackers.contains(a) <==> self.diag_snipers(k, opp, a));
        let block_mask = self.occ().bit_xor(diag_attackers);
        assert(forall|u: int| #[trigger] block_mask.contains(u) <==> self.diag_masked(k, opp, u));
        let mut remaining = diag_attackers;
        let ghost pin0 = pinned;
        while remaining.any()
            invariant
                self.stm_spec().opp() == opp,
                king_sq@ == k,
                forall|a: int| #[trigger] remaining.contains(a) ==> diag_attackers.contains(a),
                forall|a: int| #[trigger] diag_attackers.contains(a) <==> self.diag_snipers(k, opp, a),
                forall|u: int| #[trigger] block_mask.contains(u) <==> self.diag_masked(k, opp, u),
                forall|t: int| #[trigger] pinned.contains(t) <==> pin0.contains(t) || exists|a: int|
                    diag_attackers.contains(a) && !remaining.contains(a) && #[trigger] self.diag_blocker(
                        k,
                        opp,
                        a,
                        t,
                    ),
            decreases remaining@,
        {
            let ghost before = remaining;
            let ghost pinned_before = pinned;
            let attacker = remaining.poplsb();
            let between = attacks::line_between(king_sq, attacker).bit_and(block_mask);
            let is_one = between.one();
            proof {
                self.lemma_diag_blockers(k, opp, attacker@, between);
            }
            if is_one {
                pinned = pinned.bit_or(between);
            }
            proof {
                assert forall|t: int| #[trigger] pinned.contains(t) <==> pin0.contains(t) || exists|a: int|
                    diag_attackers.contains(a) && !remaining.contains(a) && #[trigger] self.diag_blocker(
                        k,
                        opp,
                        a,
                        t,
                    ) by {
                    if self.diag_blocker(k, opp, attacker@, t) {
                        assert(diag_attackers.contains(attacker@) && !remaining.contains(attacker@));
                    }
                    if exists|a: int| diag_attackers.contains(a) && !remaining.contains(a) && #[trigger] self.diag_blocker(k, opp, a, t) {
                        let a = choose|a: int| diag_attackers.contains(a) && !remaining.contains(a) && #[trigger] self.diag_blocker(k, opp, a, t);
                        if a != attacker@ {
                            assert(!before.contains(a));
                        }
                    }
                    if pinned_before.contains(t) && !pin0.contains(t) {
                        let a = choose|a: int| diag_attackers.contains(a) && !before.contains(a) && #[trigger] self.diag_blocker(k, opp, a, t);
                        assert(!remaining.contains(a));
                    }
                }
            }
        }
        let hv_attackers = attacks::rook_attacks(king_sq, Bitboard::none()).bit_and(
            rooks.bit_or(queens),
        );
        assert(forall|a: int| #[trigger] hv_attackers.contains(a) <==> self.hv_snipers(k, opp, a));
        let hv_mask = self.occ().bit_xor(hv_attackers);
        assert(forall|u: int| #[trigger] hv_mask.contains(u) <==> self.hv_masked(k, opp, u));
        let mut remaining = hv_attackers;
        let ghost pin1 = pinned;
        while remaining.any()
            invariant
                self.stm_spec().opp() == opp,
                king_sq@ == k,
                forall|a: int| #[trigger] remaining.contains(a) ==> hv_attackers.contains(a),
                forall|a: int| #[trigger] hv_attackers.contains(a) <==> self.hv_snipers(k, opp, a),
                forall|u: int| #[trigger] hv_mask.contains(u) <==> self.hv_masked(k, opp, u),
                forall|t: int| #[trigger] pinned.contains(t) <==> pin1.contains(t) || exists|a: int|
                    hv_attackers.contains(a) && !remaining.contains(a) && #[trigger] self.hv_blocker(
                        k,
                        opp,
                        a,
                        t,
                    ),
            decreases remaining@,
        {
            let ghost before = remaining;
            let ghost pinned_before = pinned;
            let attacker = remaining.poplsb();
            let between = attacks::line_between(king_sq, attacker).bit_and(hv_mask);
            let is_one = between.one();
            proof {
                self.lemma_hv_blockers(k, opp, attacker@, between);
            }
            if is_one {
                pinned = pinned.bit_or(between);
            }
            proof {
                assert forall|t: int| #[trigger] pinned.contains(t) <==> pin1.contains(t) || exists|a: int|
                    hv_attackers.contains(a) && !remaining.contains(a) && #[trigger] self.hv_blocker(
                        k,
                        opp,
                        a,
                        t,
                    ) by {
                    if self.hv_blocker(k, opp, attacker@, t) {
                        assert(hv_attackers.contains(attacker@) && !remaining.contains(attacker@));
                    }
                    if exists|a: int| hv_attackers.contains(a) && !remaining.contains(a) && #[trigger] self.hv_blocker(k, opp, a, t) {
                        let a = choose|a: int| hv_attackers.contains(a) && !remaining.contains(a) && #[trigger] self.hv_blocker(k, opp, a, t);
                        if a != attacker@ {
                            assert(!before.contains(a));
                        }
                    }
                    if pinned_before.contains(t) && !pin1.contains(t) {
                        let a = choose|a: int| hv_attackers.contains(a) && !before.contains(a) && #[trigger] self.hv_blocker(k, opp, a, t);
                        assert(!remaining.contains(a));
                    }
                }
            }
        }
        proof {
            self.lemma_king_square(self.stm_spec(), k);
            assert forall|t: int| #[trigger]
                pinned.contains(t) <==> (exists|a: int|
                    self.diag_snipers(k, opp, a) && #[trigger] self.diag_blocker(k, opp, a, t))
                    || (exists|a: int|
                    self.hv_snipers(k, opp, a) && #[trigger] self.hv_blocker(k, opp, a, t)) by {
                if exists|a: int| self.diag_snipers(k, opp, a) && #[trigger] self.diag_blocker(k, opp, a, t) {
                    let a = choose|a: int| self.diag_snipers(k, opp, a) && #[trigger] self.diag_blocker(k, opp, a, t);
                    assert(diag_attackers.contains(a));
                }
                if exists|a: int| self.hv_snipers(k, opp, a) && #[trigger] self.hv_blocker(k, opp, a, t) {
                    let a = choose|a: int| self.hv_snipers(k, opp, a) && #[trigger] self.hv_blocker(k, opp, a, t);
                    assert(hv_attackers.contains(a));
                }
            }
        }
        (checkers, pinned)
    }

    /// Two boards with the same pieces and side to move agree on every predicate of the
    /// check information.
    proof fn lemma_same_pieces(a: Board, b: Board)
        requires
            a.pieces == b.pieces,
            a.colors == b.colors,
            a.stm == b.stm,
            a.has_king(a.stm_spec()),
        ensures
            a.king_square(a.stm_spec()) == b.king_square(b.stm_spec()),
            a.occ_without_kings() == b.occ_without_kings(),
            forall|k: int, o: Bitboard, t: int| #[trigger] a.attacks_from(k, o, t) == b.attacks_from(k, o, t),
            forall|k: int, c: Color, x: int| #[trigger] a.diag_snipers(k, c, x) == b.diag_snipers(k, c, x),
            forall|k: int, c: Color, x: int| #[trigger] a.hv_snipers(k, c, x) == b.hv_snipers(k, c, x),
            forall|k: int, c: Color, x: int, t: int| #[trigger] a.diag_blocker(k, c, x, t) == b.diag_blocker(k, c, x, t),
            forall|k: int, c: Color, x: int, t: int| #[trigger] a.hv_blocker(k, c, x, t) == b.hv_blocker(k, c, x, t),
    {
        let c = a.stm_spec();
        assert(forall|cc: Color, u: int| #[trigger] a.has_color(cc, u) == b.has_color(cc, u));
        assert(forall|pt: PieceType, u: int| #[trigger] a.has_type(pt, u) == b.has_type(pt, u));
        let s = choose|s: int| a.has_color(c, s) && #[trigger] a.has_type(PieceType::King, s);
        let lk = a.king_square(c);
        assert(exists|s: int| a.lowest_king(c, s)) by {
            lemma_lowest_exists(a, c, s);
        }
        assert(a.lowest_king(c, lk));
        assert forall|u: int| 0 <= u < lk implies !(b.has_color(c, u) && #[trigger] b.has_type(PieceType::King, u)) by {
            assert(!(a.has_color(c, u) && a.has_type(PieceType::King, u)));
            assert(a.has_color(c, u) == b.has_color(c, u));
            assert(a.has_type(PieceType::King, u) == b.has_type(PieceType::King, u));
        }
        assert(a.has_color(c, lk) == b.has_color(c, lk));
        assert(a.has_type(PieceType::King, lk) == b.has_type(PieceType::King, lk));
        assert(b.lowest_king(c, lk));
        b.lemma_king_square(c, lk);
        assert forall|k: int, cc: Color, x: int, t: int| #[trigger] a.diag_blocker(k, cc, x, t) == b.diag_blocker(k, cc, x, t) by {
            assert(forall|u: int| #[trigger] a.diag_masked(k, cc, u) == b.diag_masked(k, cc, u));
        }
        assert forall|k: int, cc: Color, x: int, t: int| #[trigger] a.hv_blocker(k, cc, x, t) == b.hv_blocker(k, cc, x, t) by {
            assert(forall|u: int| #[trigger] a.hv_masked(k, cc, u) == b.hv_masked(k, cc, u));
        }
    }

    /// Recomputes the checkers and the pins of the side to move, which must have a king.
    fn update_check_info(&mut self)
        requires
            old(self).has_king(old(self).stm_spec()),
        ensures
            final(self).same_position(*old(self)),
            final(self).check_info_ok(),
    {
        let (checkers, pinned) = self.compute_check_info();
        let ghost pre = *self;
        self.checkers = checkers;
        self.diag_pinned = pinned;
        self.hv_pinned = Bitboard::none();
        proof {
            Board::lemma_same_pieces(pre, *self);
            let k = pre.king_square(pre.stm_spec());
            let opp = pre.stm_spec().opp();
            assert forall|t: int| #[trigger] self.diag_pinned_spec().contains(t) <==> (exists|a: int|
                self.diag_snipers(k, opp, a) && #[trigger] self.diag_blocker(k, opp, a, t)) || (
                exists|a: int| self.hv_snipers(k, opp, a) && #[trigger] self.hv_blocker(k, opp, a, t)) by {
                if exists|a: int| pre.diag_snipers(k, opp, a) && #[trigger] pre.diag_blocker(k, opp, a, t) {
                    let a = choose|a: int| pre.diag_snipers(k, opp, a) && #[trigger] pre.diag_blocker(k, opp, a, t);
                    assert(self.diag_snipers(k, opp, a) && self.diag_blocker(k, opp, a, t));
                }
                if exists|a: int| pre.hv_snipers(k, opp, a) && #[trigger] pre.hv_blocker(k, opp, a, t) {
                    let a = choose|a: int| pre.hv_snipers(k, opp, a) && #[trigger] pre.hv_blocker(k, opp, a, t);
                    assert(self.hv_snipers(k, opp, a) && self.hv_blocker(k, opp, a, t));
                }
                if exists|a: int| self.diag_snipers(k, opp, a) && #[trigger] self.diag_blocker(k, opp, a, t) {
                    let a = choose|a: int| self.diag_snipers(k, opp, a) && #[trigger] self.diag_blocker(k, opp, a, t);
                    assert(pre.diag_snipers(k, opp, a) && pre.diag_blocker(k, opp, a, t));
                }
                if exists|a: int| self.hv_snipers(k, opp, a) && #[trigger] self.hv_blocker(k, opp, a, t) {
                    let a = choose|a: int| self.hv_snipers(k, opp, a) && #[trigger] self.hv_blocker(k, opp, a, t);
                    assert(pre.hv_snipers(k, opp, a) && pre.hv_blocker(k, opp, a, t));
                }
            }
            assert forall|t: int| #[trigger] self.checkers_spec().contains(t) <==> self.attacks_from(
                k,
                self.occ_without_kings(),
                t,
            ) && self.has_color(opp, t) by {
                assert(pre.has_color(opp, t) == self.has_color(opp, t));
            }
        }
    }


    /// The squares a move empties: its origin, and the square of a captured or castling
    /// piece.
    pub open spec fn move_cleared(self, mv: Move, s: int) -> bool {
        ||| s == mv.from_spec()
        ||| (mv.kind_spec() != 1 && s == mv.to_spec())
        ||| (mv.kind_spec() == 1 && s == ep_capture_square(self.stm_spec(), mv.to_spec()))
    }

    /// The piece a move puts on square `s`, if any.
    pub open spec fn move_placed(self, mv: Move, s: int) -> Option<Piece> {
        let p = self.piece_at_spec(mv.from_spec())->0;
        let ks = mv.to_spec() > mv.from_spec();
        if mv.kind_spec() == 2 {
            if s == castle_king_to(self.stm_spec(), ks) {
                Some(p)
            } else if s == castle_rook_to(self.stm_spec(), ks) {
                Some(self.piece_at_spec(mv.to_spec())->0)
            } else {
                None
            }
        } else if s != mv.to_spec() {
            None
        } else if mv.kind_spec() == 3 {
            Some(piece_of(self.stm_spec(), type_of_index(mv.promo_spec() + 1)))
        } else {
            Some(p)
        }
    }

    /// Whether square `s` holds color `c` after move `mv`.
    pub open spec fn color_after(self, mv: Move, c: Color, s: int) -> bool {
        (self.has_color(c, s) && !self.move_cleared(mv, s)) || (self.move_placed(mv, s) matches Some(
            p,
        ) && p.color_spec() == c)
    }

    /// Whether square `s` holds kind `pt` after move `mv`.
    pub open spec fn type_after(self, mv: Move, pt: PieceType, s: int) -> bool {
        (self.has_type(pt, s) && !self.move_cleared(mv, s)) || (self.move_placed(mv, s) matches Some(
            p,
        ) && p.type_spec() == pt)
    }

    /// Whether move `mv` can be made on this board without a failure: the origin holds a
    /// piece; a normal move or a promotion goes to another square; an en passant capture
    /// finds a piece on the square behind its target; a castling move finds a piece on its
    /// target; and the side to move next still has a king.
    pub open spec fn move_ok(self, mv: Move) -> bool {
        let from = mv.from_spec();
        let to = mv.to_spec();
        &&& self.wf()
        &&& self.occupied(from)
        &&& (mv.kind_spec() == 0 || mv.kind_spec() == 3) ==> from != to
        &&& mv.kind_spec() == 1 ==> {
            let cap = ep_capture_square(self.stm_spec(), to);
            &&& 0 <= cap < 64
            &&& cap != from
            &&& self.occupied(cap)
        }
        &&& mv.kind_spec() == 2 ==> (self.occupied(to) && to != from)
        &&& exists|s: int|
            self.color_after(mv, self.stm_spec().opp(), s) && #[trigger] self.type_after(
                mv,
                PieceType::King,
                s,
            )
    }

    /// Whether the board is consistent, as `wf` states.
    pub fn is_wf(&self) -> (r: bool)
        ensures
            r == self.wf(),
    {
        let both = self.colors[0].bit_and(self.colors[1]);
        let colors_apart = both.empty();
        proof {
            assert forall|q: int| !(#[trigger] self.has_color(Color::White, q) && self.has_color(Color::Black, q))
                == !both.contains(q) by {}
        }
        let mut acc = Bitboard::none();
        let mut i: usize = 0;
        while i < 6
            invariant
                i <= 6,
                forall|q: int| #[trigger] acc.contains(q) == exists|k: int| 0 <= k < i && #[trigger] self.pieces[k].contains(q),
                forall|k1: int, k2: int, q: int| 0 <= k1 < k2 < i ==> !(#[trigger] self.pieces[k1].contains(q) && #[trigger] self.pieces[k2].contains(q)),
            decreases 6 - i,
        {
            let overlap = acc.bit_and(self.pieces[i]);
            if !overlap.empty() {
                proof {
                    let q = choose|q: int| #[trigger] overlap.contains(q);
                    assert(acc.contains(q));
                    let k = choose|k: int| 0 <= k < i && #[trigger] self.pieces[k].contains(q);
                    let a = type_of_index(k);
                    let b = type_of_index(i as int);
                    assert(a@ == k && b@ == i);
                    assert(self.has_type(a, q) && self.has_type(b, q) && a != b);
                }
                return false;
            }
            let ghost acc0 = acc;
            acc = acc.bit_or(self.pieces[i]);
            proof {
                assert forall|q: int| #[trigger] acc.contains(q) == exists|k: int| 0 <= k < i + 1 && #[trigger] self.pieces[k].contains(q) by {
                    if self.pieces[i as int].contains(q) {
                        assert(0 <= i < i + 1);
                    }
                    if exists|k: int| 0 <= k < i + 1 && #[trigger] self.pieces[k].contains(q) {
                        let k = choose|k: int| 0 <= k < i + 1 && #[trigger] self.pieces[k].contains(q);
                        if k < i {
                            assert(acc0.contains(q));
                        }
                    }
                }
                assert forall|k1: int, k2: int, q: int| 0 <= k1 < k2 < i + 1 implies !(#[trigger] self.pieces[k1].contains(q)
                    && #[trigger] self.pieces[k2].contains(q)) by {
                    if k2 == i && self.pieces[k1].contains(q) {
                        assert(acc0.contains(q));
                        assert(!overlap.contains(q));
                    }
                }
            }
            i = i + 1;
        }
        let occ = self.colors[0].bit_or(self.colors[1]);
        let same = occ.value() == acc.value();
        proof {
            assert forall|q: int| #[trigger] self.occupied(q) == occ.contains(q) by {}
            assert forall|q: int| (exists|pt: PieceType| #[trigger] self.has_type(pt, q)) == acc.contains(q) by {
                if exists|pt: PieceType| #[trigger] self.has_type(pt, q) {
                    let pt = choose|pt: PieceType| #[trigger] self.has_type(pt, q);
                    assert(self.pieces[pt@].contains(q));
                    assert(0 <= pt@ < 6);
                }
                if acc.contains(q) {
                    let k = choose|k: int| 0 <= k < 6 && #[trigger] self.pieces[k].contains(q);
                    let pt = type_of_index(k);
                    assert(pt@ == k);
                    assert(self.has_type(pt, q));
                }
            }
            assert forall|q: int, a: PieceType, b: PieceType| a != b implies !(#[trigger] self.has_type(a, q)
                && #[trigger] self.has_type(b, q)) by {
                if a@ < b@ {
                    assert(!(self.pieces[a@].contains(q) && self.pieces[b@].contains(q)));
                } else if b@ < a@ {
                    assert(!(self.pieces[b@].contains(q) && self.pieces[a@].contains(q)));
                }
            }
            if !colors_apart {
                let q = choose|q: int| #[trigger] both.contains(q);
                assert(self.has_color(Color::White, q) && self.has_color(Color::Black, q));
                assert(!self.wf());
            } else if same {
                Bitboard::lemma_view_injective(occ, acc);
                assert forall|q: int| #[trigger] self.occupied(q) <==> exists|pt: PieceType| #[trigger] self.has_type(pt, q) by {
                    assert((exists|pt: PieceType| #[trigger] self.has_type(pt, q)) == acc.contains(q));
                }
                assert(self.wf());
            } else {
                if forall|q: int| 0 <= q < 64 ==> bit(occ@, q) == bit(acc@, q) {
                    lemma_bits_equal(occ@, acc@);
                }
                let q = choose|q: int| !(0 <= q < 64 ==> bit(occ@, q) == bit(acc@, q));
                assert(occ.contains(q) != acc.contains(q));
                assert((exists|pt: PieceType| #[trigger] self.has_type(pt, q)) == acc.contains(q));
                assert(self.occupied(q) != exists|pt: PieceType| #[trigger] self.has_type(pt, q));
                assert(!self.wf());
            }
        }
        colors_apart && same
    }

    /// Whether `make_move` accepts move `mv` on this board, as `move_ok` states.
    pub fn can_make_move(&self, mv: Move) -> (r: bool)
        ensures
            r == self.move_ok(mv),
    {
        if !self.is_wf() {
            return false;
        }
        let from = mv.from_sq();
        let to = mv.to_sq();
        proof {
            mv.lemma_fields();
            self.lemma_wf_piece_at(from@);
            self.lemma_wf_piece_at(to@);
        }
        let occ = self.occ();
        if !occ.has(from) {
            return false;
        }
        let kind = mv.kind();
        let stm = self.stm;
        let opp = stm.flip();
        let mut cleared = Bitboard::from_square(from);
        match kind {
            MoveKind::Normal | MoveKind::Promotion => {
                if from.value() == to.value() {
                    return false;
                }
                cleared = cleared.bit_or(Bitboard::from_square(to));
            },
            MoveKind::Enpassant => {
                let t = to.value() as i32;
                let cap = if stm == Color::White {
                    t - 8
                } else {
                    t + 8
                };
                if cap < 0 || cap >= 64 || cap == from.value() as i32 || !occ.has(Square::from_raw(cap as u8)) {
                    return false;
                }
                cleared = cleared.bit_or(Bitboard::from_square(Square::from_raw(cap as u8)));
            },
            MoveKind::Castle => {
                if !occ.has(to) || from.value() == to.value() {
                    return false;
                }
                cleared = cleared.bit_or(Bitboard::from_square(to));
            },
        }
        let kings = self.colors[opp.index()].bit_and(self.pieces[5]).bit_and(cleared.bit_not());
        let moving = self.piece_at(from).unwrap();
        let placed_king = match kind {
            MoveKind::Castle => {
                let ks = to.value() > from.value();
                let rook = self.piece_at(to).unwrap();
                let king_dst = CastlingRooks::king_to(ks, stm);
                let rook_dst = CastlingRooks::rook_to(ks, stm);
                self.king_there(king_dst, moving, opp, cleared) || self.king_there(rook_dst, rook, opp, cleared)
            },
            MoveKind::Promotion => {
                let promoted = Piece::new(stm, mv.promo_piece());
                self.king_there(to, promoted, opp, cleared)
            },
            _ => self.king_there(to, moving, opp, cleared),
        };
        let kings_left = kings.any();
        let result = kings_left || placed_king;
        proof {
            let b = *self;
            let ks = mv.to_spec() > mv.from_spec();
            assert forall|q: int| #[trigger] cleared.contains(q) == b.move_cleared(mv, q) by {}
            if mv.kind_spec() == 3 {
                crate::types::piece::lemma_piece_round_trip(
                    piece_of(stm, type_of_index(mv.promo_spec() + 1)),
                    stm,
                    type_of_index(mv.promo_spec() + 1),
                );
            }
            if kings_left {
                let q = choose|q: int| #[trigger] kings.contains(q);
                assert(b.color_after(mv, opp, q) && b.type_after(mv, PieceType::King, q));
            } else if placed_king {
                let q = if mv.kind_spec() == 2 {
                    if b.king_counts(castle_king_to(stm, ks), moving, opp, cleared) {
                        castle_king_to(stm, ks)
                    } else {
                        castle_rook_to(stm, ks)
                    }
                } else {
                    mv.to_spec()
                };
                assert(b.color_after(mv, opp, q) && b.type_after(mv, PieceType::King, q));
            } else {
                assert forall|q: int| !(b.color_after(mv, opp, q) && #[trigger] b.type_after(mv, PieceType::King, q)) by {
                    if b.has_color(opp, q) && !b.move_cleared(mv, q) && b.has_type(PieceType::King, q) {
                        assert(kings.contains(q));
                    }
                }
            }
        }
        result
    }

    /// Whether square `s`, where a move puts piece `p`, then counts as holding a king of side
    /// `opp`: by the color of `p` or of a piece left there, and by the kind of `p` or of a
    /// piece left there, `cleared` being the squares the move empties.
    pub open spec fn king_counts(self, s: int, p: Piece, opp: Color, cleared: Bitboard) -> bool {
        &&& (p.color_spec() == opp || (self.has_color(opp, s) && !cleared.contains(s)))
        &&& (p.type_spec() == PieceType::King || (self.has_type(PieceType::King, s) && !cleared.contains(s)))
    }

    /// Computes `king_counts`.
    fn king_there(&self, sq: Square, p: Piece, opp: Color, cleared: Bitboard) -> (r: bool)
        ensures
            r == self.king_counts(sq@, p, opp, cleared),
    {
        let color_ok = match (p.color(), opp) {
            (Color::White, Color::White) => true,
            (Color::Black, Color::Black) => true,
            _ => false,
        } || (self.colors[opp.index()].has(sq) && !cleared.has(sq));
        let type_ok = match p.piece_type() {
            PieceType::King => true,
            _ => false,
        } || (self.pieces[5].has(sq) && !cleared.has(sq));
        color_ok && type_ok
    }

    /// Whether every piece a move puts down lands on a square it empties or on an empty one.
    pub open spec fn placements_free(self, mv: Move) -> bool {
        forall|s: int|
            #[trigger] self.move_placed(mv, s) is Some ==> self.move_cleared(mv, s) || !self.occupied(s)
    }

    /// Well-formedness depends on the piece and color sets only.
    proof fn lemma_wf_same(a: Board, b: Board)
        requires
            a.wf(),
            forall|c: Color, s: int| #[trigger] a.has_color(c, s) == b.has_color(c, s),
            forall|pt: PieceType, s: int| #[trigger] a.has_type(pt, s) == b.has_type(pt, s),
        ensures
            b.wf(),
    {
        assert forall|s: int| #[trigger] b.clean_at(s) by {
            a.lemma_wf_clean(s);
            Board::lemma_clean_transfer(a, b, s);
        }
        assert forall|s: int| !(#[trigger] b.has_color(Color::White, s) && b.has_color(Color::Black, s)) by {
            assert(b.clean_at(s));
        }
        assert forall|s: int, x: PieceType, y: PieceType|
            x != y implies !(#[trigger] b.has_type(x, s) && #[trigger] b.has_type(y, s)) by {
            assert(b.clean_at(s));
        }
        assert forall|s: int| #[trigger] b.occupied(s) <==> exists|pt: PieceType| #[trigger] b.has_type(pt, s) by {
            assert(b.clean_at(s));
        }
    }

    /// A move whose pieces land on emptied or empty squares keeps a well-formed board
    /// well-formed.
    proof fn lemma_move_wf(o: Board, mv: Move, b: Board)
        requires
            o.wf(),
            o.placements_free(mv),
            forall|c: Color, s: int| #[trigger] b.has_color(c, s) == o.color_after(mv, c, s),
            forall|pt: PieceType, s: int| #[trigger] b.has_type(pt, s) == o.type_after(mv, pt, s),
        ensures
            b.wf(),
    {
        assert forall|s: int| #[trigger] b.clean_at(s) by {
            o.lemma_wf_clean(s);
            match o.move_placed(mv, s) {
                Some(p) => {
                    assert(o.move_cleared(mv, s) || !o.occupied(s));
                    assert forall|pt: PieceType| #[trigger] b.has_type(pt, s) == (pt == p.type_spec()) by {
                        if o.has_type(pt, s) && !o.move_cleared(mv, s) {
                            assert(o.occupied(s));
                        }
                    }
                    assert(b.has_type(p.type_spec(), s));
                },
                None => {
                    if o.move_cleared(mv, s) {
                        assert(!b.has_color(Color::White, s));
                        assert(!b.has_color(Color::Black, s));
                        assert forall|pt: PieceType| !#[trigger] b.has_type(pt, s) by {}
                    } else {
                        assert(forall|c: Color| #[trigger] o.has_color(c, s) == b.has_color(c, s));
                        assert(forall|pt: PieceType| #[trigger] o.has_type(pt, s) == b.has_type(pt, s));
                        Board::lemma_clean_transfer(o, b, s);
                    }
                },
            }
        }
        assert forall|s: int| !(#[trigger] b.has_color(Color::White, s) && b.has_color(Color::Black, s)) by {
            assert(b.clean_at(s));
        }
        assert forall|s: int, x: PieceType, y: PieceType|
            x != y implies !(#[trigger] b.has_type(x, s) && #[trigger] b.has_type(y, s)) by {
            assert(b.clean_at(s));
        }
        assert forall|s: int| #[trigger] b.occupied(s) <==> exists|pt: PieceType| #[trigger] b.has_type(pt, s) by {
            assert(b.clean_at(s));
        }
    }

    /// Makes move `mv`: moves the piece, removes a captured one, promotes, castles; sets the
    /// en passant square after a double pawn push and resets the half move clock after a
    /// normal pawn move; passes the move to the other side and recomputes its check
    /// information. Castling rights are left as they are.
    #[verifier::rlimit(60)]
    pub fn make_move(&mut self, mv: Move)
        requires
            old(self).move_ok(mv),
        ensures
            forall|c: Color, s: int| #[trigger] final(self).has_color(c, s) == old(self).color_after(mv, c, s),
            forall|pt: PieceType, s: int| #[trigger] final(self).has_type(pt, s) == old(self).type_after(mv, pt, s),
            final(self).stm_spec() == old(self).stm_spec().opp(),
            final(self).rooks_spec() == old(self).rooks_spec(),
            final(self).ep_spec() == (if mv.kind_spec() == 0 && old(self).type_at(mv.from_spec()) == Some(PieceType::Pawn)
                && abs_diff(mv.from_spec(), mv.to_spec()) == 16 {
                Some(Square::from_index((mv.from_spec() + mv.to_spec()) / 2))
            } else {
                None::<Square>
            }),
            final(self).hmc_spec() == (if mv.kind_spec() == 0 && old(self).type_at(mv.from_spec()) == Some(PieceType::Pawn) {
                0
            } else {
                old(self).hmc_spec()
            }),
            final(self).check_info_ok(),
            old(self).placements_free(mv) ==> final(self).wf(),
    {
        let ghost o = *self;
        let from = mv.from_sq();
        let to = mv.to_sq();
        proof {
            o.lemma_wf_piece_at(from@);
            o.lemma_wf_piece_at(to@);
            o.lemma_wf_clean(from@);
            o.lemma_wf_clean(to@);
        }
        let from_pce = self.piece_at(from).unwrap();
        let mut ep: Option<Square> = None;
        let kind = mv.kind();
        match kind {
            MoveKind::Normal => {
                if from_pce.piece_type() == PieceType::Pawn {
                    self.half_move_clock = 0;
                    let d = from.diff(to);
                    if d == 16 || d == -16 {
                        let mid = ((from.value() as u32 + to.value() as u32) / 2) as u8;
                        ep = Some(Square::from_raw(mid));
                    }
                }
                let ghost b0 = *self;
                proof {
                    assert(forall|c: Color, q: int| #[trigger] b0.has_color(c, q) == o.has_color(c, q));
                    assert(forall|pt: PieceType, q: int| #[trigger] b0.has_type(pt, q) == o.has_type(pt, q));
                    Board::lemma_clean_transfer(o, b0, to@);
                    Board::lemma_clean_transfer(o, b0, from@);
                    assert(b0.readable(to@));
                }
                if self.piece_at(to).is_some() {
                    self.take_piece(to);
                }
                let ghost b1 = *self;
                proof {
                    assert(forall|c: Color, s: int| #[trigger] b1.has_color(c, s) == (o.has_color(c, s) && s != to@));
                    assert(forall|pt: PieceType, s: int| #[trigger] b1.has_type(pt, s) == (o.has_type(pt, s) && s != to@));
                    assert(forall|c: Color| #[trigger] o.has_color(c, from@) == b1.has_color(c, from@));
                    assert(forall|pt: PieceType| #[trigger] o.has_type(pt, from@) == b1.has_type(pt, from@));
                    Board::lemma_clean_transfer(o, b1, from@);
                }
                self.take_piece(from);
                self.add_piece(to, from_pce);
                proof {
                    assert(o.move_placed(mv, to@) == Some(from_pce));
                    assert forall|c: Color, s: int| #[trigger] self.has_color(c, s) == o.color_after(mv, c, s) by {
                        if s != to@ { assert(o.move_placed(mv, s) is None); }
                    }
                    assert forall|pt: PieceType, s: int| #[trigger] self.has_type(pt, s) == o.type_after(mv, pt, s) by {
                        if s != to@ { assert(o.move_placed(mv, s) is None); }
                    }
                }
            },
            MoveKind::Promotion => {
                if self.piece_at(to).is_some() {
                    self.take_piece(to);
                }
                let ghost b1 = *self;
                proof {
                    assert(forall|c: Color, s: int| #[trigger] b1.has_color(c, s) == (o.has_color(c, s) && s != to@));
                    assert(forall|pt: PieceType, s: int| #[trigger] b1.has_type(pt, s) == (o.has_type(pt, s) && s != to@));
                    assert(forall|c: Color| #[trigger] o.has_color(c, from@) == b1.has_color(c, from@));
                    assert(forall|pt: PieceType| #[trigger] o.has_type(pt, from@) == b1.has_type(pt, from@));
                    Board::lemma_clean_transfer(o, b1, from@);
                }
                self.take_piece(from);
                let promoted = Piece::new(self.stm, mv.promo_piece());
                self.add_piece(to, promoted);
                proof {
                    assert(o.move_placed(mv, to@) == Some(promoted));
                    assert forall|c: Color, s: int| #[trigger] self.has_color(c, s) == o.color_after(mv, c, s) by {
                        if s != to@ { assert(o.move_placed(mv, s) is None); }
                    }
                    assert forall|pt: PieceType, s: int| #[trigger] self.has_type(pt, s) == o.type_after(mv, pt, s) by {
                        if s != to@ { assert(o.move_placed(mv, s) is None); }
                    }
                }
            },
            MoveKind::Enpassant => {
                self.take_piece(from);
                self.add_piece(to, from_pce);
                let cap_sq = if self.stm == Color::White {
                    to.offset(-8)
                } else {
                    to.offset(8)
                };
                let ghost b2 = *self;
                proof {
                    o.lemma_wf_clean(cap_sq@);
                    assert(b2.has_color(Color::White, cap_sq@) == o.has_color(Color::White, cap_sq@));
                    assert(b2.has_color(Color::Black, cap_sq@) == o.has_color(Color::Black, cap_sq@));
                    assert forall|pt: PieceType| #[trigger] b2.has_type(pt, cap_sq@) == o.has_type(pt, cap_sq@) by {}
                    Board::lemma_clean_transfer(o, b2, cap_sq@);
                }
                self.take_piece(cap_sq);
                proof {
                    assert(o.move_placed(mv, to@) == Some(from_pce));
                    assert(cap_sq@ == ep_capture_square(o.stm_spec(), to@));
                    assert forall|c: Color, s: int| #[trigger] self.has_color(c, s) == o.color_after(mv, c, s) by {
                        if s != to@ { assert(o.move_placed(mv, s) is None); }
                    }
                    assert forall|pt: PieceType, s: int| #[trigger] self.has_type(pt, s) == o.type_after(mv, pt, s) by {
                        if s != to@ { assert(o.move_placed(mv, s) is None); }
                    }
                }
            },
            MoveKind::Castle => {
                let rook = self.piece_at(to).unwrap();
                let king_side = to.value() > from.value();
                let king_to = CastlingRooks::king_to(king_side, self.stm);
                let rook_to = CastlingRooks::rook_to(king_side, self.stm);
                self.take_piece(from);
                let ghost b1 = *self;
                proof {
                    assert(b1.has_color(Color::White, to@) == o.has_color(Color::White, to@));
                    assert(b1.has_color(Color::Black, to@) == o.has_color(Color::Black, to@));
                    assert forall|pt: PieceType| #[trigger] b1.has_type(pt, to@) == o.has_type(pt, to@) by {}
                    Board::lemma_clean_transfer(o, b1, to@);
                }
                self.take_piece(to);
                self.add_piece(king_to, from_pce);
                self.add_piece(rook_to, rook);
                proof {
                    assert(o.move_placed(mv, king_to@) == Some(from_pce));
                    assert(o.move_placed(mv, rook_to@) == Some(rook));
                    assert forall|c: Color, s: int| #[trigger] self.has_color(c, s) == o.color_after(mv, c, s) by {
                        if s != king_to@ && s != rook_to@ { assert(o.move_placed(mv, s) is None); }
                    }
                    assert forall|pt: PieceType, s: int| #[trigger] self.has_type(pt, s) == o.type_after(mv, pt, s) by {
                        if s != king_to@ && s != rook_to@ { assert(o.move_placed(mv, s) is None); }
                    }
                }
            },
        }
        let ghost m = *self;
        self.ep_square = ep;
        self.stm = self.stm.flip();
        proof {
            assert(forall|c: Color, q: int| #[trigger] self.has_color(c, q) == m.has_color(c, q));
            assert(forall|pt: PieceType, q: int| #[trigger] self.has_type(pt, q) == m.has_type(pt, q));
            let s0 = choose|s: int| o.color_after(mv, o.stm_spec().opp(), s) && #[trigger] o.type_after(mv, PieceType::King, s);
            assert(self.has_color(self.stm_spec(), s0) && self.has_type(PieceType::King, s0));
            if o.placements_free(mv) {
                Board::lemma_move_wf(o, mv, *self);
            }
        }
        let ghost before_info = *self;
        self.update_check_info();
        proof {
            if before_info.wf() {
                Board::lemma_wf_same(before_info, *self);
            }
        }
    }

    /// The piece a FEN letter stands for.
    fn letter_piece(c: char) -> (r: Option<Piece>)
        ensures
            r == piece_of_letter(c),
    {
        if c == 'P' {
            Some(Piece::WhitePawn)
        } else if c == 'N' {
            Some(Piece::WhiteKnight)
        } else if c == 'B' {
            Some(Piece::WhiteBishop)
        } else if c == 'R' {
            Some(Piece::WhiteRook)
        } else if c == 'Q' {
            Some(Piece::WhiteQueen)
        } else if c == 'K' {
            Some(Piece::WhiteKing)
        } else if c == 'p' {
            Some(Piece::BlackPawn)
        } else if c == 'n' {
            Some(Piece::BlackKnight)
        } else if c == 'b' {
            Some(Piece::BlackBishop)
        } else if c == 'r' {
            Some(Piece::BlackRook)
        } else if c == 'q' {
            Some(Piece::BlackQueen)
        } else if c == 'k' {
            Some(Piece::BlackKing)
        } else {
            None
        }
    }

    /// Once the scan has gone past the last square it cannot be accepted any more.
    proof fn lemma_scan_beyond(p: Seq<char>, i: int, n: int)
        requires
            0 <= i <= n <= p.len(),
            place_scan(p, i).0 == 0,
            place_scan(p, i).1 > 64,
            place_scan(p, i).2 >= 0,
        ensures
            place_scan(p, n).0 != 0 || (place_scan(p, n).1 > 64 && place_scan(p, n).2 >= 0),
        decreases n - i,
    {
        if i < n {
            if place_scan(p, i + 1).0 != 0 {
                Board::lemma_scan_stays(p, i + 1, n);
            } else {
                Board::lemma_scan_beyond(p, i + 1, n);
            }
        }
    }

    /// The number of '/' read never goes down.
    proof fn lemma_scan_rows_grow(p: Seq<char>, i: int, n: int)
        requires
            0 <= i <= n <= p.len(),
        ensures
            place_scan(p, n).2 >= place_scan(p, i).2,
        decreases n - i,
    {
        if i < n {
            Board::lemma_scan_rows_grow(p, i + 1, n);
        }
    }

    proof fn lemma_scan_rows(p: Seq<char>, n: int)
        requires
            0 <= n,
        ensures
            place_scan(p, n).2 >= 0,
        decreases n,
    {
        if n > 0 {
            Board::lemma_scan_rows(p, n - 1);
        }
    }

    /// Reads the piece placement field of a FEN string onto an empty board.
    #[verifier::rlimit(60)]
    fn place_pieces(p: &Vec<char>) -> (r: Option<Board>)
        requires
            placement_outcome(p@) != 2,
        ensures
            r is Some <==> placement_outcome(p@) == 0,
            r matches Some(b) ==> {
                &&& b.wf()
                &&& forall|c: Color, sq: int| #[trigger] b.has_color(c, sq) == fen_color_at(p@, c, sq)
                &&& forall|pt: PieceType, sq: int| #[trigger] b.has_type(pt, sq) == fen_type_at(p@, pt, sq)
                &&& b.stm_spec() == Color::White
                &&& b.ep_spec() is None
                &&& b.hmc_spec() == 0
                &&& b.rooks_spec() == CastlingRooks::empty_spec()
            },
    {
        let mut board = Board::empty();
        let mut curr: i64 = 56;
        let mut rows: i64 = 0;
        let mut i: usize = 0;
        let ghost mut overflow = false;
        while i < p.len()
            invariant
                i <= p.len(),
                place_scan(p@, i as int) == (0int, curr as int, rows as int),
                0 <= rows <= 7,
                curr <= 64,
                curr >= 56 - 8 * rows,
                overflow ==> curr > 64 - 8 * rows,
                !overflow ==> board.wf(),
                placement_outcome(p@) != 2,
                forall|sq: int| #[trigger] board.occupied(sq) ==> (56 - 8 * rows <= sq < curr) || (64 - 8 * rows <= sq < 64),
                forall|c: Color, sq: int| #[trigger] board.has_color(c, sq) == fen_color_before(p@, i as int, c, sq),
                forall|pt: PieceType, sq: int| #[trigger] board.has_type(pt, sq) == fen_type_before(p@, i as int, pt, sq),
                board.stm_spec() == Color::White,
                board.ep_spec() is None,
                board.hmc_spec() == 0,
                board.rooks_spec() == CastlingRooks::empty_spec(),
            decreases p.len() - i,
        {
            let c = p[i];
            let ghost b0 = board;
            if '1' <= c && c <= '9' {
                curr = curr + (c as u32 - 48) as i64;
                if curr > 64 {
                    proof {
                        Board::lemma_scan_beyond(p@, i + 1, p@.len() as int);
                    }
                    return None;
                }
                proof {
                    assert forall|cc: Color, sq: int| #[trigger] fen_color_before(p@, i + 1, cc, sq) == fen_color_before(p@, i as int, cc, sq) by {
                        if fen_color_before(p@, i + 1, cc, sq) {
                            let j = choose|j: int| 0 <= j < i + 1 && #[trigger] placed_at(p@, j, sq) && piece_of_letter(p@[j])->0.color_spec() == cc;
                        }
                    }
                    assert forall|pt: PieceType, sq: int| #[trigger] fen_type_before(p@, i + 1, pt, sq) == fen_type_before(p@, i as int, pt, sq) by {
                        if fen_type_before(p@, i + 1, pt, sq) {
                            let j = choose|j: int| 0 <= j < i + 1 && #[trigger] placed_at(p@, j, sq) && piece_of_letter(p@[j])->0.type_spec() == pt;
                        }
                    }
                }
            } else if c == '/' {
                if curr != 64 - rows * 8 {
                    proof {
                        assert(place_scan(p@, i + 1).0 == 1);
                        assert(place_scan(p@, p@.len() as int).0 == 1) by {
                            Board::lemma_scan_stays(p@, i + 1, p@.len() as int);
                        }
                    }
                    return None;
                }
                proof {
                    assert forall|cc: Color, sq: int| #[trigger] fen_color_before(p@, i + 1, cc, sq) == fen_color_before(p@, i as int, cc, sq) by {
                        if fen_color_before(p@, i + 1, cc, sq) {
                            let j = choose|j: int| 0 <= j < i + 1 && #[trigger] placed_at(p@, j, sq) && piece_of_letter(p@[j])->0.color_spec() == cc;
                        }
                    }
                    assert forall|pt: PieceType, sq: int| #[trigger] fen_type_before(p@, i + 1, pt, sq) == fen_type_before(p@, i as int, pt, sq) by {
                        if fen_type_before(p@, i + 1, pt, sq) {
                            let j = choose|j: int| 0 <= j < i + 1 && #[trigger] placed_at(p@, j, sq) && piece_of_letter(p@[j])->0.type_spec() == pt;
                        }
                    }
                }
                if rows == 7 {
                    proof {
                        Board::lemma_scan_rows_grow(p@, i + 1, p@.len() as int);
                    }
                    return None;
                }
                proof {
                    assert forall|q: int| #[trigger] board.occupied(q) implies (56 - 8 * (rows + 1) <= q < curr - 16) || (64 - 8 * (rows + 1) <= q < 64) by {
                    }
                }
                rows = rows + 1;
                curr = curr - 16;
            } else {
                match Board::letter_piece(c) {
                    None => {
                        proof {
                            assert(place_scan(p@, i + 1).0 == 1);
                            assert(place_scan(p@, p@.len() as int).0 == 1) by {
                                Board::lemma_scan_stays(p@, i + 1, p@.len() as int);
                            }
                        }
                        return None;
                    },
                    Some(piece) => {
                        if curr < 0 || curr >= 64 {
                            proof {
                                assert(place_scan(p@, i + 1).0 == 2);
                                Board::lemma_scan_stays(p@, i + 1, p@.len() as int);
                            }
                            return None;
                        }
                        let sq = Square::from_raw(curr as u8);
                        proof {
                            if curr >= 64 - 8 * rows {
                                overflow = true;
                            }
                        }
                        board.add_piece(sq, piece);
                        proof {
                            assert forall|q: int| #[trigger] board.occupied(q) implies (56 - 8 * rows <= q < curr + 1) || (64 - 8 * rows <= q < 64) by {
                                if q != curr {
                                    assert(b0.occupied(q));
                                }
                            }
                            assert(placed_at(p@, i as int, curr as int));
                            assert forall|cc: Color, q: int| #[trigger] board.has_color(cc, q) == fen_color_before(p@, i + 1, cc, q) by {
                                if fen_color_before(p@, i + 1, cc, q) {
                                    let j = choose|j: int| 0 <= j < i + 1 && #[trigger] placed_at(p@, j, q) && piece_of_letter(p@[j])->0.color_spec() == cc;
                                    if j < i {
                                        assert(fen_color_before(p@, i as int, cc, q));
                                    }
                                }
                                if fen_color_before(p@, i as int, cc, q) {
                                    let j = choose|j: int| 0 <= j < i && #[trigger] placed_at(p@, j, q) && piece_of_letter(p@[j])->0.color_spec() == cc;
                                    assert(0 <= j < i + 1);
                                }
                            }
                            assert forall|pt: PieceType, q: int| #[trigger] board.has_type(pt, q) == fen_type_before(p@, i + 1, pt, q) by {
                                if fen_type_before(p@, i + 1, pt, q) {
                                    let j = choose|j: int| 0 <= j < i + 1 && #[trigger] placed_at(p@, j, q) && piece_of_letter(p@[j])->0.type_spec() == pt;
                                    if j < i {
                                        assert(fen_type_before(p@, i as int, pt, q));
                                    }
                                }
                                if fen_type_before(p@, i as int, pt, q) {
                                    let j = choose|j: int| 0 <= j < i && #[trigger] placed_at(p@, j, q) && piece_of_letter(p@[j])->0.type_spec() == pt;
                                    assert(0 <= j < i + 1);
                                }
                            }
                        }
                        curr = curr + 1;
                    },
                }
            }
            i = i + 1;
        }
        if curr != 8 || rows != 7 {
            return None;
        }
        proof {
            assert(p@.len() as int == i as int);
        }
        Some(board)
    }

    /// Once the scan has stopped its status stays.
    proof fn lemma_scan_stays(p: Seq<char>, i: int, n: int)
        requires
            0 <= i <= n <= p.len(),
            place_scan(p, i).0 != 0,
        ensures
            place_scan(p, n) == place_scan(p, i),
        decreases n - i,
    {
        if i < n {
            Board::lemma_scan_stays(p, i + 1, n);
        }
    }

    /// Reads the castling field of a FEN string.
    fn castling_field(p: &Vec<char>) -> (r: Option<CastlingRooks>)
        ensures
            r is Some <==> castling_ok(p@),
            r matches Some(cr) ==> cr == castling_of(p@),
    {
        if p.len() == 0 || p.len() > 4 {
            return None;
        }
        let mut rooks = CastlingRooks::empty();
        let mut i: usize = 0;
        while i < p.len()
            invariant
                i <= p.len(),
                1 <= p.len() <= 4,
                forall|k: int| 0 <= k < i ==> (#[trigger] p@[k] == 'K' || p@[k] == 'Q' || p@[k] == 'k' || p@[k] == 'q' || p@[k] == '-'),
                forall|k: int| 0 <= k < i && p@[k] == '-' ==> p.len() == 1,
                rooks.frc == false,
                rooks.rooks[0].king_side == (if p@.take(i as int).contains('K') { Some(Square::H1) } else { None }),
                rooks.rooks[0].queen_side == (if p@.take(i as int).contains('Q') { Some(Square::A1) } else { None }),
                rooks.rooks[1].king_side == (if p@.take(i as int).contains('k') { Some(Square::H8) } else { None }),
                rooks.rooks[1].queen_side == (if p@.take(i as int).contains('q') { Some(Square::A8) } else { None }),
            decreases p.len() - i,
        {
            let c = p[i];
            proof {
                assert(p@.take(i + 1) =~= p@.take(i as int).push(c));
                crate::text::lemma_contains_push(p@.take(i as int), c, 'K');
                crate::text::lemma_contains_push(p@.take(i as int), c, 'Q');
                crate::text::lemma_contains_push(p@.take(i as int), c, 'k');
                crate::text::lemma_contains_push(p@.take(i as int), c, 'q');
            }
            if c == 'K' {
                rooks.color_mut(Color::White).king_side = Some(Square::H1);
            } else if c == 'Q' {
                rooks.color_mut(Color::White).queen_side = Some(Square::A1);
            } else if c == 'k' {
                rooks.color_mut(Color::Black).king_side = Some(Square::H8);
            } else if c == 'q' {
                rooks.color_mut(Color::Black).queen_side = Some(Square::A8);
            } else if c == '-' {
                if p.len() != 1 {
                    proof {
                        assert(p@.contains('-') && p@.len() != 1);
                    }
                    return None;
                }
            } else {
                return None;
            }
            i = i + 1;
        }
        proof {
            assert(p@.take(p@.len() as int) =~= p@);
            if p@.contains('-') {
                let k = choose|k: int| 0 <= k < p@.len() && p@[k] == '-';
            }
            assert(rooks.rooks =~= castling_of(p@).rooks);
        }
        Some(rooks)
    }

    /// Reads the en passant field of a FEN string: `Ok` with the square or none, or `Err`
    /// when the field is rejected.
    fn ep_field(p: &Vec<char>) -> (r: Result<Option<Square>, ()>)
        requires
            ep_outcome(p@) != 3,
        ensures
            ep_outcome(p@) == 0 ==> r == Ok::<Option<Square>, ()>(None),
            ep_outcome(p@) == 1 ==> (r matches Ok(Some(q)) && q@ == ep_square_of(p@)),
            ep_outcome(p@) == 2 ==> r is Err,
    {
        if p.len() == 1 && p[0] == '-' {
            return Ok(None);
        }
        if p.len() == 2 && (p[0] as u32) < 0x80 && (p[1] as u32) < 0x80 {
            let file = p[0];
            let rank = p[1];
            if 'a' <= file && file <= 'h' && '1' <= rank && rank <= '8' {
                return Ok(Some(Square::from_rank_file((rank as u32 - 49) as u8, (file as u32 - 97) as u8)));
            }
        }
        Err(())
    }

    /// The state of the placement scan after reading all of `p`, as `place_scan` gives it.
    fn placement_scan(p: &Vec<char>) -> (r: (u8, i128, i128))
        ensures
            r.0 as int == place_scan(p@, p@.len() as int).0,
            r.1 as int == place_scan(p@, p@.len() as int).1,
            r.2 as int == place_scan(p@, p@.len() as int).2,
    {
        let mut status: u8 = 0;
        let mut sq: i128 = 56;
        let mut slashes: i128 = 0;
        let mut i: usize = 0;
        while i < p.len()
            invariant
                i <= p.len(),
                status as int == place_scan(p@, i as int).0,
                sq as int == place_scan(p@, i as int).1,
                slashes as int == place_scan(p@, i as int).2,
                -16 * i <= sq - 56 <= 16 * i,
                0 <= slashes <= i,
            decreases p.len() - i,
        {
            let c = p[i];
            if status == 0 {
                if '1' <= c && c <= '9' {
                    sq = sq + (c as u32 - 48) as i128;
                } else if Board::letter_piece(c).is_some() {
                    if 0 <= sq && sq < 64 {
                        sq = sq + 1;
                    } else {
                        status = 2;
                    }
                } else if c == '/' {
                    if sq != 64 - 8 * slashes {
                        status = 1;
                    } else {
                        sq = sq - 16;
                        slashes = slashes + 1;
                    }
                } else {
                    status = 1;
                }
            }
            i = i + 1;
        }
        (status, sq, slashes)
    }

    /// The outcome of an en passant field, as `ep_outcome` gives it.
    fn ep_field_outcome(p: &Vec<char>) -> (r: u8)
        ensures
            r as int == ep_outcome(p@),
    {
        if p.len() == 1 && p[0] == '-' {
            0
        } else if p.len() == 1 && (p[0] as u32) >= 0x80 && (p[0] as u32) < 0x800 {
            3
        } else if p.len() == 2 && (p[0] as u32) < 0x80 && (p[1] as u32) < 0x80 {
            if 'a' <= p[0] && p[0] <= 'h' && '1' <= p[1] && p[1] <= '8' {
                1
            } else {
                3
            }
        } else {
            2
        }
    }

    /// Whether reading `fen` fails in the reader itself rather than rejecting the string: a
    /// piece placed off the board, an unreadable en passant square, or no king for the side
    /// to move, as `fen_outcome` tells (outcome 2). `from_fen` takes the other strings.
    pub fn fen_reader_fails(fen: &str) -> (r: bool)
        ensures
            r == (fen_outcome(fen@) == 2),
    {
        let chars = str_to_chars(fen);
        let parts = split_whitespace(&chars);
        if parts.len() != 6 {
            return false;
        }
        let ghost ps = split_ws(fen@);
        proof {
            assert(parts@[0]@ == ps[0]);
            assert(parts@[1]@ == ps[1]);
            assert(parts@[2]@ == ps[2]);
            assert(parts@[3]@ == ps[3]);
            assert(parts@[4]@ == ps[4]);
        }
        let st = Board::placement_scan(&parts[0]);
        if st.0 == 2 {
            return true;
        }
        if st.0 != 0 || !(st.1 == 8 && st.2 == 7) {
            return false;
        }
        let p1 = &parts[1];
        if p1.len() != 1 {
            return false;
        }
        let stm_char = p1[0];
        proof {
            assert(p1@ =~= seq![stm_char]);
        }
        let stm = if stm_char == 'w' {
            Color::White
        } else if stm_char == 'b' {
            Color::Black
        } else {
            return false;
        };
        if Board::castling_field(&parts[2]).is_none() {
            return false;
        }
        let ep = Board::ep_field_outcome(&parts[3]);
        if ep == 3 {
            return true;
        }
        if ep == 2 {
            return false;
        }
        match parse_u8(&parts[4]) {
            Some(n) => {
                if n > 100 {
                    return false;
                }
            },
            None => {
                return false;
            },
        }
        let board = match Board::place_pieces(&parts[0]) {
            Some(b) => b,
            None => {
                return false;
            },
        };
        let kings = board.colored_pieces(Piece::new(stm, PieceType::King));
        let has_king = kings.any();
        proof {
            if has_king {
                let sq = choose|sq: int| #[trigger] kings.contains(sq);
                assert(fen_color_at(ps[0], stm, sq) && fen_type_at(ps[0], PieceType::King, sq));
            } else {
                assert forall|sq: int| !(fen_color_at(ps[0], stm, sq) && #[trigger] fen_type_at(ps[0], PieceType::King, sq)) by {
                    assert(!kings.contains(sq));
                }
            }
        }
        !has_king
    }

    /// Whether the board is the position the accepted FEN string `s` describes: its pieces,
    /// side to move, castling rooks, en passant square and half move clock, with its check
    /// information computed.
    pub open spec fn read_from_fen(self, s: Seq<char>) -> bool {
        let parts = split_ws(s);
        &&& self.wf()
        &&& forall|c: Color, sq: int| #[trigger] self.has_color(c, sq) == fen_color_at(parts[0], c, sq)
        &&& forall|pt: PieceType, sq: int| #[trigger] self.has_type(pt, sq) == fen_type_at(parts[0], pt, sq)
        &&& Some(self.stm_spec()) == stm_of(parts[1])
        &&& self.rooks_spec() == castling_of(parts[2])
        &&& (ep_outcome(parts[3]) == 0 ==> self.ep_spec() is None)
        &&& (ep_outcome(parts[3]) == 1 ==> (self.ep_spec() matches Some(q) && q@ == ep_square_of(parts[3])))
        &&& parse_u8_spec(parts[4]) == Some(self.hmc_spec() as int)
        &&& self.check_info_ok()
    }

    /// Reads a position from FEN: piece placement, side to move, castling rights, en
    /// passant square, half move clock and full move number, separated by white space.
    /// Returns `None` when the string is rejected; see `fen_outcome`.
    #[verifier::rlimit(60)]
    pub fn from_fen(fen: &str) -> (r: Option<Board>)
        requires
            fen_outcome(fen@) != 2,
        ensures
            r is Some <==> fen_outcome(fen@) == 0,
            r matches Some(b) ==> b.read_from_fen(fen@),
    {
        let chars = str_to_chars(fen);
        let parts = split_whitespace(&chars);
        if parts.len() != 6 {
            return None;
        }
        let ghost ps = split_ws(fen@);
        proof {
            assert(parts@[0]@ == ps[0]);
            assert(parts@[1]@ == ps[1]);
            assert(parts@[2]@ == ps[2]);
            assert(parts@[3]@ == ps[3]);
            assert(parts@[4]@ == ps[4]);
        }
        let mut board = match Board::place_pieces(&parts[0]) {
            Some(b) => b,
            None => {
                return None;
            },
        };
        let ghost placed = board;
        let p1 = &parts[1];
        if p1.len() != 1 {
            return None;
        }
        let stm_char = p1[0];
        proof {
            assert(p1@ =~= seq![stm_char]);
        }
        if stm_char == 'w' {
            board.stm = Color::White;
        } else if stm_char == 'b' {
            board.stm = Color::Black;
        } else {
            return None;
        }
        match Board::castling_field(&parts[2]) {
            Some(cr) => {
                board.castling_rooks = cr;
            },
            None => {
                return None;
            },
        }
        match Board::ep_field(&parts[3]) {
            Ok(ep) => {
                board.ep_square = ep;
            },
            Err(_) => {
                return None;
            },
        }
        match parse_u8(&parts[4]) {
            Some(n) => {
                board.half_move_clock = n;
            },
            None => {
                return None;
            },
        }
        if board.half_move_clock > 100 {
            return None;
        }
        let ghost before = board;
        proof {
            let st = board.stm_spec();
            assert(fen_has_king(ps[0], st));
            let sq = choose|sq: int| fen_color_at(ps[0], st, sq) && #[trigger] fen_type_at(ps[0], PieceType::King, sq);
            assert(placed.has_color(st, sq) && placed.has_type(PieceType::King, sq));
            assert(board.has_color(st, sq) == placed.has_color(st, sq));
            assert(board.has_type(PieceType::King, sq) == placed.has_type(PieceType::King, sq));
        }
        board.update_check_info();
        proof {
            assert(forall|c: Color, q: int| #[trigger] before.has_color(c, q) == placed.has_color(c, q));
            assert(forall|pt: PieceType, q: int| #[trigger] before.has_type(pt, q) == placed.has_type(pt, q));
            Board::lemma_wf_same(placed, board);
        }
        Some(board)
    }

    /// Appends the FEN text of rank `rank`.
    fn push_row(&self, rank: u8, out: &mut Vec<char>)
        requires
            self.wf(),
            rank < 8,
        ensures
            final(out)@ == old(out)@ + row_text(*self, rank as int),
    {
        let ghost start = out@;
        let mut last_file: i32 = -1;
        let mut file: u8 = 0;
        while file < 8
            invariant
                self.wf(),
                rank < 8,
                file <= 8,
                last_file == last_piece_file(*self, rank as int, file as int),
                -1 <= last_file < file,
                out@ == start + row_text_upto(*self, rank as int, file as int),
            decreases 8 - file,
        {
            let sq = Square::from_rank_file(rank, file);
            proof {
                self.lemma_wf_piece_at(sq@);
            }
            match self.piece_at(sq) {
                Some(piece) => {
                    let diff: i32 = file as i32 - last_file - 1;
                    if diff > 0 {
                        out.push(((diff + 48) as u8) as char);
                    }
                    out.push(piece.char_repr());
                    last_file = file as i32;
                },
                None => {},
            }
            proof {
                assert(out@ =~= start + row_text_upto(*self, rank as int, file + 1));
            }
            file = file + 1;
        }
        let diff: i32 = 7 - last_file;
        if diff > 0 {
            out.push(((diff + 48) as u8) as char);
        }
        proof {
            assert(out@ =~= start + row_text(*self, rank as int));
        }
    }

    /// Appends the decimal digits of `n`.
    fn push_decimal(n: u8, out: &mut Vec<char>)
        ensures
            final(out)@ == old(out)@ + decimal_text(n as int),
    {
        let ghost m = n as int;
        if n >= 100 {
            out.push(((n / 100 + 48) as u8) as char);
            out.push((((n / 10) % 10 + 48) as u8) as char);
            out.push(((n % 10 + 48) as u8) as char);
            proof {
                assert(decimal_text(m / 100) =~= seq![digit_char(m / 100)]);
                assert(decimal_text(m / 10) =~= seq![digit_char(m / 100), digit_char((m / 10) % 10)]);
                assert(decimal_text(m) =~= seq![digit_char(m / 100), digit_char((m / 10) % 10), digit_char(m % 10)]);
                assert(out@ =~= old(out)@ + decimal_text(m));
            }
        } else if n >= 10 {
            out.push(((n / 10 + 48) as u8) as char);
            out.push(((n % 10 + 48) as u8) as char);
            proof {
                assert(decimal_text(m / 10) =~= seq![digit_char(m / 10)]);
                assert(decimal_text(m) =~= seq![digit_char(m / 10), digit_char(m % 10)]);
                assert(out@ =~= old(out)@ + decimal_text(m));
            }
        } else {
            out.push(((n + 48) as u8) as char);
            proof {
                assert(decimal_text(m) =~= seq![digit_char(m)]);
                assert(out@ =~= old(out)@ + decimal_text(m));
            }
        }
    }

    /// Appends `src` to `out`.
    fn append_chars(out: &mut Vec<char>, src: &Vec<char>)
        ensures
            final(out)@ == old(out)@ + src@,
    {
        let mut i: usize = 0;
        let ghost start = out@;
        while i < src.len()
            invariant
                i <= src.len(),
                out@ == start + src@.take(i as int),
            decreases src.len() - i,
        {
            out.push(src[i]);
            proof {
                assert(src@.take(i + 1) =~= src@.take(i as int).push(src@[i as int]));
            }
            i = i + 1;
        }
        proof {
            assert(src@.take(src@.len() as int) =~= src@);
        }
    }

    /// The FEN text of the piece placement.
    fn placement_chars(&self) -> (r: Vec<char>)
        requires
            self.wf(),
        ensures
            r@ == rows_text(*self, 8),
    {
        let mut out: Vec<char> = Vec::new();
        let mut k: u8 = 0;
        while k < 8
            invariant
                self.wf(),
                k <= 8,
                out@ == rows_text(*self, k as int),
            decreases 8 - k,
        {
            if k > 0 {
                out.push('/');
            }
            self.push_row(7 - k, &mut out);
            proof {
                if k == 0 {
                    assert(out@ =~= rows_text(*self, 1));
                } else {
                    assert(out@ =~= rows_text(*self, k + 1));
                }
            }
            k = k + 1;
        }
        out
    }

    /// The side to move part of the FEN, with the spaces around it.
    fn stm_chars(&self) -> (r: Vec<char>)
        ensures
            r@ == (if self.stm_spec() == Color::White {
                seq![' ', 'w', ' ']
            } else {
                seq![' ', 'b', ' ']
            }),
    {
        let mut out: Vec<char> = Vec::new();
        out.push(' ');
        if self.stm == Color::White {
            out.push('w');
        } else {
            out.push('b');
        }
        out.push(' ');
        proof {
            if self.stm_spec() == Color::White {
                assert(out@ =~= seq![' ', 'w', ' ']);
            } else {
                assert(out@ =~= seq![' ', 'b', ' ']);
            }
        }
        out
    }

    /// The en passant part of the FEN, with the spaces around it.
    fn ep_chars(&self) -> (r: Vec<char>)
        ensures
            r@ == (match self.ep_spec() {
                Some(q) => seq![' '] + crate::types::square::square_name(q@) + seq![' '],
                None => seq![' ', '-', ' '],
            }),
    {
        let mut out: Vec<char> = Vec::new();
        match self.ep_square {
            Some(sq) => {
                out.push(' ');
                out.push((sq.file() + 97) as char);
                out.push((sq.rank() + 49) as char);
                out.push(' ');
                proof {
                    assert(out@ =~= seq![' '] + crate::types::square::square_name(sq@) + seq![' ']);
                }
            },
            None => {
                out.push(' ');
                out.push('-');
                out.push(' ');
                proof {
                    assert(out@ =~= seq![' ', '-', ' ']);
                }
            },
        }
        out
    }

    /// The FEN of the position, with 1 as the full move number; standard chess only.
    pub fn to_fen(&self) -> (r: String)
        requires
            self.wf(),
            !self.rooks_spec().frc,
        ensures
            r@ == fen_text(*self),
    {
        let out = self.fen_chars();
        chars_to_string(&out)
    }

    /// The characters of `to_fen`.
    fn fen_chars(&self) -> (r: Vec<char>)
        requires
            self.wf(),
            !self.rooks_spec().frc,
        ensures
            r@ == fen_text(*self),
    {
        let mut out = self.placement_chars();
        let stm_part = self.stm_chars();
        Board::append_chars(&mut out, &stm_part);
        let rights = self.castling_rooks.to_chars();
        Board::append_chars(&mut out, &rights);
        let ep_part = self.ep_chars();
        Board::append_chars(&mut out, &ep_part);
        Board::push_decimal(self.half_move_clock, &mut out);
        let mut tail: Vec<char> = Vec::new();
        tail.push(' ');
        tail.push('1');
        proof {
            assert(tail@ =~= seq![' ', '1']);
        }
        Board::append_chars(&mut out, &tail);
        out
    }

    /// The diagram line of rank `r`.
    fn diagram_row_chars(&self, r: u8, out: &mut Vec<char>)
        requires
            self.wf(),
            r < 8,
        ensures
            final(out)@ == old(out)@ + diagram_row(*self, r as int),
    {
        let ghost start = out@;
        let ghost row = Seq::new(8, |f: int| diagram_char(*self, 8 * r + f));
        let mut f: u8 = 0;
        while f < 8
            invariant
                self.wf(),
                r < 8,
                f <= 8,
                row == Seq::new(8, |f: int| diagram_char(*self, 8 * r + f)),
                out@ == start + row.take(f as int),
            decreases 8 - f,
        {
            let sq = Square::from_rank_file(r, f);
            proof {
                self.lemma_wf_piece_at(sq@);
            }
            let c = match self.piece_at(sq) {
                Some(p) => p.char_repr(),
                None => '.',
            };
            out.push(c);
            proof {
                assert(row.take(f as int + 1) =~= row.take(f as int).push(c));
            }
            f = f + 1;
        }
        out.push('\n');
        proof {
            assert(row.take(8) =~= row);
        }
    }

    /// Appends the characters of `s`.
    fn push_str(out: &mut Vec<char>, s: &str)
        ensures
            final(out)@ == old(out)@ + s@,
    {
        let chars = str_to_chars(s);
        Board::append_chars(out, &chars);
    }

    /// The board shown as text: an eight-line diagram with rank 8 first, then lines for the
    /// side to move, the castling rights, the en passant square, the half move clock and the
    /// FEN; standard chess only.
    pub fn to_string(&self) -> (r: String)
        requires
            self.wf(),
            !self.rooks_spec().frc,
        ensures
            r@ == board_text(*self),
    {
        let mut out: Vec<char> = Vec::new();
        let mut k: u8 = 0;
        while k < 8
            invariant
                self.wf(),
                k <= 8,
                out@ == diagram_rows(*self, k as int),
            decreases 8 - k,
        {
            self.diagram_row_chars(7 - k, &mut out);
            k = k + 1;
        }
        Board::push_str(&mut out, "stm: ");
        if self.stm == Color::White {
            Board::push_str(&mut out, "White");
        } else {
            Board::push_str(&mut out, "Black");
        }
        out.push('\n');
        Board::push_str(&mut out, "castling rights: ");
        let rights = self.castling_rooks.to_chars();
        Board::append_chars(&mut out, &rights);
        out.push('\n');
        Board::push_str(&mut out, "ep square: ");
        match self.ep_square {
            Some(sq) => {
                out.push((sq.file() + 97) as char);
                out.push((sq.rank() + 49) as char);
            },
            None => {
                Board::push_str(&mut out, "N/A");
            },
        }
        out.push('\n');
        Board::push_str(&mut out, "half move clock: ");
        Board::push_decimal(self.half_move_clock, &mut out);
        out.push('\n');
        Board::push_str(&mut out, "fen: ");
        let fen = self.fen_chars();
        Board::append_chars(&mut out, &fen);
        out.push('\n');
        proof {
            assert(out@ =~= board_text(*self));
        }
        chars_to_string(&out)
    }

    /// The kind of the piece that starts on file `f` of the back rank.
    fn back_rank_piece(f: u8) -> (r: PieceType)
        requires
            f < 8,
        ensures
            r == back_rank_type(f as int),
    {
        if f == 0 || f == 7 {
            PieceType::Rook
        } else if f == 1 || f == 6 {
            PieceType::Knight
        } else if f == 2 || f == 5 {
            PieceType::Bishop
        } else if f == 3 {
            PieceType::Queen
        } else {
            PieceType::King
        }
    }

    /// The starting position: white to move, all four castling rooks on their corners, no en
    /// passant square, half move clock 0.
    #[verifier::rlimit(60)]
    pub fn startpos() -> (r: Board)
        ensures
            r.wf(),
            forall|c: Color, sq: int| #[trigger] r.has_color(c, sq) == start_has_color(c, sq),
            forall|pt: PieceType, sq: int| #[trigger] r.has_type(pt, sq) == start_has_type(pt, sq),
            r.stm_spec() == Color::White,
            r.rooks_spec() == castling_of(seq!['K', 'Q', 'k', 'q']),
            r.ep_spec() is None,
            r.hmc_spec() == 0,
            r.check_info_ok(),
    {
        let mut board = Board::empty();
        let mut f: u8 = 0;
        while f < 8
            invariant
                f <= 8,
                board.wf(),
                forall|c: Color, sq: int| #[trigger] board.has_color(c, sq) == (sq % 8 < f && start_has_color(c, sq)),
                forall|pt: PieceType, sq: int| #[trigger] board.has_type(pt, sq) == (sq % 8 < f && start_has_type(pt, sq)),
                board.stm_spec() == Color::White,
                board.ep_spec() is None,
                board.hmc_spec() == 0,
            decreases 8 - f,
        {
            let back = Board::back_rank_piece(f);
            let ghost b0 = board;
            board.add_piece(Square::from_rank_file(0, f), Piece::new(Color::White, back));
            board.add_piece(Square::from_rank_file(1, f), Piece::WhitePawn);
            board.add_piece(Square::from_rank_file(6, f), Piece::BlackPawn);
            board.add_piece(Square::from_rank_file(7, f), Piece::new(Color::Black, back));
            proof {
                assert forall|c: Color, sq: int| #[trigger] board.has_color(c, sq) == (sq % 8 < f + 1 && start_has_color(c, sq)) by {
                    if 0 <= sq < 64 {
                        crate::chess::attacks::lemma_coords(sq);
                    }
                }
                assert forall|pt: PieceType, sq: int| #[trigger] board.has_type(pt, sq) == (sq % 8 < f + 1 && start_has_type(pt, sq)) by {
                    if 0 <= sq < 64 {
                        crate::chess::attacks::lemma_coords(sq);
                    }
                }
            }
            f = f + 1;
        }
        let ghost placed = board;
        proof {
            lemma_piece_round_trip(Piece::WhiteKing, Color::White, PieceType::King);
            assert(start_has_color(Color::White, 4) && start_has_type(PieceType::King, 4));
            assert(placed.has_color(Color::White, 4) && placed.has_type(PieceType::King, 4));
            assert forall|c: Color, sq: int| #[trigger] placed.has_color(c, sq) == start_has_color(c, sq) by {
                assert(sq % 8 < 8);
            }
            assert forall|pt: PieceType, sq: int| #[trigger] placed.has_type(pt, sq) == start_has_type(pt, sq) by {
                assert(sq % 8 < 8);
            }
        }
        board.castling_rooks = CastlingRooks::new(Square::H1, Square::A1, Square::H8, Square::A8, false);
        let ghost before = board;
        proof {
            assert(board.pieces == placed.pieces && board.colors == placed.colors);
            assert(board.has_color(Color::White, 4) && board.has_type(PieceType::King, 4));
            assert(board.castling_rooks.rooks =~= castling_of(seq!['K', 'Q', 'k', 'q']).rooks) by {
                assert(seq!['K', 'Q', 'k', 'q'][0] == 'K');
                assert(seq!['K', 'Q', 'k', 'q'][1] == 'Q');
                assert(seq!['K', 'Q', 'k', 'q'][2] == 'k');
                assert(seq!['K', 'Q', 'k', 'q'][3] == 'q');
            }
        }
        board.update_check_info();
        proof {
            Board::lemma_wf_same(placed, board);
            assert forall|c: Color, sq: int| #[trigger] board.has_color(c, sq) == start_has_color(c, sq) by {
                assert(before.has_color(c, sq) == placed.has_color(c, sq));
                assert(board.has_color(c, sq) == before.has_color(c, sq));
            }
            assert forall|pt: PieceType, sq: int| #[trigger] board.has_type(pt, sq) == start_has_type(pt, sq) by {
                assert(before.has_type(pt, sq) == placed.has_type(pt, sq));
                assert(board.has_type(pt, sq) == before.has_type(pt, sq));
            }
        }
        board
    }
}

} // verus!
