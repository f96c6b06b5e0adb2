use aquarii::chess::attacks::{bishop_attacks, king_attacks, knight_attacks, rook_attacks};
use aquarii::types::{Bitboard, Color, Piece, PieceType, Square};

#[test]
fn square_names_round_trip() {
    for v in 0u8..64 {
        let sq = Square::from_raw(v);
        let name = sq.to_string();
        assert_eq!(Square::from_str(&name), Ok(sq));
    }
    assert_eq!(Square::from_raw(28).to_string(), "e4");
    assert_eq!(Square::from_str(" E4"), Ok(Square::E4));
    assert!(Square::from_str("i1").is_err());
    assert!(Square::from_str("a9").is_err());
}

#[test]
fn square_coordinates() {
    let sq = Square::from_rank_file(3, 4);
    assert_eq!(sq, Square::E4);
    assert_eq!(sq.rank(), 3);
    assert_eq!(sq.file(), 4);
    assert_eq!(sq.flip(), Square::E5);
    assert_eq!(sq.flip().flip(), sq);
    assert_eq!(sq.relative_sq(Color::White), Square::E4);
    assert_eq!(sq.relative_sq(Color::Black), Square::E5);
    assert_eq!(Square::chebyshev(Square::A1, Square::H8), 7);
    assert_eq!(Square::chebyshev(Square::E4, Square::F6), 2);
    assert_eq!(Square::E4.offset(8), Square::E5);
    assert_eq!(Square::E4.diff(Square::E2), 16);
}

#[test]
fn pieces_round_trip() {
    for c in [Color::White, Color::Black] {
        for pt in [PieceType::Pawn, PieceType::Knight, PieceType::Bishop, PieceType::Rook, PieceType::Queen, PieceType::King] {
            let p = Piece::new(c, pt);
            assert_eq!(p.color(), c);
            assert_eq!(p.piece_type(), pt);
        }
    }
    assert_eq!(Piece::new(Color::White, PieceType::Knight).char_repr(), 'N');
    assert_eq!(Piece::new(Color::Black, PieceType::Queen).char_repr(), 'q');
    assert_eq!(Color::White.flip(), Color::Black);
    assert_eq!(Color::Black.flip().flip(), Color::Black);
}

#[test]
fn bitboard_operations() {
    let mut bb = Bitboard::from_square(Square::C3).bit_or(Bitboard::from_square(Square::F7));
    assert_eq!(bb.popcount(), 2);
    assert!(bb.multiple());
    assert!(!bb.one());
    assert_eq!(bb.lsb(), Square::C3);
    assert_eq!(bb.msb(), Square::F7);
    assert_eq!(bb.poplsb(), Square::C3);
    assert_eq!(bb.popcount(), 1);
    assert!(bb.one());
    assert!(bb.has(Square::F7));
    assert_eq!(Bitboard::file(0).value(), 0x0101010101010101);
    assert_eq!(Bitboard::rank(7).value(), 0xFF00000000000000);
    assert_eq!(Bitboard::all().bit_not().value(), 0);
    assert!(Bitboard::none().empty());
    assert_eq!(Bitboard::from_square(Square::H1).east().value(), 0);
    assert_eq!(Bitboard::from_square(Square::A1).north_east(), Bitboard::from_square(Square::B2));
}

#[test]
fn attack_counts() {
    assert_eq!(knight_attacks(Square::A1).popcount(), 2);
    assert_eq!(knight_attacks(Square::E4).popcount(), 8);
    assert_eq!(king_attacks(Square::E4).popcount(), 8);
    assert_eq!(king_attacks(Square::H8).popcount(), 3);
    assert_eq!(rook_attacks(Square::A1, Bitboard::none()).popcount(), 14);
    assert_eq!(bishop_attacks(Square::D4, Bitboard::none()).popcount(), 13);
    let blockers = Bitboard::from_square(Square::A4);
    let r = rook_attacks(Square::A1, blockers);
    assert!(r.has(Square::A4));
    assert!(!r.has(Square::A5));
    assert_eq!(r.popcount(), 10);
}

#[test]
fn piece_names() {
    assert_eq!(Color::White.to_string(), "White");
    assert_eq!(Color::Black.to_string(), "Black");
    assert_eq!(PieceType::Knight.to_string(), "Knight");
    assert_eq!(PieceType::King.to_string(), "King");
    assert_eq!(Piece::new(Color::Black, PieceType::Queen).to_string(), "BlackQueen");
    assert_eq!(Piece::new(Color::White, PieceType::Pawn).to_string(), "WhitePawn");
}
