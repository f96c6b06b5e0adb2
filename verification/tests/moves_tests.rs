use aquarii::chess::board::Board;
use aquarii::chess::movegen::movegen;
use aquarii::chess::chess_move::{Move, MoveKind};
use aquarii::types::{PieceType, Square};

#[test]
fn move_fields() {
    let m = Move::normal(Square::E2, Square::E4);
    assert_eq!(m.from_sq(), Square::E2);
    assert_eq!(m.to_sq(), Square::E4);
    assert_eq!(m.kind(), MoveKind::Normal);
    let p = Move::promo(Square::E7, Square::E8, PieceType::Queen);
    assert_eq!(p.kind(), MoveKind::Promotion);
    assert_eq!(p.promo_piece(), PieceType::Queen);
    let c = Move::castle(Square::E1, Square::G1);
    assert_eq!(c.kind(), MoveKind::Castle);
    let e = Move::enpassant(Square::E5, Square::D6);
    assert_eq!(e.kind(), MoveKind::Enpassant);
    assert_eq!(Move::null().from_sq(), Square::A1);
}

#[test]
fn move_names() {
    assert_eq!(Move::normal(Square::E2, Square::E4).to_string(), "e2e4 ");
    assert_eq!(Move::promo(Square::E7, Square::E8, PieceType::Knight).to_string(), "e7e8n");
}

#[test]
fn move_names_round_trip() {
    let moves = [
        Move::normal(Square::G1, Square::F3),
        Move::promo(Square::A7, Square::A8, PieceType::Rook),
        Move::promo(Square::H2, Square::G1, PieceType::Bishop),
    ];
    for m in moves {
        assert_eq!(Move::from_str(&m.to_string()), Ok(m));
    }
}

#[test]
fn move_parse_errors() {
    assert!(Move::from_str("e2").is_err());
    assert!(Move::from_str("e2e9").is_err());
    assert!(Move::from_str("z2e4").is_err());
    assert_eq!(Move::from_str("e7e8Q"), Ok(Move::promo(Square::E7, Square::E8, PieceType::Queen)));
    assert_eq!(Move::from_str("e2e4x"), Ok(Move::normal(Square::E2, Square::E4)));
}

#[test]
fn generation_order() {
    let board = Board::startpos();
    let moves = movegen(&board);
    assert_eq!(moves.len(), 20);
    // single pushes by ascending target, then double pushes
    for (k, file) in (0u8..8).enumerate() {
        assert_eq!(moves[k], Move::normal(Square::from_raw(8 + file), Square::from_raw(16 + file)));
        assert_eq!(moves[8 + k], Move::normal(Square::from_raw(8 + file), Square::from_raw(24 + file)));
    }
    // then the knights by ascending origin, each by ascending target
    assert_eq!(moves[16], Move::normal(Square::B1, Square::A3));
    assert_eq!(moves[17], Move::normal(Square::B1, Square::C3));
    assert_eq!(moves[18], Move::normal(Square::G1, Square::F3));
    assert_eq!(moves[19], Move::normal(Square::G1, Square::H3));

    // promotions come as knight, bishop, rook, queen; king steps before castling
    let board = Board::from_fen("4k3/P7/8/8/8/8/8/R3K3 w Q - 0 1").unwrap();
    let moves = movegen(&board);
    assert_eq!(moves[0], Move::promo(Square::A7, Square::A8, PieceType::Knight));
    assert_eq!(moves[1], Move::promo(Square::A7, Square::A8, PieceType::Bishop));
    assert_eq!(moves[2], Move::promo(Square::A7, Square::A8, PieceType::Rook));
    assert_eq!(moves[3], Move::promo(Square::A7, Square::A8, PieceType::Queen));
    assert_eq!(moves[moves.len() - 1], Move::castle(Square::E1, Square::C1));
}
