use aquarii::chess::board::Board;
use aquarii::eval::params::{EvalParams, EvalValues, TEMPO};
use aquarii::eval::score_pair::{EvalScorePairType, ScorePair};
use aquarii::eval::total::eval;
use aquarii::tune::compute_default_material;
use aquarii::types::{Color, PieceType, Square};

#[test]
fn score_pair_parts() {
    let p = ScorePair::new(5, -3);
    assert_eq!(p.mg(), 5);
    assert_eq!(p.eg(), -3);
    let q = ScorePair::new(-120, 4000);
    assert_eq!(p.plus(q).mg(), -115);
    assert_eq!(p.plus(q).eg(), 3997);
    assert_eq!(p.minus(q).mg(), 125);
    assert_eq!(p.minus(q).eg(), -4003);
    assert_eq!(q.times(3).mg(), -360);
    assert_eq!(q.times(3).eg(), 12000);
    assert_eq!(q.negate().mg(), 120);
    assert_eq!(q.negate().eg(), -4000);
    assert_eq!(ScorePair::zero(), ScorePair::new(0, 0));
    assert_eq!(EvalScorePairType::mg(&q), -120);
    assert_eq!(EvalScorePairType::eg(&q), 4000);
}

#[test]
fn parameter_lookup() {
    assert_eq!(EvalParams::material(PieceType::Pawn), ScorePair::new(62, 156));
    assert_eq!(EvalParams::material(PieceType::Queen), ScorePair::new(624, 1138));
    assert_eq!(EvalParams::material(PieceType::King), ScorePair::new(0, 0));
    let a = EvalParams::psqt(Color::White, PieceType::Knight, Square::C3);
    let b = EvalParams::psqt(Color::Black, PieceType::Knight, Square::C6);
    assert_eq!(a, b);
    assert_eq!(EvalParams::tempo(), TEMPO);
}

#[test]
fn startpos_eval_is_tempo() {
    assert_eq!(eval(&Board::startpos()), 18);
}

#[test]
fn eval_is_color_symmetric() {
    let pairs = [
        (
            "r3k2r/p1ppqpb1/bn2pnp1/3PN3/1p2P3/2N2Q1p/PPPBBPPP/R3K2R w KQkq - 0 1",
            "r3k2r/pppbbppp/2n2q1P/1P2p3/3pn3/BN2PNP1/P1PPQPB1/R3K2R b KQkq - 0 1",
        ),
        (
            "4k3/2p5/8/3P4/8/8/5PPP/4K3 w - - 0 1",
            "4k3/5ppp/8/8/3p4/8/2P5/4K3 b - - 0 1",
        ),
    ];
    for (a, b) in pairs {
        let x = eval(&Board::from_fen(a).unwrap());
        let y = eval(&Board::from_fen(b).unwrap());
        assert_eq!(x, y);
    }
}

#[test]
fn extra_material_scores_higher() {
    let up = eval(&Board::from_fen("4k3/8/8/8/8/8/8/3QK3 w - - 0 1").unwrap());
    let down = eval(&Board::from_fen("4k3/8/8/8/8/8/8/3QK3 b - - 0 1").unwrap());
    assert!(up > 500);
    assert!(down < -500);
}

#[test]
fn default_material() {
    assert_eq!(compute_default_material(&Board::startpos()), 0);
    let board = Board::from_fen("4k3/8/8/8/8/8/8/3QK3 w - - 0 1").unwrap();
    assert_eq!(compute_default_material(&board), 1125);
    let board = Board::from_fen("4k3/8/8/8/8/8/8/3QK3 b - - 0 1").unwrap();
    assert_eq!(compute_default_material(&board), -1125);
    let board = Board::from_fen("4k3/pppp4/8/8/8/8/8/4K3 w - - 0 1").unwrap();
    assert_eq!(compute_default_material(&board), -476);
}

#[test]
fn crowded_position_eval() {
    // many pieces with long reaches: every mobility stays within the mobility tables
    let board = Board::from_fen("r3k2r/p1ppqpb1/bn2pnp1/3PN3/1p2P3/2N2Q1p/PPPBBPPP/R3K2R w KQkq - 0 1").unwrap();
    let a = eval(&board);
    let queens = Board::from_fen("4k3/8/8/3Q4/8/8/8/Q3K2Q w - - 0 1").unwrap();
    let b = eval(&queens);
    assert!(b > a);
}

#[test]
fn eval_mirror_more_positions() {
    let pairs = [
        (
            "r1bqk2r/pp2bppp/2n1pn2/3p4/2PP4/2N1PN2/PP3PPP/R1BQKB1R w KQkq - 0 1",
            "r1bqkb1r/pp3ppp/2n1pn2/2pp4/3P4/2N1PN2/PP2BPPP/R1BQK2R b KQkq - 0 1",
        ),
        (
            "6k1/5ppp/8/1P6/8/8/r4PPP/3R2K1 b - - 3 30",
            "3r2k1/R4ppp/8/8/1p6/8/5PPP/6K1 w - - 3 30",
        ),
    ];
    for (a, b) in pairs {
        assert_eq!(eval(&Board::from_fen(a).unwrap()), eval(&Board::from_fen(b).unwrap()));
    }
}

#[test]
fn eval_mirror_needs_single_kings() {
    // with two white kings the evaluation looks at the one on the lowest square, which the
    // mirrored board turns into a different king
    let b = Board::from_fen("k7/8/8/8/8/8/6qK/K7 w - - 0 1").unwrap();
    let m = Board::from_fen("k7/6Qk/8/8/8/8/8/K7 b - - 0 1").unwrap();
    assert_ne!(eval(&b), eval(&m));
}
