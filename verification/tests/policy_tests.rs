use aquarii::chess::board::Board;
use aquarii::chess::chess_move::Move;
use aquarii::policy::{get_policy_impl, PolicyData, PolicyValues};
use aquarii::types::{Color, PieceType, Square};

/// Integer weights that make each term of the policy recognisable in the total.
struct Probe;

impl PolicyValues for Probe {
    type Value = i32;

    fn cap_bonus_spec(pt: PieceType) -> i32 {
        Self::cap_bonus(pt)
    }
    fn cap_bonus(pt: PieceType) -> i32 {
        100 * (pt.index() as i32 + 1)
    }
    fn pawn_protected_penalty_spec(pt: PieceType) -> i32 {
        Self::pawn_protected_penalty(pt)
    }
    fn pawn_protected_penalty(pt: PieceType) -> i32 {
        100_000 * (pt.index() as i32 + 1)
    }
    fn threat_evasion_spec(threat: PieceType, moving: PieceType) -> i32 {
        Self::threat_evasion(threat, moving)
    }
    fn threat_evasion(threat: PieceType, moving: PieceType) -> i32 {
        10 * (threat.index() as i32 + 1) + (moving.index() as i32 + 1)
    }
    fn psqt_score_spec(c: Color, pt: PieceType, sq: Square, phase: i32) -> i32 {
        Self::psqt_score(c, pt, sq, phase)
    }
    fn psqt_score(_c: Color, _pt: PieceType, sq: Square, phase: i32) -> i32 {
        2 * sq.value() as i32 + phase
    }
    fn passed_pawn_push_spec(rank: u8, phase: i32) -> i32 {
        Self::passed_pawn_push(rank, phase)
    }
    fn passed_pawn_push(rank: u8, phase: i32) -> i32 {
        1000 * rank as i32 + phase
    }
    fn threat_spec(moving: PieceType, threatened: PieceType) -> i32 {
        Self::threat(moving, threatened)
    }
    fn threat(moving: PieceType, threatened: PieceType) -> i32 {
        1_000_000 * (moving.index() as i32 + 1) + 10_000 * (threatened.index() as i32 + 1)
    }
    fn promo_bonus_spec(pt: PieceType) -> i32 {
        Self::promo_bonus(pt)
    }
    fn promo_bonus(pt: PieceType) -> i32 {
        -7 * (pt.index() as i32 + 1)
    }
    fn bad_see_penalty_spec() -> i32 {
        Self::bad_see_penalty()
    }
    fn bad_see_penalty() -> i32 {
        -20_000_000
    }
    fn check_bonus_spec() -> i32 {
        Self::check_bonus()
    }
    fn check_bonus() -> i32 {
        300_000_000
    }
    fn zero_spec() -> i32 {
        Self::zero()
    }
    fn zero() -> i32 {
        0
    }
    fn sum_spec(a: i32, b: i32) -> i32 {
        Self::sum(a, b)
    }
    fn sum(a: i32, b: i32) -> i32 {
        a + b
    }
    fn difference_spec(a: i32, b: i32) -> i32 {
        Self::difference(a, b)
    }
    fn difference(a: i32, b: i32) -> i32 {
        a - b
    }
    fn psqt_weight_spec(a: i32) -> i32 {
        Self::psqt_weight(a)
    }
    fn psqt_weight(a: i32) -> i32 {
        a / 2
    }
}

fn policy(fen: &str, mv: Move) -> i32 {
    let board = Board::from_fen(fen).unwrap();
    let data = PolicyData::new(&board);
    get_policy_impl::<Probe>(&board, mv, &data)
}

#[test]
fn capture_that_escapes_a_pawn_threat() {
    // capture bonus 100, evasion of a pawn threat by a pawn 11, passed pawn push to the
    // fifth rank 4000, half of the psqt difference (70 - 56) / 2 = 7
    let value = policy("4k3/8/8/3p4/4P3/8/8/4K3 w - - 0 1", Move::normal(Square::E4, Square::D5));
    assert_eq!(value, 100 + 11 + 4000 + 7);
}

#[test]
fn quiet_knight_move_with_threat_and_check() {
    // the knight lands on f6, which the pawn on g7 guards (penalty 200000 for a knight); from
    // there it attacks the rook on g8 (2040000) and gives check (300000000); with a knight
    // and a rook on the board the phase is 3, so the psqt term is ((90 + 3) - (56 + 3)) / 2
    let value = policy("4k1r1/6p1/8/8/4N3/8/8/4K3 w - - 0 1", Move::normal(Square::E4, Square::F6));
    assert_eq!(value, 300_000_000 - 200_000 + 2_040_000 + 17);
}

#[test]
fn promotion_terms() {
    // promotion to a queen on b8 capturing the knight: capture bonus 200, promotion bonus
    // -35, a passed pawn push to the last rank at phase 1 (7001), and check along the rank
    let value = policy("1n2k3/P7/8/8/8/8/8/4K3 w - - 0 1", Move::promo(Square::A7, Square::B8, PieceType::Queen));
    assert_eq!(value, 200 - 35 + 7001 + 300_000_000);
}
