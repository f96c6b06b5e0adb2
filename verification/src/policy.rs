use vstd::prelude::*;

use crate::chess::attacks::{self, king_step, pawn_capture_step};
use crate::chess::board::{type_of_index, Board};
use crate::chess::check::{gives_direct_check_spec, kind_at};
use crate::chess::chess_move::{Move, MoveKind};
use crate::chess::movegen::piece_reach;
use crate::chess::see::{see, see_spec};
use crate::eval::evaluate::{has_piece, is_passed, pawn_attacked, rel_rank};
use crate::eval::total::phase_of;
use crate::types::{Bitboard, Color, Piece, PieceType, Square};

verus! {

/// Whether a piece of side `c` and kind `pt` attacks `t`; for the king, the lowest king of
/// that side.
pub open spec fn attacks_with(b: Board, c: Color, pt: PieceType, t: int) -> bool {
    match pt {
        PieceType::Pawn => pawn_attacked(b, c, t),
        PieceType::King => king_step(b.king_square(c), t),
        _ => exists|s: int| #[trigger] has_piece(b, c, pt, s) && piece_reach(pt, s, t, b.occ_bb()),
    }
}

/// Whether a piece of side `c` attacks `t`.
pub open spec fn attacked_by_side(b: Board, c: Color, t: int) -> bool {
    ||| attacks_with(b, c, PieceType::Pawn, t)
    ||| attacks_with(b, c, PieceType::Knight, t)
    ||| attacks_with(b, c, PieceType::Bishop, t)
    ||| attacks_with(b, c, PieceType::Rook, t)
    ||| attacks_with(b, c, PieceType::Queen, t)
    ||| attacks_with(b, c, PieceType::King, t)
}

/// The squares that the side not to move attacks, in all and by piece kind.
#[derive(Debug, Clone, Copy)]
pub struct PolicyData {
    attacked: Bitboard,
    attacked_by: [Bitboard; 6],
}

impl PolicyData {
    /// The squares attacked.
    pub closed spec fn attacked_spec(&self) -> Bitboard {
        self.attacked
    }

    /// The squares attacked by pieces of kind `pt`.
    pub closed spec fn attacked_by_spec(&self, pt: PieceType) -> Bitboard {
        self.attacked_by[pt@]
    }

    /// The attacks of the side not to move on `board`, which must have a king.
    pub fn new(board: &Board) -> (r: PolicyData)
        requires
            board.has_king(board.stm_spec().opp()),
        ensures
            forall|pt: PieceType, t: int| #[trigger] r.attacked_by_spec(pt).contains(t) == attacks_with(*board, board.stm_spec().opp(), pt, t),
            forall|t: int| #[trigger] r.attacked_spec().contains(t) == attacked_by_side(*board, board.stm_spec().opp(), t),
    {
        let ghost b = *board;
        let none = Bitboard::none();
        let mut result = PolicyData { attacked: none, attacked_by: [none, none, none, none, none, none] };
        let stm = board.stm();
        let opp = stm.flip();
        result.add_attacks(PieceType::Pawn, attacks::pawn_attacks_bb(opp, board.colored_pieces(Piece::new(opp, PieceType::Pawn))));
        result.add_attacks(PieceType::King, attacks::king_attacks(board.king_sq(opp)));
        let occ = board.occ();
        let mut i: u8 = 1;
        while i < 5
            invariant
                1 <= i <= 5,
                b == *board,
                opp == b.stm_spec().opp(),
                occ == b.occ_bb(),
                forall|pt: PieceType, t: int| (pt@ == 0 || pt@ == 5 || 1 <= pt@ < i) ==> #[trigger] result.attacked_by_spec(pt).contains(t) == attacks_with(b, opp, pt, t),
                forall|pt: PieceType, t: int| i <= pt@ < 5 ==> !#[trigger] result.attacked_by_spec(pt).contains(t),
                forall|t: int| #[trigger] result.attacked_spec().contains(t) == (attacks_with(b, opp, PieceType::Pawn, t) || attacks_with(b, opp, PieceType::King, t)
                    || (1 < i && attacks_with(b, opp, PieceType::Knight, t)) || (2 < i && attacks_with(b, opp, PieceType::Bishop, t))
                    || (3 < i && attacks_with(b, opp, PieceType::Rook, t)) || (4 < i && attacks_with(b, opp, PieceType::Queen, t))),
            decreases 5 - i,
        {
            let pt = PieceType::from_raw(i);
            let mut bb = board.colored_pieces(Piece::new(opp, pt));
            let ghost orig = bb;
            let ghost start = result;
            while bb.any()
                invariant
                    1 <= i < 5,
                    pt@ == i,
                    b == *board,
                    opp == b.stm_spec().opp(),
                    occ == b.occ_bb(),
                    forall|s: int| #[trigger] orig.contains(s) == has_piece(b, opp, pt, s),
                    forall|s: int| #[trigger] bb.contains(s) ==> orig.contains(s),
                    forall|q: PieceType, t: int| q != pt ==> #[trigger] result.attacked_by_spec(q).contains(t) == start.attacked_by_spec(q).contains(t),
                    forall|t: int| #[trigger] result.attacked_by_spec(pt).contains(t) == (exists|s: int| #[trigger] has_piece(b, opp, pt, s) && !bb.contains(s) && piece_reach(pt, s, t, b.occ_bb())),
                    forall|t: int| #[trigger] result.attacked_spec().contains(t) == (start.attacked_spec().contains(t)
                        || exists|s: int| #[trigger] has_piece(b, opp, pt, s) && !bb.contains(s) && piece_reach(pt, s, t, b.occ_bb())),
                decreases bb@,
            {
                let ghost bb0 = bb;
                let ghost before = result;
                let sq = bb.poplsb();
                let attacks = attacks::piece_attacks(pt, sq, occ);
                result.add_attacks(pt, attacks);
                proof {
                    assert forall|t: int| #[trigger] result.attacked_by_spec(pt).contains(t) == (exists|s: int| #[trigger] has_piece(b, opp, pt, s) && !bb.contains(s) && piece_reach(pt, s, t, b.occ_bb())) by {
                        assert(before.attacked_by_spec(pt).contains(t) == (exists|s: int| #[trigger] has_piece(b, opp, pt, s) && !bb0.contains(s) && piece_reach(pt, s, t, b.occ_bb())));
                        if exists|s: int| #[trigger] has_piece(b, opp, pt, s) && !bb.contains(s) && piece_reach(pt, s, t, b.occ_bb()) {
                            let s = choose|s: int| #[trigger] has_piece(b, opp, pt, s) && !bb.contains(s) && piece_reach(pt, s, t, b.occ_bb());
                            if s != sq@ {
                                assert(has_piece(b, opp, pt, s) && !bb0.contains(s) && piece_reach(pt, s, t, b.occ_bb()));
                            }
                        }
                        if before.attacked_by_spec(pt).contains(t) {
                            let s = choose|s: int| #[trigger] has_piece(b, opp, pt, s) && !bb0.contains(s) && piece_reach(pt, s, t, b.occ_bb());
                            assert(has_piece(b, opp, pt, s) && !bb.contains(s) && piece_reach(pt, s, t, b.occ_bb()));
                        }
                        if attacks.contains(t) {
                            assert(has_piece(b, opp, pt, sq@) && !bb.contains(sq@) && piece_reach(pt, sq@, t, b.occ_bb()));
                        }
                    }
                    assert forall|t: int| #[trigger] result.attacked_spec().contains(t) == (start.attacked_spec().contains(t)
                        || exists|s: int| #[trigger] has_piece(b, opp, pt, s) && !bb.contains(s) && piece_reach(pt, s, t, b.occ_bb())) by {
                        assert(result.attacked_by_spec(pt).contains(t) == (exists|s: int| #[trigger] has_piece(b, opp, pt, s) && !bb.contains(s) && piece_reach(pt, s, t, b.occ_bb())));
                        assert(before.attacked_by_spec(pt).contains(t) == (exists|s: int| #[trigger] has_piece(b, opp, pt, s) && !bb0.contains(s) && piece_reach(pt, s, t, b.occ_bb())));
                    }
                }
            }
            proof {
                assert forall|t: int| #[trigger] result.attacked_by_spec(pt).contains(t) == attacks_with(b, opp, pt, t) by {
                    if exists|s: int| #[trigger] has_piece(b, opp, pt, s) && piece_reach(pt, s, t, b.occ_bb()) {
                        let s = choose|s: int| #[trigger] has_piece(b, opp, pt, s) && piece_reach(pt, s, t, b.occ_bb());
                        assert(!bb.contains(s));
                    }
                }
            }
            i = i + 1;
        }
        result
    }

    /// Marks the squares of `attacks` as attacked, and attacked by kind `pt`.
    fn add_attacks(&mut self, pt: PieceType, attacks: Bitboard)
        ensures
            forall|t: int| #[trigger] final(self).attacked_spec().contains(t) == (old(self).attacked_spec().contains(t) || attacks.contains(t)),
            forall|t: int| #[trigger] final(self).attacked_by_spec(pt).contains(t) == (old(self).attacked_by_spec(pt).contains(t) || attacks.contains(t)),
            forall|q: PieceType| q != pt ==> #[trigger] final(self).attacked_by_spec(q) == old(self).attacked_by_spec(q),
    {
        self.attacked = self.attacked.bit_or(attacks);
        let i = pt.index();
        self.attacked_by[i] = self.attacked_by[i].bit_or(attacks);
    }

    /// The squares attacked.
    fn attacked(&self) -> (r: Bitboard)
        ensures
            r == self.attacked_spec(),
    {
        self.attacked
    }

    /// The squares attacked by pieces of kind `pt`.
    fn attacked_by(&self, pt: PieceType) -> (r: Bitboard)
        ensures
            r == self.attacked_by_spec(pt),
    {
        self.attacked_by[pt.index()]
    }
}

/// The terms of the move ordering policy, over a value type of the implementer's choice.
pub trait PolicyValues {
    /// The type of a policy value.
    type Value;

    /// The bonus for capturing a piece of kind `pt`.
    spec fn cap_bonus_spec(pt: PieceType) -> Self::Value;

    /// The bonus for capturing a piece of kind `pt`.
    fn cap_bonus(pt: PieceType) -> (r: Self::Value)
        ensures
            r == Self::cap_bonus_spec(pt),
    ;

    /// The penalty for moving a piece of kind `pt` to a square a pawn attacks.
    spec fn pawn_protected_penalty_spec(pt: PieceType) -> Self::Value;

    /// The penalty for moving a piece of kind `pt` to a square a pawn attacks.
    fn pawn_protected_penalty(pt: PieceType) -> (r: Self::Value)
        ensures
            r == Self::pawn_protected_penalty_spec(pt),
    ;

    /// The bonus for moving a piece of kind `moving` out of an attack by kind `threat`.
    spec fn threat_evasion_spec(threat: PieceType, moving: PieceType) -> Self::Value;

    /// The bonus for moving a piece of kind `moving` out of an attack by kind `threat`.
    fn threat_evasion(threat: PieceType, moving: PieceType) -> (r: Self::Value)
        ensures
            r == Self::threat_evasion_spec(threat, moving),
    ;

    /// The piece square value of a piece of color `c` and kind `pt` on square `sq` at game
    /// phase `phase`.
    spec fn psqt_score_spec(c: Color, pt: PieceType, sq: Square, phase: i32) -> Self::Value;

    /// The piece square value of a piece of color `c` and kind `pt` on `sq` at game phase
    /// `phase`.
    fn psqt_score(c: Color, pt: PieceType, sq: Square, phase: i32) -> (r: Self::Value)
        ensures
            r == Self::psqt_score_spec(c, pt, sq, phase),
    ;

    /// The bonus for pushing a passed pawn to relative rank `rank` at game phase `phase`.
    spec fn passed_pawn_push_spec(rank: u8, phase: i32) -> Self::Value;

    /// The bonus for pushing a passed pawn to relative rank `rank` at game phase `phase`.
    fn passed_pawn_push(rank: u8, phase: i32) -> (r: Self::Value)
        requires
            rank < 8,
        ensures
            r == Self::passed_pawn_push_spec(rank, phase),
    ;

    /// The bonus for a piece of kind `moving` that attacks a piece of kind `threatened` after
    /// the move.
    spec fn threat_spec(moving: PieceType, threatened: PieceType) -> Self::Value;

    /// The bonus for a piece of kind `moving` that attacks a piece of kind `threatened` after
    /// the move.
    fn threat(moving: PieceType, threatened: PieceType) -> (r: Self::Value)
        ensures
            r == Self::threat_spec(moving, threatened),
    ;

    /// The bonus for promoting to `pt`.
    spec fn promo_bonus_spec(pt: PieceType) -> Self::Value;

    /// The bonus for promoting to `pt`.
    fn promo_bonus(pt: PieceType) -> (r: Self::Value)
        ensures
            r == Self::promo_bonus_spec(pt),
    ;

    /// The penalty for a move that loses material by static exchange.
    spec fn bad_see_penalty_spec() -> Self::Value;

    /// The penalty for a move that loses material by static exchange.
    fn bad_see_penalty() -> (r: Self::Value)
        ensures
            r == Self::bad_see_penalty_spec(),
    ;

    /// The bonus for a move that gives check.
    spec fn check_bonus_spec() -> Self::Value;

    /// The bonus for a move that gives check.
    fn check_bonus() -> (r: Self::Value)
        ensures
            r == Self::check_bonus_spec(),
    ;

    /// The zero value.
    spec fn zero_spec() -> Self::Value;

    /// The zero value.
    fn zero() -> (r: Self::Value)
        ensures
            r == Self::zero_spec(),
    ;

    /// The sum of two values.
    spec fn sum_spec(a: Self::Value, b: Self::Value) -> Self::Value;

    /// The sum of two values.
    fn sum(a: Self::Value, b: Self::Value) -> (r: Self::Value)
        ensures
            r == Self::sum_spec(a, b),
    ;

    /// The difference of two values.
    spec fn difference_spec(a: Self::Value, b: Self::Value) -> Self::Value;

    /// The difference of two values.
    fn difference(a: Self::Value, b: Self::Value) -> (r: Self::Value)
        ensures
            r == Self::difference_spec(a, b),
    ;

    /// A piece square difference scaled down to the weight of the other terms (a fiftieth).
    spec fn psqt_weight_spec(a: Self::Value) -> Self::Value;

    /// A piece square difference scaled down to the weight of the other terms (a fiftieth).
    fn psqt_weight(a: Self::Value) -> (r: Self::Value)
        ensures
            r == Self::psqt_weight_spec(a),
    ;
}

/// The first kind, from index `i` up to the queen, whose attacks reach `from` or `to`.
pub open spec fn first_threat(d: PolicyData, from: int, to: int, i: int) -> Option<PieceType>
    decreases 5 - i,
{
    if i >= 5 {
        None
    } else if d.attacked_by_spec(type_of_index(i)).contains(from) || d.attacked_by_spec(type_of_index(i)).contains(to) {
        Some(type_of_index(i))
    } else {
        first_threat(d, from, to, i + 1)
    }
}

/// The threat evasion term: when a piece other than the king leaves an attacked square, the
/// least valuable kind that attacks its origin or target is looked at; if it attacks the
/// origin and not the target, the move evades it.
pub open spec fn evasion_value<P: PolicyValues>(d: PolicyData, moving: PieceType, from: int, to: int) -> P::Value {
    if moving != PieceType::King && d.attacked_spec().contains(from) {
        match first_threat(d, from, to, 0) {
            Some(pt) => if d.attacked_by_spec(pt).contains(from) && !d.attacked_by_spec(pt).contains(to) {
                P::sum_spec(P::zero_spec(), P::threat_evasion_spec(pt, moving))
            } else {
                P::zero_spec()
            },
            None => P::zero_spec(),
        }
    } else {
        P::zero_spec()
    }
}

/// The occupied squares with the target of `m` added; its origin stays occupied.
pub open spec fn occ_with_target(b: Board, m: Move) -> Bitboard {
    Bitboard::from_raw_spec(b.occ_bb()@ | ((1u64 << (m.to_spec() as u64)) & !(1u64 << (m.from_spec() as u64))))
}

/// Whether after move `m` the moving piece attacks a piece of the other side on `t`, kings
/// left out.
pub open spec fn threat_target(b: Board, m: Move, t: int) -> bool {
    let moving = kind_at(b, m.from_spec());
    let attacks = if moving != PieceType::Pawn {
        piece_reach(moving, m.to_spec(), t, occ_with_target(b, m))
    } else {
        pawn_capture_step(b.stm_spec() == Color::White, m.to_spec(), t)
    };
    attacks && b.has_color(b.stm_spec().opp(), t) && 0 <= t < 64 && !b.has_type(PieceType::King, t)
}

/// The threat bonuses of move `m` over the targets below `n`, added in order.
pub open spec fn threat_fold<P: PolicyValues>(b: Board, m: Move, n: int) -> P::Value
    decreases n,
{
    if n <= 0 {
        P::zero_spec()
    } else if threat_target(b, m, n - 1) {
        P::sum_spec(threat_fold::<P>(b, m, n - 1), P::threat_spec(kind_at(b, m.from_spec()), kind_at(b, n - 1)))
    } else {
        threat_fold::<P>(b, m, n - 1)
    }
}

/// The policy value of move `m` on board `b` with the attacks `d` of the side not to move.
pub open spec fn policy_spec<P: PolicyValues>(b: Board, m: Move, d: PolicyData) -> P::Value {
    let stm = b.stm_spec();
    let from = m.from_spec();
    let to = m.to_spec();
    let moving = kind_at(b, from);
    let protected = d.attacked_by_spec(PieceType::Pawn).contains(to);
    let ph = if phase_of(b) < 24 {
        phase_of(b)
    } else {
        24
    };
    let zero = P::zero_spec();
    let cap = match b.piece_at_spec(to) {
        Some(p) => P::cap_bonus_spec(p.type_spec()),
        None => zero,
    };
    let penalty = if protected {
        P::pawn_protected_penalty_spec(moving)
    } else {
        zero
    };
    let evasion = evasion_value::<P>(d, moving, from, to);
    let psqt = if m.kind_spec() != 3 {
        P::difference_spec(
            P::psqt_score_spec(stm, moving, Square::from_index(to), ph as i32),
            P::psqt_score_spec(stm, moving, Square::from_index(from), ph as i32),
        )
    } else {
        zero
    };
    let pawn_score = if moving == PieceType::Pawn && !d.attacked_spec().contains(to) && is_passed(b, stm, to) {
        P::sum_spec(zero, P::passed_pawn_push_spec(rel_rank(stm, to) as u8, ph as i32))
    } else {
        zero
    };
    let threats = if m.kind_spec() == 0 && moving != PieceType::King {
        threat_fold::<P>(b, m, 64)
    } else {
        zero
    };
    let promo = if m.kind_spec() == 3 {
        P::promo_bonus_spec(type_of_index(m.promo_spec() + 1))
    } else {
        zero
    };
    let bad_see = if !see_spec(b, m, 0) && !protected {
        P::bad_see_penalty_spec()
    } else {
        zero
    };
    let check = if gives_direct_check_spec(b, m) {
        P::check_bonus_spec()
    } else {
        zero
    };
    P::sum_spec(
        P::sum_spec(
            P::difference_spec(
                P::sum_spec(P::sum_spec(P::sum_spec(P::sum_spec(P::sum_spec(cap, promo), evasion), bad_see), check), pawn_score),
                penalty,
            ),
            P::psqt_weight_spec(psqt),
        ),
        threats,
    )
}

/// The fold of threat bonuses does not change over squares that hold no target.
proof fn lemma_fold_skip<P: PolicyValues>(b: Board, m: Move, lo: int, hi: int)
    requires
        lo <= hi,
        forall|t: int| lo <= t < hi ==> !#[trigger] threat_target(b, m, t),
    ensures
        threat_fold::<P>(b, m, hi) == threat_fold::<P>(b, m, lo),
    decreases hi - lo,
{
    if lo < hi {
        lemma_fold_skip::<P>(b, m, lo, hi - 1);
        if hi > 0 {
            assert(!threat_target(b, m, hi - 1));
        }
    }
}

/// The threat evasion term of a move of a piece of kind `moving` from `from` to `to`.
fn evasion<P: PolicyValues>(data: &PolicyData, moving: PieceType, from: Square, to: Square) -> (r: P::Value)
    ensures
        r == evasion_value::<P>(*data, moving, from@, to@),
{
    if moving != PieceType::King && data.attacked().has(from) {
        let mut i: u8 = 0;
        while i < 5
            invariant
                i <= 5,
                moving != PieceType::King,
                data.attacked_spec().contains(from@),
                first_threat(*data, from@, to@, 0) == first_threat(*data, from@, to@, i as int),
            decreases 5 - i,
        {
            let pt = PieceType::from_raw(i);
            let from_threat = data.attacked_by(pt).has(from);
            let to_threat = data.attacked_by(pt).has(to);
            proof {
                assert(pt == type_of_index(i as int));
            }
            if from_threat || to_threat {
                if from_threat && !to_threat {
                    return P::sum(P::zero(), P::threat_evasion(pt, moving));
                } else {
                    return P::zero();
                }
            }
            i = i + 1;
        }
        P::zero()
    } else {
        P::zero()
    }
}

/// The threat bonuses of `mv`, a plain move of a piece of kind `moving` other than the king:
/// the pieces of the other side, kings left out, that it attacks from its target.
fn threats_after<P: PolicyValues>(board: &Board, mv: Move, moving: PieceType) -> (r: P::Value)
    requires
        board.wf(),
        moving == kind_at(*board, mv.from_spec()),
        moving != PieceType::King,
    ensures
        r == threat_fold::<P>(*board, mv, 64),
{
    let ghost b = *board;
    let to = mv.to_sq();
    let from = mv.from_sq();
    let occ_after = board.occ().bit_or(Bitboard::from_square(to).bit_and(Bitboard::from_square(from).bit_not()));
    proof {
        Bitboard::lemma_from_raw_spec(occ_after@);
        Bitboard::lemma_view_injective(occ_after, occ_with_target(b, mv));
    }
    let attacks_after = if moving != PieceType::Pawn {
        attacks::piece_attacks(moving, to, occ_after)
    } else {
        attacks::pawn_attacks(board.stm(), to)
    };
    let mut threats = attacks_after.bit_and(board.colors(board.stm().flip())).bit_and(board.pieces(PieceType::King).bit_not());
    let mut score = P::zero();
    let ghost mut lo: int = 0;
    while threats.any()
        invariant
            b == *board,
            board.wf(),
            moving == kind_at(b, mv.from_spec()),
            0 <= lo <= 64,
            forall|t: int| lo <= t < 64 ==> #[trigger] threats.contains(t) == threat_target(b, mv, t),
            forall|t: int| t < lo ==> !#[trigger] threats.contains(t),
            score == threat_fold::<P>(b, mv, lo),
        decreases threats@,
    {
        let ghost before = threats;
        let threat = threats.poplsb();
        proof {
            board.lemma_wf_piece_at(threat@);
            assert(lo <= threat@) by {
                if threat@ < lo {
                    assert(!before.contains(threat@));
                }
            }
            assert forall|t: int| lo <= t < threat@ implies !#[trigger] threat_target(b, mv, t) by {
                assert(!before.contains(t));
            }
            lemma_fold_skip::<P>(b, mv, lo, threat@);
            assert(threat_target(b, mv, threat@));
        }
        let threatened = board.piece_at(threat).unwrap().piece_type();
        proof {
            let p = b.piece_at_spec(threat@).unwrap();
            crate::types::piece::lemma_piece_round_trip(p, p.color_spec(), p.type_spec());
            assert(threatened == kind_at(b, threat@));
        }
        score = P::sum(score, P::threat(moving, threatened));
        proof {
            lo = threat@ + 1;
        }
    }
    proof {
        assert forall|t: int| lo <= t < 64 implies !#[trigger] threat_target(b, mv, t) by {
            assert(!threats.contains(t));
        }
        lemma_fold_skip::<P>(b, mv, lo, 64);
    }
    score
}

/// The policy value of `mv`, a move of a piece of the side to move, on `board`, with the
/// attacks `data` of the other side, as `policy_spec` states.
pub fn get_policy_impl<P: PolicyValues>(board: &Board, mv: Move, data: &PolicyData) -> (r: P::Value)
    requires
        board.wf(),
        board.has_king(board.stm_spec().opp()),
        board.has_color(board.stm_spec(), mv.from_spec()),
    ensures
        r == policy_spec::<P>(*board, mv, *data),
{
    let ghost b = *board;
    let pawn_protected = data.attacked_by(PieceType::Pawn);
    let from = mv.from_sq();
    let to = mv.to_sq();
    proof {
        board.lemma_wf_piece_at(from@);
        board.lemma_wf_piece_at(to@);
    }
    let moving_piece = board.piece_at(from).unwrap();
    let moving = moving_piece.piece_type();
    proof {
        crate::types::piece::lemma_piece_round_trip(moving_piece, moving_piece.color_spec(), moving_piece.type_spec());
        assert(moving == kind_at(b, from@));
    }
    let captured_piece = board.piece_at(to);
    let cap_bonus = match captured_piece {
        Some(captured) => P::cap_bonus(captured.piece_type()),
        None => P::zero(),
    };
    let pawn_protected_penalty = if pawn_protected.has(to) {
        P::pawn_protected_penalty(moving)
    } else {
        P::zero()
    };
    let threat_evasion = evasion::<P>(data, moving, from, to);
    let phase_sum = 4 * board.pieces(PieceType::Queen).popcount() + 2 * board.pieces(PieceType::Rook).popcount()
        + board.pieces(PieceType::Bishop).popcount() + board.pieces(PieceType::Knight).popcount();
    let phase = (if phase_sum < 24 {
        phase_sum
    } else {
        24
    }) as i32;
    let stm = board.stm();
    proof {
        Square::lemma_from_index(to);
        Square::lemma_from_index(from);
    }
    let psqt = if mv.kind() != MoveKind::Promotion {
        P::difference(P::psqt_score(stm, moving, to, phase), P::psqt_score(stm, moving, from, phase))
    } else {
        P::zero()
    };
    let their_pawns = board.colored_pieces(Piece::new(stm.flip(), PieceType::Pawn));
    let mut pawn_score = P::zero();
    if moving == PieceType::Pawn && !data.attacked().has(to) {
        let rank = to.relative_sq(stm).rank();
        let stoppers = their_pawns.bit_and(attacks::passed_pawn_span(stm, to));
        proof {
            if stoppers.nonempty() {
                let t = choose|t: int| #[trigger] stoppers.contains(t);
                assert(stoppers.contains(t));
                assert(has_piece(b, stm.opp(), PieceType::Pawn, t));
            }
        }
        if stoppers.empty() {
            pawn_score = P::sum(pawn_score, P::passed_pawn_push(rank, phase));
            proof {
                assert forall|t: int| !(#[trigger] has_piece(b, stm.opp(), PieceType::Pawn, t) && crate::chess::attacks::passed_span(stm == Color::White, to@, t)) by {
                    assert(!stoppers.contains(t));
                }
            }
        }
    }
    let threat_score = if mv.kind() == MoveKind::Normal && moving != PieceType::King {
        threats_after::<P>(board, mv, moving)
    } else {
        P::zero()
    };
    let promo_bonus = if mv.kind() == MoveKind::Promotion {
        P::promo_bonus(mv.promo_piece())
    } else {
        P::zero()
    };
    proof {
        assert(type_of_index(mv.promo_spec() + 1)@ == mv.promo_spec() + 1) by {
            mv.lemma_fields();
        }
    }
    let bad_see_penalty = if !see(board, mv, 0) && !pawn_protected.has(to) {
        P::bad_see_penalty()
    } else {
        P::zero()
    };
    let check_bonus = if board.gives_direct_check(mv) {
        P::check_bonus()
    } else {
        P::zero()
    };
    let a = P::sum(P::sum(P::sum(P::sum(P::sum(cap_bonus, promo_bonus), threat_evasion), bad_see_penalty), check_bonus), pawn_score);
    P::sum(P::sum(P::difference(a, pawn_protected_penalty), P::psqt_weight(psqt)), threat_score)
}

} // verus!
