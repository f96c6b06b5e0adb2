use vstd::prelude::*;

use super::attacks::{self, bishop_reach, rook_reach};
use super::board::{type_of_index, Board};
use super::chess_move::{Move, MoveKind};
use crate::types::{Bitboard, Color, PieceType};

verus! {

/// The value of a piece kind in a static exchange: pawn 100, knight and bishop 450, rook 650,
/// queen 1350, king 0.
pub open spec fn see_value(pt: PieceType) -> int {
    match pt {
        PieceType::Pawn => 100,
        PieceType::Knight => 450,
        PieceType::Bishop => 450,
        PieceType::Rook => 650,
        PieceType::Queen => 1350,
        PieceType::King => 0,
    }
}

/// The squares of a set, as a mathematical set.
pub open spec fn squares(a: Bitboard) -> Set<int> {
    Set::new(|t: int| a.contains(t))
}

/// Whether a square of `a` holds a piece of kind `pt`.
pub open spec fn has_kind(b: Board, a: Set<int>, pt: PieceType) -> bool {
    exists|s: int| #[trigger] a.contains(s) && #[trigger] b.has_type(pt, s)
}

/// The least valuable kind, pawn to king in that order, that a square of `a` holds.
pub open spec fn least_valuable(b: Board, a: Set<int>) -> Option<PieceType> {
    if has_kind(b, a, PieceType::Pawn) {
        Some(PieceType::Pawn)
    } else if has_kind(b, a, PieceType::Knight) {
        Some(PieceType::Knight)
    } else if has_kind(b, a, PieceType::Bishop) {
        Some(PieceType::Bishop)
    } else if has_kind(b, a, PieceType::Rook) {
        Some(PieceType::Rook)
    } else if has_kind(b, a, PieceType::Queen) {
        Some(PieceType::Queen)
    } else if has_kind(b, a, PieceType::King) {
        Some(PieceType::King)
    } else {
        None
    }
}

/// Whether `s` is the lowest square of `a` that holds a piece of kind `pt`.
pub open spec fn is_lowest_of(b: Board, a: Set<int>, pt: PieceType, s: int) -> bool {
    &&& a.contains(s)
    &&& b.has_type(pt, s)
    &&& forall|u: int| u < s ==> !(#[trigger] a.contains(u) && b.has_type(pt, u))
}

/// The lowest square of `a` that holds a piece of kind `pt`.
pub open spec fn lowest_of(b: Board, a: Set<int>, pt: PieceType) -> int {
    choose|s: int| is_lowest_of(b, a, pt, s)
}

/// The occupied set `occ` with square `s` toggled.
pub open spec fn toggle(occ: Bitboard, s: int) -> Bitboard {
    Bitboard::from_raw_spec(occ@ ^ (1u64 << (s as u64)))
}

/// No piece attacks its own square.
pub proof fn lemma_no_self_attack(b: Board, sq: int, occ: Bitboard)
    ensures
        !b.attacks_from(sq, occ, sq),
{
    assert forall|d: attacks::Direction, k: int| k >= 1 implies #[trigger] attacks::ray_target(sq, d, k) != Some(sq) by {
        attacks::lemma_ray_leaves(sq, d, k);
    }
    if 0 <= sq < 64 {
        attacks::lemma_coords(sq);
    }
}

/// Toggling a square of the set removes it and makes the word smaller.
pub proof fn lemma_toggle_smaller(occ: Bitboard, s: int)
    requires
        occ.contains(s),
    ensures
        toggle(occ, s)@ < occ@,
{
    Bitboard::lemma_from_raw_spec(occ@ ^ (1u64 << (s as u64)));
    let v = occ@;
    let u = s as u64;
    assert(u < 64 && ((v >> u) & 1u64) == 1u64 ==> (v ^ (1u64 << u)) < v) by (bit_vector);
}

/// The exchange on `square` from the point where side `us` is to recapture, with `occ` the
/// occupied squares, `attackers` the pieces that attack the square and `score` the balance so
/// far, negative at each turn. The side that runs out of attackers, or whose opponent stands
/// at a balance of zero or more after a capture, is returned; a king does not capture into a
/// square that the other side still attacks.
pub open spec fn see_swap(
    b: Board,
    square: int,
    occ: Bitboard,
    attackers: Set<int>,
    us: Color,
    score: int,
) -> Color
    decreases occ@,
{
    let ours = Set::new(|t: int| attackers.contains(t) && b.has_color(us, t));
    if forall|t: int| !#[trigger] ours.contains(t) {
        us
    } else {
        match least_valuable(b, ours) {
            None => us.opp(),
            Some(pt) => {
                let s = lowest_of(b, ours, pt);
                if !occ.contains(s) {
                    us
                } else {
                    let occ2 = toggle(occ, s);
                    let diag = pt == PieceType::Pawn || pt == PieceType::Bishop || pt
                        == PieceType::Queen;
                    let ortho = pt == PieceType::Rook || pt == PieceType::Queen;
                    let att2 = Set::new(
                        |t: int|
                            (attackers.contains(t) || (diag && bishop_reach(square, t, occ2) && (
                            b.has_type(PieceType::Bishop, t) || b.has_type(PieceType::Queen, t)))
                                || (ortho && rook_reach(square, t, occ2) && (b.has_type(
                                PieceType::Rook,
                                t,
                            ) || b.has_type(PieceType::Queen, t)))) && occ2.contains(t),
                    );
                    let score2 = -score - 1 - see_value(pt);
                    let us2 = us.opp();
                    if score2 >= 0 {
                        if pt == PieceType::King && side_attacks(b, att2, us2) {
                            us
                        } else {
                            us2
                        }
                    } else {
                        proof {
                            lemma_toggle_smaller(occ, s);
                        }
                        see_swap(b, square, occ2, att2, us2, score2)
                    }
                }
            }
        }
    }
}

/// The exchange ends with one of the two sides, and the side to recapture fails at a higher
/// balance whenever it fails at a lower one: a higher balance for the other side only makes
/// the recapture harder.
pub proof fn lemma_swap_mono(
    b: Board,
    square: int,
    occ: Bitboard,
    attackers: Set<int>,
    us: Color,
    score: int,
    score2: int,
)
    requires
        score <= score2 < 0,
    ensures
        see_swap(b, square, occ, attackers, us, score) == us || see_swap(b, square, occ, attackers, us, score)
            == us.opp(),
        see_swap(b, square, occ, attackers, us, score) == us ==> see_swap(b, square, occ, attackers, us, score2)
            == us,
    decreases occ@,
{
    let ours = Set::new(|t: int| attackers.contains(t) && b.has_color(us, t));
    if forall|t: int| !#[trigger] ours.contains(t) {
    } else {
        match least_valuable(b, ours) {
            None => {},
            Some(pt) => {
                let s = lowest_of(b, ours, pt);
                if occ.contains(s) {
                    lemma_toggle_smaller(occ, s);
                    let occ2 = toggle(occ, s);
                    let diag = pt == PieceType::Pawn || pt == PieceType::Bishop || pt == PieceType::Queen;
                    let ortho = pt == PieceType::Rook || pt == PieceType::Queen;
                    let att2 = Set::new(
                        |t: int|
                            (attackers.contains(t) || (diag && bishop_reach(square, t, occ2) && (
                            b.has_type(PieceType::Bishop, t) || b.has_type(PieceType::Queen, t)))
                                || (ortho && rook_reach(square, t, occ2) && (b.has_type(
                                PieceType::Rook,
                                t,
                            ) || b.has_type(PieceType::Queen, t)))) && occ2.contains(t),
                    );
                    let a = -score - 1 - see_value(pt);
                    let a2 = -score2 - 1 - see_value(pt);
                    if a < 0 {
                        lemma_swap_mono(b, square, occ2, att2, us.opp(), a2, a);
                        lemma_swap_mono(b, square, occ2, att2, us.opp(), a, a);
                        if a2 < 0 {
                            lemma_swap_mono(b, square, occ2, att2, us.opp(), a2, a2);
                        }
                    }
                }
            },
        }
    }
}

/// Whether a square of `a` holds a piece of color `c`.
pub open spec fn side_attacks(b: Board, a: Set<int>, c: Color) -> bool {
    exists|t: int| #[trigger] a.contains(t) && b.has_color(c, t)
}

/// The value of the piece on `sq`, 0 when it is empty.
pub open spec fn value_at(b: Board, sq: int) -> int {
    match b.piece_at_spec(sq) {
        Some(p) => see_value(p.type_spec()),
        None => 0,
    }
}

/// Whether the static exchange that move `m` starts wins at least `threshold`: moves other
/// than plain ones pass; otherwise the captured value less the threshold must be at least zero,
/// and the exchange is played out by `see_swap` when losing the moving piece would put the
/// balance below zero.
pub open spec fn see_spec(b: Board, m: Move, threshold: int) -> bool {
    if m.kind_spec() != 0 {
        true
    } else {
        let to = m.to_spec();
        let from = m.from_spec();
        let score0 = value_at(b, to) - threshold;
        if score0 < 0 {
            false
        } else {
            let score1 = score0 - value_at(b, from);
            if score1 >= 0 {
                true
            } else {
                let occ = Bitboard::from_raw_spec(
                    b.occ_bb()@ ^ ((1u64 << (to as u64)) ^ (1u64 << (from as u64))),
                );
                let attackers = Set::new(|t: int| b.attacks_from(to, occ, t));
                b.stm_spec() != see_swap(b, to, occ, attackers, b.stm_spec().opp(), score1)
            }
        }
    }
}

/// The exchange value of a piece kind.
fn see_piece_value(pt: PieceType) -> (r: i32)
    ensures
        r == see_value(pt),
{
    match pt {
        PieceType::Pawn => 100,
        PieceType::Knight => 450,
        PieceType::Bishop => 450,
        PieceType::Rook => 650,
        PieceType::Queen => 1350,
        PieceType::King => 0,
    }
}

/// Takes the least valuable of `attackers` off `occupancy` and returns its kind.
fn pop_least_valuable(board: &Board, occupancy: &mut Bitboard, attackers: Bitboard) -> (r: Option<
    PieceType,
>)
    ensures
        r == least_valuable(*board, squares(attackers)),
        r matches Some(pt) ==> *final(occupancy) == toggle(
            *old(occupancy),
            lowest_of(*board, squares(attackers), pt),
        ) && is_lowest_of(*board, squares(attackers), pt, lowest_of(*board, squares(attackers), pt)),
        r is None ==> *final(occupancy) == *old(occupancy),
{
    let ghost a = squares(attackers);
    let mut i: u8 = 0;
    while i < 6
        invariant
            i <= 6,
            a == squares(attackers),
            *occupancy == *old(occupancy),
            forall|j: int| 0 <= j < i ==> !has_kind(*board, a, #[trigger] type_of_index(j)),
        decreases 6 - i,
    {
        let pt = PieceType::from_raw(i);
        let pieces = attackers.bit_and(board.pieces(pt));
        assert(pt == type_of_index(i as int));
        if pieces.any() {
            let s = pieces.lsb();
            let old_occ = *occupancy;
            *occupancy = old_occ.bit_xor(Bitboard::from_square(s));
            proof {
                assert(a.contains(s@) && board.has_type(pt, s@));
                assert(is_lowest_of(*board, a, pt, s@)) by {
                    assert forall|u: int| u < s@ implies !(#[trigger] a.contains(u) && board.has_type(pt, u)) by {
                        if 0 <= u {
                            assert(!pieces.contains(u));
                        }
                    }
                }
                let l = lowest_of(*board, a, pt);
                assert(is_lowest_of(*board, a, pt, l));
                assert(l == s@) by {
                    if l < s@ {
                    } else if s@ < l {
                    }
                }
                Bitboard::lemma_from_raw_spec(old_occ@ ^ (1u64 << (s@ as u64)));
                Bitboard::lemma_view_injective(*occupancy, toggle(old_occ, s@));
                assert(has_kind(*board, a, pt));
                assert(0 < i ==> !has_kind(*board, a, type_of_index(0)));
                assert(1 < i ==> !has_kind(*board, a, type_of_index(1)));
                assert(2 < i ==> !has_kind(*board, a, type_of_index(2)));
                assert(3 < i ==> !has_kind(*board, a, type_of_index(3)));
                assert(4 < i ==> !has_kind(*board, a, type_of_index(4)));
            }
            return Some(pt);
        }
        proof {
            assert forall|s: int| #[trigger] a.contains(s) implies !board.has_type(pt, s) by {
                assert(!pieces.contains(s));
            }
        }
        i = i + 1;
    }
    proof {
        assert(!has_kind(*board, a, type_of_index(0)));
        assert(!has_kind(*board, a, type_of_index(1)));
        assert(!has_kind(*board, a, type_of_index(2)));
        assert(!has_kind(*board, a, type_of_index(3)));
        assert(!has_kind(*board, a, type_of_index(4)));
        assert(!has_kind(*board, a, type_of_index(5)));
    }
    None
}

/// Whether the static exchange that `mv` starts wins at least `threshold`, as `see_spec`
/// states. The move must be one of the side to move when it is a plain move.
pub fn see(board: &Board, mv: Move, threshold: i32) -> (r: bool)
    requires
        board.wf(),
        mv.kind_spec() == 0 ==> board.has_color(board.stm_spec(), mv.from_spec()),
        mv.kind_spec() == 0 ==> value_at(*board, mv.to_spec()) - threshold <= i32::MAX,
    ensures
        r == see_spec(*board, mv, threshold as int),
{
    if mv.kind() != MoveKind::Normal {
        return true;
    }
    let to_sq = mv.to_sq();
    let from_sq = mv.from_sq();
    proof {
        board.lemma_wf_piece_at(to_sq@);
        board.lemma_wf_piece_at(from_sq@);
    }
    let mut score: i32 = match board.piece_at(to_sq) {
        Some(captured) => see_piece_value(captured.piece_type()),
        None => 0,
    };
    score = score - threshold;
    if score < 0 {
        return false;
    }
    let next = board.piece_at(from_sq).unwrap().piece_type();
    score = score - see_piece_value(next);
    if score >= 0 {
        return true;
    }
    let square = to_sq;
    let mut occupancy = board.occ();
    occupancy = occupancy.bit_xor(Bitboard::from_square(square).bit_xor(Bitboard::from_square(from_sq)));
    let mut attackers = board.all_attackers_to(square, occupancy);
    let mut us = board.stm().flip();
    let ghost occ0 = Bitboard::from_raw_spec(
        board.occ_bb()@ ^ ((1u64 << (square@ as u64)) ^ (1u64 << (from_sq@ as u64))),
    );
    let ghost att0 = Set::new(|t: int| board.attacks_from(square@, occ0, t));
    let ghost answer = see_swap(*board, square@, occ0, att0, us, score as int);
    proof {
        Bitboard::lemma_from_raw_spec(occupancy@);
        Bitboard::lemma_view_injective(occupancy, occ0);
        assert(squares(attackers) =~= att0);
        assert forall|t: int| attackers.contains(t) && board.has_color(us, t) implies #[trigger] occupancy.contains(t) by {
            board.lemma_wf_clean(t);
            lemma_no_self_attack(*board, square@, occupancy);
        }
    }
    loop
        invariant_except_break
            board.wf(),
            -1351 <= score < 0,
            see_swap(*board, square@, occupancy, squares(attackers), us, score as int) == answer,
            forall|t: int| attackers.contains(t) && board.has_color(us, t) ==> #[trigger] occupancy.contains(t),
        ensures
            us == answer,
        decreases occupancy@,
    {
        let ghost occ_before = occupancy;
        let ghost att_before = squares(attackers);
        let ghost score_before = score as int;
        let ghost us0 = us;
        let our_attackers = attackers.bit_and(board.colors(us));
        let ghost ours = Set::new(|t: int| att_before.contains(t) && board.has_color(us, t));
        assert(squares(our_attackers) =~= ours);
        if our_attackers.empty() {
            break;
        }
        proof {
            let w = choose|i: int| #[trigger] our_attackers.contains(i);
            assert(ours.contains(w));
        }
        let next = pop_least_valuable(board, &mut occupancy, our_attackers);
        let (diag, ortho, is_king) = match next {
            Some(PieceType::Pawn) => (true, false, false),
            Some(PieceType::Bishop) => (true, false, false),
            Some(PieceType::Queen) => (true, true, false),
            Some(PieceType::Rook) => (false, true, false),
            Some(PieceType::King) => (false, false, true),
            _ => (false, false, false),
        };
        if diag {
            attackers = attackers.bit_or(
                attacks::bishop_attacks(square, occupancy).bit_and(
                    board.pieces(PieceType::Bishop).bit_or(board.pieces(PieceType::Queen)),
                ),
            );
        }
        if ortho {
            attackers = attackers.bit_or(
                attacks::rook_attacks(square, occupancy).bit_and(
                    board.pieces(PieceType::Rook).bit_or(board.pieces(PieceType::Queen)),
                ),
            );
        }
        attackers = attackers.bit_and(occupancy);
        let value = match next {
            Some(pt) => see_piece_value(pt),
            None => 0,
        };
        score = -score - 1 - value;
        us = us.flip();
        proof {
            assert(see_swap(*board, square@, occ_before, att_before, us0, score_before) == answer);
            match next {
                Some(pt) => {
                    let sq_popped = lowest_of(*board, ours, pt);
                    assert(is_lowest_of(*board, ours, pt, sq_popped));
                    assert(occ_before.contains(sq_popped));
                    lemma_toggle_smaller(occ_before, sq_popped);
                    let occ2 = toggle(occ_before, sq_popped);
                    assert(occupancy == occ2);
                    let d = pt == PieceType::Pawn || pt == PieceType::Bishop || pt == PieceType::Queen;
                    let o = pt == PieceType::Rook || pt == PieceType::Queen;
                    assert(d == diag && o == ortho);
                    let att2 = Set::new(
                        |t: int|
                            (att_before.contains(t) || (d && bishop_reach(square@, t, occ2) && (
                            board.has_type(PieceType::Bishop, t) || board.has_type(PieceType::Queen, t)))
                                || (o && rook_reach(square@, t, occ2) && (board.has_type(
                                PieceType::Rook,
                                t,
                            ) || board.has_type(PieceType::Queen, t)))) && occ2.contains(t),
                    );
                    assert(squares(attackers) =~= att2);
                    assert(score as int == -score_before - 1 - see_value(pt));
                    assert(score >= 0 ==> answer == (if pt == PieceType::King && side_attacks(*board, squares(attackers), us) {
                        us0
                    } else {
                        us
                    }));
                    assert(score < 0 ==> answer == see_swap(*board, square@, occupancy, squares(attackers), us, score as int));
                }
                None => {
                    assert(score >= 0);
                }
            }
        }
        if score >= 0 {
            let theirs = attackers.bit_and(board.colors(us));
            proof {
                if theirs.nonempty() {
                    let t = choose|t: int| #[trigger] theirs.contains(t);
                    assert(squares(attackers).contains(t) && board.has_color(us, t));
                }
                if side_attacks(*board, squares(attackers), us) {
                    let t = choose|t: int| #[trigger] squares(attackers).contains(t) && board.has_color(us, t);
                    assert(attackers.contains(t));
                    assert(theirs.contains(t));
                }
                assert(is_king <==> next == Some(PieceType::King));
            }
            if is_king && theirs.any() {
                us = us.flip();
            }
            break;
        }
    }
    board.stm() != us
}

} // verus!
