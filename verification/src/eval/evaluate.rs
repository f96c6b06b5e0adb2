use vstd::prelude::*;

use super::params::EvalValues;
use super::score_pair::{lemma_wrap_add, wrap32, ScorePair};
use super::sums::{
    bb_sum, count_where, lemma_bb_sum_empty, lemma_bb_sum_remove, lemma_count_bounds, lemma_popcount_count,
    lemma_sum_bounds, lemma_sum_ext, lemma_sum_point, sum_below,
};
use crate::chess::attacks::{self, bishop_reach, east_capture_set, king_step, knight_step, passed_span, push_set, rook_reach, west_capture_set};
use crate::chess::board::Board;
use crate::chess::movegen::piece_reach;
use crate::types::piece::lemma_piece_round_trip;
use crate::types::square::{chebyshev_dist, file_of, rank_of, relative_index};
use crate::types::{Bitboard, Color, Piece, PieceType, Square};

verus! {

/// A piece of color `c` and kind `pt` stands on `s`.
pub open spec fn has_piece(b: Board, c: Color, pt: PieceType, s: int) -> bool {
    b.has_color(c, s) && b.has_type(pt, s)
}

/// The sum of `f(s)` over the squares `s` holding a piece of color `c` and kind `pt`.
pub open spec fn piece_sum(b: Board, c: Color, pt: PieceType, f: spec_fn(int) -> int) -> int {
    sum_below(|s: int| if has_piece(b, c, pt, s) { f(s) } else { 0 }, 64)
}

/// Whether a pawn of side `c` attacks `t`.
pub open spec fn pawn_attacked(b: Board, c: Color, t: int) -> bool {
    west_capture_set(c == Color::White, b.colored_bb(c, PieceType::Pawn), t) || east_capture_set(
        c == Color::White,
        b.colored_bb(c, PieceType::Pawn),
        t,
    )
}

/// The mobility area of side `c`: the squares that no pawn of the other side attacks.
pub open spec fn mobility_area(b: Board, c: Color, t: int) -> bool {
    0 <= t < 64 && !pawn_attacked(b, c.opp(), t)
}

/// The number of squares of the mobility area of side `c` that a piece of kind `pt` on `s`
/// attacks.
pub open spec fn mobility_of(b: Board, c: Color, pt: PieceType, s: int) -> int {
    count_where(|t: int| piece_reach(pt, s, t, b.occ_bb()) && mobility_area(b, c, t))
}

/// The number of pieces of side `c` and kind `pt` that attack `t`.
pub open spec fn batch_cover(b: Board, c: Color, pt: PieceType, t: int) -> int {
    piece_sum(b, c, pt, cover_f(b, pt, t))
}

/// The squares of `ring` that a piece of kind `pt` on `s` attacks.
pub open spec fn ring_hit(b: Board, pt: PieceType, s: int, ring: Bitboard) -> spec_fn(int) -> bool {
    |t: int| ring.contains(t) && piece_reach(pt, s, t, b.occ_bb())
}

/// The number of squares of `ring` that a piece of kind `pt` on `s` attacks.
pub open spec fn ring_hits(b: Board, pt: PieceType, s: int, ring: Bitboard) -> int {
    count_where(ring_hit(b, pt, s, ring))
}

/// For a target square `t`, 1 on the squares from which a piece of kind `pt` attacks `t`.
pub open spec fn cover_f(b: Board, pt: PieceType, t: int) -> spec_fn(int) -> int {
    |s: int| if piece_reach(pt, s, t, b.occ_bb()) { 1int } else { 0int }
}

/// The number of squares of `bb` from which a piece of kind `pt` attacks `t`.
pub open spec fn cov_sum(bb: Bitboard, b: Board, pt: PieceType, t: int) -> int {
    bb_sum(bb, cover_f(b, pt, t))
}

/// The counts of attackers of `t` on `pieces` lie between 0 and those on `orig`.
pub open spec fn cov_ok(orig: Bitboard, pieces: Bitboard, b: Board, pt: PieceType, t: int) -> bool {
    0 <= cov_sum(pieces, b, pt, t) <= cov_sum(orig, b, pt, t)
}

/// The attack maps and king danger that the evaluation gathers for both sides. The maps by
/// piece kind are indexed by color times 6 plus kind.
pub struct EvalData {
    pub attacked: [Bitboard; 2],
    pub attacked_by: [Bitboard; 12],
    pub attacked_by_2: [Bitboard; 2],
    pub king_ring: [Bitboard; 2],
    pub king_attack_weight: [ScorePair; 2],
    pub king_attacks: [i32; 2],
}

/// The number of squares that satisfy `p` is 1 or more exactly when one of them does.
pub proof fn lemma_count_pos(p: spec_fn(int) -> bool)
    ensures
        count_where(p) >= 1 <==> exists|t: int| 0 <= t < 64 && #[trigger] p(t),
        count_where(p) >= 0,
{
    let f = |s: int| if p(s) { 1int } else { 0int };
    lemma_sum_bounds(f, 64, 1);
    lemma_sum_pos(f, 64);
    if exists|t: int| 0 <= t < 64 && #[trigger] p(t) {
        let t = choose|t: int| 0 <= t < 64 && #[trigger] p(t);
        assert(f(t) == 1);
    }
    if exists|t: int| 0 <= t < 64 && #[trigger] f(t) == 1 {
        let t = choose|t: int| 0 <= t < 64 && #[trigger] f(t) == 1;
        assert(p(t));
    }
}

/// A sum of zeros and ones is positive exactly when one of its terms is.
proof fn lemma_sum_pos(f: spec_fn(int) -> int, n: int)
    requires
        forall|i: int| 0 <= i < n ==> 0 <= #[trigger] f(i) <= 1,
    ensures
        sum_below(f, n) >= 1 <==> exists|t: int| 0 <= t < n && #[trigger] f(t) == 1,
    decreases n,
{
    if n > 0 {
        lemma_sum_pos(f, n - 1);
        lemma_sum_bounds(f, n - 1, 1);
        assert(0 <= f(n - 1) <= 1);
        if exists|t: int| 0 <= t < n && #[trigger] f(t) == 1 {
            let t = choose|t: int| 0 <= t < n && #[trigger] f(t) == 1;
            if t < n - 1 {
                assert(exists|u: int| 0 <= u < n - 1 && #[trigger] f(u) == 1);
            }
        }
        if exists|t: int| 0 <= t < n - 1 && #[trigger] f(t) == 1 {
            let t = choose|t: int| 0 <= t < n - 1 && #[trigger] f(t) == 1;
            assert(0 <= t < n && f(t) == 1);
        }
    }
}

/// The mobility of the pieces of side `color` and kind `pt` (a knight, bishop, rook or queen),
/// with the attack maps of that side updated by their attacks and the king danger they cause
/// to the other side added.
pub(crate) fn evaluate_piece<P: EvalValues>(board: &Board, pt: PieceType, color: Color, eval_data: &mut EvalData) -> (r: ScorePair)
    requires
        1 <= pt@ <= 4,
        0 <= old(eval_data).king_attacks[color@] <= 3 * 4096,
    ensures
        r@ == wrap32(piece_sum(*board, color, pt, |s: int| P::mobility_spec(pt, mobility_of(*board, color, pt, s) as u32))),
        forall|t: int| #[trigger] final(eval_data).attacked[color@].contains(t) == (old(eval_data).attacked[color@].contains(t) || batch_cover(*board, color, pt, t) >= 1),
        forall|t: int| #[trigger] final(eval_data).attacked_by_2[color@].contains(t) == (old(eval_data).attacked_by_2[color@].contains(t)
            || (old(eval_data).attacked[color@].contains(t) && batch_cover(*board, color, pt, t) >= 1) || batch_cover(*board, color, pt, t) >= 2),
        forall|t: int| #[trigger] final(eval_data).attacked_by[6 * color@ + pt@].contains(t) == (old(eval_data).attacked_by[6 * color@ + pt@].contains(t) || batch_cover(*board, color, pt, t) >= 1),
        final(eval_data).king_attack_weight[color@]@ == wrap32(old(eval_data).king_attack_weight[color@]@ + piece_sum(*board, color, pt, |s: int|
            if ring_hits(*board, pt, s, old(eval_data).king_ring[color.opp()@]) >= 1 { P::king_attacker_weight_spec(pt) } else { 0 })),
        final(eval_data).king_attacks[color@] == old(eval_data).king_attacks[color@] + piece_sum(*board, color, pt, |s: int|
            ring_hits(*board, pt, s, old(eval_data).king_ring[color.opp()@])),
        old(eval_data).king_attacks[color@] <= final(eval_data).king_attacks[color@] <= old(eval_data).king_attacks[color@] + 4096,
        final(eval_data).attacked[color.opp()@] == old(eval_data).attacked[color.opp()@],
        final(eval_data).attacked_by_2[color.opp()@] == old(eval_data).attacked_by_2[color.opp()@],
        forall|i: int| 0 <= i < 12 && i != 6 * color@ + pt@ ==> #[trigger] final(eval_data).attacked_by[i] == old(eval_data).attacked_by[i],
        final(eval_data).king_ring == old(eval_data).king_ring,
        final(eval_data).king_attack_weight[color.opp()@] == old(eval_data).king_attack_weight[color.opp()@],
        final(eval_data).king_attacks[color.opp()@] == old(eval_data).king_attacks[color.opp()@],
{
    let ghost d0 = *eval_data;
    let ghost b = *board;
    let ci = color.index();
    let oi = color.flip().index();
    let ki = 6 * ci + pt.index();
    let ring = eval_data.king_ring[oi];
    let mut eval = ScorePair::zero();
    let opp_pawns = board.colored_pieces(Piece::new(color.flip(), PieceType::Pawn));
    let area = attacks::pawn_attacks_bb(color.flip(), opp_pawns).bit_not();
    let occ = board.occ();
    let ghost mob_f = |s: int| P::mobility_spec(pt, mobility_of(b, color, pt, s) as u32);
    let ghost kaw_f = |s: int| if ring_hits(b, pt, s, ring) >= 1 { P::king_attacker_weight_spec(pt) } else { 0 };
    let ghost ka_f = |s: int| ring_hits(b, pt, s, ring);
    let mut pieces = board.colored_pieces(Piece::new(color, pt));
    let ghost orig = pieces;
    proof {
        assert forall|t: int| #[trigger] area.contains(t) == mobility_area(b, color, t) by {}
        d0.king_attack_weight[color@].lemma_range();
        assert forall|s: int| 0 <= s < 64 implies 0 <= #[trigger] ka_f(s) <= 64 by {
            lemma_count_bounds(ring_hit(b, pt, s, ring));
        }
        lemma_sum_bounds(|s: int| if orig.contains(s) { ka_f(s) } else { 0 }, 64, 64);
        lemma_sum_bounds(|s: int| if pieces.contains(s) { ka_f(s) } else { 0 }, 64, 64);
        assert forall|t: int| #[trigger] cov_ok(orig, pieces, b, pt, t) by {
            lemma_sum_bounds(|s: int| if pieces.contains(s) { cover_f(b, pt, t)(s) } else { 0 }, 64, 1);
        }
    }
    while pieces.any()
        invariant
            1 <= pt@ <= 4,
            ci == color@,
            oi == color.opp()@,
            ki == 6 * color@ + pt@,
            b == *board,
            occ == board.occ_bb(),
            ring == d0.king_ring[color.opp()@],
            forall|t: int| #[trigger] area.contains(t) == mobility_area(b, color, t),
            forall|s: int| #[trigger] orig.contains(s) == has_piece(b, color, pt, s),
            forall|s: int| #[trigger] pieces.contains(s) ==> orig.contains(s),
            eval@ == wrap32(bb_sum(orig, mob_f) - bb_sum(pieces, mob_f)),
            forall|s: int| #[trigger] mob_f(s) == P::mobility_spec(pt, mobility_of(b, color, pt, s) as u32),
            forall|s: int| #[trigger] kaw_f(s) == (if ring_hits(b, pt, s, ring) >= 1 { P::king_attacker_weight_spec(pt) } else { 0 }),
            forall|s: int| #[trigger] ka_f(s) == ring_hits(b, pt, s, ring),
            0 <= d0.king_attacks[color@] <= 3 * 4096,
            0 <= bb_sum(pieces, ka_f) <= bb_sum(orig, ka_f) <= 4096,
            forall|t: int| #[trigger] eval_data.attacked[color@].contains(t) == (d0.attacked[color@].contains(t)
                || cov_sum(orig, b, pt, t) - cov_sum(pieces, b, pt, t) >= 1),
            forall|t: int| #[trigger] eval_data.attacked_by_2[color@].contains(t) == (d0.attacked_by_2[color@].contains(t)
                || (d0.attacked[color@].contains(t) && cov_sum(orig, b, pt, t) - cov_sum(pieces, b, pt, t) >= 1)
                || cov_sum(orig, b, pt, t) - cov_sum(pieces, b, pt, t) >= 2),
            forall|t: int| #[trigger] eval_data.attacked_by[6 * color@ + pt@].contains(t) == (d0.attacked_by[6 * color@ + pt@].contains(t)
                || cov_sum(orig, b, pt, t) - cov_sum(pieces, b, pt, t) >= 1),
            forall|t: int| #[trigger] cov_ok(orig, pieces, b, pt, t),
            eval_data.king_attack_weight[color@]@ == wrap32(d0.king_attack_weight[color@]@ + bb_sum(orig, kaw_f) - bb_sum(pieces, kaw_f)),
            eval_data.king_attacks[color@] == d0.king_attacks[color@] + bb_sum(orig, ka_f) - bb_sum(pieces, ka_f),
            eval_data.attacked[color.opp()@] == d0.attacked[color.opp()@],
            eval_data.attacked_by_2[color.opp()@] == d0.attacked_by_2[color.opp()@],
            forall|i: int| 0 <= i < 12 && i != 6 * color@ + pt@ ==> #[trigger] eval_data.attacked_by[i] == d0.attacked_by[i],
            eval_data.king_ring == d0.king_ring,
            eval_data.king_attack_weight[color.opp()@] == d0.king_attack_weight[color.opp()@],
            eval_data.king_attacks[color.opp()@] == d0.king_attacks[color.opp()@],
        decreases pieces@,
    {
        let ghost rem0 = pieces;
        let sq = pieces.poplsb();
        let attacks = attacks::piece_attacks(pt, sq, occ);
        let mobile = attacks.bit_and(area);
        let mobility = mobile.popcount();
        proof {
            lemma_popcount_count(mobile, |t: int| piece_reach(pt, sq@, t, b.occ_bb()) && mobility_area(b, color, t));
            assert(mobility == mobility_of(b, color, pt, sq@));
            crate::eval::mobility::lemma_mobility_bound(b, color, pt, sq@);
        }
        let ghost e0 = eval@;
        eval = eval.plus(P::mobility(pt, mobility));
        proof {
            lemma_bb_sum_remove(rem0, pieces, sq@, mob_f);
            assert(mob_f(sq@) == P::mobility_spec(pt, mobility));
            lemma_wrap_add(bb_sum(orig, mob_f) - bb_sum(rem0, mob_f), mob_f(sq@));
            assert(eval@ == wrap32(e0 + mob_f(sq@)));
        }
        let ghost data_before = *eval_data;
        let before = eval_data.attacked[ci];
        let new_a2 = eval_data.attacked_by_2[ci].bit_or(attacks.bit_and(before));
        eval_data.attacked_by_2[ci] = new_a2;
        let new_att = before.bit_or(attacks);
        eval_data.attacked[ci] = new_att;
        let new_by = eval_data.attacked_by[ki].bit_or(attacks);
        eval_data.attacked_by[ki] = new_by;
        proof {
            assert(eval_data.attacked[color@] == new_att);
            assert(eval_data.attacked_by_2[color@] == new_a2);
            assert(eval_data.attacked_by[6 * color@ + pt@] == new_by);
            assert(before == data_before.attacked[color@]);
        }
        let ring_attacks = ring.bit_and(attacks);
        proof {
            let hit = ring_hit(b, pt, sq@, ring);
            assert forall|t: int| #[trigger] ring_attacks.contains(t) == (0 <= t < 64 && hit(t)) by {}
            lemma_popcount_count(ring_attacks, hit);
            lemma_count_pos(hit);
            lemma_bb_sum_remove(rem0, pieces, sq@, ka_f);
            lemma_bb_sum_remove(rem0, pieces, sq@, kaw_f);
            assert forall|s: int| 0 <= s < 64 implies 0 <= #[trigger] ka_f(s) <= 64 by {
                lemma_count_bounds(ring_hit(b, pt, s, ring));
            }
            lemma_sum_bounds(|s: int| if pieces.contains(s) { ka_f(s) } else { 0 }, 64, 64);
            assert forall|t: int| #[trigger] ring_attacks.contains(t) implies 0 <= t < 64 && ring.contains(t) && piece_reach(pt, sq@, t, b.occ_bb()) by {}
            if ring_attacks.nonempty() {
                let w = choose|i: int| #[trigger] ring_attacks.contains(i);
                assert(ring_attacks.contains(w));
                assert(0 <= w < 64 && hit(w));
            }
            if exists|t: int| 0 <= t < 64 && #[trigger] hit(t) {
                let w = choose|t: int| 0 <= t < 64 && #[trigger] hit(t);
                assert(ring_attacks.contains(w));
            }
            assert(ring_attacks.nonempty() == (ring_hits(b, pt, sq@, ring) >= 1));
        }
        if ring_attacks.any() {
            eval_data.king_attack_weight[ci] = eval_data.king_attack_weight[ci].plus(P::king_attacker_weight(pt));
            eval_data.king_attacks[ci] = eval_data.king_attacks[ci] + ring_attacks.popcount() as i32;
        }
        proof {
            lemma_wrap_add(d0.king_attack_weight[color@]@ + bb_sum(orig, kaw_f) - bb_sum(rem0, kaw_f), kaw_f(sq@));
            assert forall|t: int| #[trigger] cov_sum(rem0, b, pt, t) == cov_sum(pieces, b, pt, t) + cover_f(b, pt, t)(sq@) by {
                lemma_bb_sum_remove(rem0, pieces, sq@, cover_f(b, pt, t));
            }
            assert forall|t: int| #[trigger] cov_ok(orig, pieces, b, pt, t) by {
                lemma_bb_sum_remove(rem0, pieces, sq@, cover_f(b, pt, t));
                lemma_sum_bounds(|s: int| if pieces.contains(s) { cover_f(b, pt, t)(s) } else { 0 }, 64, 1);
                assert(cov_ok(orig, rem0, b, pt, t));
                assert(0 <= cover_f(b, pt, t)(sq@) <= 1);
                assert(0 <= cov_sum(pieces, b, pt, t));
            }
            assert forall|t: int| #[trigger] attacks.contains(t) == (cover_f(b, pt, t)(sq@) == 1) by {}
            assert forall|t: int| #[trigger] eval_data.attacked[color@].contains(t) == (d0.attacked[color@].contains(t)
                || cov_sum(orig, b, pt, t) - cov_sum(pieces, b, pt, t) >= 1) by {
                assert(data_before.attacked[color@].contains(t) == (d0.attacked[color@].contains(t)
                    || cov_sum(orig, b, pt, t) - cov_sum(rem0, b, pt, t) >= 1));
                assert(cov_sum(rem0, b, pt, t) == cov_sum(pieces, b, pt, t) + cover_f(b, pt, t)(sq@));
                assert(attacks.contains(t) == (cover_f(b, pt, t)(sq@) == 1));
                assert(eval_data.attacked[color@] == new_att);
                assert(new_att.contains(t) == (before.contains(t) || attacks.contains(t)));
                assert(before.contains(t) == data_before.attacked[color@].contains(t));
                assert(cov_ok(orig, rem0, b, pt, t));
            }
            assert forall|t: int| #[trigger] eval_data.attacked_by_2[color@].contains(t) == (d0.attacked_by_2[color@].contains(t)
                || (d0.attacked[color@].contains(t) && cov_sum(orig, b, pt, t) - cov_sum(pieces, b, pt, t) >= 1)
                || cov_sum(orig, b, pt, t) - cov_sum(pieces, b, pt, t) >= 2) by {
                assert(data_before.attacked[color@].contains(t) == (d0.attacked[color@].contains(t)
                    || cov_sum(orig, b, pt, t) - cov_sum(rem0, b, pt, t) >= 1));
                assert(data_before.attacked_by_2[color@].contains(t) == (d0.attacked_by_2[color@].contains(t)
                    || (d0.attacked[color@].contains(t) && cov_sum(orig, b, pt, t) - cov_sum(rem0, b, pt, t) >= 1)
                    || cov_sum(orig, b, pt, t) - cov_sum(rem0, b, pt, t) >= 2));
                assert(cov_sum(rem0, b, pt, t) == cov_sum(pieces, b, pt, t) + cover_f(b, pt, t)(sq@));
                assert(attacks.contains(t) == (cover_f(b, pt, t)(sq@) == 1));
                assert(eval_data.attacked_by_2[color@] == new_a2);
                assert(new_a2.contains(t) == (data_before.attacked_by_2[color@].contains(t) || (attacks.contains(t) && before.contains(t))));
                assert(before.contains(t) == data_before.attacked[color@].contains(t));
                assert(cov_ok(orig, rem0, b, pt, t));
            }
            assert forall|t: int| #[trigger] eval_data.attacked_by[6 * color@ + pt@].contains(t) == (d0.attacked_by[6 * color@ + pt@].contains(t)
                || cov_sum(orig, b, pt, t) - cov_sum(pieces, b, pt, t) >= 1) by {
                assert(data_before.attacked_by[6 * color@ + pt@].contains(t) == (d0.attacked_by[6 * color@ + pt@].contains(t)
                    || cov_sum(orig, b, pt, t) - cov_sum(rem0, b, pt, t) >= 1));
                assert(cov_sum(rem0, b, pt, t) == cov_sum(pieces, b, pt, t) + cover_f(b, pt, t)(sq@));
                assert(attacks.contains(t) == (cover_f(b, pt, t)(sq@) == 1));
                assert(eval_data.attacked_by[6 * color@ + pt@] == new_by);
                assert(new_by.contains(t) == (data_before.attacked_by[6 * color@ + pt@].contains(t) || attacks.contains(t)));
                assert(cov_ok(orig, rem0, b, pt, t));
            }
        }
    }
    proof {
        lemma_bb_sum_empty(pieces, mob_f);
        lemma_sum_ext(|s: int| if orig.contains(s) { mob_f(s) } else { 0 }, |s: int| if has_piece(b, color, pt, s) { mob_f(s) } else { 0 }, 64);
        lemma_bb_sum_empty(pieces, kaw_f);
        lemma_sum_ext(|s: int| if orig.contains(s) { kaw_f(s) } else { 0 }, |s: int| if has_piece(b, color, pt, s) { kaw_f(s) } else { 0 }, 64);
        lemma_bb_sum_empty(pieces, ka_f);
        lemma_sum_ext(|s: int| if orig.contains(s) { ka_f(s) } else { 0 }, |s: int| if has_piece(b, color, pt, s) { ka_f(s) } else { 0 }, 64);
        assert forall|t: int| #[trigger] cov_sum(orig, b, pt, t) - cov_sum(pieces, b, pt, t) == batch_cover(b, color, pt, t) by {
            lemma_bb_sum_empty(pieces, cover_f(b, pt, t));
            lemma_sum_ext(|s: int| if orig.contains(s) { cover_f(b, pt, t)(s) } else { 0 }, |s: int| if has_piece(b, color, pt, s) { cover_f(b, pt, t)(s) } else { 0 }, 64);
        }
    }
    eval
}

/// The number of pieces of side `c` that attack `t` among its king and its knights, bishops,
/// rooks and queens; pawns are not counted.
pub open spec fn coverage(b: Board, c: Color, t: int) -> int {
    (if king_step(b.king_square(c), t) { 1int } else { 0int }) + batch_cover(b, c, PieceType::Knight, t)
        + batch_cover(b, c, PieceType::Bishop, t) + batch_cover(b, c, PieceType::Rook, t)
        + batch_cover(b, c, PieceType::Queen, t)
}

/// Whether side `c` attacks `t` with its king, knights, bishops, rooks or queens.
pub open spec fn attacked_final(b: Board, c: Color, t: int) -> bool {
    coverage(b, c, t) >= 1
}

/// Whether side `c` attacks `t` twice or more with its king, knights, bishops, rooks or queens.
pub open spec fn attacked2_final(b: Board, c: Color, t: int) -> bool {
    coverage(b, c, t) >= 2
}

/// Whether a piece of side `c` and kind `pt` attacks `t`.
pub open spec fn attacked_by_final(b: Board, c: Color, pt: PieceType, t: int) -> bool {
    match pt {
        PieceType::Pawn => pawn_attacked(b, c, t),
        PieceType::King => king_step(b.king_square(c), t),
        _ => batch_cover(b, c, pt, t) >= 1,
    }
}

/// The ring around the king of side `c`: the squares next to it and those one rank further
/// towards the other side, the king square left out.
pub open spec fn ring_spec(b: Board, c: Color, t: int) -> bool {
    let k = b.king_square(c);
    &&& 0 <= t < 64
    &&& t != k
    &&& (king_step(k, t) || if c == Color::White {
        8 <= t && king_step(k, t - 8)
    } else {
        t < 56 && king_step(k, t + 8)
    })
}

/// Whether `r` holds exactly the ring around the king of side `c`.
pub open spec fn is_ring(r: Bitboard, b: Board, c: Color) -> bool {
    forall|t: int| #[trigger] r.contains(t) == ring_spec(b, c, t)
}

/// The ring around the king of side `c` as a set.
pub open spec fn ring_bb(b: Board, c: Color) -> Bitboard {
    choose|r: Bitboard| #[trigger] is_ring(r, b, c)
}

/// The king danger weight that the pieces of side `c` and kind `pt` cause to the other side.
pub open spec fn kaw_part<P: EvalValues>(b: Board, c: Color, pt: PieceType) -> int {
    piece_sum(b, c, pt, |s: int| if ring_hits(b, pt, s, ring_bb(b, c.opp())) >= 1 { P::king_attacker_weight_spec(pt) } else { 0 })
}

/// The number of attacks on the other king's ring by the pieces of side `c` and kind `pt`.
pub open spec fn ka_part(b: Board, c: Color, pt: PieceType) -> int {
    piece_sum(b, c, pt, |s: int| ring_hits(b, pt, s, ring_bb(b, c.opp())))
}

/// The king danger weight that side `c` causes to the other side.
pub open spec fn kaw_total<P: EvalValues>(b: Board, c: Color) -> int {
    kaw_part::<P>(b, c, PieceType::Knight) + kaw_part::<P>(b, c, PieceType::Bishop) + kaw_part::<P>(b, c, PieceType::Rook)
        + kaw_part::<P>(b, c, PieceType::Queen)
}

/// The number of attacks of side `c` on the other king's ring.
pub open spec fn ka_total(b: Board, c: Color) -> int {
    ka_part(b, c, PieceType::Knight) + ka_part(b, c, PieceType::Bishop) + ka_part(b, c, PieceType::Rook) + ka_part(b, c, PieceType::Queen)
}

/// The evaluation data as gathered once all pieces are seen.
pub open spec fn data_final<P: EvalValues>(d: EvalData, b: Board) -> bool {
    &&& forall|c: Color, t: int| #[trigger] d.attacked[c@].contains(t) == attacked_final(b, c, t)
    &&& forall|c: Color, t: int| #[trigger] d.attacked_by_2[c@].contains(t) == attacked2_final(b, c, t)
    &&& forall|c: Color, pt: PieceType, t: int| #[trigger] d.attacked_by[6 * c@ + pt@].contains(t) == attacked_by_final(b, c, pt, t)
    &&& forall|c: Color| #[trigger] d.king_ring[c@] == ring_bb(b, c)
    &&& forall|c: Color| #[trigger] d.king_attack_weight[c@]@ == wrap32(kaw_total::<P>(b, c))
    &&& forall|c: Color| #[trigger] d.king_attacks[c@] == ka_total(b, c)
}

/// Whether `s` holds the lowest pawn (or, when `high`, the highest) of side `side` on file
/// `file`.
pub open spec fn is_end_pawn(b: Board, side: Color, file: int, high: bool, s: int) -> bool {
    &&& has_piece(b, side, PieceType::Pawn, s)
    &&& file_of(s) == file
    &&& forall|u: int|
        #[trigger] has_piece(b, side, PieceType::Pawn, u) && file_of(u) == file ==> if high {
            u <= s
        } else {
            s <= u
        }
}

/// Whether side `side` has a pawn on file `file`.
pub open spec fn has_file_pawn(b: Board, side: Color, file: int) -> bool {
    exists|s: int| #[trigger] has_piece(b, side, PieceType::Pawn, s) && file_of(s) == file
}

/// The lowest (or, when `high`, highest) pawn of side `side` on file `file`.
pub open spec fn end_pawn(b: Board, side: Color, file: int, high: bool) -> int {
    choose|s: int| #[trigger] is_end_pawn(b, side, file, high, s)
}

/// The rank, seen from side `view`, of the lowest (or highest) pawn of side `side` on file
/// `file`; 0 when there is none.
pub open spec fn file_pawn_rank(b: Board, side: Color, file: int, high: bool, view: Color) -> int {
    if has_file_pawn(b, side, file) {
        rank_of(relative_index(end_pawn(b, side, file, high), view == Color::White))
    } else {
        0
    }
}

/// The pawn shield and pawn storm on file `file` in front of the king of the side other than
/// `c`.
pub open spec fn kpf_spec<P: EvalValues>(b: Board, c: Color, file: int) -> int {
    let edge = if file < 7 - file {
        file
    } else {
        7 - file
    };
    let white = c == Color::White;
    P::pawn_shield_spec(edge as u8, file_pawn_rank(b, c.opp(), file, white, c.opp()) as u8)
        + P::pawn_storm_spec(edge as u8, file_pawn_rank(b, c, file, white, c.opp()) as u8)
}

/// The rank, seen from side `view`, of the highest (`high`) or lowest pawn of `side` on `file`.
fn file_pawn_rank_of(board: &Board, side: Color, file: u8, high: bool, view: Color) -> (r: u8)
    requires
        file < 8,
    ensures
        r == file_pawn_rank(*board, side, file as int, high, view),
        r < 8,
{
    let pawns = board.colored_pieces(Piece::new(side, PieceType::Pawn));
    let file_pawns = pawns.bit_and(Bitboard::file(file));
    if file_pawns.any() {
        let sq = if high {
            file_pawns.msb()
        } else {
            file_pawns.lsb()
        };
        proof {
            let b = *board;
            assert(is_end_pawn(b, side, file as int, high, sq@)) by {
                assert forall|u: int| #[trigger] has_piece(b, side, PieceType::Pawn, u) && file_of(u) == file implies (if high {
                    u <= sq@
                } else {
                    sq@ <= u
                }) by {
                    assert(file_pawns.contains(u));
                }
            }
            let e = end_pawn(b, side, file as int, high);
            assert(is_end_pawn(b, side, file as int, high, e));
            assert(has_piece(b, side, PieceType::Pawn, e) && file_of(e) == file);
            assert(has_file_pawn(b, side, file as int));
        }
        sq.relative_sq(view).rank()
    } else {
        proof {
            let b = *board;
            if has_file_pawn(b, side, file as int) {
                let s = choose|s: int| #[trigger] has_piece(b, side, PieceType::Pawn, s) && file_of(s) == file;
                assert(file_pawns.contains(s));
            }
        }
        0
    }
}

/// The pawn shield and pawn storm on file `file` in front of the other side's king.
fn evaluate_king_pawn_file<P: EvalValues>(board: &Board, color: Color, their_king: Square, file: u8) -> (r: ScorePair)
    requires
        file < 8,
    ensures
        r@ == wrap32(kpf_spec::<P>(*board, color, file as int)),
{
    let edge_dist = if file < 7 - file {
        file
    } else {
        7 - file
    };
    let white = color == Color::White;
    let shield_rank = file_pawn_rank_of(board, color.flip(), file, white, color.flip());
    let storm_rank = file_pawn_rank_of(board, color, file, white, color.flip());
    let r = P::pawn_shield(edge_dist, shield_rank).plus(P::pawn_storm(edge_dist, storm_rank));
    r
}

/// Whether `t` is weak for side `c`: the other side does not attack it, or attacks it only
/// once and with its king among others.
pub open spec fn weak_sq(b: Board, c: Color, t: int) -> bool {
    let opp = c.opp();
    0 <= t < 64 && (!attacked_final(b, opp, t) || (!attacked2_final(b, opp, t) && king_step(b.king_square(opp), t)))
}

/// Whether a check from `t` by side `c` is safe: `t` holds no piece of side `c`, and the other
/// side does not attack it, or it is weak and side `c` attacks it twice.
pub open spec fn safe_sq(b: Board, c: Color, t: int) -> bool {
    &&& 0 <= t < 64
    &&& !b.has_color(c, t)
    &&& (!attacked_final(b, c.opp(), t) || (weak_sq(b, c, t) && attacked2_final(b, c, t)))
}

/// The king safety terms of side `c` against the other side's king.
pub open spec fn kings_spec<P: EvalValues>(b: Board, c: Color) -> int {
    let k = b.king_square(c.opp());
    let f = file_of(k);
    let mf = if f < 1 {
        1
    } else if f > 6 {
        6
    } else {
        f
    };
    let occ = b.occ_bb();
    let ka = ka_total(b, c);
    kpf_spec::<P>(b, c, mf - 1) + kpf_spec::<P>(b, c, mf) + kpf_spec::<P>(b, c, mf + 1)
        + P::safe_knight_check_spec() * count_where(|t: int| attacked_by_final(b, c, PieceType::Knight, t) && knight_step(k, t) && safe_sq(b, c, t))
        + P::safe_bishop_check_spec() * count_where(|t: int| attacked_by_final(b, c, PieceType::Bishop, t) && bishop_reach(k, t, occ) && safe_sq(b, c, t))
        + P::safe_rook_check_spec() * count_where(|t: int| attacked_by_final(b, c, PieceType::Rook, t) && rook_reach(k, t, occ) && safe_sq(b, c, t))
        + P::safe_queen_check_spec() * count_where(|t: int| attacked_by_final(b, c, PieceType::Queen, t) && (bishop_reach(k, t, occ) || rook_reach(k, t, occ)) && safe_sq(b, c, t))
        + kaw_total::<P>(b, c) + P::king_attacks_spec((if ka < 13 { ka } else { 13 }) as u32)
}

/// The king safety terms of side `color` against the other side's king.
pub(crate) fn evaluate_kings<P: EvalValues>(board: &Board, color: Color, eval_data: &EvalData) -> (r: ScorePair)
    requires
        board.has_king(color.opp()),
        data_final::<P>(*eval_data, *board),
        0 <= eval_data.king_attacks[color@],
    ensures
        r@ == wrap32(kings_spec::<P>(*board, color)),
{
    let ghost b = *board;
    let ci = color.index();
    let oi = color.flip().index();
    let their_king = board.king_sq(color.flip());
    let f = their_king.file();
    let middle_file = if f < 1 {
        1
    } else if f > 6 {
        6
    } else {
        f
    };
    let mut eval = evaluate_king_pawn_file::<P>(board, color, their_king, middle_file - 1);
    let e1 = evaluate_king_pawn_file::<P>(board, color, their_king, middle_file);
    let ghost x1 = eval@;
    eval = eval.plus(e1);
    let e2 = evaluate_king_pawn_file::<P>(board, color, their_king, middle_file + 1);
    let ghost x2 = eval@;
    eval = eval.plus(e2);
    proof {
        lemma_wrap_add(kpf_spec::<P>(b, color, middle_file - 1), kpf_spec::<P>(b, color, middle_file as int));
        lemma_wrap_add(kpf_spec::<P>(b, color, middle_file - 1), e1@);
        lemma_wrap_add(kpf_spec::<P>(b, color, middle_file - 1) + kpf_spec::<P>(b, color, middle_file as int), e2@);
        lemma_wrap_add(kpf_spec::<P>(b, color, middle_file - 1) + kpf_spec::<P>(b, color, middle_file as int), kpf_spec::<P>(b, color, middle_file + 1));
    }
    let occ = board.occ();
    let rook_check_squares = attacks::rook_attacks(their_king, occ);
    let bishop_check_squares = attacks::bishop_attacks(their_king, occ);
    let knight_checks = eval_data.attacked_by[6 * ci + 1].bit_and(attacks::knight_attacks(their_king));
    let bishop_checks = eval_data.attacked_by[6 * ci + 2].bit_and(bishop_check_squares);
    let rook_checks = eval_data.attacked_by[6 * ci + 3].bit_and(rook_check_squares);
    let queen_checks = eval_data.attacked_by[6 * ci + 4].bit_and(bishop_check_squares.bit_or(rook_check_squares));
    let weak = eval_data.attacked[oi].bit_not().bit_or(eval_data.attacked_by_2[oi].bit_not().bit_and(eval_data.attacked_by[6 * oi + 5]));
    let safe = board.colors(color).bit_not().bit_and(eval_data.attacked[oi].bit_not().bit_or(weak.bit_and(eval_data.attacked_by_2[ci])));
    let kn = knight_checks.bit_and(safe);
    let bn = bishop_checks.bit_and(safe);
    let rn = rook_checks.bit_and(safe);
    let qn = queen_checks.bit_and(safe);
    let ghost k = their_king@;
    proof {
        let opp = color.opp();
        assert(opp@ == oi);
        assert forall|t: int| #[trigger] weak.contains(t) == weak_sq(b, color, t) by {
            assert(eval_data.attacked[opp@].contains(t) == attacked_final(b, opp, t));
            assert(eval_data.attacked_by_2[opp@].contains(t) == attacked2_final(b, opp, t));
            assert(eval_data.attacked_by[6 * opp@ + PieceType::King@].contains(t) == attacked_by_final(b, opp, PieceType::King, t));
        }
        assert forall|t: int| #[trigger] safe.contains(t) == safe_sq(b, color, t) by {
            assert(eval_data.attacked[opp@].contains(t) == attacked_final(b, opp, t));
            assert(eval_data.attacked_by_2[color@].contains(t) == attacked2_final(b, color, t));
        }
        assert forall|t: int| 0 <= t < 64 implies #[trigger] kn.contains(t) == (attacked_by_final(b, color, PieceType::Knight, t) && knight_step(k, t) && safe_sq(b, color, t)) by {
            assert(eval_data.attacked_by[6 * color@ + PieceType::Knight@].contains(t) == attacked_by_final(b, color, PieceType::Knight, t));
        }
        assert forall|t: int| 0 <= t < 64 implies #[trigger] bn.contains(t) == (attacked_by_final(b, color, PieceType::Bishop, t) && bishop_reach(k, t, b.occ_bb()) && safe_sq(b, color, t)) by {
            assert(eval_data.attacked_by[6 * color@ + PieceType::Bishop@].contains(t) == attacked_by_final(b, color, PieceType::Bishop, t));
        }
        assert forall|t: int| 0 <= t < 64 implies #[trigger] rn.contains(t) == (attacked_by_final(b, color, PieceType::Rook, t) && rook_reach(k, t, b.occ_bb()) && safe_sq(b, color, t)) by {
            assert(eval_data.attacked_by[6 * color@ + PieceType::Rook@].contains(t) == attacked_by_final(b, color, PieceType::Rook, t));
        }
        assert forall|t: int| 0 <= t < 64 implies #[trigger] qn.contains(t) == (attacked_by_final(b, color, PieceType::Queen, t) && (bishop_reach(k, t, b.occ_bb()) || rook_reach(k, t, b.occ_bb())) && safe_sq(b, color, t)) by {
            assert(eval_data.attacked_by[6 * color@ + PieceType::Queen@].contains(t) == attacked_by_final(b, color, PieceType::Queen, t));
        }
        lemma_popcount_count(kn, |t: int| attacked_by_final(b, color, PieceType::Knight, t) && knight_step(k, t) && safe_sq(b, color, t));
        lemma_popcount_count(bn, |t: int| attacked_by_final(b, color, PieceType::Bishop, t) && bishop_reach(k, t, b.occ_bb()) && safe_sq(b, color, t));
        lemma_popcount_count(rn, |t: int| attacked_by_final(b, color, PieceType::Rook, t) && rook_reach(k, t, b.occ_bb()) && safe_sq(b, color, t));
        lemma_popcount_count(qn, |t: int| attacked_by_final(b, color, PieceType::Queen, t) && (bishop_reach(k, t, b.occ_bb()) || rook_reach(k, t, b.occ_bb())) && safe_sq(b, color, t));
    }
    let ghost s0 = kpf_spec::<P>(b, color, middle_file - 1) + kpf_spec::<P>(b, color, middle_file as int) + kpf_spec::<P>(b, color, middle_file + 1);
    let nk = kn.popcount();
    let nb = bn.popcount();
    let nr = rn.popcount();
    let nq = qn.popcount();
    let t1 = P::safe_knight_check().times(nk as i32);
    let t2 = P::safe_bishop_check().times(nb as i32);
    let t3 = P::safe_rook_check().times(nr as i32);
    let t4 = P::safe_queen_check().times(nq as i32);
    let ghost v1 = P::safe_knight_check_spec() * nk;
    let ghost v2 = P::safe_bishop_check_spec() * nb;
    let ghost v3 = P::safe_rook_check_spec() * nr;
    let ghost v4 = P::safe_queen_check_spec() * nq;

    eval = eval.plus(t1);
    proof {
        lemma_wrap_add(s0, t1@);
        lemma_wrap_add(s0, v1);
    }
    eval = eval.plus(t2);
    proof {
        lemma_wrap_add(s0 + v1, t2@);
        lemma_wrap_add(s0 + v1, v2);
    }
    eval = eval.plus(t3);
    proof {
        lemma_wrap_add(s0 + v1 + v2, t3@);
        lemma_wrap_add(s0 + v1 + v2, v3);
    }
    eval = eval.plus(t4);
    proof {
        lemma_wrap_add(s0 + v1 + v2 + v3, t4@);
        lemma_wrap_add(s0 + v1 + v2 + v3, v4);
    }
    let kaw = eval_data.king_attack_weight[ci];
    eval = eval.plus(kaw);
    proof {
        assert(kaw@ == wrap32(kaw_total::<P>(b, color)));
        lemma_wrap_add(s0 + v1 + v2 + v3 + v4, kaw@);
        lemma_wrap_add(s0 + v1 + v2 + v3 + v4, kaw_total::<P>(b, color));
    }
    let ka_now = eval_data.king_attacks[ci];
    let ka = if ka_now < 13 {
        ka_now
    } else {
        13
    };
    let last = P::king_attacks(ka as u32);
    eval = eval.plus(last);
    proof {
        assert(ka_now == ka_total(b, color));
        lemma_wrap_add(s0 + v1 + v2 + v3 + v4 + kaw_total::<P>(b, color), last@);
    }
    eval
}

/// The kind of the piece on `t`.
pub open spec fn kind_on(b: Board, t: int) -> PieceType {
    match b.type_at(t) {
        Some(pt) => pt,
        None => PieceType::Pawn,
    }
}

/// Whether the other side defends `t` against a threat of side `c`: it attacks it twice, or
/// with a pawn, or once where side `c` does not attack it twice.
pub open spec fn defended_sq(b: Board, c: Color, t: int) -> bool {
    let opp = c.opp();
    attacked2_final(b, opp, t) || pawn_attacked(b, opp, t) || (attacked_final(b, opp, t) && 0 <= t < 64
        && !attacked2_final(b, c, t))
}

/// The value of a threat by a piece of kind `by` on a piece of kind `pt`.
pub open spec fn threat_value<P: EvalValues>(by: PieceType, stm: bool, pt: PieceType, defended: bool) -> int {
    match by {
        PieceType::Pawn => P::threat_by_pawn_spec(stm, pt),
        PieceType::Knight => P::threat_by_knight_spec(stm, pt, defended),
        PieceType::Bishop => P::threat_by_bishop_spec(stm, pt, defended),
        PieceType::Rook => P::threat_by_rook_spec(stm, pt, defended),
        _ => P::threat_by_queen_spec(stm, pt, defended),
    }
}

/// The sum of the threats by the pieces of side `c` and kind `by` on the pieces of the other
/// side.
pub open spec fn threat_sum<P: EvalValues>(b: Board, c: Color, by: PieceType) -> int {
    let stm = c == b.stm_spec();
    sum_below(|t: int| if attacked_by_final(b, c, by, t) && b.has_color(c.opp(), t) {
        threat_value::<P>(by, stm, kind_on(b, t), defended_sq(b, c, t))
    } else {
        0
    }, 64)
}

/// The squares in front of the squares that satisfy `p`, for the pawns of side `white`.
pub open spec fn push_from(white: bool, p: spec_fn(int) -> bool, t: int) -> bool {
    if white {
        8 <= t < 64 && p(t - 8)
    } else {
        0 <= t < 56 && p(t + 8)
    }
}

/// The squares that a pawn of side `white` on a square that satisfies `p` attacks.
pub open spec fn cap_from(white: bool, p: spec_fn(int) -> bool, t: int) -> bool {
    if white {
        (8 <= t < 64 && file_of(t) != 7 && p(t - 7)) || (8 <= t < 64 && file_of(t) != 0 && p(t - 9))
    } else {
        (0 <= t < 56 && file_of(t) != 7 && p(t + 9)) || (0 <= t < 56 && file_of(t) != 0 && p(t + 7))
    }
}

/// The empty squares that a pawn of side `c` can push to.
pub open spec fn single_push(b: Board, c: Color, t: int) -> bool {
    push_set(c == Color::White, b.colored_bb(c, PieceType::Pawn), t) && 0 <= t < 64 && !b.occupied(t)
}

/// The empty squares that a pawn of side `c` can reach with a push or a double push.
pub open spec fn any_push(b: Board, c: Color, t: int) -> bool {
    let white = c == Color::White;
    let third = if white {
        2int
    } else {
        5int
    };
    single_push(b, c, t) || (push_from(white, |u: int| single_push(b, c, u) && rank_of(u) == third, t) && 0 <= t < 64
        && !b.occupied(t))
}

/// The pieces of the other side, pawns left out, that a pawn of side `c` would attack after a
/// push.
pub open spec fn push_threat_sq(b: Board, c: Color, t: int) -> bool {
    cap_from(c == Color::White, |u: int| any_push(b, c, u), t) && b.has_color(c.opp(), t) && 0 <= t < 64
        && !b.has_type(PieceType::Pawn, t)
}

/// The threat terms of side `c`.
pub open spec fn threats_spec<P: EvalValues>(b: Board, c: Color) -> int {
    threat_sum::<P>(b, c, PieceType::Pawn) + threat_sum::<P>(b, c, PieceType::Knight) + threat_sum::<P>(b, c, PieceType::Bishop)
        + threat_sum::<P>(b, c, PieceType::Rook) + threat_sum::<P>(b, c, PieceType::Queen)
        + P::push_threat_spec(c == b.stm_spec()) * count_where(|t: int| push_threat_sq(b, c, t))
}

/// The sum of the threats by a piece of kind `by` on the pieces on `targets`.
fn sum_threats<P: EvalValues>(board: &Board, targets: Bitboard, by: PieceType, stm: bool, defended_bb: Bitboard) -> (r: ScorePair)
    requires
        board.wf(),
        forall|t: int| #[trigger] targets.contains(t) ==> board.occupied(t),
    ensures
        r@ == wrap32(bb_sum(targets, |t: int| threat_value::<P>(by, stm, kind_on(*board, t), defended_bb.contains(t)))),
{
    let ghost b = *board;
    let ghost f = |t: int| threat_value::<P>(by, stm, kind_on(b, t), defended_bb.contains(t));
    let mut eval = ScorePair::zero();
    let mut rest = targets;
    while rest.any()
        invariant
            b == *board,
            board.wf(),
            forall|t: int| #[trigger] targets.contains(t) ==> board.occupied(t),
            forall|t: int| #[trigger] rest.contains(t) ==> targets.contains(t),
            forall|t: int| #[trigger] f(t) == threat_value::<P>(by, stm, kind_on(b, t), defended_bb.contains(t)),
            eval@ == wrap32(bb_sum(targets, f) - bb_sum(rest, f)),
        decreases rest@,
    {
        let ghost rest0 = rest;
        let threat = rest.poplsb();
        proof {
            board.lemma_wf_piece_at(threat@);
            assert(targets.contains(threat@));
        }
        let threatened = board.piece_at(threat).unwrap().piece_type();
        let defended = defended_bb.has(threat);
        let v = match by {
            PieceType::Pawn => P::threat_by_pawn(stm, threatened),
            PieceType::Knight => P::threat_by_knight(stm, threatened, defended),
            PieceType::Bishop => P::threat_by_bishop(stm, threatened, defended),
            PieceType::Rook => P::threat_by_rook(stm, threatened, defended),
            _ => P::threat_by_queen(stm, threatened, defended),
        };
        let ghost e0 = eval@;
        eval = eval.plus(v);
        proof {
            assert(threatened == kind_on(b, threat@)) by {
                let p = b.piece_at_spec(threat@).unwrap();
                lemma_piece_round_trip(p, p.color_spec(), p.type_spec());
            }
            assert(v@ == f(threat@));
            lemma_bb_sum_remove(rest0, rest, threat@, f);
            lemma_wrap_add(bb_sum(targets, f) - bb_sum(rest0, f), f(threat@));
        }
    }
    proof {
        lemma_bb_sum_empty(rest, f);
    }
    eval
}

/// The threats that the pieces and pawn pushes of side `color` make.
#[verifier::rlimit(40)]
pub(crate) fn evaluate_threats<P: EvalValues>(board: &Board, color: Color, eval_data: &EvalData) -> (r: ScorePair)
    requires
        board.wf(),
        data_final::<P>(*eval_data, *board),
    ensures
        r@ == wrap32(threats_spec::<P>(*board, color)),
{
    let ghost b = *board;
    let opp = color.flip();
    let ci = color.index();
    let oi = opp.index();
    let white = color == Color::White;
    let third_rank = if white {
        Bitboard::rank(2)
    } else {
        Bitboard::rank(5)
    };
    let stm = color == board.stm();
    let defended_bb = eval_data.attacked_by_2[oi].bit_or(eval_data.attacked_by[6 * oi]).bit_or(
        eval_data.attacked[oi].bit_and(eval_data.attacked_by_2[ci].bit_not()),
    );
    proof {
        assert forall|t: int| #[trigger] defended_bb.contains(t) == defended_sq(b, color, t) by {
            assert(eval_data.attacked_by_2[opp@].contains(t) == attacked2_final(b, opp, t));
            assert(eval_data.attacked_by[6 * opp@ + PieceType::Pawn@].contains(t) == attacked_by_final(b, opp, PieceType::Pawn, t));
            assert(eval_data.attacked[opp@].contains(t) == attacked_final(b, opp, t));
            assert(eval_data.attacked_by_2[color@].contains(t) == attacked2_final(b, color, t));
        }
    }
    let them = board.colors(opp);
    let mut eval = ScorePair::zero();
    let ghost mut total: int = 0;
    let kinds: [PieceType; 5] = [PieceType::Pawn, PieceType::Knight, PieceType::Bishop, PieceType::Rook, PieceType::Queen];
    let mut i: usize = 0;
    while i < 5
        invariant
            b == *board,
            board.wf(),
            data_final::<P>(*eval_data, *board),
            ci == color@,
            opp == color.opp(),
            stm == (color == b.stm_spec()),
            them == b.colors_bb(opp@),
            forall|t: int| #[trigger] defended_bb.contains(t) == defended_sq(b, color, t),
            kinds@ == seq![PieceType::Pawn, PieceType::Knight, PieceType::Bishop, PieceType::Rook, PieceType::Queen],
            i <= 5,
            total == (if i > 0 { threat_sum::<P>(b, color, PieceType::Pawn) } else { 0 }) + (if i > 1 { threat_sum::<P>(b, color, PieceType::Knight) } else { 0 })
                + (if i > 2 { threat_sum::<P>(b, color, PieceType::Bishop) } else { 0 }) + (if i > 3 { threat_sum::<P>(b, color, PieceType::Rook) } else { 0 })
                + (if i > 4 { threat_sum::<P>(b, color, PieceType::Queen) } else { 0 }),
            eval@ == wrap32(total),
        decreases 5 - i,
    {
        let by = kinds[i];
        let targets = eval_data.attacked_by[6 * ci + by.index()].bit_and(them);
        proof {
            assert forall|t: int| #[trigger] targets.contains(t) implies board.occupied(t) by {}
        }
        let part = sum_threats::<P>(board, targets, by, stm, defended_bb);
        proof {
            let f = |t: int| threat_value::<P>(by, stm, kind_on(b, t), defended_bb.contains(t));
            let g1 = |t: int| if targets.contains(t) { f(t) } else { 0 };
            let g2 = |t: int| if attacked_by_final(b, color, by, t) && b.has_color(color.opp(), t) {
                threat_value::<P>(by, stm, kind_on(b, t), defended_sq(b, color, t))
            } else {
                0
            };
            assert forall|t: int| 0 <= t < 64 implies #[trigger] g1(t) == g2(t) by {
                assert(eval_data.attacked_by[6 * color@ + by@].contains(t) == attacked_by_final(b, color, by, t));
            }
            lemma_sum_ext(g1, g2, 64);
            assert(part@ == wrap32(threat_sum::<P>(b, color, by)));
            lemma_wrap_add(total, part@);
            lemma_wrap_add(total, threat_sum::<P>(b, color, by));
            total = total + threat_sum::<P>(b, color, by);
        }
        eval = eval.plus(part);
        i = i + 1;
    }
    let non_pawns = them.bit_and(board.pieces(PieceType::Pawn).bit_not());
    let free = board.occ().bit_not();
    let single = attacks::pawn_pushes_bb(color, board.colored_pieces(Piece::new(color, PieceType::Pawn))).bit_and(free);
    let double = attacks::pawn_pushes_bb(color, single.bit_and(third_rank)).bit_and(free);
    let pushes = single.bit_or(double);
    let push_threats = attacks::pawn_attacks_bb(color, pushes).bit_and(non_pawns);
    proof {
        assert forall|t: int| #[trigger] single.contains(t) == single_push(b, color, t) by {}
        let third: int = if white { 2 } else { 5 };
        let sp = |u: int| single_push(b, color, u) && rank_of(u) == third;
        assert forall|t: int| #[trigger] double.contains(t) == (push_from(white, sp, t) && 0 <= t < 64 && !b.occupied(t)) by {}
        assert forall|t: int| #[trigger] pushes.contains(t) == any_push(b, color, t) by {}
        assert forall|t: int| 0 <= t < 64 implies #[trigger] push_threats.contains(t) == push_threat_sq(b, color, t) by {}
        lemma_popcount_count(push_threats, |t: int| push_threat_sq(b, color, t));
    }
    let n = push_threats.popcount();
    let last = P::push_threat(stm).times(n as i32);
    eval = eval.plus(last);
    proof {
        lemma_wrap_add(total, last@);
        lemma_wrap_add(total, P::push_threat_spec(stm) * n);
    }
    eval
}

/// Whether no pawn of the other side stands in front of the pawn of side `c` on `s`, on its
/// file or the two next to it.
pub open spec fn is_passed(b: Board, c: Color, s: int) -> bool {
    forall|t: int| !(#[trigger] has_piece(b, c.opp(), PieceType::Pawn, t) && passed_span(c == Color::White, s, t))
}

/// The rank of `s` seen from side `c`.
pub open spec fn rel_rank(c: Color, s: int) -> int {
    rank_of(relative_index(s, c == Color::White))
}

/// The square in front of a pawn of side `c` on `s`.
pub open spec fn push_square(c: Color, s: int) -> int {
    if c == Color::White {
        s + 8
    } else {
        s - 8
    }
}

/// The passed pawn terms of the pawn of side `c` on `s`.
pub open spec fn passer_value<P: EvalValues>(b: Board, c: Color, s: int) -> int {
    if is_passed(b, c, s) {
        let rr = rel_rank(c, s);
        let push = push_square(c, s);
        P::passed_pawn_spec(rr as u8) + P::our_passer_dist_spec(chebyshev_dist(b.king_square(c), s) as i32)
            + P::their_passer_dist_spec(chebyshev_dist(b.king_square(c.opp()), s) as i32) + if rr >= 3 {
            (if b.occupied(push) {
                P::passed_blocked_spec(rr as u8)
            } else {
                0
            }) + (if !attacked_final(b, c.opp(), push) {
                P::passed_safe_adv_spec(rr as u8)
            } else {
                0
            })
        } else {
            0
        }
    } else {
        0
    }
}

/// The pawn structure terms of side `c`: passed pawns, pawns with a pawn beside them towards
/// the h-file, and pawns defended by pawns.
pub open spec fn pawns_spec<P: EvalValues>(b: Board, c: Color) -> int {
    piece_sum(b, c, PieceType::Pawn, |s: int| passer_value::<P>(b, c, s))
        + sum_below(|t: int| if has_piece(b, c, PieceType::Pawn, t) && file_of(t) != 7 && has_piece(b, c, PieceType::Pawn, t + 1) {
            P::pawn_phalanx_spec(rel_rank(c, t) as u8)
        } else {
            0
        }, 64)
        + sum_below(|t: int| if has_piece(b, c, PieceType::Pawn, t) && pawn_attacked(b, c, t) {
            P::defended_pawn_spec(rel_rank(c, t) as u8)
        } else {
            0
        }, 64)
}

/// The pawns of side `c` stand before the last rank.
pub open spec fn pawns_before_last_rank(b: Board, c: Color) -> bool {
    forall|s: int| #[trigger] has_piece(b, c, PieceType::Pawn, s) ==> if c == Color::White {
        rank_of(s) < 7
    } else {
        rank_of(s) > 0
    }
}

/// The phalanx value (when `phalanx`) or defended pawn value of a pawn of side `c` on `t`.
pub open spec fn rank_value<P: EvalValues>(phalanx: bool, c: Color, t: int) -> int {
    if phalanx {
        P::pawn_phalanx_spec(rel_rank(c, t) as u8)
    } else {
        P::defended_pawn_spec(rel_rank(c, t) as u8)
    }
}

/// The sum of the phalanx values (when `phalanx`) or defended pawn values of the pawns on
/// `set`, by their rank seen from side `color`.
fn sum_pawn_ranks<P: EvalValues>(set: Bitboard, color: Color, phalanx: bool) -> (r: ScorePair)
    ensures
        r@ == wrap32(sum_below(|t: int| if set.contains(t) { rank_value::<P>(phalanx, color, t) } else { 0 }, 64)),
{
    let ghost f = |t: int| rank_value::<P>(phalanx, color, t);
    let mut eval = ScorePair::zero();
    let mut rest = set;
    while rest.any()
        invariant
            forall|t: int| #[trigger] f(t) == rank_value::<P>(phalanx, color, t),
            forall|t: int| #[trigger] rest.contains(t) ==> set.contains(t),
            eval@ == wrap32(bb_sum(set, f) - bb_sum(rest, f)),
        decreases rest@,
    {
        let ghost rest0 = rest;
        let sq = rest.poplsb();
        let rank = sq.relative_sq(color).rank();
        let v = if phalanx {
            P::pawn_phalanx(rank)
        } else {
            P::defended_pawn(rank)
        };
        eval = eval.plus(v);
        proof {
            lemma_bb_sum_remove(rest0, rest, sq@, f);
            lemma_wrap_add(bb_sum(set, f) - bb_sum(rest0, f), f(sq@));
        }
    }
    proof {
        lemma_bb_sum_empty(rest, f);
        lemma_sum_ext(|t: int| if set.contains(t) { f(t) } else { 0 }, |t: int| if set.contains(t) { rank_value::<P>(phalanx, color, t) } else { 0 }, 64);
    }
    eval
}

/// The passed pawn terms of the pawns of side `color`.
fn sum_passers<P: EvalValues>(board: &Board, color: Color, eval_data: &EvalData) -> (r: ScorePair)
    requires
        board.has_king(Color::White),
        board.has_king(Color::Black),
        pawns_before_last_rank(*board, color),
        data_final::<P>(*eval_data, *board),
    ensures
        r@ == wrap32(piece_sum(*board, color, PieceType::Pawn, |s: int| passer_value::<P>(*board, color, s))),
{
    let ghost b = *board;
    let ghost f = |s: int| passer_value::<P>(b, color, s);
    let opp = color.flip();
    let our_pawns = board.colored_pieces(Piece::new(color, PieceType::Pawn));
    let their_pawns = board.colored_pieces(Piece::new(opp, PieceType::Pawn));
    let occ = board.occ();
    let their_attacks = eval_data.attacked[opp.index()];
    let our_king = board.king_sq(color);
    let their_king = board.king_sq(opp);
    let mut eval = ScorePair::zero();
    let mut tmp = our_pawns;
    while tmp.any()
        invariant
            b == *board,
            opp == color.opp(),
            pawns_before_last_rank(b, color),
            our_king@ == b.king_square(color),
            their_king@ == b.king_square(opp),
            forall|s: int| #[trigger] our_pawns.contains(s) == has_piece(b, color, PieceType::Pawn, s),
            forall|s: int| #[trigger] their_pawns.contains(s) == has_piece(b, opp, PieceType::Pawn, s),
            forall|s: int| #[trigger] occ.contains(s) == b.occupied(s),
            forall|s: int| #[trigger] their_attacks.contains(s) == attacked_final(b, opp, s),
            forall|s: int| #[trigger] tmp.contains(s) ==> our_pawns.contains(s),
            forall|s: int| #[trigger] f(s) == passer_value::<P>(b, color, s),
            eval@ == wrap32(bb_sum(our_pawns, f) - bb_sum(tmp, f)),
        decreases tmp@,
    {
        let ghost tmp0 = tmp;
        let ghost e0 = eval@;
        let sq = tmp.poplsb();
        proof {
            assert(has_piece(b, color, PieceType::Pawn, sq@));
            crate::chess::attacks::lemma_coords(sq@);
        }
        let push_sq = if color == Color::White {
            sq.offset(8)
        } else {
            sq.offset(-8)
        };
        let relative_rank = sq.relative_sq(color).rank();
        let stoppers = their_pawns.bit_and(attacks::passed_pawn_span(color, sq));
        let ghost x = bb_sum(our_pawns, f) - bb_sum(tmp0, f);
        if stoppers.empty() {
            let v1 = P::passed_pawn(relative_rank);
            let our_passer_dist = Square::chebyshev(our_king, sq);
            let their_passer_dist = Square::chebyshev(their_king, sq);
            let v2 = P::our_passer_dist(our_passer_dist).plus(P::their_passer_dist(their_passer_dist));
            eval = eval.plus(v1);
            eval = eval.plus(v2);
            let ghost y = v1@ + P::our_passer_dist_spec(our_passer_dist) + P::their_passer_dist_spec(their_passer_dist);
            proof {
                lemma_wrap_add(x, v1@);
                lemma_wrap_add(x + v1@, v2@);
                lemma_wrap_add(x + v1@, P::our_passer_dist_spec(our_passer_dist) + P::their_passer_dist_spec(their_passer_dist));
                assert(eval@ == wrap32(x + y));
            }
            let ghost mut z: int = 0;
            if relative_rank >= 3 {
                if occ.has(push_sq) {
                    let v3 = P::passed_blocked(relative_rank);
                    eval = eval.plus(v3);
                    proof {
                        lemma_wrap_add(x + y, v3@);
                        z = v3@;
                    }
                }
                if !their_attacks.has(push_sq) {
                    let v4 = P::passed_safe_adv(relative_rank);
                    eval = eval.plus(v4);
                    proof {
                        lemma_wrap_add(x + y + z, v4@);
                        z = z + v4@;
                    }
                }
            }
            proof {
                assert forall|t: int| !(#[trigger] has_piece(b, color.opp(), PieceType::Pawn, t) && passed_span(color == Color::White, sq@, t)) by {
                    assert(!stoppers.contains(t));
                }
                assert(is_passed(b, color, sq@));
                assert(f(sq@) == y + z);
                assert(eval@ == wrap32(x + f(sq@)));
            }
        } else {
            proof {
                let t = choose|t: int| #[trigger] stoppers.contains(t);
                assert(stoppers.contains(t));
                assert(has_piece(b, color.opp(), PieceType::Pawn, t) && passed_span(color == Color::White, sq@, t));
                assert(!is_passed(b, color, sq@));
                assert(f(sq@) == 0);
                lemma_wrap_add(x, 0);
            }
        }
        proof {
            lemma_bb_sum_remove(tmp0, tmp, sq@, f);
        }
    }
    proof {
        lemma_bb_sum_empty(tmp, f);
        lemma_sum_ext(|s: int| if our_pawns.contains(s) { f(s) } else { 0 }, |s: int| if has_piece(b, color, PieceType::Pawn, s) { f(s) } else { 0 }, 64);
    }
    eval
}

/// The pawn structure terms of side `color`.
pub(crate) fn evaluate_pawns<P: EvalValues>(board: &Board, color: Color, eval_data: &EvalData) -> (r: ScorePair)
    requires
        board.has_king(Color::White),
        board.has_king(Color::Black),
        pawns_before_last_rank(*board, color),
        data_final::<P>(*eval_data, *board),
    ensures
        r@ == wrap32(pawns_spec::<P>(*board, color)),
{
    let ghost b = *board;
    let mut eval = sum_passers::<P>(board, color, eval_data);
    let our_pawns = board.colored_pieces(Piece::new(color, PieceType::Pawn));
    let phalanxes = our_pawns.bit_and(our_pawns.west());
    let defended = our_pawns.bit_and(attacks::pawn_attacks_bb(color, our_pawns));
    let p1 = sum_pawn_ranks::<P>(phalanxes, color, true);
    let p2 = sum_pawn_ranks::<P>(defended, color, false);
    let ghost s0 = piece_sum(b, color, PieceType::Pawn, |s: int| passer_value::<P>(b, color, s));
    let ghost s1 = sum_below(|t: int| if has_piece(b, color, PieceType::Pawn, t) && file_of(t) != 7 && has_piece(b, color, PieceType::Pawn, t + 1) {
        P::pawn_phalanx_spec(rel_rank(color, t) as u8)
    } else {
        0
    }, 64);
    let ghost s2 = sum_below(|t: int| if has_piece(b, color, PieceType::Pawn, t) && pawn_attacked(b, color, t) {
        P::defended_pawn_spec(rel_rank(color, t) as u8)
    } else {
        0
    }, 64);
    proof {
        lemma_sum_ext(|t: int| if phalanxes.contains(t) { rank_value::<P>(true, color, t) } else { 0 }, |t: int| if has_piece(b, color, PieceType::Pawn, t) && file_of(t) != 7 && has_piece(b, color, PieceType::Pawn, t + 1) {
            P::pawn_phalanx_spec(rel_rank(color, t) as u8)
        } else {
            0
        }, 64);
        lemma_sum_ext(|t: int| if defended.contains(t) { rank_value::<P>(false, color, t) } else { 0 }, |t: int| if has_piece(b, color, PieceType::Pawn, t) && pawn_attacked(b, color, t) {
            P::defended_pawn_spec(rel_rank(color, t) as u8)
        } else {
            0
        }, 64);
        assert(p1@ == wrap32(s1));
        assert(p2@ == wrap32(s2));
    }
    eval = eval.plus(p1);
    proof {
        lemma_wrap_add(s0, p1@);
        lemma_wrap_add(s0, s1);
    }
    eval = eval.plus(p2);
    proof {
        lemma_wrap_add(s0 + s1, p2@);
        lemma_wrap_add(s0 + s1, s2);
    }
    eval
}

} // verus!
