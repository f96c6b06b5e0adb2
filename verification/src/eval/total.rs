use vstd::prelude::*;

use super::evaluate::{
    attacked2_final, attacked_by_final, attacked_final, batch_cover, cover_f, coverage, data_final,
    evaluate_kings, evaluate_pawns, evaluate_piece, evaluate_threats, has_piece, is_ring, ka_part,
    ka_total, kaw_part, kaw_total, kings_spec, mobility_of, pawn_attacked, pawns_before_last_rank,
    pawns_spec, piece_sum, ring_bb, ring_spec, threats_spec, EvalData,
};
use super::params::{EvalParams, EvalValues};
use super::score_pair::{eg_of, lemma_wrap_add, mg_of, wrap32, ScorePair};
use super::sums::{bb_sum, lemma_bb_sum_empty, lemma_bb_sum_remove, lemma_sum_bounds, lemma_sum_ext, sum_below};
use crate::chess::attacks::{self, king_step};
use crate::chess::board::{type_of_index, Board};
use crate::types::bitboard::pop_count;
use crate::types::{Bitboard, Color, Piece, PieceType, Square};

verus! {

/// The material and piece square values of the pieces of side `c` and kind `pt`.
pub open spec fn material_side<P: EvalValues>(b: Board, c: Color, pt: PieceType) -> int {
    piece_sum(b, c, pt, |s: int| P::material_spec(pt) + P::psqt_spec(c, pt, s))
}

/// The material balance from the side to move's point of view.
pub open spec fn material_total<P: EvalValues>(b: Board) -> int {
    let stm = b.stm_spec();
    let opp = stm.opp();
    material_upto::<P>(b, stm, opp, 6)
}

/// The material balance over the piece kinds below index `n`.
pub open spec fn material_upto<P: EvalValues>(b: Board, stm: Color, opp: Color, n: int) -> int
    decreases n,
{
    if n <= 0 {
        0
    } else {
        material_upto::<P>(b, stm, opp, n - 1) + material_side::<P>(b, stm, type_of_index(n - 1))
            - material_side::<P>(b, opp, type_of_index(n - 1))
    }
}

/// The mobility of the pieces of side `c` and kind `pt`.
pub open spec fn mobility_sum<P: EvalValues>(b: Board, c: Color, pt: PieceType) -> int {
    piece_sum(b, c, pt, |s: int| P::mobility_spec(pt, mobility_of(b, c, pt, s) as u32))
}

/// The sum of all evaluation terms from the side to move's point of view, before tapering.
pub open spec fn eval_total<P: EvalValues>(b: Board) -> int {
    let stm = b.stm_spec();
    let opp = stm.opp();
    material_total::<P>(b)
        + mobility_sum::<P>(b, stm, PieceType::Knight) - mobility_sum::<P>(b, opp, PieceType::Knight)
        + mobility_sum::<P>(b, stm, PieceType::Bishop) - mobility_sum::<P>(b, opp, PieceType::Bishop)
        + mobility_sum::<P>(b, stm, PieceType::Rook) - mobility_sum::<P>(b, opp, PieceType::Rook)
        + mobility_sum::<P>(b, stm, PieceType::Queen) - mobility_sum::<P>(b, opp, PieceType::Queen)
        + kings_spec::<P>(b, stm) - kings_spec::<P>(b, opp)
        + threats_spec::<P>(b, stm) - threats_spec::<P>(b, opp)
        + pawns_spec::<P>(b, stm) - pawns_spec::<P>(b, opp)
}

/// The game phase: 4 per queen, 2 per rook, 1 per bishop and knight on the board.
pub open spec fn phase_of(b: Board) -> int {
    (4 * pop_count(b.pieces_bb(PieceType::Queen@)@) + 2 * pop_count(b.pieces_bb(PieceType::Rook@)@)
        + pop_count(b.pieces_bb(PieceType::Bishop@)@) + pop_count(b.pieces_bb(PieceType::Knight@)@)) as int
}

/// Division rounded towards zero.
pub open spec fn div_trunc(x: int, d: int) -> int {
    if x >= 0 {
        x / d
    } else {
        -((-x) / d)
    }
}

/// The evaluation: the middle and end game parts of the wrapped total, weighted by the phase
/// (capped at 24) and divided by 24, plus the tempo bonus.
pub open spec fn eval_spec<P: EvalValues>(b: Board) -> int {
    let t = wrap32(eval_total::<P>(b));
    let ph = if phase_of(b) < 24 {
        phase_of(b)
    } else {
        24
    };
    div_trunc(mg_of(t) * ph + eg_of(t) * (24 - ph), 24) + P::tempo_spec()
}

/// The boards the evaluation accepts: well formed, a king on each side, and no pawn on its
/// last rank.
pub open spec fn eval_ok(b: Board) -> bool {
    &&& b.wf()
    &&& b.has_king(Color::White)
    &&& b.has_king(Color::Black)
    &&& pawns_before_last_rank(b, Color::White)
    &&& pawns_before_last_rank(b, Color::Black)
}

/// The material and piece square values of the pieces of side `color` and kind `pt`.
fn material_of<P: EvalValues>(board: &Board, color: Color, pt: PieceType) -> (r: ScorePair)
    ensures
        r@ == wrap32(material_side::<P>(*board, color, pt)),
{
    let ghost b = *board;
    let ghost f = |s: int| P::material_spec(pt) + P::psqt_spec(color, pt, s);
    let mut eval = ScorePair::zero();
    let mut bb = board.colored_pieces(Piece::new(color, pt));
    let ghost orig = bb;
    while bb.any()
        invariant
            forall|s: int| #[trigger] orig.contains(s) == has_piece(b, color, pt, s),
            forall|s: int| #[trigger] bb.contains(s) ==> orig.contains(s),
            forall|s: int| #[trigger] f(s) == P::material_spec(pt) + P::psqt_spec(color, pt, s),
            eval@ == wrap32(bb_sum(orig, f) - bb_sum(bb, f)),
        decreases bb@,
    {
        let ghost bb0 = bb;
        let sq = bb.poplsb();
        let m = P::material(pt);
        let p = P::psqt(color, pt, sq);
        let v = m.plus(p);
        eval = eval.plus(v);
        proof {
            lemma_bb_sum_remove(bb0, bb, sq@, f);
            lemma_wrap_add(bb_sum(orig, f) - bb_sum(bb0, f), v@);
            lemma_wrap_add(bb_sum(orig, f) - bb_sum(bb0, f), m@ + p@);
        }
    }
    proof {
        lemma_bb_sum_empty(bb, f);
        lemma_sum_ext(|s: int| if orig.contains(s) { f(s) } else { 0 }, |s: int| if has_piece(b, color, pt, s) { f(s) } else { 0 }, 64);
    }
    eval
}

/// The ring of squares around the king of side `c` on `k`.
fn king_ring_of(board: &Board, c: Color, k: Square, king_atks: Bitboard) -> (r: Bitboard)
    requires
        k@ == board.king_square(c),
        forall|t: int| #[trigger] king_atks.contains(t) == king_step(k@, t),
    ensures
        r == ring_bb(*board, c),
{
    let ghost b = *board;
    let ahead = if c == Color::White {
        king_atks.north()
    } else {
        king_atks.south()
    };
    let r = king_atks.bit_or(ahead).bit_and(Bitboard::from_square(k).bit_not());
    proof {
        assert(is_ring(r, b, c));
        let q = ring_bb(b, c);
        assert(is_ring(q, b, c));
        assert forall|i: int| 0 <= i < 64 implies crate::types::bitboard::bit(r@, i) == crate::types::bitboard::bit(q@, i) by {
            assert(r.contains(i) == q.contains(i));
        }
        crate::types::bitboard::lemma_bits_equal(r@, q@);
        Bitboard::lemma_view_injective(r, q);
    }
    r
}

/// The attack maps before the knights, bishops, rooks and queens are seen: the king and pawn
/// attacks, the king rings, no king danger.
fn init_data(board: &Board) -> (d: EvalData)
    requires
        board.has_king(Color::White),
        board.has_king(Color::Black),
    ensures
        forall|c: Color, t: int| #[trigger] d.attacked[c@].contains(t) == king_step(board.king_square(c), t),
        forall|c: Color, t: int| !#[trigger] d.attacked_by_2[c@].contains(t),
        forall|c: Color, t: int| #[trigger] d.attacked_by[6 * c@ + PieceType::Pawn@].contains(t) == pawn_attacked(*board, c, t),
        forall|c: Color, t: int| #[trigger] d.attacked_by[6 * c@ + PieceType::King@].contains(t) == king_step(board.king_square(c), t),
        forall|c: Color, pt: PieceType, t: int| 1 <= pt@ <= 4 ==> !#[trigger] d.attacked_by[6 * c@ + pt@].contains(t),
        forall|c: Color| #[trigger] d.king_ring[c@] == ring_bb(*board, c),
        forall|c: Color| #[trigger] d.king_attack_weight[c@]@ == 0,
        forall|c: Color| #[trigger] d.king_attacks[c@] == 0,
{
    let wk = board.king_sq(Color::White);
    let bk = board.king_sq(Color::Black);
    let wking_atks = attacks::king_attacks(wk);
    let bking_atks = attacks::king_attacks(bk);
    let none = Bitboard::none();
    let wpawn_atks = attacks::pawn_attacks_bb(Color::White, board.colored_pieces(Piece::WhitePawn));
    let bpawn_atks = attacks::pawn_attacks_bb(Color::Black, board.colored_pieces(Piece::BlackPawn));
    let wring = king_ring_of(board, Color::White, wk, wking_atks);
    let bring = king_ring_of(board, Color::Black, bk, bking_atks);
    let d = EvalData {
        attacked: [wking_atks, bking_atks],
        attacked_by: [wpawn_atks, none, none, none, none, wking_atks, bpawn_atks, none, none, none, none, bking_atks],
        attacked_by_2: [none, none],
        king_ring: [wring, bring],
        king_attack_weight: [ScorePair::zero(), ScorePair::zero()],
        king_attacks: [0, 0],
    };
    proof {
        assert(Piece::WhitePawn.color_spec() == Color::White && Piece::WhitePawn.type_spec() == PieceType::Pawn);
        assert(Piece::BlackPawn.color_spec() == Color::Black && Piece::BlackPawn.type_spec() == PieceType::Pawn);
        assert forall|c: Color, pt: PieceType, t: int| 1 <= pt@ <= 4 implies !#[trigger] d.attacked_by[6 * c@ + pt@].contains(t) by {
            assert(d.attacked_by@[6 * c@ + pt@] == none);
        }
    }
    d
}

/// A count of attackers is at least 0.
proof fn lemma_cover_nonneg(b: Board, c: Color, pt: PieceType, t: int)
    ensures
        batch_cover(b, c, pt, t) >= 0,
{
    lemma_sum_bounds(|s: int| if has_piece(b, c, pt, s) { cover_f(b, pt, t)(s) } else { 0 }, 64, 1);
}

/// The mobility of the knights, bishops, rooks and queens of side `color`, with the attack
/// maps and king danger of that side gathered.
fn evaluate_side_pieces<P: EvalValues>(board: &Board, color: Color, data: &mut EvalData) -> (r: ScorePair)
    requires
        eval_ok(*board),
        forall|t: int| #[trigger] old(data).attacked[color@].contains(t) == king_step(board.king_square(color), t),
        forall|t: int| !#[trigger] old(data).attacked_by_2[color@].contains(t),
        forall|pt: PieceType, t: int| 1 <= pt@ <= 4 ==> !#[trigger] old(data).attacked_by[6 * color@ + pt@].contains(t),
        old(data).king_ring[color.opp()@] == ring_bb(*board, color.opp()),
        old(data).king_attack_weight[color@]@ == 0,
        old(data).king_attacks[color@] == 0,
    ensures
        r@ == wrap32(mobility_sum::<P>(*board, color, PieceType::Knight) + mobility_sum::<P>(*board, color, PieceType::Bishop)
            + mobility_sum::<P>(*board, color, PieceType::Rook) + mobility_sum::<P>(*board, color, PieceType::Queen)),
        forall|t: int| #[trigger] final(data).attacked[color@].contains(t) == attacked_final(*board, color, t),
        forall|t: int| #[trigger] final(data).attacked_by_2[color@].contains(t) == attacked2_final(*board, color, t),
        forall|pt: PieceType, t: int| 1 <= pt@ <= 4 ==> #[trigger] final(data).attacked_by[6 * color@ + pt@].contains(t) == attacked_by_final(*board, color, pt, t),
        final(data).king_attack_weight[color@]@ == wrap32(kaw_total::<P>(*board, color)),
        final(data).king_attacks[color@] == ka_total(*board, color),
        final(data).king_attacks[color@] >= 0,
        final(data).attacked[color.opp()@] == old(data).attacked[color.opp()@],
        final(data).attacked_by_2[color.opp()@] == old(data).attacked_by_2[color.opp()@],
        forall|i: int| 0 <= i < 12 && !(6 * color@ + 1 <= i <= 6 * color@ + 4) ==> #[trigger] final(data).attacked_by[i] == old(data).attacked_by[i],
        final(data).king_ring == old(data).king_ring,
        final(data).king_attack_weight[color.opp()@] == old(data).king_attack_weight[color.opp()@],
        final(data).king_attacks[color.opp()@] == old(data).king_attacks[color.opp()@],
{
    let ghost b = *board;
    let ghost d0 = *data;
    let m1 = evaluate_piece::<P>(board, PieceType::Knight, color, data);
    let ghost d1 = *data;
    let m2 = evaluate_piece::<P>(board, PieceType::Bishop, color, data);
    let ghost d2 = *data;
    let m3 = evaluate_piece::<P>(board, PieceType::Rook, color, data);
    let ghost d3 = *data;
    let m4 = evaluate_piece::<P>(board, PieceType::Queen, color, data);
    let ghost d4 = *data;
    let r = m1.plus(m2).plus(m3).plus(m4);
    proof {
        let n = mobility_sum::<P>(b, color, PieceType::Knight);
        let bi = mobility_sum::<P>(b, color, PieceType::Bishop);
        let ro = mobility_sum::<P>(b, color, PieceType::Rook);
        let q = mobility_sum::<P>(b, color, PieceType::Queen);
        lemma_wrap_add(n, m2@);
        lemma_wrap_add(n, bi);
        lemma_wrap_add(n + bi, m3@);
        lemma_wrap_add(n + bi, ro);
        lemma_wrap_add(n + bi + ro, m4@);
        lemma_wrap_add(n + bi + ro, q);
        assert forall|t: int| #[trigger] d4.attacked[color@].contains(t) == attacked_final(b, color, t) && d4.attacked_by_2[color@].contains(t) == attacked2_final(b, color, t) by {
            lemma_cover_nonneg(b, color, PieceType::Knight, t);
            lemma_cover_nonneg(b, color, PieceType::Bishop, t);
            lemma_cover_nonneg(b, color, PieceType::Rook, t);
            lemma_cover_nonneg(b, color, PieceType::Queen, t);
            assert(d0.attacked[color@].contains(t) == king_step(b.king_square(color), t));
            assert(!d0.attacked_by_2[color@].contains(t));
            assert(d1.attacked[color@].contains(t) == (d0.attacked[color@].contains(t) || batch_cover(b, color, PieceType::Knight, t) >= 1));
            assert(d1.attacked_by_2[color@].contains(t) == (d0.attacked_by_2[color@].contains(t) || (d0.attacked[color@].contains(t) && batch_cover(b, color, PieceType::Knight, t) >= 1) || batch_cover(b, color, PieceType::Knight, t) >= 2));
            assert(d2.attacked[color@].contains(t) == (d1.attacked[color@].contains(t) || batch_cover(b, color, PieceType::Bishop, t) >= 1));
            assert(d2.attacked_by_2[color@].contains(t) == (d1.attacked_by_2[color@].contains(t) || (d1.attacked[color@].contains(t) && batch_cover(b, color, PieceType::Bishop, t) >= 1) || batch_cover(b, color, PieceType::Bishop, t) >= 2));
            assert(d3.attacked[color@].contains(t) == (d2.attacked[color@].contains(t) || batch_cover(b, color, PieceType::Rook, t) >= 1));
            assert(d3.attacked_by_2[color@].contains(t) == (d2.attacked_by_2[color@].contains(t) || (d2.attacked[color@].contains(t) && batch_cover(b, color, PieceType::Rook, t) >= 1) || batch_cover(b, color, PieceType::Rook, t) >= 2));
            assert(d4.attacked[color@].contains(t) == (d3.attacked[color@].contains(t) || batch_cover(b, color, PieceType::Queen, t) >= 1));
            assert(d4.attacked_by_2[color@].contains(t) == (d3.attacked_by_2[color@].contains(t) || (d3.attacked[color@].contains(t) && batch_cover(b, color, PieceType::Queen, t) >= 1) || batch_cover(b, color, PieceType::Queen, t) >= 2));
        }
        assert forall|t: int| #[trigger] d4.attacked_by_2[color@].contains(t) == attacked2_final(b, color, t) by {
            assert(d4.attacked[color@].contains(t) == attacked_final(b, color, t));
        }
        assert forall|pt: PieceType, t: int| 1 <= pt@ <= 4 implies #[trigger] d4.attacked_by[6 * color@ + pt@].contains(t) == attacked_by_final(b, color, pt, t) by {
            let i = 6 * color@ + pt@;
            assert(!d0.attacked_by[i].contains(t));
            if pt == PieceType::Knight {
                assert(d1.attacked_by[i].contains(t) == (d0.attacked_by[i].contains(t) || batch_cover(b, color, pt, t) >= 1));
                assert(d2.attacked_by[i] == d1.attacked_by[i]);
                assert(d3.attacked_by[i] == d2.attacked_by[i]);
                assert(d4.attacked_by[i] == d3.attacked_by[i]);
            } else if pt == PieceType::Bishop {
                assert(d1.attacked_by[i] == d0.attacked_by[i]);
                assert(d2.attacked_by[i].contains(t) == (d1.attacked_by[i].contains(t) || batch_cover(b, color, pt, t) >= 1));
                assert(d3.attacked_by[i] == d2.attacked_by[i]);
                assert(d4.attacked_by[i] == d3.attacked_by[i]);
            } else if pt == PieceType::Rook {
                assert(d1.attacked_by[i] == d0.attacked_by[i]);
                assert(d2.attacked_by[i] == d1.attacked_by[i]);
                assert(d3.attacked_by[i].contains(t) == (d2.attacked_by[i].contains(t) || batch_cover(b, color, pt, t) >= 1));
                assert(d4.attacked_by[i] == d3.attacked_by[i]);
            } else {
                assert(d1.attacked_by[i] == d0.attacked_by[i]);
                assert(d2.attacked_by[i] == d1.attacked_by[i]);
                assert(d3.attacked_by[i] == d2.attacked_by[i]);
                assert(d4.attacked_by[i].contains(t) == (d3.attacked_by[i].contains(t) || batch_cover(b, color, pt, t) >= 1));
            }
        }
        let kn = kaw_part::<P>(b, color, PieceType::Knight);
        let kb = kaw_part::<P>(b, color, PieceType::Bishop);
        let kr = kaw_part::<P>(b, color, PieceType::Rook);
        let kq = kaw_part::<P>(b, color, PieceType::Queen);
        lemma_wrap_add(kn, kb);
        lemma_wrap_add(kn + kb, kr);
        lemma_wrap_add(kn + kb + kr, kq);
        assert forall|i: int| 0 <= i < 12 && !(6 * color@ + 1 <= i <= 6 * color@ + 4) implies #[trigger] d4.attacked_by[i] == d0.attacked_by[i] by {
            assert(d1.attacked_by[i] == d0.attacked_by[i]);
            assert(d2.attacked_by[i] == d1.attacked_by[i]);
            assert(d3.attacked_by[i] == d2.attacked_by[i]);
            assert(d4.attacked_by[i] == d3.attacked_by[i]);
        }
    }
    r
}

/// The evaluation of `board` from the side to move's point of view with the values `P`, as
/// `eval_spec` states.
pub fn eval_impl<P: EvalValues>(board: &Board) -> (r: i32)
    requires
        eval_ok(*board),
        -0x7FF0_0000 <= P::tempo_spec() <= 0x7FF0_0000,
    ensures
        r == eval_spec::<P>(*board),
{
    let ghost b = *board;
    let stm = board.stm();
    let opp = stm.flip();
    let mut eval = ScorePair::zero();
    let mut i: u8 = 0;
    while i < 6
        invariant
            i <= 6,
            b == *board,
            stm == b.stm_spec(),
            opp == stm.opp(),
            eval@ == wrap32(material_upto::<P>(b, stm, opp, i as int)),
        decreases 6 - i,
    {
        let pt = PieceType::from_raw(i);
        let gain = material_of::<P>(board, stm, pt);
        let loss = material_of::<P>(board, opp, pt);
        let ghost e0 = material_upto::<P>(b, stm, opp, i as int);
        eval = eval.plus(gain).minus(loss);
        proof {
            assert(pt == type_of_index(i as int));
            let g = material_side::<P>(b, stm, pt);
            let l = material_side::<P>(b, opp, pt);
            lemma_wrap_add(e0, gain@);
            lemma_wrap_add(e0, g);
            lemma_wrap_add(e0 + g, loss@);
            lemma_wrap_add(e0 + g, l);
        }
        i = i + 1;
    }
    let ghost m = material_total::<P>(b);
    let mut data = init_data(board);
    let ms = evaluate_side_pieces::<P>(board, stm, &mut data);
    let mo = evaluate_side_pieces::<P>(board, opp, &mut data);
    let ghost mob_s = mobility_sum::<P>(b, stm, PieceType::Knight) + mobility_sum::<P>(b, stm, PieceType::Bishop)
        + mobility_sum::<P>(b, stm, PieceType::Rook) + mobility_sum::<P>(b, stm, PieceType::Queen);
    let ghost mob_o = mobility_sum::<P>(b, opp, PieceType::Knight) + mobility_sum::<P>(b, opp, PieceType::Bishop)
        + mobility_sum::<P>(b, opp, PieceType::Rook) + mobility_sum::<P>(b, opp, PieceType::Queen);
    eval = eval.plus(ms.minus(mo));
    proof {
        lemma_wrap_add(ms@, mob_o);
        lemma_wrap_add(mob_s, mob_o);
        lemma_wrap_add(m, ms@ - mo@);
        lemma_wrap_add(m, wrap32(mob_s - mob_o));
        lemma_wrap_add(m, mob_s - mob_o);
        assert(stm.opp() == opp && opp.opp() == stm);
        assert(data_final::<P>(data, b)) by {
            assert forall|c: Color, t: int| #[trigger] data.attacked[c@].contains(t) == attacked_final(b, c, t) by {
                if c == stm {} else { assert(c == opp); }
            }
            assert forall|c: Color, t: int| #[trigger] data.attacked_by_2[c@].contains(t) == attacked2_final(b, c, t) by {
                if c == stm {} else { assert(c == opp); }
            }
            assert forall|c: Color, pt: PieceType, t: int| #[trigger] data.attacked_by[6 * c@ + pt@].contains(t) == attacked_by_final(b, c, pt, t) by {
                if c == stm {} else { assert(c == opp); }
            }
            assert forall|c: Color| #[trigger] data.king_ring[c@] == ring_bb(b, c) by {
                if c == stm {} else { assert(c == opp); }
            }
            assert forall|c: Color| #[trigger] data.king_attack_weight[c@]@ == wrap32(kaw_total::<P>(b, c)) by {
                if c == stm {} else { assert(c == opp); }
            }
            assert forall|c: Color| #[trigger] data.king_attacks[c@] == ka_total(b, c) by {
                if c == stm {} else { assert(c == opp); }
            }
        }
    }
    let ghost e1 = m + mob_s - mob_o;
    let ks = evaluate_kings::<P>(board, stm, &data);
    let ko = evaluate_kings::<P>(board, opp, &data);
    eval = eval.plus(ks.minus(ko));
    let ghost k2 = kings_spec::<P>(b, stm) - kings_spec::<P>(b, opp);
    proof {
        lemma_wrap_add(ks@, kings_spec::<P>(b, opp));
        lemma_wrap_add(kings_spec::<P>(b, stm), kings_spec::<P>(b, opp));
        lemma_wrap_add(e1, ks@ - ko@);
        lemma_wrap_add(e1, wrap32(k2));
        lemma_wrap_add(e1, k2);
    }
    let ghost e2 = e1 + k2;
    let ts = evaluate_threats::<P>(board, stm, &data);
    let to = evaluate_threats::<P>(board, opp, &data);
    eval = eval.plus(ts.minus(to));
    let ghost t2 = threats_spec::<P>(b, stm) - threats_spec::<P>(b, opp);
    proof {
        lemma_wrap_add(ts@, threats_spec::<P>(b, opp));
        lemma_wrap_add(threats_spec::<P>(b, stm), threats_spec::<P>(b, opp));
        lemma_wrap_add(e2, ts@ - to@);
        lemma_wrap_add(e2, wrap32(t2));
        lemma_wrap_add(e2, t2);
    }
    let ghost e3 = e2 + t2;
    let ps = evaluate_pawns::<P>(board, stm, &data);
    let po = evaluate_pawns::<P>(board, opp, &data);
    eval = eval.plus(ps.minus(po));
    let ghost p2 = pawns_spec::<P>(b, stm) - pawns_spec::<P>(b, opp);
    proof {
        lemma_wrap_add(ps@, pawns_spec::<P>(b, opp));
        lemma_wrap_add(pawns_spec::<P>(b, stm), pawns_spec::<P>(b, opp));
        lemma_wrap_add(e3, ps@ - po@);
        lemma_wrap_add(e3, wrap32(p2));
        lemma_wrap_add(e3, p2);
        assert(e3 + p2 == eval_total::<P>(b));
    }
    let phase = (4 * board.pieces(PieceType::Queen).popcount() + 2 * board.pieces(PieceType::Rook).popcount()
        + board.pieces(PieceType::Bishop).popcount() + board.pieces(PieceType::Knight).popcount()) as i32;
    let ph = if phase < 24 {
        phase
    } else {
        24
    };
    let mg = eval.mg();
    let eg = eval.eg();
    assert(-32768 <= mg < 32768 && -32768 <= eg < 32768);
    assert(-32768 * 24 <= mg * ph <= 32768 * 24) by (nonlinear_arith)
        requires
            -32768 <= mg < 32768,
            0 <= ph <= 24,
    ;
    assert(-32768 * 24 <= eg * (24 - ph) <= 32768 * 24) by (nonlinear_arith)
        requires
            -32768 <= eg < 32768,
            0 <= ph <= 24,
    ;
    (mg * ph + eg * (24 - ph)) / 24 + P::tempo()
}

/// The evaluation of `board` from the side to move's point of view with the tuned values.
pub fn eval(board: &Board) -> (r: i32)
    requires
        eval_ok(*board),
    ensures
        r == eval_spec::<EvalParams>(*board),
{
    eval_impl::<EvalParams>(board)
}

} // verus!
