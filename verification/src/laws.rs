use vstd::prelude::*;

use crate::chess::board::Board;
use crate::chess::fen::{fen_outcome, fen_text};
use crate::chess::see::{lemma_swap_mono, see_spec};
use crate::chess::fen_round_trip::{
    join_ws, lemma_castling_read, lemma_parse_decimal, lemma_placement_read, lemma_split_join,
    lemma_square_name_read, no_ws, standard_rooks,
};
use crate::types::{Bitboard, PieceType, Square};
use crate::chess::chess_move::{move_name, parse_move_spec, Move};
use crate::chess::movegen::pseudo_legal;
use crate::eval::evaluate::pawns_before_last_rank;
use crate::eval::mirror::{lemma_eval_mirror, mirrored, single_kings};
use crate::eval::params::EvalParams;
use crate::eval::score_pair::{eg_of, lemma_pack_parts, lemma_wrap_add, mg_of, wrap32};
use crate::eval::total::{eval_spec, eval_total};
use crate::text::{split_ws, trim_chars, trim_end, trim_start};
use crate::tune::{eval_ft_cnt, eval_ft_offset, policy_ft_cnt, policy_ft_offset};
use crate::types::square::{file_of, flipped_index, parse_square_spec, rank_of, relative_index, square_name};
use crate::types::Color;

verus! {

/// Reading back the FEN that a position writes gives the position back: for a consistent
/// position of standard chess (castling rooks on their corners) whose side to move has a
/// king, whose half move clock is at most 100 and whose check information is computed (as
/// for every board that `from_fen`, `startpos` or `make_move` gives), the FEN text is
/// accepted, and every board read from it is that same board: the same pieces, side to move,
/// castling rooks, en passant square, half move clock, checkers and pins, and so the same FEN
/// text.
pub proof fn law_fen_round_trip(b: Board)
    requires
        b.wf(),
        b.has_king(b.stm_spec()),
        standard_rooks(b.rooks_spec()),
        b.hmc_spec() <= 100,
        b.check_info_ok(),
    ensures
        fen_outcome(fen_text(b)) == 0,
        forall|r: Board| #[trigger] r.read_from_fen(fen_text(b)) ==> r == b && r.checkers_spec() == b.checkers_spec()
            && fen_text(r) == fen_text(b),
        forall|r: Board| #[trigger] r.read_from_fen(fen_text(b)) ==> {
            &&& forall|c: Color, sq: int| #[trigger] r.has_color(c, sq) == b.has_color(c, sq)
            &&& forall|pt: PieceType, sq: int| #[trigger] r.has_type(pt, sq) == b.has_type(pt, sq)
            &&& r.stm_spec() == b.stm_spec()
            &&& r.rooks_spec() == b.rooks_spec()
            &&& r.ep_spec() == b.ep_spec()
            &&& r.hmc_spec() == b.hmc_spec()
        },
{
    let text = fen_text(b);
    let w0 = crate::chess::fen::rows_text(b, 8);
    let w1 = if b.stm_spec() == Color::White {
        seq!['w']
    } else {
        seq!['b']
    };
    let w2 = b.rooks_spec().text();
    let w3 = match b.ep_spec() {
        Some(q) => square_name(q@),
        None => seq!['-'],
    };
    let w4 = crate::chess::fen::decimal_text(b.hmc_spec() as int);
    let w5 = seq!['1'];
    let ws = seq![w0, w1, w2, w3, w4, w5];
    lemma_placement_read(b);
    lemma_castling_read(b.rooks_spec());
    crate::chess::fen_round_trip::lemma_decimal_text(b.hmc_spec() as int);
    lemma_parse_decimal(b.hmc_spec() as int);
    match b.ep_spec() {
        Some(q) => lemma_square_name_read(q@),
        None => {},
    }
    assert(no_ws(w1)) by {
        assert(w1.len() == 1);
    }
    assert(no_ws(w3)) by {
        if b.ep_spec() is None {
            assert(w3.len() == 1 && w3[0] == '-');
        }
    }
    assert(no_ws(w5)) by {
        assert(w5.len() == 1);
    }
    assert forall|i: int| 0 <= i < ws.len() implies (#[trigger] ws[i]).len() > 0 && no_ws(ws[i]) by {
        if i == 0 {
            assert(ws[i] == w0);
        } else if i == 1 {
            assert(ws[i] == w1);
        } else if i == 2 {
            assert(ws[i] == w2);
        } else if i == 3 {
            assert(ws[i] == w3);
        } else if i == 4 {
            assert(ws[i] == w4);
        } else {
            assert(ws[i] == w5);
        }
    }
    let sp = seq![' '];
    assert(ws.drop_last().drop_last().drop_last().drop_last().drop_last() =~= seq![w0]);
    assert(ws.drop_last().drop_last().drop_last().drop_last() =~= seq![w0, w1]);
    assert(ws.drop_last().drop_last().drop_last() =~= seq![w0, w1, w2]);
    assert(ws.drop_last().drop_last() =~= seq![w0, w1, w2, w3]);
    assert(ws.drop_last() =~= seq![w0, w1, w2, w3, w4]);
    assert(join_ws(seq![w0]) == w0);
    assert(join_ws(seq![w0, w1]) == w0 + sp + w1);
    assert(join_ws(seq![w0, w1, w2]) == w0 + sp + w1 + sp + w2);
    assert(join_ws(seq![w0, w1, w2, w3]) == w0 + sp + w1 + sp + w2 + sp + w3);
    assert(join_ws(seq![w0, w1, w2, w3, w4]) == w0 + sp + w1 + sp + w2 + sp + w3 + sp + w4);
    assert(join_ws(ws) == w0 + sp + w1 + sp + w2 + sp + w3 + sp + w4 + sp + w5);
    assert(text =~= join_ws(ws));
    lemma_split_join(ws);
    let parts = split_ws(text);
    assert(parts == ws);
    assert(parts[0] == w0 && parts[1] == w1 && parts[2] == w2 && parts[3] == w3 && parts[4] == w4);
    assert(crate::chess::fen::stm_of(w1) == Some(b.stm_spec())) by {
        if b.stm_spec() == Color::Black {
            assert(w1[0] != seq!['w'][0]);
        }
    }
    let k = choose|s: int| b.has_color(b.stm_spec(), s) && #[trigger] b.has_type(PieceType::King, s);
    assert(crate::chess::fen::fen_color_at(w0, b.stm_spec(), k) && crate::chess::fen::fen_type_at(
        w0,
        PieceType::King,
        k,
    ));
    assert forall|r: Board| #[trigger] r.read_from_fen(text) implies {
        &&& forall|c: Color, sq: int| #[trigger] r.has_color(c, sq) == b.has_color(c, sq)
        &&& forall|pt: PieceType, sq: int| #[trigger] r.has_type(pt, sq) == b.has_type(pt, sq)
        &&& r.stm_spec() == b.stm_spec()
        &&& r.rooks_spec() == b.rooks_spec()
        &&& r.ep_spec() == b.ep_spec()
        &&& r.hmc_spec() == b.hmc_spec()
    } by {
        match b.ep_spec() {
            Some(q) => {
                let q2 = r.ep_spec()->0;
                Square::lemma_from_index(q);
                Square::lemma_from_index(q2);
            },
            None => {},
        }
    }
    assert forall|r: Board| #[trigger] r.read_from_fen(text) implies r == b && r.checkers_spec() == b.checkers_spec()
        && fen_text(r) == fen_text(b) by {
        match b.ep_spec() {
            Some(q) => {
                let q2 = r.ep_spec()->0;
                Square::lemma_from_index(q);
                Square::lemma_from_index(q2);
            },
            None => {},
        }
        Board::lemma_board_ext(b, r);
    }
}

/// The name of a square parses back to that square.
pub proof fn law_square_name_round_trip(s: int)
    requires
        0 <= s < 64,
    ensures
        parse_square_spec(square_name(s)) == Some(s),
{
    let n = square_name(s);
    crate::chess::attacks::lemma_coords(s);
    assert(trim_start(n) == n);
    assert(trim_end(n) == n);
    assert(trim_chars(n) == n);
}

/// The name of a plain move or of a promotion parses back to its squares and promotion piece.
pub proof fn law_move_name_round_trip(m: Move)
    requires
        (m.kind_spec() == 0 && m.promo_spec() == 0) || m.kind_spec() == 3,
    ensures
        parse_move_spec(move_name(m.from_spec(), m.to_spec(), m.kind_spec(), m.promo_spec())) == Some(
            (m.from_spec(), m.to_spec(), if m.kind_spec() == 3 {
                Some(m.promo_spec())
            } else {
                None
            }),
        ),
{
    m.lemma_fields();
    let n = move_name(m.from_spec(), m.to_spec(), m.kind_spec(), m.promo_spec());
    crate::chess::attacks::lemma_coords(m.from_spec());
    crate::chess::attacks::lemma_coords(m.to_spec());
    assert(n.subrange(0, 2) =~= square_name(m.from_spec()));
    assert(n.subrange(2, 4) =~= square_name(m.to_spec()));
    law_square_name_round_trip(m.from_spec());
    law_square_name_round_trip(m.to_spec());
}

/// Flipping a square to the other side's view twice gives the square back, and so does
/// viewing it twice from black's side.
pub proof fn law_flip_involution(s: int)
    requires
        0 <= s < 64,
    ensures
        flipped_index(flipped_index(s)) == s,
        relative_index(relative_index(s, false), false) == s,
        relative_index(s, true) == s,
        rank_of(flipped_index(s)) == 7 - rank_of(s),
        file_of(flipped_index(s)) == file_of(s),
{
    crate::chess::attacks::lemma_coords(s);
    crate::chess::attacks::lemma_coords(flipped_index(s));
}

/// Swapping the colours and mirroring the ranks of a position leaves its evaluation, which is
/// taken from the side to move's point of view, unchanged: when `m` is `b` with the colours of
/// all pieces swapped, every rank `r` moved to rank `7 - r` and the other side to move, each
/// side of `b` has a single king and no pawn of `b` stands on its last rank, the evaluation
/// terms of `m` sum to those of `b`, and the evaluation of `m` is that of `b`.
pub proof fn law_eval_color_mirror(m: Board, b: Board)
    requires
        mirrored(m, b),
        single_kings(b),
        pawns_before_last_rank(b, Color::White),
        pawns_before_last_rank(b, Color::Black),
    ensures
        eval_total::<EvalParams>(m) == eval_total::<EvalParams>(b),
        eval_spec::<EvalParams>(m) == eval_spec::<EvalParams>(b),
{
    lemma_eval_mirror(m, b);
}

/// The other side of the other side is the side itself.
pub proof fn law_color_opp_involution(c: Color)
    ensures
        c.opp().opp() == c,
        c.opp() != c,
{
}

/// Adding two packed pairs adds their middle and end game parts, as long as the sums fit in
/// `i16`.
pub proof fn law_pair_sum_parts(mg1: int, eg1: int, mg2: int, eg2: int)
    requires
        -32768 <= mg1 + mg2 < 32768,
        -32768 <= eg1 + eg2 < 32768,
    ensures
        mg_of(wrap32(wrap32(eg1 * 65536 + mg1) + wrap32(eg2 * 65536 + mg2))) == mg1 + mg2,
        eg_of(wrap32(wrap32(eg1 * 65536 + mg1) + wrap32(eg2 * 65536 + mg2))) == eg1 + eg2,
{
    lemma_wrap_add(eg1 * 65536 + mg1, wrap32(eg2 * 65536 + mg2));
    lemma_wrap_add(eg1 * 65536 + mg1, eg2 * 65536 + mg2);
    assert((eg1 * 65536 + mg1) + (eg2 * 65536 + mg2) == (eg1 + eg2) * 65536 + (mg1 + mg2));
    lemma_pack_parts(mg1 + mg2, eg1 + eg2);
}

/// The parameters of consecutive evaluation and policy features lie back to back, the first
/// at 0, and there are 1317 evaluation and 848 policy parameters in all.
pub proof fn law_feature_layout(i: int, j: int)
    requires
        0 <= i < 19,
        0 <= j < 9,
    ensures
        eval_ft_offset(0) == 0,
        eval_ft_offset(i + 1) == eval_ft_offset(i) + eval_ft_cnt(i),
        eval_ft_offset(19) == 1317,
        policy_ft_offset(0) == 0,
        policy_ft_offset(j + 1) == policy_ft_offset(j) + policy_ft_cnt(j),
        policy_ft_offset(9) == 848,
{
    reveal_with_fuel(eval_ft_offset, 20);
    reveal_with_fuel(policy_ft_offset, 10);
}

/// Every move that the generator yields moves a piece of the side to move.
pub proof fn law_generated_moves_move_own_pieces(b: Board, m: Move)
    requires
        pseudo_legal(b, m),
        b.has_king(b.stm_spec()),
    ensures
        b.has_color(b.stm_spec(), m.from_spec()),
{
    if m.from_spec() == b.king_square(b.stm_spec()) {
        b.lemma_king_square_is_king(b.stm_spec());
    }
}

/// A static exchange that wins at least some threshold also wins at least every lower one.
pub proof fn law_see_threshold_monotone(b: Board, m: Move, high: int, low: int)
    requires
        low <= high,
    ensures
        see_spec(b, m, high) ==> see_spec(b, m, low),
{
    if m.kind_spec() == 0 && see_spec(b, m, high) {
        let to = m.to_spec();
        let from = m.from_spec();
        let hi1 = crate::chess::see::value_at(b, to) - high - crate::chess::see::value_at(b, from);
        let lo1 = crate::chess::see::value_at(b, to) - low - crate::chess::see::value_at(b, from);
        if lo1 < 0 {
            let occ = Bitboard::from_raw_spec(
                b.occ_bb()@ ^ ((1u64 << (to as u64)) ^ (1u64 << (from as u64))),
            );
            let attackers = Set::new(|t: int| b.attacks_from(to, occ, t));
            lemma_swap_mono(b, to, occ, attackers, b.stm_spec().opp(), hi1, lo1);
        }
    }
}

} // verus!
