use vstd::prelude::*;

use super::evaluate::{
    any_push, attacked2_final, attacked_by_final, attacked_final, batch_cover, cap_from, cover_f,
    coverage, defended_sq, has_piece, kind_on, mobility_area, mobility_of, pawn_attacked, push_from,
    end_pawn, file_pawn_rank, has_file_pawn, is_end_pawn, is_passed, is_ring, ka_part,
    kaw_part, kings_spec, kpf_spec, passer_value, pawns_before_last_rank, pawns_spec,
    push_square, push_threat_sq, rel_rank, ring_bb, ring_hit, ring_hits, ring_spec, safe_sq,
    single_push, threat_sum, threat_value, threats_spec, weak_sq,
};
use super::params::{EvalParams, EvalValues};
use super::sums::{count_where, lemma_popcount_count, lemma_sum_ext, sum_below};
use super::total::{eval_spec, eval_total, material_side, material_total, material_upto, mobility_sum, phase_of};
use crate::chess::attacks::{
    bishop_reach, is_diagonal, king_step, knight_step, lemma_coords, passed_span, lemma_square_of, ray_clear, ray_target,
    rook_reach, slides_to, Direction,
};
use crate::chess::board::{type_of_index, Board};
use crate::chess::movegen::piece_reach;
use crate::types::bitboard::{bit, lemma_bit_and, lemma_bit_or};
use crate::types::square::{chebyshev_dist, file_of, flipped_index, rank_of};
use crate::types::{Bitboard, Color, PieceType};

verus! {

/// `m` is `b` with the colours swapped and the ranks mirrored: the side to move is the other
/// side, and each square of `m` holds the piece of the other colour and the same kind that the
/// mirrored square of `b` holds.
pub open spec fn mirrored(m: Board, b: Board) -> bool {
    &&& m.stm_spec() == b.stm_spec().opp()
    &&& forall|c: Color, s: int|
        0 <= s < 64 ==> #[trigger] m.has_color(c, s) == b.has_color(c.opp(), flipped_index(s))
    &&& forall|pt: PieceType, s: int|
        0 <= s < 64 ==> #[trigger] m.has_type(pt, s) == b.has_type(pt, flipped_index(s))
}

/// Summing over the mirrored squares gives the same sum.
pub proof fn lemma_sum_mirror(f: spec_fn(int) -> int)
    ensures
        sum_below(|s: int| f(flipped_index(s)), 64) == sum_below(f, 64),
{
    reveal_with_fuel(sum_below, 65);
}

/// The piece square value of a piece on a square is that of a piece of the other colour and
/// the same kind on the mirrored square.
pub proof fn lemma_psqt_mirror(c: Color, pt: PieceType, s: int)
    requires
        0 <= s < 64,
    ensures
        EvalParams::psqt_spec(c, pt, s) == EvalParams::psqt_spec(c.opp(), pt, flipped_index(s)),
{
    crate::chess::attacks::lemma_coords(s);
    crate::chess::attacks::lemma_coords(flipped_index(s));
}

/// The material and piece square values of the pieces of one colour and kind of `m` are those
/// of the other colour of `b`.
pub proof fn lemma_material_side_mirror(m: Board, b: Board, c: Color, pt: PieceType)
    requires
        mirrored(m, b),
    ensures
        material_side::<EvalParams>(m, c, pt) == material_side::<EvalParams>(b, c.opp(), pt),
{
    let fm = |s: int| EvalParams::material_spec(pt) + EvalParams::psqt_spec(c, pt, s);
    let fb = |s: int| EvalParams::material_spec(pt) + EvalParams::psqt_spec(c.opp(), pt, s);
    let gm = |s: int| if has_piece(m, c, pt, s) { fm(s) } else { 0 };
    let gb = |s: int| if has_piece(b, c.opp(), pt, s) { fb(s) } else { 0 };
    assert forall|s: int| 0 <= s < 64 implies #[trigger] gm(s) == gb(flipped_index(s)) by {
        lemma_psqt_mirror(c, pt, s);
        assert(m.has_color(c, s) == b.has_color(c.opp(), flipped_index(s)));
        assert(m.has_type(pt, s) == b.has_type(pt, flipped_index(s)));
    }
    lemma_sum_ext(gm, |s: int| gb(flipped_index(s)), 64);
    lemma_sum_mirror(gb);
    assert(material_side::<EvalParams>(m, c, pt) == sum_below(gm, 64));
    assert(material_side::<EvalParams>(b, c.opp(), pt) == sum_below(gb, 64));
}

/// The material balance over the first `n` piece kinds of `m`, seen from its side to move, is
/// that of `b` seen from its side to move.
proof fn lemma_material_upto_mirror(m: Board, b: Board, n: int)
    requires
        mirrored(m, b),
    ensures
        material_upto::<EvalParams>(m, m.stm_spec(), m.stm_spec().opp(), n)
            == material_upto::<EvalParams>(b, b.stm_spec(), b.stm_spec().opp(), n),
    decreases n,
{
    if n > 0 {
        lemma_material_upto_mirror(m, b, n - 1);
        lemma_material_side_mirror(m, b, m.stm_spec(), type_of_index(n - 1));
        lemma_material_side_mirror(m, b, m.stm_spec().opp(), type_of_index(n - 1));
    }
}

/// The number of pieces of a kind on `m` is that on `b`.
proof fn lemma_kind_count_mirror(m: Board, b: Board, pt: PieceType)
    requires
        mirrored(m, b),
    ensures
        crate::types::bitboard::pop_count(m.pieces_bb(pt@)@) == crate::types::bitboard::pop_count(
            b.pieces_bb(pt@)@,
        ),
{
    let pm = |s: int| m.has_type(pt, s);
    let pb = |s: int| b.has_type(pt, s);
    lemma_popcount_count(m.pieces_bb(pt@), pm);
    lemma_popcount_count(b.pieces_bb(pt@), pb);
    let im = |s: int| if pm(s) { 1int } else { 0int };
    let ib = |s: int| if pb(s) { 1int } else { 0int };
    assert forall|s: int| 0 <= s < 64 implies #[trigger] im(s) == ib(flipped_index(s)) by {
        assert(m.has_type(pt, s) == b.has_type(pt, flipped_index(s)));
    }
    lemma_sum_ext(im, |s: int| ib(flipped_index(s)), 64);
    lemma_sum_mirror(ib);
    assert(count_where(pm) == sum_below(im, 64));
    assert(count_where(pb) == sum_below(ib, 64));
}

/// The mirrored square has the mirrored rank and the same file, and mirroring twice gives the
/// square back.
pub proof fn lemma_flip(s: int)
    requires
        0 <= s < 64,
    ensures
        0 <= flipped_index(s) < 64,
        flipped_index(s) == 8 * (7 - rank_of(s)) + file_of(s),
        rank_of(flipped_index(s)) == 7 - rank_of(s),
        file_of(flipped_index(s)) == file_of(s),
        flipped_index(flipped_index(s)) == s,
{
    lemma_coords(s);
    lemma_square_of(7 - rank_of(s), file_of(s));
    lemma_square_of(rank_of(s), file_of(s));
}

/// The direction with north and south swapped.
pub open spec fn flip_dir(d: Direction) -> Direction {
    match d {
        Direction::North => Direction::South,
        Direction::South => Direction::North,
        Direction::East => Direction::East,
        Direction::West => Direction::West,
        Direction::NorthEast => Direction::SouthEast,
        Direction::NorthWest => Direction::SouthWest,
        Direction::SouthEast => Direction::NorthEast,
        Direction::SouthWest => Direction::NorthWest,
    }
}

/// The ray from the mirrored square in the mirrored direction runs over the mirrored squares.
proof fn lemma_ray_mirror(s: int, d: Direction, k: int)
    requires
        0 <= s < 64,
    ensures
        ray_target(flipped_index(s), flip_dir(d), k) == match ray_target(s, d, k) {
            Some(u) => Some(flipped_index(u)),
            None => None,
        },
{
    lemma_flip(s);
    let r = rank_of(s);
    let f = file_of(s);
    let (r2, f2) = match d {
        Direction::North => (r + k, f),
        Direction::South => (r - k, f),
        Direction::East => (r, f + k),
        Direction::West => (r, f - k),
        Direction::NorthEast => (r + k, f + k),
        Direction::NorthWest => (r + k, f - k),
        Direction::SouthEast => (r - k, f + k),
        Direction::SouthWest => (r - k, f - k),
    };
    if 0 <= r2 < 8 && 0 <= f2 < 8 {
        lemma_square_of(r2, f2);
        lemma_flip(8 * r2 + f2);
        assert(ray_target(s, d, k) == Some(8 * r2 + f2));
        assert(ray_target(flipped_index(s), flip_dir(d), k) == Some(8 * (7 - r2) + f2));
    } else {
        assert(ray_target(s, d, k) is None);
        assert(ray_target(flipped_index(s), flip_dir(d), k) is None);
    }
}

/// Occupied sets that are mirror images of each other.
pub open spec fn mirror_sets(om: Bitboard, ob: Bitboard) -> bool {
    forall|x: int| 0 <= x < 64 ==> #[trigger] om.contains(x) == ob.contains(flipped_index(x))
}

/// A piece slides from `s` to `t` over `om` exactly when it slides between the mirrored
/// squares, in the mirrored direction, over the mirrored set `ob`.
proof fn lemma_slides_mirror(s: int, t: int, d: Direction, om: Bitboard, ob: Bitboard)
    requires
        0 <= s < 64,
        0 <= t < 64,
        mirror_sets(om, ob),
    ensures
        slides_to(s, t, d, om) == slides_to(flipped_index(s), flipped_index(t), flip_dir(d), ob),
{
    let fs = flipped_index(s);
    let ft = flipped_index(t);
    let fd = flip_dir(d);
    lemma_flip(s);
    lemma_flip(t);
    if slides_to(s, t, d, om) {
        let k = choose|k: int| k >= 1 && #[trigger] ray_target(s, d, k) == Some(t) && ray_clear(s, d, k, om);
        lemma_ray_mirror(s, d, k);
        assert forall|j: int| 1 <= j < k implies (#[trigger] ray_target(fs, fd, j) matches Some(u) && !ob.contains(u)) by {
            lemma_ray_mirror(s, d, j);
            assert(ray_target(s, d, j) matches Some(v) && !om.contains(v));
            let v = ray_target(s, d, j)->0;
            lemma_coords(v);
            assert(om.contains(v) == ob.contains(flipped_index(v)));
        }
        assert(ray_clear(fs, fd, k, ob));
        assert(slides_to(fs, ft, fd, ob));
    }
    if slides_to(fs, ft, fd, ob) {
        let k = choose|k: int| k >= 1 && #[trigger] ray_target(fs, fd, k) == Some(ft) && ray_clear(fs, fd, k, ob);
        lemma_ray_mirror(s, d, k);
        let u = ray_target(s, d, k)->0;
        lemma_coords(u);
        lemma_flip(u);
        assert(ray_target(s, d, k) == Some(t));
        assert forall|j: int| 1 <= j < k implies (#[trigger] ray_target(s, d, j) matches Some(v) && !om.contains(v)) by {
            lemma_ray_mirror(s, d, j);
            assert(ray_target(fs, fd, j) matches Some(w) && !ob.contains(w));
            let v = ray_target(s, d, j)->0;
            lemma_coords(v);
            assert(om.contains(v) == ob.contains(flipped_index(v)));
        }
        assert(ray_clear(s, d, k, om));
    }
}

/// Mirroring maps the reach of a knight, bishop, rook or queen onto the mirrored reach.
pub proof fn lemma_reach_mirror(pt: PieceType, s: int, t: int, om: Bitboard, ob: Bitboard)
    requires
        0 <= s < 64,
        0 <= t < 64,
        mirror_sets(om, ob),
    ensures
        piece_reach(pt, s, t, om) == piece_reach(pt, flipped_index(s), flipped_index(t), ob),
{
    let fs = flipped_index(s);
    let ft = flipped_index(t);
    lemma_flip(s);
    lemma_flip(t);
    assert forall|d: Direction| #[trigger] slides_to(s, t, d, om) == slides_to(fs, ft, flip_dir(d), ob) by {
        lemma_slides_mirror(s, t, d, om, ob);
    }
    assert forall|d: Direction| flip_dir(#[trigger] flip_dir(d)) == d && (is_diagonal(flip_dir(d)) == is_diagonal(d)) by {}
    if bishop_reach(s, t, om) {
        let d = choose|d: Direction| is_diagonal(d) && #[trigger] slides_to(s, t, d, om);
        assert(slides_to(fs, ft, flip_dir(d), ob));
    }
    if bishop_reach(fs, ft, ob) {
        let d = choose|d: Direction| is_diagonal(d) && #[trigger] slides_to(fs, ft, d, ob);
        assert(slides_to(s, t, flip_dir(d), om) == slides_to(fs, ft, flip_dir(flip_dir(d)), ob));
    }
    if rook_reach(s, t, om) {
        let d = choose|d: Direction| !is_diagonal(d) && #[trigger] slides_to(s, t, d, om);
        assert(slides_to(fs, ft, flip_dir(d), ob));
    }
    if rook_reach(fs, ft, ob) {
        let d = choose|d: Direction| !is_diagonal(d) && #[trigger] slides_to(fs, ft, d, ob);
        assert(slides_to(s, t, flip_dir(d), om) == slides_to(fs, ft, flip_dir(flip_dir(d)), ob));
    }
    assert(knight_step(s, t) == knight_step(fs, ft));
}

/// The occupied squares of `m` are the mirror of those of `b`.
proof fn lemma_occ_mirror(m: Board, b: Board)
    requires
        mirrored(m, b),
    ensures
        mirror_sets(m.occ_bb(), b.occ_bb()),
{
    assert forall|x: int| 0 <= x < 64 implies #[trigger] m.occ_bb().contains(x) == b.occ_bb().contains(flipped_index(x)) by {
        lemma_flip(x);
        Bitboard::lemma_from_raw_spec(m.colors_bb(0)@ | m.colors_bb(1)@);
        Bitboard::lemma_from_raw_spec(b.colors_bb(0)@ | b.colors_bb(1)@);
        lemma_bit_or(m.colors_bb(0)@, m.colors_bb(1)@, x);
        lemma_bit_or(b.colors_bb(0)@, b.colors_bb(1)@, flipped_index(x));
        assert(m.has_color(Color::White, x) == b.has_color(Color::Black, flipped_index(x)));
        assert(m.has_color(Color::Black, x) == b.has_color(Color::White, flipped_index(x)));
    }
}

/// A pawn of side `c` of `m` attacks `t` exactly when a pawn of the other side of `b` attacks
/// the mirrored square.
proof fn lemma_pawn_attacked_mirror(m: Board, b: Board, c: Color, t: int)
    requires
        mirrored(m, b),
        0 <= t < 64,
    ensures
        pawn_attacked(m, c, t) == pawn_attacked(b, c.opp(), flipped_index(t)),
{
    let ft = flipped_index(t);
    lemma_flip(t);
    lemma_coords(t);
    assert forall|x: int| 0 <= x < 64 implies #[trigger] m.colored_bb(c, PieceType::Pawn).contains(x)
        == b.colored_bb(c.opp(), PieceType::Pawn).contains(flipped_index(x)) by {
        lemma_flip(x);
        Bitboard::lemma_from_raw_spec(m.colors_bb(c@)@ & m.pieces_bb(PieceType::Pawn@)@);
        Bitboard::lemma_from_raw_spec(b.colors_bb(c.opp()@)@ & b.pieces_bb(PieceType::Pawn@)@);
        lemma_bit_and(m.colors_bb(c@)@, m.pieces_bb(PieceType::Pawn@)@, x);
        lemma_bit_and(b.colors_bb(c.opp()@)@, b.pieces_bb(PieceType::Pawn@)@, flipped_index(x));
        assert(m.has_color(c, x) == b.has_color(c.opp(), flipped_index(x)));
        assert(m.has_type(PieceType::Pawn, x) == b.has_type(PieceType::Pawn, flipped_index(x)));
    }
    let r = rank_of(t);
    let f = file_of(t);
    if 0 <= r - 1 && f + 1 < 8 {
        lemma_square_of(r - 1, f + 1);
        lemma_flip(8 * (r - 1) + f + 1);
    }
    if 0 <= r - 1 && 0 <= f - 1 {
        lemma_square_of(r - 1, f - 1);
        lemma_flip(8 * (r - 1) + f - 1);
    }
    if r + 1 < 8 && f + 1 < 8 {
        lemma_square_of(r + 1, f + 1);
        lemma_flip(8 * (r + 1) + f + 1);
    }
    if r + 1 < 8 && 0 <= f - 1 {
        lemma_square_of(r + 1, f - 1);
        lemma_flip(8 * (r + 1) + f - 1);
    }
}

/// The mobility area of side `c` of `m` is the mirror of that of the other side of `b`.
proof fn lemma_mobility_area_mirror(m: Board, b: Board, c: Color, t: int)
    requires
        mirrored(m, b),
        0 <= t < 64,
    ensures
        mobility_area(m, c, t) == mobility_area(b, c.opp(), flipped_index(t)),
{
    lemma_flip(t);
    lemma_pawn_attacked_mirror(m, b, c.opp(), t);
}

/// A piece of `m` has the mobility of the piece of the same kind and other side on the
/// mirrored square of `b`.
proof fn lemma_mobility_of_mirror(m: Board, b: Board, c: Color, pt: PieceType, s: int)
    requires
        mirrored(m, b),
        0 <= s < 64,
    ensures
        mobility_of(m, c, pt, s) == mobility_of(b, c.opp(), pt, flipped_index(s)),
{
    lemma_occ_mirror(m, b);
    let fs = flipped_index(s);
    let pm = |t: int| piece_reach(pt, s, t, m.occ_bb()) && mobility_area(m, c, t);
    let pb = |t: int| piece_reach(pt, fs, t, b.occ_bb()) && mobility_area(b, c.opp(), t);
    let im = |t: int| if pm(t) { 1int } else { 0int };
    let ib = |t: int| if pb(t) { 1int } else { 0int };
    assert forall|t: int| 0 <= t < 64 implies #[trigger] im(t) == ib(flipped_index(t)) by {
        lemma_reach_mirror(pt, s, t, m.occ_bb(), b.occ_bb());
        lemma_mobility_area_mirror(m, b, c, t);
    }
    lemma_sum_ext(im, |t: int| ib(flipped_index(t)), 64);
    lemma_sum_mirror(ib);
    assert(mobility_of(m, c, pt, s) == sum_below(im, 64));
    assert(mobility_of(b, c.opp(), pt, fs) == sum_below(ib, 64));
}

/// The mobility of the pieces of one side and kind of `m` is that of the other side of `b`.
pub proof fn lemma_mobility_sum_mirror<P: EvalValues>(m: Board, b: Board, c: Color, pt: PieceType)
    requires
        mirrored(m, b),
    ensures
        mobility_sum::<P>(m, c, pt) == mobility_sum::<P>(b, c.opp(), pt),
{
    let fm = |s: int| P::mobility_spec(pt, mobility_of(m, c, pt, s) as u32);
    let fb = |s: int| P::mobility_spec(pt, mobility_of(b, c.opp(), pt, s) as u32);
    let gm = |s: int| if has_piece(m, c, pt, s) { fm(s) } else { 0 };
    let gb = |s: int| if has_piece(b, c.opp(), pt, s) { fb(s) } else { 0 };
    assert forall|s: int| 0 <= s < 64 implies #[trigger] gm(s) == gb(flipped_index(s)) by {
        lemma_mobility_of_mirror(m, b, c, pt, s);
        assert(m.has_color(c, s) == b.has_color(c.opp(), flipped_index(s)));
        assert(m.has_type(pt, s) == b.has_type(pt, flipped_index(s)));
    }
    lemma_sum_ext(gm, |s: int| gb(flipped_index(s)), 64);
    lemma_sum_mirror(gb);
    assert(mobility_sum::<P>(m, c, pt) == sum_below(gm, 64));
    assert(mobility_sum::<P>(b, c.opp(), pt) == sum_below(gb, 64));
}

/// Side `c` has exactly one king.
pub open spec fn single_king(b: Board, c: Color) -> bool {
    &&& b.has_king(c)
    &&& forall|s: int, u: int|
        #[trigger] has_piece(b, c, PieceType::King, s) && #[trigger] has_piece(b, c, PieceType::King, u)
            ==> s == u
}

/// The king of side `c` of `m` stands on the mirrored square of the single king of the other
/// side of `b`.
pub proof fn lemma_king_square_mirror(m: Board, b: Board, c: Color)
    requires
        mirrored(m, b),
        single_king(b, c.opp()),
    ensures
        single_king(m, c),
        m.king_square(c) == flipped_index(b.king_square(c.opp())),
{
    b.lemma_king_square_is_king(c.opp());
    let k = b.king_square(c.opp());
    lemma_flip(k);
    let fk = flipped_index(k);
    assert(m.has_color(c, fk) == b.has_color(c.opp(), k));
    assert(m.has_type(PieceType::King, fk) == b.has_type(PieceType::King, k));
    assert forall|u: int| #[trigger] has_piece(m, c, PieceType::King, u) implies u == fk by {
        lemma_flip(u);
        assert(m.has_color(c, u) == b.has_color(c.opp(), flipped_index(u)));
        assert(m.has_type(PieceType::King, u) == b.has_type(PieceType::King, flipped_index(u)));
        assert(has_piece(b, c.opp(), PieceType::King, flipped_index(u)));
        assert(has_piece(b, c.opp(), PieceType::King, k));
    }
    assert(m.has_color(c, fk) && m.has_type(PieceType::King, fk));
    assert(m.has_king(c));
    assert forall|u: int| 0 <= u < fk implies !(m.has_color(c, u) && #[trigger] m.has_type(PieceType::King, u)) by {
        if m.has_color(c, u) && m.has_type(PieceType::King, u) {
            assert(has_piece(m, c, PieceType::King, u));
        }
    }
    assert(m.lowest_king(c, fk));
    m.lemma_king_square_is_king(c);
    assert(has_piece(m, c, PieceType::King, m.king_square(c)));
}

/// A king step maps onto the mirrored king step.
proof fn lemma_king_step_mirror(s: int, t: int)
    requires
        0 <= s < 64,
        0 <= t < 64,
    ensures
        king_step(s, t) == king_step(flipped_index(s), flipped_index(t)),
{
    lemma_flip(s);
    lemma_flip(t);
    let rs = rank_of(s);
    let rt = rank_of(t);
    let fs = file_of(s);
    let ft = file_of(t);
    assert(rank_of(flipped_index(t)) - rank_of(flipped_index(s)) == rs - rt);
    assert(file_of(flipped_index(t)) - file_of(flipped_index(s)) == ft - fs);
    assert((s != t) == (flipped_index(s) != flipped_index(t)));
}

/// The pieces of kind `pt` of side `c` of `m` that attack `t` are as many as those of the
/// other side of `b` that attack the mirrored square.
proof fn lemma_batch_cover_mirror(m: Board, b: Board, c: Color, pt: PieceType, t: int)
    requires
        mirrored(m, b),
        0 <= t < 64,
    ensures
        batch_cover(m, c, pt, t) == batch_cover(b, c.opp(), pt, flipped_index(t)),
{
    lemma_occ_mirror(m, b);
    let ft = flipped_index(t);
    let gm = |s: int| if has_piece(m, c, pt, s) { cover_f(m, pt, t)(s) } else { 0 };
    let gb = |s: int| if has_piece(b, c.opp(), pt, s) { cover_f(b, pt, ft)(s) } else { 0 };
    assert forall|s: int| 0 <= s < 64 implies #[trigger] gm(s) == gb(flipped_index(s)) by {
        lemma_reach_mirror(pt, s, t, m.occ_bb(), b.occ_bb());
        assert(m.has_color(c, s) == b.has_color(c.opp(), flipped_index(s)));
        assert(m.has_type(pt, s) == b.has_type(pt, flipped_index(s)));
    }
    lemma_sum_ext(gm, |s: int| gb(flipped_index(s)), 64);
    lemma_sum_mirror(gb);
    assert(batch_cover(m, c, pt, t) == sum_below(gm, 64));
    assert(batch_cover(b, c.opp(), pt, ft) == sum_below(gb, 64));
}

/// The attacks of side `c` of `m` on a square are those of the other side of `b` on the
/// mirrored square.
pub proof fn lemma_attacks_mirror(m: Board, b: Board, c: Color, t: int)
    requires
        mirrored(m, b),
        single_king(b, c.opp()),
        0 <= t < 64,
    ensures
        coverage(m, c, t) == coverage(b, c.opp(), flipped_index(t)),
        attacked_final(m, c, t) == attacked_final(b, c.opp(), flipped_index(t)),
        attacked2_final(m, c, t) == attacked2_final(b, c.opp(), flipped_index(t)),
        forall|pt: PieceType| #[trigger] attacked_by_final(m, c, pt, t) == attacked_by_final(b, c.opp(), pt, flipped_index(t)),
{
    lemma_king_square_mirror(m, b, c);
    b.lemma_king_square_is_king(c.opp());
    lemma_king_step_mirror(b.king_square(c.opp()), flipped_index(t));
    lemma_flip(t);
    lemma_flip(b.king_square(c.opp()));
    lemma_batch_cover_mirror(m, b, c, PieceType::Knight, t);
    lemma_batch_cover_mirror(m, b, c, PieceType::Bishop, t);
    lemma_batch_cover_mirror(m, b, c, PieceType::Rook, t);
    lemma_batch_cover_mirror(m, b, c, PieceType::Queen, t);
    lemma_pawn_attacked_mirror(m, b, c, t);
    assert forall|pt: PieceType| #[trigger] attacked_by_final(m, c, pt, t) == attacked_by_final(b, c.opp(), pt, flipped_index(t)) by {
        lemma_batch_cover_mirror(m, b, c, pt, t);
    }
}

/// The squares one rank and up to one file away from `t` mirror onto the squares one rank the
/// other way from the mirrored square.
proof fn lemma_neighbors_mirror(t: int)
    requires
        0 <= t < 64,
    ensures
        8 <= t ==> flipped_index(t - 8) == flipped_index(t) + 8,
        t < 56 ==> flipped_index(t + 8) == flipped_index(t) - 8,
        8 <= t && file_of(t) != 7 ==> flipped_index(t - 7) == flipped_index(t) + 9,
        8 <= t && file_of(t) != 0 ==> flipped_index(t - 9) == flipped_index(t) + 7,
        t < 56 && file_of(t) != 7 ==> flipped_index(t + 9) == flipped_index(t) - 7,
        t < 56 && file_of(t) != 0 ==> flipped_index(t + 7) == flipped_index(t) - 9,
        (8 <= t) == (flipped_index(t) < 56),
{
    lemma_flip(t);
    lemma_coords(t);
    let r = rank_of(t);
    let f = file_of(t);
    if 8 <= t {
        lemma_square_of(r - 1, f);
        lemma_flip(t - 8);
        if f != 7 {
            lemma_square_of(r - 1, f + 1);
            lemma_flip(t - 7);
        }
        if f != 0 {
            lemma_square_of(r - 1, f - 1);
            lemma_flip(t - 9);
        }
    }
    if t < 56 {
        lemma_square_of(r + 1, f);
        lemma_flip(t + 8);
        if f != 7 {
            lemma_square_of(r + 1, f + 1);
            lemma_flip(t + 9);
        }
        if f != 0 {
            lemma_square_of(r + 1, f - 1);
            lemma_flip(t + 7);
        }
    }
}

/// The pawns of side `c` of `m` are the mirror of those of the other side of `b`.
proof fn lemma_pawns_mirror(m: Board, b: Board, c: Color)
    requires
        mirrored(m, b),
    ensures
        forall|x: int| 0 <= x < 64 ==> #[trigger] m.colored_bb(c, PieceType::Pawn).contains(x)
            == b.colored_bb(c.opp(), PieceType::Pawn).contains(flipped_index(x)),
        forall|x: int| 0 <= x < 64 ==> #[trigger] m.occupied(x) == b.occupied(flipped_index(x)),
{
    assert forall|x: int| 0 <= x < 64 implies #[trigger] m.colored_bb(c, PieceType::Pawn).contains(x)
        == b.colored_bb(c.opp(), PieceType::Pawn).contains(flipped_index(x)) by {
        lemma_flip(x);
        Bitboard::lemma_from_raw_spec(m.colors_bb(c@)@ & m.pieces_bb(PieceType::Pawn@)@);
        Bitboard::lemma_from_raw_spec(b.colors_bb(c.opp()@)@ & b.pieces_bb(PieceType::Pawn@)@);
        lemma_bit_and(m.colors_bb(c@)@, m.pieces_bb(PieceType::Pawn@)@, x);
        lemma_bit_and(b.colors_bb(c.opp()@)@, b.pieces_bb(PieceType::Pawn@)@, flipped_index(x));
        assert(m.has_color(c, x) == b.has_color(c.opp(), flipped_index(x)));
        assert(m.has_type(PieceType::Pawn, x) == b.has_type(PieceType::Pawn, flipped_index(x)));
    }
    assert forall|x: int| 0 <= x < 64 implies #[trigger] m.occupied(x) == b.occupied(flipped_index(x)) by {
        assert(m.has_color(Color::White, x) == b.has_color(Color::Black, flipped_index(x)));
        assert(m.has_color(Color::Black, x) == b.has_color(Color::White, flipped_index(x)));
    }
}

/// The pushes of the pawns of side `c` of `m` mirror those of the other side of `b`.
proof fn lemma_pushes_mirror(m: Board, b: Board, c: Color, t: int)
    requires
        mirrored(m, b),
        0 <= t < 64,
    ensures
        single_push(m, c, t) == single_push(b, c.opp(), flipped_index(t)),
        any_push(m, c, t) == any_push(b, c.opp(), flipped_index(t)),
{
    lemma_pawns_mirror(m, b, c);
    lemma_neighbors_mirror(t);
    lemma_flip(t);
    if 8 <= t {
        lemma_neighbors_mirror(t - 8);
        lemma_flip(t - 8);
    }
    if t < 56 {
        lemma_neighbors_mirror(t + 8);
        lemma_flip(t + 8);
    }
    let white = c == Color::White;
    let pm = |u: int| single_push(m, c, u) && rank_of(u) == (if white { 2int } else { 5int });
    let pb = |u: int| single_push(b, c.opp(), u) && rank_of(u) == (if !white { 2int } else { 5int });
    if 8 <= t {
        assert(pm(t - 8) == pb(flipped_index(t) + 8));
    }
    if t < 56 {
        assert(pm(t + 8) == pb(flipped_index(t) - 8));
    }
    assert(push_from(white, pm, t) == push_from(!white, pb, flipped_index(t)));
}

/// The push threats of side `c` of `m` mirror those of the other side of `b`.
proof fn lemma_push_threat_mirror(m: Board, b: Board, c: Color, t: int)
    requires
        mirrored(m, b),
        0 <= t < 64,
    ensures
        push_threat_sq(m, c, t) == push_threat_sq(b, c.opp(), flipped_index(t)),
{
    lemma_neighbors_mirror(t);
    lemma_flip(t);
    let white = c == Color::White;
    let pm = |u: int| any_push(m, c, u);
    let pb = |u: int| any_push(b, c.opp(), u);
    if 8 <= t {
        if file_of(t) != 7 {
            lemma_pushes_mirror(m, b, c, t - 7);
        }
        if file_of(t) != 0 {
            lemma_pushes_mirror(m, b, c, t - 9);
        }
    }
    if t < 56 {
        if file_of(t) != 7 {
            lemma_pushes_mirror(m, b, c, t + 9);
        }
        if file_of(t) != 0 {
            lemma_pushes_mirror(m, b, c, t + 7);
        }
    }
    assert(cap_from(white, pm, t) == cap_from(!white, pb, flipped_index(t)));
    assert(m.has_color(c.opp(), t) == b.has_color(c.opp().opp(), flipped_index(t)));
    assert(m.has_type(PieceType::Pawn, t) == b.has_type(PieceType::Pawn, flipped_index(t)));
}

/// The kind of piece on a square of `m` is that on the mirrored square of `b`.
proof fn lemma_kind_on_mirror(m: Board, b: Board, t: int)
    requires
        mirrored(m, b),
        0 <= t < 64,
    ensures
        kind_on(m, t) == kind_on(b, flipped_index(t)),
{
    assert forall|pt: PieceType| #[trigger] m.has_type(pt, t) == b.has_type(pt, flipped_index(t)) by {}
    assert(m.has_type(PieceType::Pawn, t) == b.has_type(PieceType::Pawn, flipped_index(t)));
    assert(m.has_type(PieceType::Knight, t) == b.has_type(PieceType::Knight, flipped_index(t)));
    assert(m.has_type(PieceType::Bishop, t) == b.has_type(PieceType::Bishop, flipped_index(t)));
    assert(m.has_type(PieceType::Rook, t) == b.has_type(PieceType::Rook, flipped_index(t)));
    assert(m.has_type(PieceType::Queen, t) == b.has_type(PieceType::Queen, flipped_index(t)));
    assert(m.has_type(PieceType::King, t) == b.has_type(PieceType::King, flipped_index(t)));
}

/// Both sides of `b` have a single king.
pub open spec fn single_kings(b: Board) -> bool {
    single_king(b, Color::White) && single_king(b, Color::Black)
}

/// Whether the other side defends a square of `m` against side `c` is whether it defends the
/// mirrored square of `b` against the other side.
proof fn lemma_defended_mirror(m: Board, b: Board, c: Color, t: int)
    requires
        mirrored(m, b),
        single_kings(b),
        0 <= t < 64,
    ensures
        defended_sq(m, c, t) == defended_sq(b, c.opp(), flipped_index(t)),
{
    lemma_flip(t);
    lemma_attacks_mirror(m, b, c, t);
    lemma_attacks_mirror(m, b, c.opp(), t);
    lemma_pawn_attacked_mirror(m, b, c.opp(), t);
}

/// The threats of side `c` of `m` by pieces of kind `by` are worth those of the other side of
/// `b`.
proof fn lemma_threat_sum_mirror<P: EvalValues>(m: Board, b: Board, c: Color, by: PieceType)
    requires
        mirrored(m, b),
        single_kings(b),
    ensures
        threat_sum::<P>(m, c, by) == threat_sum::<P>(b, c.opp(), by),
{
    let sm = c == m.stm_spec();
    let sb = c.opp() == b.stm_spec();
    assert(sm == sb);
    let gm = |t: int| if attacked_by_final(m, c, by, t) && m.has_color(c.opp(), t) {
        threat_value::<P>(by, sm, kind_on(m, t), defended_sq(m, c, t))
    } else {
        0
    };
    let gb = |t: int| if attacked_by_final(b, c.opp(), by, t) && b.has_color(c.opp().opp(), t) {
        threat_value::<P>(by, sb, kind_on(b, t), defended_sq(b, c.opp(), t))
    } else {
        0
    };
    assert forall|t: int| 0 <= t < 64 implies #[trigger] gm(t) == gb(flipped_index(t)) by {
        lemma_attacks_mirror(m, b, c, t);
        assert(attacked_by_final(m, c, by, t) == attacked_by_final(b, c.opp(), by, flipped_index(t)));
        lemma_kind_on_mirror(m, b, t);
        lemma_defended_mirror(m, b, c, t);
        assert(m.has_color(c.opp(), t) == b.has_color(c.opp().opp(), flipped_index(t)));
    }
    lemma_sum_ext(gm, |t: int| gb(flipped_index(t)), 64);
    lemma_sum_mirror(gb);
    assert(threat_sum::<P>(m, c, by) == sum_below(gm, 64));
    assert(threat_sum::<P>(b, c.opp(), by) == sum_below(gb, 64));
}

/// The threat terms of side `c` of `m` are those of the other side of `b`.
pub proof fn lemma_threats_mirror<P: EvalValues>(m: Board, b: Board, c: Color)
    requires
        mirrored(m, b),
        single_kings(b),
    ensures
        threats_spec::<P>(m, c) == threats_spec::<P>(b, c.opp()),
{
    lemma_threat_sum_mirror::<P>(m, b, c, PieceType::Pawn);
    lemma_threat_sum_mirror::<P>(m, b, c, PieceType::Knight);
    lemma_threat_sum_mirror::<P>(m, b, c, PieceType::Bishop);
    lemma_threat_sum_mirror::<P>(m, b, c, PieceType::Rook);
    lemma_threat_sum_mirror::<P>(m, b, c, PieceType::Queen);
    let pm = |t: int| push_threat_sq(m, c, t);
    let pb = |t: int| push_threat_sq(b, c.opp(), t);
    let im = |t: int| if pm(t) { 1int } else { 0int };
    let ib = |t: int| if pb(t) { 1int } else { 0int };
    assert forall|t: int| 0 <= t < 64 implies #[trigger] im(t) == ib(flipped_index(t)) by {
        lemma_push_threat_mirror(m, b, c, t);
    }
    lemma_sum_ext(im, |t: int| ib(flipped_index(t)), 64);
    lemma_sum_mirror(ib);
    assert(count_where(pm) == sum_below(im, 64));
    assert(count_where(pb) == sum_below(ib, 64));
    assert((c == m.stm_spec()) == (c.opp() == b.stm_spec()));
}

/// Mirroring keeps king distances.
proof fn lemma_dist_mirror(a: int, s: int)
    requires
        0 <= a < 64,
        0 <= s < 64,
    ensures
        chebyshev_dist(a, s) == chebyshev_dist(flipped_index(a), flipped_index(s)),
{
    lemma_flip(a);
    lemma_flip(s);
    assert(rank_of(flipped_index(a)) - rank_of(flipped_index(s)) == rank_of(s) - rank_of(a));
    assert(file_of(flipped_index(a)) - file_of(flipped_index(s)) == file_of(a) - file_of(s));
}

/// A pawn of side `c` of `m` is passed exactly when the pawn of the other side on the mirrored
/// square of `b` is.
proof fn lemma_passed_mirror(m: Board, b: Board, c: Color, s: int)
    requires
        mirrored(m, b),
        0 <= s < 64,
    ensures
        is_passed(m, c, s) == is_passed(b, c.opp(), flipped_index(s)),
{
    let fs = flipped_index(s);
    let white = c == Color::White;
    lemma_flip(s);
    assert(c.opp().opp() == c);
    if is_passed(m, c, s) {
        assert forall|t: int| !(#[trigger] has_piece(b, c.opp().opp(), PieceType::Pawn, t) && passed_span(!white, fs, t)) by {
            if has_piece(b, c.opp().opp(), PieceType::Pawn, t) && passed_span(!white, fs, t) {
                lemma_flip(t);
                let u = flipped_index(t);
                assert(m.has_color(c.opp(), u) == b.has_color(c.opp().opp(), flipped_index(u)));
                assert(m.has_type(PieceType::Pawn, u) == b.has_type(PieceType::Pawn, flipped_index(u)));
                assert(has_piece(m, c.opp(), PieceType::Pawn, u) && passed_span(white, s, u));
            }
        }
    }
    if is_passed(b, c.opp(), fs) {
        assert forall|t: int| !(#[trigger] has_piece(m, c.opp(), PieceType::Pawn, t) && passed_span(white, s, t)) by {
            if has_piece(m, c.opp(), PieceType::Pawn, t) && passed_span(white, s, t) {
                lemma_flip(t);
                assert(m.has_color(c.opp(), t) == b.has_color(c.opp().opp(), flipped_index(t)));
                assert(m.has_type(PieceType::Pawn, t) == b.has_type(PieceType::Pawn, flipped_index(t)));
                assert(has_piece(b, c.opp().opp(), PieceType::Pawn, flipped_index(t)) && passed_span(!white, fs, flipped_index(t)));
            }
        }
    }
}

/// The relative rank of a square for side `c` is that of the mirrored square for the other
/// side.
proof fn lemma_rel_rank_mirror(c: Color, s: int)
    requires
        0 <= s < 64,
    ensures
        rel_rank(c, s) == rel_rank(c.opp(), flipped_index(s)),
{
    lemma_flip(s);
    lemma_flip(flipped_index(s));
}

/// The passed pawn terms of a pawn of side `c` of `m` are those of the pawn of the other side
/// on the mirrored square of `b`.
proof fn lemma_passer_value_mirror<P: EvalValues>(m: Board, b: Board, c: Color, s: int)
    requires
        mirrored(m, b),
        single_kings(b),
        0 <= s < 64,
        c == Color::White ==> s < 56,
        c == Color::Black ==> 8 <= s,
    ensures
        passer_value::<P>(m, c, s) == passer_value::<P>(b, c.opp(), flipped_index(s)),
{
    let fs = flipped_index(s);
    lemma_flip(s);
    lemma_neighbors_mirror(s);
    lemma_passed_mirror(m, b, c, s);
    lemma_rel_rank_mirror(c, s);
    lemma_king_square_mirror(m, b, c);
    lemma_king_square_mirror(m, b, c.opp());
    assert(c.opp().opp() == c);
    b.lemma_king_square_is_king(c);
    b.lemma_king_square_is_king(c.opp());
    lemma_flip(b.king_square(c));
    lemma_flip(b.king_square(c.opp()));
    lemma_dist_mirror(b.king_square(c.opp()), fs);
    lemma_dist_mirror(b.king_square(c), fs);
    let push = push_square(c, s);
    assert(flipped_index(push) == push_square(c.opp(), fs));
    lemma_flip(push);
    lemma_pawns_mirror(m, b, c);
    lemma_attacks_mirror(m, b, c.opp(), push);
}

/// The pawn structure terms of side `c` of `m` are those of the other side of `b`.
pub proof fn lemma_pawns_spec_mirror<P: EvalValues>(m: Board, b: Board, c: Color)
    requires
        mirrored(m, b),
        single_kings(b),
        pawns_before_last_rank(m, c),
    ensures
        pawns_spec::<P>(m, c) == pawns_spec::<P>(b, c.opp()),
{
    lemma_pawns_mirror(m, b, c);
    let fm = |s: int| passer_value::<P>(m, c, s);
    let fb = |s: int| passer_value::<P>(b, c.opp(), s);
    let gm = |s: int| if has_piece(m, c, PieceType::Pawn, s) { fm(s) } else { 0 };
    let gb = |s: int| if has_piece(b, c.opp(), PieceType::Pawn, s) { fb(s) } else { 0 };
    assert forall|s: int| 0 <= s < 64 implies #[trigger] gm(s) == gb(flipped_index(s)) by {
        assert(m.has_color(c, s) == b.has_color(c.opp(), flipped_index(s)));
        assert(m.has_type(PieceType::Pawn, s) == b.has_type(PieceType::Pawn, flipped_index(s)));
        if has_piece(m, c, PieceType::Pawn, s) {
            lemma_coords(s);
            lemma_passer_value_mirror::<P>(m, b, c, s);
        }
    }
    lemma_sum_ext(gm, |s: int| gb(flipped_index(s)), 64);
    lemma_sum_mirror(gb);
    let hm = |t: int| if has_piece(m, c, PieceType::Pawn, t) && file_of(t) != 7 && has_piece(m, c, PieceType::Pawn, t + 1) {
        P::pawn_phalanx_spec(rel_rank(c, t) as u8)
    } else {
        0
    };
    let hb = |t: int| if has_piece(b, c.opp(), PieceType::Pawn, t) && file_of(t) != 7 && has_piece(b, c.opp(), PieceType::Pawn, t + 1) {
        P::pawn_phalanx_spec(rel_rank(c.opp(), t) as u8)
    } else {
        0
    };
    assert forall|t: int| 0 <= t < 64 implies #[trigger] hm(t) == hb(flipped_index(t)) by {
        lemma_flip(t);
        lemma_coords(t);
        lemma_rel_rank_mirror(c, t);
        assert(m.has_color(c, t) == b.has_color(c.opp(), flipped_index(t)));
        assert(m.has_type(PieceType::Pawn, t) == b.has_type(PieceType::Pawn, flipped_index(t)));
        if file_of(t) != 7 {
            lemma_square_of(rank_of(t), file_of(t) + 1);
            lemma_flip(t + 1);
            assert(flipped_index(t + 1) == flipped_index(t) + 1);
            assert(m.has_color(c, t + 1) == b.has_color(c.opp(), flipped_index(t + 1)));
            assert(m.has_type(PieceType::Pawn, t + 1) == b.has_type(PieceType::Pawn, flipped_index(t + 1)));
        }
    }
    lemma_sum_ext(hm, |t: int| hb(flipped_index(t)), 64);
    lemma_sum_mirror(hb);
    let dm = |t: int| if has_piece(m, c, PieceType::Pawn, t) && pawn_attacked(m, c, t) {
        P::defended_pawn_spec(rel_rank(c, t) as u8)
    } else {
        0
    };
    let db = |t: int| if has_piece(b, c.opp(), PieceType::Pawn, t) && pawn_attacked(b, c.opp(), t) {
        P::defended_pawn_spec(rel_rank(c.opp(), t) as u8)
    } else {
        0
    };
    assert forall|t: int| 0 <= t < 64 implies #[trigger] dm(t) == db(flipped_index(t)) by {
        lemma_rel_rank_mirror(c, t);
        lemma_pawn_attacked_mirror(m, b, c, t);
        assert(m.has_color(c, t) == b.has_color(c.opp(), flipped_index(t)));
        assert(m.has_type(PieceType::Pawn, t) == b.has_type(PieceType::Pawn, flipped_index(t)));
    }
    lemma_sum_ext(dm, |t: int| db(flipped_index(t)), 64);
    lemma_sum_mirror(db);
    assert(pawns_spec::<P>(m, c) == sum_below(gm, 64) + sum_below(hm, 64) + sum_below(dm, 64));
    assert(pawns_spec::<P>(b, c.opp()) == sum_below(gb, 64) + sum_below(hb, 64) + sum_below(db, 64));
}

/// The word whose bits below `n` are the squares that satisfy `p`.
#[verifier::opaque]
pub open spec fn bits_of(p: spec_fn(int) -> bool, n: nat) -> u64
    decreases n,
{
    if n == 0 {
        0
    } else if p(n - 1) {
        bits_of(p, (n - 1) as nat) | (1u64 << ((n - 1) as u64))
    } else {
        bits_of(p, (n - 1) as nat)
    }
}

/// Bit `i` of `bits_of(p, n)` is set when `i` is below `n` and satisfies `p`.
proof fn lemma_bits_of(p: spec_fn(int) -> bool, n: nat, i: int)
    requires
        n <= 64,
    ensures
        bit(bits_of(p, n), i) == (0 <= i < n && p(i)),
    decreases n,
{
    reveal(bits_of);
    if n == 0 {
        if 0 <= i < 64 {
            let ii = i as u64;
            assert(((0u64 >> ii) & 1u64 == 1u64) == false) by (bit_vector);
        }
    } else {
        let k = (n - 1) as nat;
        lemma_bits_of(p, k, i);
        let a = bits_of(p, k);
        let kk = k as u64;
        if p(k as int) {
            lemma_bit_or(a, 1u64 << kk, i);
            if 0 <= i < 64 {
                let ii = i as u64;
                assert((((1u64 << kk) >> ii) & 1u64 == 1u64) == (ii == kk)) by (bit_vector)
                    requires
                        kk < 64,
                        ii < 64,
                ;
            }
        }
    }
}

/// Whether `r` holds exactly the squares that satisfy `p`.
pub open spec fn holds_set(r: Bitboard, p: spec_fn(int) -> bool) -> bool {
    forall|t: int| #[trigger] r.contains(t) == (0 <= t < 64 && p(t))
}

/// Every set of squares is the set of some bitboard.
pub proof fn lemma_set_exists(p: spec_fn(int) -> bool)
    ensures
        exists|r: Bitboard| #[trigger] holds_set(r, p),
{
    let r = Bitboard::from_raw_spec(bits_of(p, 64));
    Bitboard::lemma_from_raw_spec(bits_of(p, 64));
    assert forall|t: int| #[trigger] r.contains(t) == (0 <= t < 64 && p(t)) by {
        lemma_bits_of(p, 64, t);
    }
    assert(holds_set(r, p));
}

/// The ring around a king holds exactly the squares that `ring_spec` gives.
pub proof fn lemma_ring_bb(b: Board, c: Color)
    ensures
        forall|t: int| #[trigger] ring_bb(b, c).contains(t) == ring_spec(b, c, t),
{
    let p = |t: int| ring_spec(b, c, t);
    lemma_set_exists(p);
    let r = choose|r: Bitboard| #[trigger] holds_set(r, p);
    assert forall|t: int| #[trigger] r.contains(t) == ring_spec(b, c, t) by {
        assert(r.contains(t) == (0 <= t < 64 && p(t)));
    }
    assert(is_ring(r, b, c));
    let q = ring_bb(b, c);
    assert(is_ring(q, b, c));
}

/// The ring around the king of side `c` of `m` mirrors that of the other side of `b`.
proof fn lemma_ring_mirror(m: Board, b: Board, c: Color, t: int)
    requires
        mirrored(m, b),
        single_king(b, c.opp()),
        0 <= t < 64,
    ensures
        ring_bb(m, c).contains(t) == ring_bb(b, c.opp()).contains(flipped_index(t)),
{
    lemma_ring_bb(m, c);
    lemma_ring_bb(b, c.opp());
    lemma_king_square_mirror(m, b, c);
    b.lemma_king_square_is_king(c.opp());
    let kb = b.king_square(c.opp());
    let km = m.king_square(c);
    lemma_flip(kb);
    lemma_flip(t);
    lemma_neighbors_mirror(t);
    lemma_king_step_mirror(km, t);
    if 8 <= t {
        lemma_flip(t - 8);
        lemma_king_step_mirror(km, t - 8);
    }
    if t < 56 {
        lemma_flip(t + 8);
        lemma_king_step_mirror(km, t + 8);
    }
    assert(c.opp().opp() == c);
}

/// A piece of `m` hits as many squares of the ring of side `c` as the mirrored piece of `b`
/// hits of the ring of the other side.
proof fn lemma_ring_hits_mirror(m: Board, b: Board, c: Color, pt: PieceType, s: int)
    requires
        mirrored(m, b),
        single_king(b, c.opp()),
        0 <= s < 64,
    ensures
        ring_hits(m, pt, s, ring_bb(m, c)) == ring_hits(b, pt, flipped_index(s), ring_bb(b, c.opp())),
{
    lemma_occ_mirror(m, b);
    let pm = ring_hit(m, pt, s, ring_bb(m, c));
    let pb = ring_hit(b, pt, flipped_index(s), ring_bb(b, c.opp()));
    let im = |t: int| if pm(t) { 1int } else { 0int };
    let ib = |t: int| if pb(t) { 1int } else { 0int };
    assert forall|t: int| 0 <= t < 64 implies #[trigger] im(t) == ib(flipped_index(t)) by {
        lemma_ring_mirror(m, b, c, t);
        lemma_reach_mirror(pt, s, t, m.occ_bb(), b.occ_bb());
    }
    lemma_sum_ext(im, |t: int| ib(flipped_index(t)), 64);
    lemma_sum_mirror(ib);
    assert(count_where(pm) == sum_below(im, 64));
    assert(count_where(pb) == sum_below(ib, 64));
}

/// The king attacks of side `c` of `m` are those of the other side of `b`.
proof fn lemma_king_attacks_mirror<P: EvalValues>(m: Board, b: Board, c: Color, pt: PieceType)
    requires
        mirrored(m, b),
        single_kings(b),
    ensures
        kaw_part::<P>(m, c, pt) == kaw_part::<P>(b, c.opp(), pt),
        ka_part(m, c, pt) == ka_part(b, c.opp(), pt),
{
    assert(c.opp().opp() == c);
    let rm = ring_bb(m, c.opp());
    let rb = ring_bb(b, c.opp().opp());
    let fm = |s: int| if ring_hits(m, pt, s, rm) >= 1 { P::king_attacker_weight_spec(pt) } else { 0 };
    let fb = |s: int| if ring_hits(b, pt, s, rb) >= 1 { P::king_attacker_weight_spec(pt) } else { 0 };
    let gm = |s: int| if has_piece(m, c, pt, s) { fm(s) } else { 0 };
    let gb = |s: int| if has_piece(b, c.opp(), pt, s) { fb(s) } else { 0 };
    let hm = |s: int| ring_hits(m, pt, s, rm);
    let hb = |s: int| ring_hits(b, pt, s, rb);
    let gm2 = |s: int| if has_piece(m, c, pt, s) { hm(s) } else { 0 };
    let gb2 = |s: int| if has_piece(b, c.opp(), pt, s) { hb(s) } else { 0 };
    assert forall|s: int| 0 <= s < 64 implies #[trigger] gm(s) == gb(flipped_index(s)) by {
        lemma_ring_hits_mirror(m, b, c.opp(), pt, s);
        assert(m.has_color(c, s) == b.has_color(c.opp(), flipped_index(s)));
        assert(m.has_type(pt, s) == b.has_type(pt, flipped_index(s)));
    }
    assert forall|s: int| 0 <= s < 64 implies #[trigger] gm2(s) == gb2(flipped_index(s)) by {
        lemma_ring_hits_mirror(m, b, c.opp(), pt, s);
        assert(m.has_color(c, s) == b.has_color(c.opp(), flipped_index(s)));
        assert(m.has_type(pt, s) == b.has_type(pt, flipped_index(s)));
    }
    lemma_sum_ext(gm, |s: int| gb(flipped_index(s)), 64);
    lemma_sum_mirror(gb);
    lemma_sum_ext(gm2, |s: int| gb2(flipped_index(s)), 64);
    lemma_sum_mirror(gb2);
    assert(kaw_part::<P>(m, c, pt) == sum_below(gm, 64));
    assert(kaw_part::<P>(b, c.opp(), pt) == sum_below(gb, 64));
    assert(ka_part(m, c, pt) == sum_below(gm2, 64));
    assert(ka_part(b, c.opp(), pt) == sum_below(gb2, 64));
}

/// Some square from 0 up satisfies `p` and no lower one does.
proof fn lemma_least(p: spec_fn(int) -> bool, s: int)
    requires
        0 <= s,
        p(s),
    ensures
        exists|l: int| 0 <= l && #[trigger] p(l) && forall|u: int| 0 <= u < l ==> !#[trigger] p(u),
    decreases s,
{
    if exists|u: int| 0 <= u < s && #[trigger] p(u) {
        let u = choose|u: int| 0 <= u < s && #[trigger] p(u);
        lemma_least(p, u);
    } else {
        assert(forall|u: int| 0 <= u < s ==> !#[trigger] p(u));
    }
}

/// Some square below 64 satisfies `p` and no higher one below 64 does.
proof fn lemma_greatest(p: spec_fn(int) -> bool, s: int)
    requires
        s < 64,
        p(s),
    ensures
        exists|g: int| g < 64 && #[trigger] p(g) && forall|u: int| g < u < 64 ==> !#[trigger] p(u),
    decreases 64 - s,
{
    if exists|u: int| s < u < 64 && #[trigger] p(u) {
        let u = choose|u: int| s < u < 64 && #[trigger] p(u);
        lemma_greatest(p, u);
    } else {
        assert(forall|u: int| s < u < 64 ==> !#[trigger] p(u));
    }
}

/// A side with a pawn on a file has a lowest and a highest one there.
proof fn lemma_end_pawn_exists(b: Board, side: Color, file: int, high: bool)
    requires
        has_file_pawn(b, side, file),
    ensures
        is_end_pawn(b, side, file, high, end_pawn(b, side, file, high)),
{
    let q = |u: int| has_piece(b, side, PieceType::Pawn, u) && file_of(u) == file;
    let s0 = choose|s: int| #[trigger] has_piece(b, side, PieceType::Pawn, s) && file_of(s) == file;
    assert(q(s0));
    assert(0 <= s0 < 64);
    if high {
        lemma_greatest(q, s0);
        let g = choose|g: int| g < 64 && #[trigger] q(g) && forall|u: int| g < u < 64 ==> !#[trigger] q(u);
        assert forall|u: int| #[trigger] has_piece(b, side, PieceType::Pawn, u) && file_of(u) == file implies u <= g by {
            assert(q(u));
            assert(u < 64);
        }
        assert(is_end_pawn(b, side, file, high, g));
    } else {
        lemma_least(q, s0);
        let l = choose|l: int| 0 <= l && #[trigger] q(l) && forall|u: int| 0 <= u < l ==> !#[trigger] q(u);
        assert forall|u: int| #[trigger] has_piece(b, side, PieceType::Pawn, u) && file_of(u) == file implies l <= u by {
            assert(q(u));
            assert(0 <= u);
        }
        assert(is_end_pawn(b, side, file, high, l));
    }
}

/// On one file, mirroring reverses the order of squares.
proof fn lemma_file_order_mirror(u: int, s: int)
    requires
        0 <= u < 64,
        0 <= s < 64,
        file_of(u) == file_of(s),
    ensures
        (u <= s) == (flipped_index(s) <= flipped_index(u)),
{
    lemma_flip(u);
    lemma_flip(s);
    lemma_coords(u);
    lemma_coords(s);
}

/// The end pawns of a side of `m` on a file are the mirrors of the other end pawns of the other
/// side of `b` on that file.
proof fn lemma_end_pawn_mirror(m: Board, b: Board, side: Color, file: int, high: bool, s: int)
    requires
        mirrored(m, b),
        0 <= s < 64,
    ensures
        is_end_pawn(m, side, file, high, s) == is_end_pawn(b, side.opp(), file, !high, flipped_index(s)),
{
    let fs = flipped_index(s);
    lemma_flip(s);
    assert(m.has_color(side, s) == b.has_color(side.opp(), fs));
    assert(m.has_type(PieceType::Pawn, s) == b.has_type(PieceType::Pawn, fs));
    if is_end_pawn(m, side, file, high, s) {
        assert forall|u: int| #[trigger] has_piece(b, side.opp(), PieceType::Pawn, u) && file_of(u) == file implies (if !high {
            u <= fs
        } else {
            fs <= u
        }) by {
            assert(0 <= u < 64);
            lemma_flip(u);
            let v = flipped_index(u);
            assert(m.has_color(side, v) == b.has_color(side.opp(), flipped_index(v)));
            assert(m.has_type(PieceType::Pawn, v) == b.has_type(PieceType::Pawn, flipped_index(v)));
            assert(has_piece(m, side, PieceType::Pawn, v) && file_of(v) == file);
            lemma_file_order_mirror(v, s);
            lemma_file_order_mirror(s, v);
        }
    }
    if is_end_pawn(b, side.opp(), file, !high, fs) {
        assert forall|u: int| #[trigger] has_piece(m, side, PieceType::Pawn, u) && file_of(u) == file implies (if high {
            u <= s
        } else {
            s <= u
        }) by {
            assert(0 <= u < 64);
            lemma_flip(u);
            assert(m.has_color(side, u) == b.has_color(side.opp(), flipped_index(u)));
            assert(m.has_type(PieceType::Pawn, u) == b.has_type(PieceType::Pawn, flipped_index(u)));
            assert(has_piece(b, side.opp(), PieceType::Pawn, flipped_index(u)) && file_of(flipped_index(u)) == file);
            lemma_file_order_mirror(u, s);
            lemma_file_order_mirror(s, u);
        }
    }
}

/// The rank of an end pawn of a side of `m` on a file, seen from `view`, is that of the other
/// end pawn of the other side of `b`, seen from the other side.
proof fn lemma_file_pawn_rank_mirror(m: Board, b: Board, side: Color, file: int, high: bool, view: Color)
    requires
        mirrored(m, b),
    ensures
        file_pawn_rank(m, side, file, high, view) == file_pawn_rank(b, side.opp(), file, !high, view.opp()),
{
    if has_file_pawn(m, side, file) {
        let s = choose|s: int| #[trigger] has_piece(m, side, PieceType::Pawn, s) && file_of(s) == file;
        lemma_flip(s);
        assert(m.has_color(side, s) == b.has_color(side.opp(), flipped_index(s)));
        assert(m.has_type(PieceType::Pawn, s) == b.has_type(PieceType::Pawn, flipped_index(s)));
        assert(has_piece(b, side.opp(), PieceType::Pawn, flipped_index(s)) && file_of(flipped_index(s)) == file);
    }
    if has_file_pawn(b, side.opp(), file) {
        let s = choose|s: int| #[trigger] has_piece(b, side.opp(), PieceType::Pawn, s) && file_of(s) == file;
        lemma_flip(s);
        let v = flipped_index(s);
        assert(m.has_color(side, v) == b.has_color(side.opp(), flipped_index(v)));
        assert(m.has_type(PieceType::Pawn, v) == b.has_type(PieceType::Pawn, flipped_index(v)));
        assert(has_piece(m, side, PieceType::Pawn, v) && file_of(v) == file);
    }
    if has_file_pawn(m, side, file) {
        lemma_end_pawn_exists(m, side, file, high);
        lemma_end_pawn_exists(b, side.opp(), file, !high);
        let em = end_pawn(m, side, file, high);
        let eb = end_pawn(b, side.opp(), file, !high);
        assert(0 <= em < 64);
        lemma_end_pawn_mirror(m, b, side, file, high, em);
        let fe = flipped_index(em);
        assert(is_end_pawn(b, side.opp(), file, !high, fe));
        assert(has_piece(b, side.opp(), PieceType::Pawn, eb) && file_of(eb) == file);
        assert(has_piece(b, side.opp(), PieceType::Pawn, fe) && file_of(fe) == file);
        assert(eb == fe);
        lemma_rel_rank_mirror(view, em);
    }
}

/// The pawn shield and storm terms of side `c` of `m` on a file are those of the other side of
/// `b`.
proof fn lemma_kpf_mirror<P: EvalValues>(m: Board, b: Board, c: Color, file: int)
    requires
        mirrored(m, b),
    ensures
        kpf_spec::<P>(m, c, file) == kpf_spec::<P>(b, c.opp(), file),
{
    let white = c == Color::White;
    assert(c.opp().opp() == c);
    lemma_file_pawn_rank_mirror(m, b, c.opp(), file, white, c.opp());
    lemma_file_pawn_rank_mirror(m, b, c, file, white, c.opp());
    assert((c.opp() == Color::White) == !white);
}

/// Weak squares and safe checking squares of side `c` of `m` mirror those of the other side of
/// `b`.
proof fn lemma_safe_mirror(m: Board, b: Board, c: Color, t: int)
    requires
        mirrored(m, b),
        single_kings(b),
        0 <= t < 64,
    ensures
        weak_sq(m, c, t) == weak_sq(b, c.opp(), flipped_index(t)),
        safe_sq(m, c, t) == safe_sq(b, c.opp(), flipped_index(t)),
{
    assert(c.opp().opp() == c);
    lemma_flip(t);
    lemma_attacks_mirror(m, b, c, t);
    lemma_attacks_mirror(m, b, c.opp(), t);
    lemma_king_square_mirror(m, b, c.opp());
    b.lemma_king_square_is_king(c);
    lemma_flip(b.king_square(c));
    lemma_king_step_mirror(m.king_square(c.opp()), t);
    assert(m.has_color(c, t) == b.has_color(c.opp(), flipped_index(t)));
}

/// The king safety terms of side `c` of `m` are those of the other side of `b`.
pub proof fn lemma_kings_mirror<P: EvalValues>(m: Board, b: Board, c: Color)
    requires
        mirrored(m, b),
        single_kings(b),
    ensures
        kings_spec::<P>(m, c) == kings_spec::<P>(b, c.opp()),
{
    assert(c.opp().opp() == c);
    lemma_occ_mirror(m, b);
    lemma_king_square_mirror(m, b, c.opp());
    b.lemma_king_square_is_king(c);
    let kb = b.king_square(c);
    let km = m.king_square(c.opp());
    lemma_flip(kb);
    assert(km == flipped_index(kb));
    assert(file_of(km) == file_of(kb));
    let f = file_of(km);
    let mf = if f < 1 {
        1
    } else if f > 6 {
        6
    } else {
        f
    };
    lemma_kpf_mirror::<P>(m, b, c, mf - 1);
    lemma_kpf_mirror::<P>(m, b, c, mf);
    lemma_kpf_mirror::<P>(m, b, c, mf + 1);
    lemma_king_attacks_mirror::<P>(m, b, c, PieceType::Knight);
    lemma_king_attacks_mirror::<P>(m, b, c, PieceType::Bishop);
    lemma_king_attacks_mirror::<P>(m, b, c, PieceType::Rook);
    lemma_king_attacks_mirror::<P>(m, b, c, PieceType::Queen);
    let om = m.occ_bb();
    let ob = b.occ_bb();
    let pm1 = |t: int| attacked_by_final(m, c, PieceType::Knight, t) && knight_step(km, t) && safe_sq(m, c, t);
    let pb1 = |t: int| attacked_by_final(b, c.opp(), PieceType::Knight, t) && knight_step(kb, t) && safe_sq(b, c.opp(), t);
    let pm2 = |t: int| attacked_by_final(m, c, PieceType::Bishop, t) && bishop_reach(km, t, om) && safe_sq(m, c, t);
    let pb2 = |t: int| attacked_by_final(b, c.opp(), PieceType::Bishop, t) && bishop_reach(kb, t, ob) && safe_sq(b, c.opp(), t);
    let pm3 = |t: int| attacked_by_final(m, c, PieceType::Rook, t) && rook_reach(km, t, om) && safe_sq(m, c, t);
    let pb3 = |t: int| attacked_by_final(b, c.opp(), PieceType::Rook, t) && rook_reach(kb, t, ob) && safe_sq(b, c.opp(), t);
    let pm4 = |t: int| attacked_by_final(m, c, PieceType::Queen, t) && (bishop_reach(km, t, om) || rook_reach(km, t, om)) && safe_sq(m, c, t);
    let pb4 = |t: int| attacked_by_final(b, c.opp(), PieceType::Queen, t) && (bishop_reach(kb, t, ob) || rook_reach(kb, t, ob)) && safe_sq(b, c.opp(), t);
    assert forall|t: int| 0 <= t < 64 implies #[trigger] pm1(t) == pb1(flipped_index(t)) by {
        lemma_attacks_mirror(m, b, c, t);
        lemma_safe_mirror(m, b, c, t);
        lemma_reach_mirror(PieceType::Knight, km, t, om, ob);
        lemma_reach_mirror(PieceType::Bishop, km, t, om, ob);
        lemma_reach_mirror(PieceType::Rook, km, t, om, ob);
        assert(attacked_by_final(m, c, PieceType::Knight, t) == attacked_by_final(b, c.opp(), PieceType::Knight, flipped_index(t)));
        assert(attacked_by_final(m, c, PieceType::Bishop, t) == attacked_by_final(b, c.opp(), PieceType::Bishop, flipped_index(t)));
        assert(attacked_by_final(m, c, PieceType::Rook, t) == attacked_by_final(b, c.opp(), PieceType::Rook, flipped_index(t)));
        assert(attacked_by_final(m, c, PieceType::Queen, t) == attacked_by_final(b, c.opp(), PieceType::Queen, flipped_index(t)));
    }
    assert forall|t: int| 0 <= t < 64 implies #[trigger] pm2(t) == pb2(flipped_index(t)) by {
        lemma_attacks_mirror(m, b, c, t);
        lemma_safe_mirror(m, b, c, t);
        lemma_reach_mirror(PieceType::Knight, km, t, om, ob);
        lemma_reach_mirror(PieceType::Bishop, km, t, om, ob);
        lemma_reach_mirror(PieceType::Rook, km, t, om, ob);
        assert(attacked_by_final(m, c, PieceType::Knight, t) == attacked_by_final(b, c.opp(), PieceType::Knight, flipped_index(t)));
        assert(attacked_by_final(m, c, PieceType::Bishop, t) == attacked_by_final(b, c.opp(), PieceType::Bishop, flipped_index(t)));
        assert(attacked_by_final(m, c, PieceType::Rook, t) == attacked_by_final(b, c.opp(), PieceType::Rook, flipped_index(t)));
        assert(attacked_by_final(m, c, PieceType::Queen, t) == attacked_by_final(b, c.opp(), PieceType::Queen, flipped_index(t)));
    }
    assert forall|t: int| 0 <= t < 64 implies #[trigger] pm3(t) == pb3(flipped_index(t)) by {
        lemma_attacks_mirror(m, b, c, t);
        lemma_safe_mirror(m, b, c, t);
        lemma_reach_mirror(PieceType::Knight, km, t, om, ob);
        lemma_reach_mirror(PieceType::Bishop, km, t, om, ob);
        lemma_reach_mirror(PieceType::Rook, km, t, om, ob);
        assert(attacked_by_final(m, c, PieceType::Knight, t) == attacked_by_final(b, c.opp(), PieceType::Knight, flipped_index(t)));
        assert(attacked_by_final(m, c, PieceType::Bishop, t) == attacked_by_final(b, c.opp(), PieceType::Bishop, flipped_index(t)));
        assert(attacked_by_final(m, c, PieceType::Rook, t) == attacked_by_final(b, c.opp(), PieceType::Rook, flipped_index(t)));
        assert(attacked_by_final(m, c, PieceType::Queen, t) == attacked_by_final(b, c.opp(), PieceType::Queen, flipped_index(t)));
    }
    assert forall|t: int| 0 <= t < 64 implies #[trigger] pm4(t) == pb4(flipped_index(t)) by {
        lemma_attacks_mirror(m, b, c, t);
        lemma_safe_mirror(m, b, c, t);
        lemma_reach_mirror(PieceType::Knight, km, t, om, ob);
        lemma_reach_mirror(PieceType::Bishop, km, t, om, ob);
        lemma_reach_mirror(PieceType::Rook, km, t, om, ob);
        assert(attacked_by_final(m, c, PieceType::Knight, t) == attacked_by_final(b, c.opp(), PieceType::Knight, flipped_index(t)));
        assert(attacked_by_final(m, c, PieceType::Bishop, t) == attacked_by_final(b, c.opp(), PieceType::Bishop, flipped_index(t)));
        assert(attacked_by_final(m, c, PieceType::Rook, t) == attacked_by_final(b, c.opp(), PieceType::Rook, flipped_index(t)));
        assert(attacked_by_final(m, c, PieceType::Queen, t) == attacked_by_final(b, c.opp(), PieceType::Queen, flipped_index(t)));
    }
    lemma_count_mirror(pm1, pb1);
    lemma_count_mirror(pm2, pb2);
    lemma_count_mirror(pm3, pb3);
    lemma_count_mirror(pm4, pb4);
}

/// Counting over mirrored predicates gives the same count.
proof fn lemma_count_mirror(pm: spec_fn(int) -> bool, pb: spec_fn(int) -> bool)
    requires
        forall|t: int| 0 <= t < 64 ==> #[trigger] pm(t) == pb(flipped_index(t)),
    ensures
        count_where(pm) == count_where(pb),
{
    let im = |t: int| if pm(t) { 1int } else { 0int };
    let ib = |t: int| if pb(t) { 1int } else { 0int };
    assert forall|t: int| 0 <= t < 64 implies #[trigger] im(t) == ib(flipped_index(t)) by {
        assert(pm(t) == pb(flipped_index(t)));
    }
    lemma_sum_ext(im, |t: int| ib(flipped_index(t)), 64);
    lemma_sum_mirror(ib);
}

/// The game phase of `m` is that of `b`.
pub proof fn lemma_phase_mirror(m: Board, b: Board)
    requires
        mirrored(m, b),
    ensures
        phase_of(m) == phase_of(b),
{
    lemma_kind_count_mirror(m, b, PieceType::Queen);
    lemma_kind_count_mirror(m, b, PieceType::Rook);
    lemma_kind_count_mirror(m, b, PieceType::Bishop);
    lemma_kind_count_mirror(m, b, PieceType::Knight);
}

/// The material balance of `m` from its side to move's point of view is that of `b`.
pub proof fn lemma_material_total_mirror(m: Board, b: Board)
    requires
        mirrored(m, b),
    ensures
        super::total::material_total::<EvalParams>(m) == super::total::material_total::<EvalParams>(b),
{
    lemma_material_upto_mirror(m, b, 6);
}

/// The pawns of a side of `m` stand before its last rank when those of the other side of `b`
/// stand before theirs.
proof fn lemma_last_rank_mirror(m: Board, b: Board, c: Color)
    requires
        mirrored(m, b),
        pawns_before_last_rank(b, c.opp()),
    ensures
        pawns_before_last_rank(m, c),
{
    assert forall|s: int| #[trigger] has_piece(m, c, PieceType::Pawn, s) implies (if c == Color::White {
        rank_of(s) < 7
    } else {
        rank_of(s) > 0
    }) by {
        assert(0 <= s < 64);
        lemma_flip(s);
        assert(m.has_color(c, s) == b.has_color(c.opp(), flipped_index(s)));
        assert(m.has_type(PieceType::Pawn, s) == b.has_type(PieceType::Pawn, flipped_index(s)));
        assert(has_piece(b, c.opp(), PieceType::Pawn, flipped_index(s)));
    }
}

/// The evaluation of `m` is that of `b`, when each side of `b` has a single king and its pawns
/// stand before their last rank.
pub proof fn lemma_eval_mirror(m: Board, b: Board)
    requires
        mirrored(m, b),
        single_kings(b),
        pawns_before_last_rank(b, Color::White),
        pawns_before_last_rank(b, Color::Black),
    ensures
        eval_total::<EvalParams>(m) == eval_total::<EvalParams>(b),
        eval_spec::<EvalParams>(m) == eval_spec::<EvalParams>(b),
{
    let sm = m.stm_spec();
    let om = sm.opp();
    assert(sm.opp() == b.stm_spec().opp().opp());
    assert(b.stm_spec().opp().opp() == b.stm_spec());
    assert(om.opp() == b.stm_spec().opp());
    lemma_last_rank_mirror(m, b, Color::White);
    lemma_last_rank_mirror(m, b, Color::Black);
    lemma_material_total_mirror(m, b);
    lemma_phase_mirror(m, b);
    lemma_mobility_sum_mirror::<EvalParams>(m, b, sm, PieceType::Knight);
    lemma_mobility_sum_mirror::<EvalParams>(m, b, om, PieceType::Knight);
    lemma_mobility_sum_mirror::<EvalParams>(m, b, sm, PieceType::Bishop);
    lemma_mobility_sum_mirror::<EvalParams>(m, b, om, PieceType::Bishop);
    lemma_mobility_sum_mirror::<EvalParams>(m, b, sm, PieceType::Rook);
    lemma_mobility_sum_mirror::<EvalParams>(m, b, om, PieceType::Rook);
    lemma_mobility_sum_mirror::<EvalParams>(m, b, sm, PieceType::Queen);
    lemma_mobility_sum_mirror::<EvalParams>(m, b, om, PieceType::Queen);
    lemma_kings_mirror::<EvalParams>(m, b, sm);
    lemma_kings_mirror::<EvalParams>(m, b, om);
    lemma_threats_mirror::<EvalParams>(m, b, sm);
    lemma_threats_mirror::<EvalParams>(m, b, om);
    lemma_pawns_spec_mirror::<EvalParams>(m, b, sm);
    lemma_pawns_spec_mirror::<EvalParams>(m, b, om);
}

} // verus!
