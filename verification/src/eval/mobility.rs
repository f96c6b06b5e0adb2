use vstd::prelude::*;

use super::sums::{count_where, sum_below};
use crate::chess::attacks::{
    bishop_reach, is_diagonal, knight_step, lemma_coords, ray_target, rook_reach, slides_to, Direction,
};
use super::evaluate::{mobility_area, mobility_of};
use crate::chess::board::Board;
use crate::chess::movegen::piece_reach;
use crate::types::square::{file_of, rank_of};
use crate::types::{Color, PieceType};

verus! {

/// The sum of two functions is the sum of their sums.
proof fn lemma_sum_add(f: spec_fn(int) -> int, g: spec_fn(int) -> int, h: spec_fn(int) -> int, n: int)
    requires
        forall|i: int| 0 <= i < n ==> #[trigger] h(i) == f(i) + g(i),
    ensures
        sum_below(h, n) == sum_below(f, n) + sum_below(g, n),
    decreases n,
{
    if n > 0 {
        lemma_sum_add(f, g, h, n - 1);
        assert(h(n - 1) == f(n - 1) + g(n - 1));
    }
}

/// A pointwise smaller function has a smaller sum.
proof fn lemma_sum_mono(f: spec_fn(int) -> int, g: spec_fn(int) -> int, n: int)
    requires
        forall|i: int| 0 <= i < n ==> #[trigger] f(i) <= g(i),
    ensures
        sum_below(f, n) <= sum_below(g, n),
    decreases n,
{
    if n > 0 {
        lemma_sum_mono(f, g, n - 1);
        assert(f(n - 1) <= g(n - 1));
    }
}

/// Counting the squares of a larger set gives a larger count.
proof fn lemma_count_mono(p: spec_fn(int) -> bool, q: spec_fn(int) -> bool)
    requires
        forall|t: int| 0 <= t < 64 && #[trigger] p(t) ==> q(t),
    ensures
        count_where(p) <= count_where(q),
{
    let f = |s: int| if p(s) { 1int } else { 0int };
    let g = |s: int| if q(s) { 1int } else { 0int };
    assert forall|i: int| 0 <= i < 64 implies #[trigger] f(i) <= g(i) by {
        if p(i) {
            assert(q(i));
        }
    }
    lemma_sum_mono(f, g, 64);
}

/// The squares of a union number at most those of its parts together.
proof fn lemma_count_or(p: spec_fn(int) -> bool, q: spec_fn(int) -> bool, u: spec_fn(int) -> bool)
    requires
        forall|t: int| 0 <= t < 64 && #[trigger] u(t) ==> p(t) || q(t),
    ensures
        count_where(u) <= count_where(p) + count_where(q),
{
    let f = |s: int| if p(s) { 1int } else { 0int };
    let g = |s: int| if q(s) { 1int } else { 0int };
    let h = |s: int| f(s) + g(s);
    let k = |s: int| if u(s) { 1int } else { 0int };
    lemma_sum_add(f, g, h, 64);
    assert forall|i: int| 0 <= i < 64 implies #[trigger] k(i) <= h(i) by {
        if u(i) {
            assert(p(i) || q(i));
        }
    }
    lemma_sum_mono(k, h, 64);
}

/// Whether `t` is one of `g(1)`, ..., `g(n)`.
pub open spec fn in_image(g: spec_fn(int) -> int, n: int, t: int) -> bool {
    exists|k: int| 1 <= k <= n && #[trigger] g(k) == t
}

/// At most `n` squares are values of `g` on 1 to `n`.
proof fn lemma_count_image(g: spec_fn(int) -> int, n: int)
    requires
        n >= 0,
    ensures
        count_where(|t: int| in_image(g, n, t)) <= n,
    decreases n,
{
    let p = |t: int| in_image(g, n, t);
    if n == 0 {
        let f = |s: int| if p(s) { 1int } else { 0int };
        assert forall|i: int| 0 <= i < 64 implies #[trigger] f(i) == (|s: int| 0int)(i) by {}
        crate::eval::sums::lemma_sum_ext(f, |s: int| 0int, 64);
        lemma_sum_zero_const(64);
    } else {
        lemma_count_image(g, n - 1);
        let q = |t: int| in_image(g, n - 1, t);
        let x = g(n);
        let one = |t: int| t == x;
        assert forall|t: int| 0 <= t < 64 && #[trigger] p(t) implies q(t) || one(t) by {
            let k = choose|k: int| 1 <= k <= n && #[trigger] g(k) == t;
            if k < n {
                assert(1 <= k <= n - 1 && g(k) == t);
            }
        }
        lemma_count_or(q, one, p);
        lemma_count_point(x);
    }
}

/// A sum of zeros is zero.
proof fn lemma_sum_zero_const(n: int)
    ensures
        sum_below(|s: int| 0int, n) == 0,
    decreases n,
{
    if n > 0 {
        lemma_sum_zero_const(n - 1);
    }
}

/// One square counts once at most.
proof fn lemma_count_point(x: int)
    ensures
        count_where(|t: int| t == x) <= 1,
{
    let f = |s: int| if (|t: int| t == x)(s) { 1int } else { 0int };
    assert forall|i: int| 0 <= i < 64 implies 0 <= #[trigger] f(i) <= 1 by {}
    lemma_count_below_point(x, 64);
}

/// Below `n`, the indicator of one square sums to at most one.
proof fn lemma_count_below_point(x: int, n: int)
    ensures
        sum_below(|s: int| if (|t: int| t == x)(s) { 1int } else { 0int }, n) <= if x < n {
            1int
        } else {
            0int
        },
        sum_below(|s: int| if (|t: int| t == x)(s) { 1int } else { 0int }, n) >= 0,
    decreases n,
{
    if n > 0 {
        lemma_count_below_point(x, n - 1);
    }
}

/// The number of squares from `s` to the edge of the board in direction `d`.
pub open spec fn ray_len(s: int, d: Direction) -> int {
    let r = rank_of(s);
    let f = file_of(s);
    let min = |a: int, b: int| if a < b { a } else { b };
    match d {
        Direction::North => 7 - r,
        Direction::South => r,
        Direction::East => 7 - f,
        Direction::West => f,
        Direction::NorthEast => min(7 - r, 7 - f),
        Direction::NorthWest => min(7 - r, f),
        Direction::SouthEast => min(r, 7 - f),
        Direction::SouthWest => min(r, f),
    }
}

/// The change of square index of one step in direction `d`.
pub open spec fn dir_step(d: Direction) -> int {
    match d {
        Direction::North => 8,
        Direction::South => -8,
        Direction::East => 1,
        Direction::West => -1,
        Direction::NorthEast => 9,
        Direction::NorthWest => 7,
        Direction::SouthEast => -7,
        Direction::SouthWest => -9,
    }
}

/// The squares `k` steps from `s` in direction `d`, for `k` from 1.
pub open spec fn ray_square(s: int, d: Direction) -> spec_fn(int) -> int {
    |k: int| s + dir_step(d) * k
}

/// A square a slider on `s` reaches in direction `d` is one of the squares of that ray.
proof fn lemma_slide_on_ray(s: int, d: Direction, t: int, occ: crate::types::Bitboard)
    requires
        0 <= s < 64,
        slides_to(s, t, d, occ),
    ensures
        in_image(ray_square(s, d), ray_len(s, d), t),
{
    lemma_coords(s);
    let k = choose|k: int| k >= 1 && #[trigger] ray_target(s, d, k) == Some(t) && crate::chess::attacks::ray_clear(s, d, k, occ);
    assert(ray_target(s, d, k) == Some(t));
    let r = rank_of(s);
    let f = file_of(s);
    match d {
        Direction::North => {
            assert(t == 8 * (r + k) + f);
            assert(ray_square(s, d)(k) == t);
        },
        Direction::South => {
            assert(t == 8 * (r - k) + f);
            assert(ray_square(s, d)(k) == t);
        },
        Direction::East => {
            assert(t == 8 * r + f + k);
            assert(ray_square(s, d)(k) == t);
        },
        Direction::West => {
            assert(t == 8 * r + f - k);
            assert(ray_square(s, d)(k) == t);
        },
        Direction::NorthEast => {
            assert(t == 8 * (r + k) + f + k);
            assert(ray_square(s, d)(k) == t);
        },
        Direction::NorthWest => {
            assert(t == 8 * (r + k) + f - k);
            assert(ray_square(s, d)(k) == t);
        },
        Direction::SouthEast => {
            assert(t == 8 * (r - k) + f + k);
            assert(ray_square(s, d)(k) == t);
        },
        Direction::SouthWest => {
            assert(t == 8 * (r - k) + f - k);
            assert(ray_square(s, d)(k) == t);
        },
    }
    assert(1 <= k <= ray_len(s, d));
}

/// A slider on `s` reaches at most `ray_len(s, d)` squares in direction `d`.
proof fn lemma_count_slide(s: int, d: Direction, occ: crate::types::Bitboard)
    requires
        0 <= s < 64,
    ensures
        count_where(|t: int| slides_to(s, t, d, occ)) <= ray_len(s, d),
{
    lemma_coords(s);
    assert(ray_len(s, d) >= 0);
    assert forall|t: int| 0 <= t < 64 && #[trigger] slides_to(s, t, d, occ) implies in_image(ray_square(s, d), ray_len(s, d), t) by {
        lemma_slide_on_ray(s, d, t, occ);
    }
    lemma_count_mono(|t: int| slides_to(s, t, d, occ), |t: int| in_image(ray_square(s, d), ray_len(s, d), t));
    lemma_count_image(ray_square(s, d), ray_len(s, d));
}

/// The squares of a union of four sets number at most those of the four together.
proof fn lemma_count_or4(
    a: spec_fn(int) -> bool,
    b: spec_fn(int) -> bool,
    c: spec_fn(int) -> bool,
    d: spec_fn(int) -> bool,
    u: spec_fn(int) -> bool,
)
    requires
        forall|t: int| 0 <= t < 64 && #[trigger] u(t) ==> a(t) || b(t) || c(t) || d(t),
    ensures
        count_where(u) <= count_where(a) + count_where(b) + count_where(c) + count_where(d),
{
    let ab = |t: int| a(t) || b(t);
    let cd = |t: int| c(t) || d(t);
    lemma_count_or(ab, cd, u);
    lemma_count_or(a, b, ab);
    lemma_count_or(c, d, cd);
}

/// A bishop reaches at most 13 squares, a rook at most 14.
proof fn lemma_count_sliders(s: int, occ: crate::types::Bitboard)
    requires
        0 <= s < 64,
    ensures
        count_where(|t: int| bishop_reach(s, t, occ)) <= 13,
        count_where(|t: int| rook_reach(s, t, occ)) <= 14,
        count_where(|t: int| rook_reach(s, t, occ) || bishop_reach(s, t, occ)) <= 27,
{
    lemma_coords(s);
    let ne = |t: int| slides_to(s, t, Direction::NorthEast, occ);
    let nw = |t: int| slides_to(s, t, Direction::NorthWest, occ);
    let se = |t: int| slides_to(s, t, Direction::SouthEast, occ);
    let sw = |t: int| slides_to(s, t, Direction::SouthWest, occ);
    let n = |t: int| slides_to(s, t, Direction::North, occ);
    let so = |t: int| slides_to(s, t, Direction::South, occ);
    let e = |t: int| slides_to(s, t, Direction::East, occ);
    let w = |t: int| slides_to(s, t, Direction::West, occ);
    lemma_count_slide(s, Direction::NorthEast, occ);
    lemma_count_slide(s, Direction::NorthWest, occ);
    lemma_count_slide(s, Direction::SouthEast, occ);
    lemma_count_slide(s, Direction::SouthWest, occ);
    lemma_count_slide(s, Direction::North, occ);
    lemma_count_slide(s, Direction::South, occ);
    lemma_count_slide(s, Direction::East, occ);
    lemma_count_slide(s, Direction::West, occ);
    let bishop = |t: int| bishop_reach(s, t, occ);
    let rook = |t: int| rook_reach(s, t, occ);
    assert forall|t: int| 0 <= t < 64 && #[trigger] bishop(t) implies ne(t) || nw(t) || se(t) || sw(t) by {
        let d = choose|d: Direction| is_diagonal(d) && #[trigger] slides_to(s, t, d, occ);
        assert(slides_to(s, t, d, occ));
    }
    assert forall|t: int| 0 <= t < 64 && #[trigger] rook(t) implies n(t) || so(t) || e(t) || w(t) by {
        let d = choose|d: Direction| crate::chess::attacks::is_orthogonal(d) && #[trigger] slides_to(s, t, d, occ);
        assert(slides_to(s, t, d, occ));
    }
    lemma_count_or4(ne, nw, se, sw, bishop);
    lemma_count_or4(n, so, e, w, rook);
    let r = rank_of(s);
    let f = file_of(s);
    assert(ray_len(s, Direction::NorthEast) + ray_len(s, Direction::NorthWest) + ray_len(s, Direction::SouthEast)
        + ray_len(s, Direction::SouthWest) <= 13);
    lemma_count_or(rook, bishop, |t: int| rook_reach(s, t, occ) || bishop_reach(s, t, occ));
}

/// The index change of the knight move numbered `k`, 1 to 8.
pub open spec fn knight_offset(k: int) -> int {
    if k == 1 {
        17
    } else if k == 2 {
        15
    } else if k == 3 {
        10
    } else if k == 4 {
        6
    } else if k == 5 {
        -6
    } else if k == 6 {
        -10
    } else if k == 7 {
        -15
    } else {
        -17
    }
}

/// A knight reaches at most 8 squares.
proof fn lemma_count_knight(s: int)
    requires
        0 <= s < 64,
    ensures
        count_where(|t: int| knight_step(s, t)) <= 8,
{
    let g = |k: int| s + knight_offset(k);
    assert forall|t: int| 0 <= t < 64 && #[trigger] knight_step(s, t) implies in_image(g, 8, t) by {
        lemma_coords(s);
        lemma_coords(t);
        let dr = rank_of(t) - rank_of(s);
        let df = file_of(t) - file_of(s);
        assert(t - s == 8 * dr + df);
        let k = if dr == 2 && df == 1 {
            1int
        } else if dr == 2 && df == -1 {
            2int
        } else if dr == 1 && df == 2 {
            3int
        } else if dr == 1 && df == -2 {
            4int
        } else if dr == -1 && df == 2 {
            5int
        } else if dr == -1 && df == -2 {
            6int
        } else if dr == -2 && df == 1 {
            7int
        } else {
            8int
        };
        assert(g(k) == t);
    }
    lemma_count_mono(|t: int| knight_step(s, t), |t: int| in_image(g, 8, t));
    lemma_count_image(g, 8);
}

/// A knight, bishop, rook or queen attacks at most 27 squares of the mobility area.
pub proof fn lemma_mobility_bound(b: Board, c: Color, pt: PieceType, s: int)
    requires
        1 <= pt@ <= 4,
        0 <= s < 64,
    ensures
        mobility_of(b, c, pt, s) <= 27,
{
    let occ = b.occ_bb();
    let reach = |t: int| piece_reach(pt, s, t, occ);
    lemma_count_mono(|t: int| piece_reach(pt, s, t, b.occ_bb()) && mobility_area(b, c, t), reach);
    lemma_count_sliders(s, occ);
    lemma_count_knight(s);
    match pt {
        PieceType::Knight => lemma_count_mono(reach, |t: int| knight_step(s, t)),
        PieceType::Bishop => lemma_count_mono(reach, |t: int| bishop_reach(s, t, occ)),
        PieceType::Rook => lemma_count_mono(reach, |t: int| rook_reach(s, t, occ)),
        _ => lemma_count_mono(reach, |t: int| rook_reach(s, t, occ) || bishop_reach(s, t, occ)),
    }
}

} // verus!
