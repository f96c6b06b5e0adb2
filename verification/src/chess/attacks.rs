use vstd::prelude::*;

use crate::types::bitboard::bit;
use crate::types::square::{abs_int, file_of, rank_of};
use crate::types::{Bitboard, Color, PieceType, Square};

verus! {

/// The eight directions a line of the board can run in.
#[derive(Debug, Clone, Copy, PartialEq, Eq, Structural)]
pub enum Direction {
    North,
    South,
    East,
    West,
    NorthEast,
    NorthWest,
    SouthEast,
    SouthWest,
}

/// Square indices relate to their rank and file as `8 * rank + file`.
pub proof fn lemma_coords(s: int)
    requires
        0 <= s < 64,
    ensures
        s == 8 * rank_of(s) + file_of(s),
        0 <= rank_of(s) < 8,
        0 <= file_of(s) < 8,
{
}

/// The rank and file of `8 * r + f`.
pub proof fn lemma_square_of(r: int, f: int)
    requires
        0 <= r < 8,
        0 <= f < 8,
    ensures
        rank_of(8 * r + f) == r,
        file_of(8 * r + f) == f,
        0 <= 8 * r + f < 64,
{
}

/// A knight move from square `s` to square `t`.
pub open spec fn knight_step(s: int, t: int) -> bool {
    &&& 0 <= s < 64
    &&& 0 <= t < 64
    &&& {
        let dr = abs_int(rank_of(t) - rank_of(s));
        let df = abs_int(file_of(t) - file_of(s));
        (dr == 1 && df == 2) || (dr == 2 && df == 1)
    }
}

/// A king move from square `s` to square `t`.
pub open spec fn king_step(s: int, t: int) -> bool {
    &&& 0 <= s < 64
    &&& 0 <= t < 64
    &&& s != t
    &&& abs_int(rank_of(t) - rank_of(s)) <= 1
    &&& abs_int(file_of(t) - file_of(s)) <= 1
}

/// A pawn capture of the side `white` from square `s` to square `t`.
pub open spec fn pawn_capture_step(white: bool, s: int, t: int) -> bool {
    &&& 0 <= s < 64
    &&& 0 <= t < 64
    &&& rank_of(t) == rank_of(s) + if white {
        1int
    } else {
        -1int
    }
    &&& abs_int(file_of(t) - file_of(s)) == 1
}

/// The square `k` steps from `s` in direction `d`, if it is on the board.
pub open spec fn ray_target(s: int, d: Direction, k: int) -> Option<int> {
    let r = rank_of(s);
    let f = file_of(s);
    let rf: (int, int) = match d {
        Direction::North => (r + k, f),
        Direction::South => (r - k, f),
        Direction::East => (r, f + k),
        Direction::West => (r, f - k),
        Direction::NorthEast => (r + k, f + k),
        Direction::NorthWest => (r + k, f - k),
        Direction::SouthEast => (r - k, f + k),
        Direction::SouthWest => (r - k, f - k),
    };
    if 0 <= s < 64 && 0 <= rf.0 < 8 && 0 <= rf.1 < 8 {
        Some(8 * rf.0 + rf.1)
    } else {
        None
    }
}

/// Whether the squares 1 to `k - 1` steps from `s` in direction `d` are on the board and empty.
pub open spec fn ray_clear(s: int, d: Direction, k: int, occ: Bitboard) -> bool {
    forall|j: int|
        1 <= j < k ==> (#[trigger] ray_target(s, d, j) matches Some(u) && !occ.contains(u))
}

/// Whether a piece sliding from `s` in direction `d` reaches `t` over the occupied squares
/// `occ`: the squares before `t` are empty, `t` itself may be occupied.
pub open spec fn slides_to(s: int, t: int, d: Direction, occ: Bitboard) -> bool {
    exists|k: int| k >= 1 && #[trigger] ray_target(s, d, k) == Some(t) && ray_clear(s, d, k, occ)
}

/// Whether `t` lies on the ray from `s` in direction `d`.
pub open spec fn on_ray(s: int, t: int, d: Direction) -> bool {
    exists|k: int| k >= 1 && #[trigger] ray_target(s, d, k) == Some(t)
}

/// A diagonal direction.
pub open spec fn is_diagonal(d: Direction) -> bool {
    d == Direction::NorthEast || d == Direction::NorthWest || d == Direction::SouthEast || d
        == Direction::SouthWest
}

/// An orthogonal direction.
pub open spec fn is_orthogonal(d: Direction) -> bool {
    !is_diagonal(d)
}

/// The squares a bishop on `s` attacks.
pub open spec fn bishop_reach(s: int, t: int, occ: Bitboard) -> bool {
    exists|d: Direction| is_diagonal(d) && #[trigger] slides_to(s, t, d, occ)
}

/// The squares a rook on `s` attacks.
pub open spec fn rook_reach(s: int, t: int, occ: Bitboard) -> bool {
    exists|d: Direction| is_orthogonal(d) && #[trigger] slides_to(s, t, d, occ)
}

/// The squares strictly between `a` and `b` when both lie on one line.
pub open spec fn strictly_between(a: int, b: int, t: int) -> bool {
    exists|d: Direction, k: int, m: int|
        1 <= k < m && #[trigger] ray_target(a, d, m) == Some(b) && #[trigger] ray_target(a, d, k)
            == Some(t)
}

/// The opposite direction.
pub open spec fn opposite(d: Direction) -> Direction {
    match d {
        Direction::North => Direction::South,
        Direction::South => Direction::North,
        Direction::East => Direction::West,
        Direction::West => Direction::East,
        Direction::NorthEast => Direction::SouthWest,
        Direction::NorthWest => Direction::SouthEast,
        Direction::SouthEast => Direction::NorthWest,
        Direction::SouthWest => Direction::NorthEast,
    }
}

/// One step from `sq` in direction `d`, if it stays on the board.
fn step(sq: Square, d: Direction) -> (r: Option<Square>)
    ensures
        match ray_target(sq@, d, 1) {
            Some(t) => r matches Some(q) && q@ == t,
            None => r is None,
        },
{
    let rank = sq.rank() as i32;
    let file = sq.file() as i32;
    let (r2, f2): (i32, i32) = match d {
        Direction::North => (rank + 1, file),
        Direction::South => (rank - 1, file),
        Direction::East => (rank, file + 1),
        Direction::West => (rank, file - 1),
        Direction::NorthEast => (rank + 1, file + 1),
        Direction::NorthWest => (rank + 1, file - 1),
        Direction::SouthEast => (rank - 1, file + 1),
        Direction::SouthWest => (rank - 1, file - 1),
    };
    if 0 <= r2 && r2 < 8 && 0 <= f2 && f2 < 8 {
        Some(Square::from_rank_file(r2 as u8, f2 as u8))
    } else {
        None
    }
}

/// Taking one more step along a ray continues from the square reached.
proof fn lemma_ray_step(s: int, d: Direction, k: int, c: int)
    requires
        k >= 0,
        0 <= s < 64,
        k == 0 ==> c == s,
        k > 0 ==> ray_target(s, d, k) == Some(c),
    ensures
        ray_target(s, d, k + 1) == ray_target(c, d, 1),
{
    lemma_coords(s);
    if k > 0 {
        let r = rank_of(c);
        let f = file_of(c);
        lemma_coords(c);
    }
}

/// Once a ray leaves the board it stays off it.
/// A ray never comes back to its start.
pub proof fn lemma_ray_leaves(s: int, d: Direction, k: int)
    requires
        k >= 1,
    ensures
        ray_target(s, d, k) != Some(s),
{
    if 0 <= s < 64 {
        lemma_coords(s);
    }
}

proof fn lemma_ray_off(s: int, d: Direction, k: int, k2: int)
    requires
        1 <= k <= k2,
        ray_target(s, d, k) is None,
    ensures
        ray_target(s, d, k2) is None,
{
}

proof fn lemma_clear_mono(s: int, d: Direction, j: int, k: int, occ: Bitboard)
    requires
        j <= k,
        ray_clear(s, d, k, occ),
    ensures
        ray_clear(s, d, j, occ),
{
    assert forall|i: int| 1 <= i < j implies (#[trigger] ray_target(s, d, i) matches Some(u)
        && !occ.contains(u)) by {
        assert(1 <= i < k);
    }
}

proof fn lemma_clear_extend(s: int, d: Direction, k: int, occ: Bitboard)
    requires
        k >= 1,
        ray_clear(s, d, k, occ),
        ray_target(s, d, k) matches Some(u) && !occ.contains(u),
    ensures
        ray_clear(s, d, k + 1, occ),
{
    assert forall|i: int| 1 <= i < k + 1 implies (#[trigger] ray_target(s, d, i) matches Some(u)
        && !occ.contains(u)) by {
        if i < k {
            assert(1 <= i < k);
        }
    }
}

/// The ray from a square leaves the board within seven steps.
proof fn lemma_ray_short(s: int, d: Direction, k: int)
    requires
        k >= 8,
    ensures
        ray_target(s, d, k) is None,
{
}

/// The squares a piece sliding from `sq` in direction `d` attacks.
fn slide(sq: Square, occ: Bitboard, d: Direction) -> (r: Bitboard)
    ensures
        forall|t: int| #[trigger] r.contains(t) <==> slides_to(sq@, t, d, occ),
{
    let mut result = Bitboard::none();
    let mut cur = sq;
    let ghost mut k: int = 0;
    loop
        invariant_except_break
            0 <= k <= 7,
            k == 0 ==> cur@ == sq@,
            k > 0 ==> ray_target(sq@, d, k) == Some(cur@),
            ray_clear(sq@, d, k + 1, occ),
            forall|t: int|
                #[trigger] result.contains(t) <==> exists|j: int|
                    1 <= j <= k && #[trigger] ray_target(sq@, d, j) == Some(t),
        ensures
            forall|t: int| #[trigger] result.contains(t) <==> slides_to(sq@, t, d, occ),
        decreases 8 - k,
    {
        proof {
            lemma_ray_step(sq@, d, k, cur@);
        }
        match step(cur, d) {
            None => {
                proof {
                    assert forall|t: int| #[trigger] result.contains(t) <==> slides_to(
                        sq@,
                        t,
                        d,
                        occ,
                    ) by {
                        if result.contains(t) {
                            let j = choose|j: int|
                                1 <= j <= k && #[trigger] ray_target(sq@, d, j) == Some(t);
                            lemma_clear_mono(sq@, d, j, k + 1, occ);
                        }
                        if slides_to(sq@, t, d, occ) {
                            let kk = choose|kk: int|
                                kk >= 1 && #[trigger] ray_target(sq@, d, kk) == Some(t)
                                    && ray_clear(sq@, d, kk, occ);
                            if kk > k {
                                lemma_ray_off(sq@, d, k + 1, kk);
                            }
                        }
                    }
                }
                break ;
            },
            Some(next) => {
                let ghost k0 = k;
                result = result.bit_or(Bitboard::from_square(next));
                cur = next;
                proof {
                    k = k + 1;
                    assert forall|t: int| #[trigger]
                        result.contains(t) <==> exists|j: int|
                            1 <= j <= k && #[trigger] ray_target(sq@, d, j) == Some(t) by {
                        if result.contains(t) && t == cur@ {
                            assert(ray_target(sq@, d, k) == Some(t));
                        }
                    }
                }
                if occ.has(next) {
                    proof {
                        assert forall|t: int| #[trigger] result.contains(t) <==> slides_to(
                            sq@,
                            t,
                            d,
                            occ,
                        ) by {
                            if result.contains(t) {
                                let j = choose|j: int|
                                    1 <= j <= k && #[trigger] ray_target(sq@, d, j) == Some(t);
                                lemma_clear_mono(sq@, d, j, k, occ);
                            }
                            if slides_to(sq@, t, d, occ) {
                                let kk = choose|kk: int|
                                    kk >= 1 && #[trigger] ray_target(sq@, d, kk) == Some(t)
                                        && ray_clear(sq@, d, kk, occ);
                                if kk > k {
                                    assert(ray_target(sq@, d, k) matches Some(u) && !occ.contains(
                                        u,
                                    ));
                                }
                            }
                        }
                    }
                    break ;
                }
                proof {
                    lemma_clear_extend(sq@, d, k, occ);
                    if k > 7 {
                        lemma_ray_short(sq@, d, k);
                    }
                }
            },
        }
    }
    result
}

/// An empty path of a ray: the ray is clear over an empty board as far as it stays on it.
proof fn lemma_slides_empty(s: int, t: int, d: Direction)
    ensures
        slides_to(s, t, d, Bitboard::empty_spec()) <==> on_ray(s, t, d),
{
    if on_ray(s, t, d) {
        let k = choose|k: int| k >= 1 && #[trigger] ray_target(s, d, k) == Some(t);
        assert forall|j: int| 1 <= j < k implies (#[trigger] ray_target(s, d, j) matches Some(u)
            && !Bitboard::empty_spec().contains(u)) by {
            if ray_target(s, d, j) is None {
                lemma_ray_off(s, d, j, k);
            }
            Bitboard::lemma_from_raw_spec(0);
            crate::types::bitboard::lemma_bit_zero(ray_target(s, d, j)->0);
        }
        assert(ray_clear(s, d, k, Bitboard::empty_spec()));
    }
}

/// The squares on the ray from `sq` in direction `dir`, up to the edge of the board.
pub fn ray_bb(sq: Square, dir: Direction) -> (r: Bitboard)
    ensures
        forall|t: int| #[trigger] r.contains(t) <==> on_ray(sq@, t, dir),
{
    let r = slide(sq, Bitboard::none(), dir);
    proof {
        assert forall|t: int| #[trigger] r.contains(t) <==> on_ray(sq@, t, dir) by {
            lemma_slides_empty(sq@, t, dir);
        }
    }
    r
}

/// The squares a bishop on `sq` attacks when `occ` holds the occupied squares.
pub fn bishop_attacks(sq: Square, occ: Bitboard) -> (r: Bitboard)
    ensures
        forall|t: int| #[trigger] r.contains(t) <==> bishop_reach(sq@, t, occ),
{
    let a = slide(sq, occ, Direction::NorthEast);
    let b = slide(sq, occ, Direction::NorthWest);
    let c = slide(sq, occ, Direction::SouthEast);
    let e = slide(sq, occ, Direction::SouthWest);
    let r = a.bit_or(b).bit_or(c).bit_or(e);
    proof {
        assert forall|t: int| #[trigger] r.contains(t) <==> bishop_reach(sq@, t, occ) by {
            if bishop_reach(sq@, t, occ) {
                let d = choose|d: Direction| is_diagonal(d) && #[trigger] slides_to(sq@, t, d, occ);
                assert(r.contains(t));
            }
            if a.contains(t) {
                assert(slides_to(sq@, t, Direction::NorthEast, occ));
            }
            if b.contains(t) {
                assert(slides_to(sq@, t, Direction::NorthWest, occ));
            }
            if c.contains(t) {
                assert(slides_to(sq@, t, Direction::SouthEast, occ));
            }
            if e.contains(t) {
                assert(slides_to(sq@, t, Direction::SouthWest, occ));
            }
        }
    }
    r
}

/// The squares a rook on `sq` attacks when `occ` holds the occupied squares.
pub fn rook_attacks(sq: Square, occ: Bitboard) -> (r: Bitboard)
    ensures
        forall|t: int| #[trigger] r.contains(t) <==> rook_reach(sq@, t, occ),
{
    let a = slide(sq, occ, Direction::North);
    let b = slide(sq, occ, Direction::South);
    let c = slide(sq, occ, Direction::East);
    let e = slide(sq, occ, Direction::West);
    let r = a.bit_or(b).bit_or(c).bit_or(e);
    proof {
        assert forall|t: int| #[trigger] r.contains(t) <==> rook_reach(sq@, t, occ) by {
            if rook_reach(sq@, t, occ) {
                let d = choose|d: Direction| is_orthogonal(d) && #[trigger] slides_to(sq@, t, d, occ);
                assert(r.contains(t));
            }
            if a.contains(t) {
                assert(slides_to(sq@, t, Direction::North, occ));
            }
            if b.contains(t) {
                assert(slides_to(sq@, t, Direction::South, occ));
            }
            if c.contains(t) {
                assert(slides_to(sq@, t, Direction::East, occ));
            }
            if e.contains(t) {
                assert(slides_to(sq@, t, Direction::West, occ));
            }
        }
    }
    r
}

/// The squares a queen on `sq` attacks when `occ` holds the occupied squares.
pub fn queen_attacks(sq: Square, occ: Bitboard) -> (r: Bitboard)
    ensures
        forall|t: int| #[trigger] r.contains(t) <==> rook_reach(sq@, t, occ) || bishop_reach(sq@, t, occ),
{
    rook_attacks(sq, occ).bit_or(bishop_attacks(sq, occ))
}

/// The square `dr` ranks and `df` files away from `s`, when it is on the board.
pub open spec fn offset_square(s: int, dr: int, df: int, t: int) -> bool {
    &&& 0 <= s < 64
    &&& 0 <= rank_of(s) + dr < 8
    &&& 0 <= file_of(s) + df < 8
    &&& t == s + 8 * dr + df
}

proof fn lemma_knight_parts(s: int, t: int)
    requires
        0 <= s < 64,
    ensures
        knight_step(s, t) <==> offset_square(s, 2, -1, t) || offset_square(s, 1, -2, t)
            || offset_square(s, -2, -1, t) || offset_square(s, -1, -2, t) || offset_square(
            s,
            2,
            1,
            t,
        ) || offset_square(s, 1, 2, t) || offset_square(s, -2, 1, t) || offset_square(s, -1, 2, t),
{
    lemma_coords(s);
    if 0 <= t < 64 {
        lemma_coords(t);
    }
}

/// The squares a knight on `sq` attacks.
#[verifier::rlimit(40)]
pub fn knight_attacks(sq: Square) -> (r: Bitboard)
    ensures
        forall|t: int| #[trigger] r.contains(t) <==> knight_step(sq@, t),
{
    let bb = Bitboard::from_square(sq);
    let nw = bb.north_west();
    let sw = bb.south_west();
    let ne = bb.north_east();
    let se = bb.south_east();
    let a = nw.north();
    let b = nw.west();
    let c = sw.south();
    let d = sw.west();
    let e = ne.north();
    let f = ne.east();
    let g = se.south();
    let h = se.east();
    let ghost s = sq@;
    proof {
        lemma_coords(s);
        assert forall|t: int| #[trigger] a.contains(t) <==> offset_square(s, 2, -1, t) by {
            if 0 <= t < 64 { lemma_coords(t); }
        }
        assert forall|t: int| #[trigger] b.contains(t) <==> offset_square(s, 1, -2, t) by {
            if 0 <= t < 64 { lemma_coords(t); }
        }
        assert forall|t: int| #[trigger] c.contains(t) <==> offset_square(s, -2, -1, t) by {
            if 0 <= t < 64 { lemma_coords(t); }
        }
        assert forall|t: int| #[trigger] d.contains(t) <==> offset_square(s, -1, -2, t) by {
            if 0 <= t < 64 { lemma_coords(t); }
        }
        assert forall|t: int| #[trigger] e.contains(t) <==> offset_square(s, 2, 1, t) by {
            if 0 <= t < 64 { lemma_coords(t); }
        }
        assert forall|t: int| #[trigger] f.contains(t) <==> offset_square(s, 1, 2, t) by {
            if 0 <= t < 64 { lemma_coords(t); }
        }
        assert forall|t: int| #[trigger] g.contains(t) <==> offset_square(s, -2, 1, t) by {
            if 0 <= t < 64 { lemma_coords(t); }
        }
        assert forall|t: int| #[trigger] h.contains(t) <==> offset_square(s, -1, 2, t) by {
            if 0 <= t < 64 { lemma_coords(t); }
        }
    }
    let r = a.bit_or(b).bit_or(c).bit_or(d).bit_or(e).bit_or(f).bit_or(g).bit_or(h);
    proof {
        assert forall|t: int| #[trigger] r.contains(t) <==> knight_step(s, t) by {
            lemma_knight_parts(s, t);
        }
    }
    r
}

/// The squares a king on `sq` attacks.
pub fn king_attacks(sq: Square) -> (r: Bitboard)
    ensures
        forall|t: int| #[trigger] r.contains(t) <==> king_step(sq@, t),
{
    let bb = Bitboard::from_square(sq);
    let r = bb.north().bit_or(bb.south()).bit_or(bb.east()).bit_or(bb.west()).bit_or(
        bb.north_east(),
    ).bit_or(bb.north_west()).bit_or(bb.south_east()).bit_or(bb.south_west());
    proof {
        let s = sq@;
        lemma_coords(s);
        assert forall|t: int| #[trigger] r.contains(t) <==> king_step(s, t) by {
            if 0 <= t < 64 {
                lemma_coords(t);
            }
        }
    }
    r
}

/// The squares one step forward from the squares of `bb`, for the side `white`.
pub open spec fn push_set(white: bool, bb: Bitboard, t: int) -> bool {
    if white {
        8 <= t < 64 && bb.contains(t - 8)
    } else {
        0 <= t < 56 && bb.contains(t + 8)
    }
}

/// The squares that the pawns of the side `white` on `bb` attack towards the h-file.
pub open spec fn east_capture_set(white: bool, bb: Bitboard, t: int) -> bool {
    if white {
        8 <= t < 64 && file_of(t) != 0 && bb.contains(t - 9)
    } else {
        0 <= t < 56 && file_of(t) != 0 && bb.contains(t + 7)
    }
}

/// The squares that the pawns of the side `white` on `bb` attack towards the a-file.
pub open spec fn west_capture_set(white: bool, bb: Bitboard, t: int) -> bool {
    if white {
        8 <= t < 64 && file_of(t) != 7 && bb.contains(t - 7)
    } else {
        0 <= t < 56 && file_of(t) != 7 && bb.contains(t + 9)
    }
}

/// The squares in front of a pawn of the side `white` on `s`, on its file and the two
/// files beside it.
pub open spec fn passed_span(white: bool, s: int, t: int) -> bool {
    &&& 0 <= t < 64
    &&& abs_int(file_of(t) - file_of(s)) <= 1
    &&& if white {
        rank_of(t) > rank_of(s)
    } else {
        rank_of(t) < rank_of(s)
    }
}

/// The squares the pawns on `bb` of color `c` move to with a single push.
pub fn pawn_pushes_bb(c: Color, bb: Bitboard) -> (r: Bitboard)
    ensures
        forall|t: int| #[trigger] r.contains(t) <==> push_set(c == Color::White, bb, t),
{
    if c == Color::White {
        bb.north()
    } else {
        bb.south()
    }
}

/// The squares the pawns on `bb` of color `c` attack towards the h-file.
pub fn pawn_east_attacks_bb(c: Color, bb: Bitboard) -> (r: Bitboard)
    ensures
        forall|t: int| #[trigger] r.contains(t) <==> east_capture_set(c == Color::White, bb, t),
{
    if c == Color::White {
        bb.north_east()
    } else {
        bb.south_east()
    }
}

/// The squares the pawns on `bb` of color `c` attack towards the a-file.
pub fn pawn_west_attacks_bb(c: Color, bb: Bitboard) -> (r: Bitboard)
    ensures
        forall|t: int| #[trigger] r.contains(t) <==> west_capture_set(c == Color::White, bb, t),
{
    if c == Color::White {
        bb.north_west()
    } else {
        bb.south_west()
    }
}

/// The squares the pawns on `bb` of color `c` attack.
pub fn pawn_attacks_bb(c: Color, bb: Bitboard) -> (r: Bitboard)
    ensures
        forall|t: int| #[trigger]
            r.contains(t) <==> west_capture_set(c == Color::White, bb, t) || east_capture_set(
                c == Color::White,
                bb,
                t,
            ),
{
    pawn_west_attacks_bb(c, bb).bit_or(pawn_east_attacks_bb(c, bb))
}

/// The squares a pawn of color `c` on `sq` attacks.
pub fn pawn_attacks(c: Color, sq: Square) -> (r: Bitboard)
    ensures
        forall|t: int| #[trigger] r.contains(t) <==> pawn_capture_step(c == Color::White, sq@, t),
{
    let bb = Bitboard::from_square(sq);
    let r = pawn_attacks_bb(c, bb);
    proof {
        let s = sq@;
        lemma_coords(s);
        assert forall|t: int| #[trigger] r.contains(t) <==> pawn_capture_step(
            c == Color::White,
            s,
            t,
        ) by {
            if 0 <= t < 64 {
                lemma_coords(t);
            }
        }
    }
    r
}

/// The squares where enemy pawns would stop a pawn of color `color` on `sq` from passing.
pub fn passed_pawn_span(color: Color, sq: Square) -> (r: Bitboard)
    ensures
        forall|t: int| #[trigger] r.contains(t) <==> passed_span(color == Color::White, sq@, t),
{
    let f = sq.file();
    let mut files = Bitboard::file(f);
    if f > 0 {
        files = files.bit_or(Bitboard::file(f - 1));
    }
    if f < 7 {
        files = files.bit_or(Bitboard::file(f + 1));
    }
    assert(forall|t: int| #[trigger]
        files.contains(t) <==> 0 <= t < 64 && abs_int(file_of(t) - f) <= 1);
    let white = color == Color::White;
    let rank = sq.rank();
    let mut ranks = Bitboard::none();
    let mut rr: u8 = 0;
    while rr < 8
        invariant
            rr <= 8,
            rank < 8,
            forall|t: int| #[trigger]
                ranks.contains(t) <==> 0 <= t < 64 && rank_of(t) < rr && (if white {
                    rank_of(t) > rank
                } else {
                    rank_of(t) < rank
                }),
        decreases 8 - rr,
    {
        if (white && rr > rank) || (!white && rr < rank) {
            ranks = ranks.bit_or(Bitboard::rank(rr));
        }
        rr = rr + 1;
    }
    files.bit_and(ranks)
}

/// The squares `pt` on `sq` attacks when `occ` holds the occupied squares, for every kind
/// but the pawn.
pub fn piece_attacks(pt: PieceType, sq: Square, occ: Bitboard) -> (r: Bitboard)
    requires
        pt != PieceType::Pawn,
    ensures
        forall|t: int| #[trigger]
            r.contains(t) <==> match pt {
                PieceType::Knight => knight_step(sq@, t),
                PieceType::Bishop => bishop_reach(sq@, t, occ),
                PieceType::Rook => rook_reach(sq@, t, occ),
                PieceType::Queen => rook_reach(sq@, t, occ) || bishop_reach(sq@, t, occ),
                _ => king_step(sq@, t),
            },
{
    match pt {
        PieceType::Knight => knight_attacks(sq),
        PieceType::Bishop => bishop_attacks(sq, occ),
        PieceType::Rook => rook_attacks(sq, occ),
        PieceType::Queen => queen_attacks(sq, occ),
        _ => king_attacks(sq),
    }
}

/// The squares on the line through `a` and `b`, when they share a rank, file or diagonal.
pub open spec fn on_line_through(a: int, b: int, t: int) -> bool {
    exists|d: Direction|
        #[trigger] on_ray(a, b, d) && (t == a || on_ray(a, t, d) || on_ray(a, t, opposite(d)))
}

/// A ray reaches a given square after one number of steps only, and in one direction only.
proof fn lemma_ray_unique(a: int, b: int, d1: Direction, k1: int, d2: Direction, k2: int)
    requires
        k1 >= 1,
        k2 >= 1,
        ray_target(a, d1, k1) == Some(b),
        ray_target(a, d2, k2) == Some(b),
    ensures
        d1 == d2,
        k1 == k2,
{
    lemma_coords(a);
    lemma_coords(b);
}

/// Where a ray lands, in ranks and files.
proof fn lemma_ray_coords(a: int, d: Direction, k: int, b: int)
    requires
        ray_target(a, d, k) == Some(b),
    ensures
        0 <= a < 64,
        0 <= b < 64,
        match d {
            Direction::North => rank_of(b) == rank_of(a) + k && file_of(b) == file_of(a),
            Direction::South => rank_of(b) == rank_of(a) - k && file_of(b) == file_of(a),
            Direction::East => rank_of(b) == rank_of(a) && file_of(b) == file_of(a) + k,
            Direction::West => rank_of(b) == rank_of(a) && file_of(b) == file_of(a) - k,
            Direction::NorthEast => rank_of(b) == rank_of(a) + k && file_of(b) == file_of(a) + k,
            Direction::NorthWest => rank_of(b) == rank_of(a) + k && file_of(b) == file_of(a) - k,
            Direction::SouthEast => rank_of(b) == rank_of(a) - k && file_of(b) == file_of(a) + k,
            Direction::SouthWest => rank_of(b) == rank_of(a) - k && file_of(b) == file_of(a) - k,
        },
{
    lemma_coords(a);
    let r = rank_of(a);
    let f = file_of(a);
    match d {
        Direction::North => lemma_square_of(r + k, f),
        Direction::South => lemma_square_of(r - k, f),
        Direction::East => lemma_square_of(r, f + k),
        Direction::West => lemma_square_of(r, f - k),
        Direction::NorthEast => lemma_square_of(r + k, f + k),
        Direction::NorthWest => lemma_square_of(r + k, f - k),
        Direction::SouthEast => lemma_square_of(r - k, f + k),
        Direction::SouthWest => lemma_square_of(r - k, f - k),
    }
}

/// The direction from `s1` towards `s2`, when they share a rank, file or diagonal.
fn direction_to(s1: Square, s2: Square) -> (r: Option<Direction>)
    ensures
        match r {
            Some(d) => on_ray(s1@, s2@, d),
            None => forall|d: Direction| !#[trigger] on_ray(s1@, s2@, d),
        },
{
    let dr: i32 = s2.rank() as i32 - s1.rank() as i32;
    let df: i32 = s2.file() as i32 - s1.file() as i32;
    let ghost a = s1@;
    let ghost b = s2@;
    proof {
        lemma_coords(a);
        lemma_coords(b);
    }
    let r = if dr == 0 && df == 0 {
        None
    } else if dr == 0 {
        if df > 0 {
            proof { assert(ray_target(a, Direction::East, df as int) == Some(b)); }
            Some(Direction::East)
        } else {
            proof { assert(ray_target(a, Direction::West, -df as int) == Some(b)); }
            Some(Direction::West)
        }
    } else if df == 0 {
        if dr > 0 {
            proof { assert(ray_target(a, Direction::North, dr as int) == Some(b)); }
            Some(Direction::North)
        } else {
            proof { assert(ray_target(a, Direction::South, -dr as int) == Some(b)); }
            Some(Direction::South)
        }
    } else if dr == df {
        if dr > 0 {
            proof { assert(ray_target(a, Direction::NorthEast, dr as int) == Some(b)); }
            Some(Direction::NorthEast)
        } else {
            proof { assert(ray_target(a, Direction::SouthWest, -dr as int) == Some(b)); }
            Some(Direction::SouthWest)
        }
    } else if dr == -df {
        if dr > 0 {
            proof { assert(ray_target(a, Direction::NorthWest, dr as int) == Some(b)); }
            Some(Direction::NorthWest)
        } else {
            proof { assert(ray_target(a, Direction::SouthEast, -dr as int) == Some(b)); }
            Some(Direction::SouthEast)
        }
    } else {
        None
    };
    proof {
        if r is None {
            assert forall|d: Direction| !#[trigger] on_ray(a, b, d) by {
                if on_ray(a, b, d) {
                    let k = choose|k: int| k >= 1 && #[trigger] ray_target(a, d, k) == Some(b);
                    lemma_ray_coords(a, d, k, b);
                }
            }
        }
    }
    r
}

/// The squares strictly between `sq1` and `sq2` when they share a rank, file or diagonal;
/// otherwise no square.
pub fn line_between(sq1: Square, sq2: Square) -> (r: Bitboard)
    ensures
        forall|t: int| #[trigger] r.contains(t) <==> strictly_between(sq1@, sq2@, t),
{
    let ghost a = sq1@;
    let ghost b = sq2@;
    match direction_to(sq1, sq2) {
        None => {
            let r = Bitboard::none();
            proof {
                assert forall|t: int| #[trigger] r.contains(t) <==> strictly_between(a, b, t) by {
                    if strictly_between(a, b, t) {
                        let (d, k, m) = choose|d: Direction, k: int, m: int|
                            1 <= k < m && #[trigger] ray_target(a, d, m) == Some(b)
                                && #[trigger] ray_target(a, d, k) == Some(t);
                        assert(on_ray(a, b, d));
                    }
                }
            }
            r
        },
        Some(d) => {
            let ghost m = choose|m: int| m >= 1 && #[trigger] ray_target(a, d, m) == Some(b);
            let mut result = Bitboard::none();
            let mut cur = sq1;
            let ghost mut k: int = 0;
            let mut first = true;
            proof {
                lemma_coords(a);
            }
            while cur != sq2
                invariant
                    first == (k == 0),
                    0 <= k <= m,
                    m >= 1,
                    ray_target(a, d, m) == Some(b),
                    sq2@ == b,
                    0 <= a < 64,
                    k == 0 ==> cur@ == a,
                    k > 0 ==> ray_target(a, d, k) == Some(cur@),
                    (cur@ == b) == (k == m),
                    forall|t: int| #[trigger]
                        result.contains(t) <==> exists|j: int|
                            1 <= j < k && #[trigger] ray_target(a, d, j) == Some(t),
                decreases m - k,
            {
                proof {
                    lemma_ray_step(a, d, k, cur@);
                    if ray_target(a, d, k + 1) is None {
                        lemma_ray_off(a, d, k + 1, m);
                    }
                }
                let next = step(cur, d);
                let nxt = match next {
                    Some(q) => q,
                    None => sq2,
                };
                if !first {
                    result = result.bit_or(Bitboard::from_square(cur));
                }
                first = false;
                let ghost prev = cur@;
                cur = nxt;
                proof {
                    let ghost k0 = k;
                    k = k + 1;
                    if ray_target(a, d, k) == Some(b) {
                        lemma_ray_unique(a, b, d, k, d, m);
                    }
                    if k == m {
                        assert(cur@ == b);
                    }
                    assert forall|t: int| #[trigger]
                        result.contains(t) <==> exists|j: int|
                            1 <= j < k && #[trigger] ray_target(a, d, j) == Some(t) by {
                        if k0 > 0 && t == prev {
                            assert(ray_target(a, d, k0) == Some(t));
                        }
                    }
                }
            }
            proof {
                assert forall|t: int| #[trigger] result.contains(t) <==> strictly_between(a, b, t) by {
                    if strictly_between(a, b, t) {
                        let (d2, k2, m2) = choose|d2: Direction, k2: int, m2: int|
                            1 <= k2 < m2 && #[trigger] ray_target(a, d2, m2) == Some(b)
                                && #[trigger] ray_target(a, d2, k2) == Some(t);
                        lemma_ray_unique(a, b, d, m, d2, m2);
                        assert(ray_target(a, d, k2) == Some(t));
                    }
                    if result.contains(t) {
                        let j = choose|j: int| 1 <= j < k && #[trigger] ray_target(a, d, j) == Some(t);
                        assert(ray_target(a, d, m) == Some(b));
                    }
                }
            }
            result
        },
    }
}

/// Every square on the line through `sq1` and `sq2` when they share a rank, file or
/// diagonal; otherwise no square.
pub fn line_through(sq1: Square, sq2: Square) -> (r: Bitboard)
    ensures
        forall|t: int| #[trigger] r.contains(t) <==> on_line_through(sq1@, sq2@, t),
{
    let ghost a = sq1@;
    let ghost b = sq2@;
    match direction_to(sq1, sq2) {
        None => {
            let r = Bitboard::none();
            proof {
                assert forall|t: int| #[trigger] r.contains(t) <==> on_line_through(a, b, t) by {
                    if on_line_through(a, b, t) {
                        let d = choose|d: Direction| #[trigger] on_ray(a, b, d) && (t == a || on_ray(a, t, d) || on_ray(a, t, opposite(d)));
                        assert(on_ray(a, b, d));
                    }
                }
            }
            r
        },
        Some(d) => {
            let back = match d {
                Direction::North => Direction::South,
                Direction::South => Direction::North,
                Direction::East => Direction::West,
                Direction::West => Direction::East,
                Direction::NorthEast => Direction::SouthWest,
                Direction::NorthWest => Direction::SouthEast,
                Direction::SouthEast => Direction::NorthWest,
                Direction::SouthWest => Direction::NorthEast,
            };
            let r = ray_bb(sq1, d).bit_or(ray_bb(sq1, back)).bit_or(Bitboard::from_square(sq1));
            proof {
                assert forall|t: int| #[trigger] r.contains(t) <==> on_line_through(a, b, t) by {
                    if on_line_through(a, b, t) {
                        let d2 = choose|d2: Direction| #[trigger] on_ray(a, b, d2) && (t == a || on_ray(a, t, d2) || on_ray(a, t, opposite(d2)));
                        let k1 = choose|k1: int| k1 >= 1 && #[trigger] ray_target(a, d, k1) == Some(b);
                        let k2 = choose|k2: int| k2 >= 1 && #[trigger] ray_target(a, d2, k2) == Some(b);
                        lemma_ray_unique(a, b, d, k1, d2, k2);
                    }
                    if r.contains(t) {
                        assert(on_ray(a, b, d));
                    }
                }
            }
            r
        },
    }
}

/// The diagonal parallel to a1-h8 whose squares have `file - rank == i - 7`.
pub fn diag_mask(i: u8) -> (r: Bitboard)
    requires
        i <= 14,
    ensures
        forall|t: int| #[trigger] r.contains(t) <==> 0 <= t < 64 && file_of(t) - rank_of(t) == i - 7,
{
    let diag: u64 = 0x8040_2010_0804_0201u64;
    let r = if i > 7 {
        Bitboard::from_raw(diag >> (8 * (i - 7)) as u64)
    } else {
        Bitboard::from_raw(diag << (8 * (7 - i)) as u64)
    };
    proof {
        assert forall|t: int| #[trigger] bit(diag, t) <==> 0 <= t < 64 && t % 9 == 0 by {
            if 0 <= t < 64 {
                let u = t as u64;
                assert(u < 64 ==> (((0x8040_2010_0804_0201u64 >> u) & 1u64 == 1u64) == (u % 9
                    == 0))) by (bit_vector);
            }
        }
        assert forall|t: int| #[trigger] r.contains(t) <==> 0 <= t < 64 && file_of(t) - rank_of(t) == i - 7 by {
            if i > 7 {
                crate::types::bitboard::lemma_bit_shr(diag, (8 * (i - 7)) as u64, t);
            } else {
                crate::types::bitboard::lemma_bit_shl(diag, (8 * (7 - i)) as u64, t);
            }
            if 0 <= t < 64 {
                lemma_coords(t);
            }
        }
    }
    r
}

} // verus!
