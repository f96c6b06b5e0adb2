use vstd::prelude::*;

use super::attacks::{
    self, bishop_reach, east_capture_set, king_step, knight_step, pawn_capture_step, push_set,
    rook_reach, strictly_between, west_capture_set,
};
use super::board::Board;
use super::chess_move::Move;
use super::move_order::{
    ascending, bb_squares, extends, fields, lemma_bb_squares, lemma_bb_squares_empty,
    lemma_bb_squares_pop, lemma_extends_push, lemma_extends_refl, lemma_extends_trans,
    lemma_normal_fields_cons, normal_fields,
};
use crate::types::square::{file_of, rank_of};
use crate::types::{Bitboard, Color, Piece, PieceType, Square};

verus! {

/// Whether move `m` goes from `from` to `to` with kind index `kind` and promotion index `promo`.
pub open spec fn move_is(m: Move, from: int, to: int, kind: int, promo: int) -> bool {
    &&& m.from_spec() == from
    &&& m.to_spec() == to
    &&& m.kind_spec() == kind
    &&& m.promo_spec() == promo
}

/// Whether a piece of the side to move and of kind `pt` stands on `s`.
pub open spec fn own_piece(b: Board, pt: PieceType, s: int) -> bool {
    b.has_color(b.stm_spec(), s) && b.has_type(pt, s)
}

/// The squares a knight, bishop, rook or queen on `from` attacks over the occupied set `occ`.
pub open spec fn piece_reach(pt: PieceType, from: int, to: int, occ: Bitboard) -> bool {
    match pt {
        PieceType::Knight => knight_step(from, to),
        PieceType::Bishop => bishop_reach(from, to, occ),
        PieceType::Rook => rook_reach(from, to, occ),
        PieceType::Queen => rook_reach(from, to, occ) || bishop_reach(from, to, occ),
        _ => false,
    }
}

/// A move of a knight, bishop, rook or queen of the side to move (by `pt`) to a square that
/// holds no piece of its own side.
pub open spec fn piece_move(b: Board, pt: PieceType, m: Move) -> bool {
    &&& m.kind_spec() == 0
    &&& m.promo_spec() == 0
    &&& own_piece(b, pt, m.from_spec())
    &&& piece_reach(pt, m.from_spec(), m.to_spec(), b.occ_bb())
    &&& !b.has_color(b.stm_spec(), m.to_spec())
}

/// A step of the king of the side to move (its lowest king) to a square that holds no piece of
/// its own side.
pub open spec fn king_move(b: Board, m: Move) -> bool {
    &&& m.kind_spec() == 0
    &&& m.promo_spec() == 0
    &&& m.from_spec() == b.king_square(b.stm_spec())
    &&& king_step(m.from_spec(), m.to_spec())
    &&& !b.has_color(b.stm_spec(), m.to_spec())
}

/// No occupied square lies strictly between the king and its target, nor strictly between the
/// rook and its target.
pub open spec fn castle_path_clear(b: Board, king: int, king_to: int, rook: int, rook_to: int) -> bool {
    forall|s: int|
        #[trigger] b.occupied(s) ==> !strictly_between(king, king_to, s) && !strictly_between(
            rook,
            rook_to,
            s,
        )
}

/// A castling move of the side to move: its king goes to the g or c file of its back rank, with
/// a castling rook on that side and the paths of king and rook clear.
pub open spec fn castle_move(b: Board, m: Move) -> bool {
    let white = b.stm_spec() == Color::White;
    let pair = b.rooks_spec().rooks[b.stm_spec()@];
    let k = b.king_square(b.stm_spec());
    &&& m.kind_spec() == 2
    &&& m.promo_spec() == 0
    &&& m.from_spec() == k
    &&& {
        ||| (pair.king_side matches Some(r) && m.to_spec() == (if white {
            6int
        } else {
            62int
        }) && castle_path_clear(b, k, m.to_spec(), r@, if white {
            5int
        } else {
            61int
        }))
        ||| (pair.queen_side matches Some(r) && m.to_spec() == (if white {
            2int
        } else {
            58int
        }) && castle_path_clear(b, k, m.to_spec(), r@, if white {
            3int
        } else {
            59int
        }))
    }
}

/// The step of a pawn push of side `white`.
pub open spec fn pawn_dir(white: bool) -> int {
    if white {
        8
    } else {
        -8
    }
}

/// Whether `t` is on the last rank for the pawns of side `white`.
pub open spec fn promo_rank(white: bool, t: int) -> bool {
    if white {
        56 <= t < 64
    } else {
        0 <= t < 8
    }
}

/// The kind and promotion of a pawn move to `to`: a promotion to any of the four pieces on the
/// last rank, else a plain move.
pub open spec fn pawn_kind_ok(white: bool, to: int, kind: int, promo: int) -> bool {
    if promo_rank(white, to) {
        kind == 3 && 0 <= promo < 4
    } else {
        kind == 0 && promo == 0
    }
}

/// A pawn move of the side to move: a push to an empty square, a double push from the second
/// rank over an empty square, or a capture of a piece of the other side. En passant is not
/// generated.
pub open spec fn pawn_move(b: Board, m: Move) -> bool {
    let white = b.stm_spec() == Color::White;
    let d = pawn_dir(white);
    let f = m.from_spec();
    let t = m.to_spec();
    &&& own_piece(b, PieceType::Pawn, f)
    &&& pawn_kind_ok(white, t, m.kind_spec(), m.promo_spec())
    &&& {
        ||| (t == f + d && 0 <= t < 64 && !b.occupied(t))
        ||| (t == f + 2 * d && 0 <= t < 64 && rank_of(f + d) == (if white {
            2int
        } else {
            5int
        }) && !b.occupied(f + d) && !b.occupied(t))
        ||| (pawn_capture_step(white, f, t) && b.has_color(b.stm_spec().opp(), t))
    }
}

/// The moves the generator yields: pawn moves, moves of knights, bishops, rooks and queens,
/// king steps and castling moves of the side to move. Whether a move leaves the own king in
/// check is not tested.
pub open spec fn pseudo_legal(b: Board, m: Move) -> bool {
    ||| pawn_move(b, m)
    ||| piece_move(b, PieceType::Knight, m)
    ||| piece_move(b, PieceType::Bishop, m)
    ||| piece_move(b, PieceType::Rook, m)
    ||| piece_move(b, PieceType::Queen, m)
    ||| king_move(b, m)
    ||| castle_move(b, m)
}

/// The squares, in ascending order, that a knight, bishop, rook or queen (by `pt`) of the side
/// to move on `from` can go to.
pub open spec fn piece_targets(b: Board, pt: PieceType, from: int) -> Seq<int> {
    ascending(
        |t: int|
            piece_reach(pt, from, t, b.occ_bb()) && 0 <= t < 64 && !b.has_color(b.stm_spec(), t),
    )
}

/// The moves of the pieces of kind `pt` on the squares `froms`, square by square, each
/// square's moves by ascending target.
pub open spec fn piece_fields(b: Board, pt: PieceType, froms: Seq<int>) -> Seq<(int, int, int, int)>
    decreases froms.len(),
{
    if froms.len() == 0 {
        Seq::empty()
    } else {
        normal_fields(froms[0], piece_targets(b, pt, froms[0])) + piece_fields(
            b,
            pt,
            froms.drop_first(),
        )
    }
}

/// The moves of the knights, bishops, rooks or queens (by `pt`) of the side to move in the
/// order the generator yields them: by ascending origin, then by ascending target.
pub open spec fn piece_order(b: Board, pt: PieceType) -> Seq<(int, int, int, int)> {
    piece_fields(b, pt, ascending(|s: int| own_piece(b, pt, s)))
}

/// The moves of the piece on `t` come first, then those of the pieces on `rest`.
proof fn lemma_piece_fields_cons(b: Board, pt: PieceType, t: int, rest: Seq<int>)
    ensures
        piece_fields(b, pt, seq![t] + rest) == normal_fields(t, piece_targets(b, pt, t))
            + piece_fields(b, pt, rest),
{
    let s = seq![t] + rest;
    assert(s[0] == t);
    assert(s.drop_first() =~= rest);
}

/// Appends a plain move from `from` to each square of `targets`.
fn push_normal_moves(from: Square, targets: Bitboard, moves: &mut Vec<Move>)
    ensures
        forall|m: Move| #[trigger]
            final(moves)@.contains(m) <==> old(moves)@.contains(m) || (m.from_spec() == from@
                && m.kind_spec() == 0 && m.promo_spec() == 0 && targets.contains(m.to_spec())),
        (old(moves)@.no_duplicates() && forall|m: Move| #[trigger] old(moves)@.contains(m) ==> !(m.from_spec()
            == from@ && m.kind_spec() == 0 && m.promo_spec() == 0 && targets.contains(m.to_spec())))
            ==> final(moves)@.no_duplicates(),
        extends(final(moves)@, old(moves)@, normal_fields(from@, bb_squares(targets))),
{
    let ghost start = moves@;
    let ghost mut done: Seq<(int, int, int, int)> = Seq::empty();
    let ghost clean = start.no_duplicates() && forall|m: Move| #[trigger] start.contains(m) ==> !(m.from_spec()
        == from@ && m.kind_spec() == 0 && m.promo_spec() == 0 && targets.contains(m.to_spec()));
    proof {
        lemma_extends_refl(start);
        assert(done + normal_fields(from@, bb_squares(targets)) =~= normal_fields(from@, bb_squares(targets)));
    }
    let mut bb = targets;
    while bb.any()
        invariant
            clean == (start.no_duplicates() && forall|m: Move| #[trigger] start.contains(m) ==> !(m.from_spec()
                == from@ && m.kind_spec() == 0 && m.promo_spec() == 0 && targets.contains(m.to_spec()))),
            clean ==> moves@.no_duplicates(),
            forall|i: int| #[trigger] bb.contains(i) ==> targets.contains(i),
            forall|m: Move| #[trigger]
                moves@.contains(m) <==> start.contains(m) || (m.from_spec() == from@ && m.kind_spec()
                    == 0 && m.promo_spec() == 0 && targets.contains(m.to_spec()) && !bb.contains(
                    m.to_spec(),
                )),
            extends(moves@, start, done),
            done + normal_fields(from@, bb_squares(bb)) == normal_fields(from@, bb_squares(targets)),
        decreases bb@,
    {
        let ghost prev = moves@;
        let ghost bb0 = bb;
        let t = bb.poplsb();
        let m = Move::normal(from, t);
        proof {
            lemma_bb_squares_pop(bb0, bb, t@);
            lemma_normal_fields_cons(from@, t@, bb_squares(bb));
            lemma_extends_push(prev, m);
            lemma_extends_trans(prev, prev.push(m), start, done, seq![fields(m)]);
            assert(done + seq![fields(m)] + normal_fields(from@, bb_squares(bb)) =~= done + (seq![(from@, t@, 0int, 0int)] + normal_fields(from@, bb_squares(bb))));
            done = done + seq![fields(m)];
        }
        proof {
            if clean && prev.contains(m) {
                assert(targets.contains(t@));
                assert(bb0.contains(t@));
            }
        }
        moves.push(m);
        proof {
            if clean {
                assert forall|i: int, j: int| 0 <= i < j < moves@.len() implies moves@[i] != moves@[j] by {
                    if j == moves@.len() - 1 {
                        assert(prev.contains(moves@[i]) || i == j);
                    } else {
                        assert(prev[i] == moves@[i] && prev[j] == moves@[j]);
                    }
                }
            }
            assert forall|x: Move| #[trigger]
                moves@.contains(x) <==> start.contains(x) || (x.from_spec() == from@ && x.kind_spec()
                    == 0 && x.promo_spec() == 0 && targets.contains(x.to_spec()) && !bb.contains(
                    x.to_spec(),
                )) by {
                if moves@.contains(x) {
                    let i = choose|i: int| 0 <= i < moves@.len() && moves@[i] == x;
                    if i < prev.len() {
                        assert(prev.contains(x));
                    }
                }
                if x.from_spec() == from@ && x.kind_spec() == 0 && x.promo_spec() == 0 && targets.contains(
                    x.to_spec(),
                ) && !bb.contains(x.to_spec()) {
                    if x.to_spec() == t@ {
                        Move::lemma_eq(x, m);
                        assert(moves@[moves@.len() - 1] == m);
                    } else {
                        assert(!bb0.contains(x.to_spec()));
                        if prev.contains(x) {
                            let i = choose|i: int| 0 <= i < prev.len() && prev[i] == x;
                            assert(moves@[i] == x);
                        }
                    }
                }
                if start.contains(x) {
                    if !prev.contains(x) {
                        assert(false);
                    }
                    let i = choose|i: int| 0 <= i < prev.len() && prev[i] == x;
                    assert(moves@[i] == x);
                }
            }
        }
    }
    proof {
        lemma_bb_squares_empty(bb);
        assert(done + normal_fields(from@, bb_squares(bb)) =~= done);
    }
}

/// Appends the moves of the knights, bishops, rooks or queens (by `pt`) of the side to move.
fn gen_piece_moves(board: &Board, pt: PieceType, moves: &mut Vec<Move>)
    requires
        pt == PieceType::Knight || pt == PieceType::Bishop || pt == PieceType::Rook || pt
            == PieceType::Queen,
    ensures
        forall|m: Move| #[trigger]
            final(moves)@.contains(m) <==> old(moves)@.contains(m) || piece_move(*board, pt, m),
        (old(moves)@.no_duplicates() && forall|m: Move| #[trigger] old(moves)@.contains(m) ==> !piece_move(
            *board,
            pt,
            m,
        )) ==> final(moves)@.no_duplicates(),
        extends(final(moves)@, old(moves)@, piece_order(*board, pt)),
{
    let ghost start = moves@;
    let ghost clean = start.no_duplicates() && forall|m: Move| #[trigger] start.contains(m) ==> !piece_move(*board, pt, m);
    let ghost mut done: Seq<(int, int, int, int)> = Seq::empty();
    let stm = board.stm();
    let mut pieces = board.colored_pieces(Piece::new(stm, pt));
    let occ = board.occ();
    let free = board.colors(stm).bit_not();
    proof {
        lemma_bb_squares(pieces, |s: int| own_piece(*board, pt, s));
        lemma_extends_refl(start);
        assert(done + piece_fields(*board, pt, bb_squares(pieces)) =~= piece_order(*board, pt));
    }
    while pieces.any()
        invariant
            clean == (start.no_duplicates() && forall|m: Move| #[trigger] start.contains(m) ==> !piece_move(*board, pt, m)),
            clean ==> moves@.no_duplicates(),
            pt == PieceType::Knight || pt == PieceType::Bishop || pt == PieceType::Rook || pt
                == PieceType::Queen,
            stm == board.stm_spec(),
            occ == board.occ_bb(),
            forall|i: int| #[trigger] free.contains(i) == (0 <= i < 64 && !board.has_color(stm, i)),
            forall|i: int| #[trigger] pieces.contains(i) ==> own_piece(*board, pt, i),
            forall|m: Move| #[trigger]
                moves@.contains(m) <==> start.contains(m) || (piece_move(*board, pt, m)
                    && !pieces.contains(m.from_spec())),
            extends(moves@, start, done),
            done + piece_fields(*board, pt, bb_squares(pieces)) == piece_order(*board, pt),
        decreases pieces@,
    {
        let ghost prev = moves@;
        let ghost p0 = pieces;
        let sq = pieces.poplsb();
        let reach = attacks::piece_attacks(pt, sq, occ);
        let targets = reach.bit_and(free);
        proof {
            if clean {
                assert forall|m: Move| #[trigger] moves@.contains(m) implies !(m.from_spec() == sq@ && m.kind_spec()
                    == 0 && m.promo_spec() == 0 && targets.contains(m.to_spec())) by {
                    if m.from_spec() == sq@ && m.kind_spec() == 0 && m.promo_spec() == 0 && targets.contains(m.to_spec()) {
                        assert(p0.contains(sq@));
                        assert(own_piece(*board, pt, sq@));
                        assert(reach.contains(m.to_spec()));
                        assert(piece_move(*board, pt, m));
                    }
                }
            }
        }
        push_normal_moves(sq, targets, moves);
        proof {
            assert forall|m: Move| #[trigger]
                moves@.contains(m) <==> start.contains(m) || (piece_move(*board, pt, m)
                    && !pieces.contains(m.from_spec())) by {
                if piece_move(*board, pt, m) && m.from_spec() == sq@ {
                    assert(reach.contains(m.to_spec()));
                }
            }
            let step = normal_fields(sq@, bb_squares(targets));
            assert forall|t: int| 0 <= t < 64 implies #[trigger] targets.contains(t) == (piece_reach(
                pt,
                sq@,
                t,
                board.occ_bb(),
            ) && 0 <= t < 64 && !board.has_color(board.stm_spec(), t)) by {
                assert(reach.contains(t) == piece_reach(pt, sq@, t, occ));
            }
            lemma_bb_squares(
                targets,
                |t: int|
                    piece_reach(pt, sq@, t, board.occ_bb()) && 0 <= t < 64 && !board.has_color(
                        board.stm_spec(),
                        t,
                    ),
            );
            assert(bb_squares(targets) == piece_targets(*board, pt, sq@));
            lemma_bb_squares_pop(p0, pieces, sq@);
            lemma_piece_fields_cons(*board, pt, sq@, bb_squares(pieces));
            lemma_extends_trans(prev, moves@, start, done, step);
            assert(done + step + piece_fields(*board, pt, bb_squares(pieces)) =~= done + (step
                + piece_fields(*board, pt, bb_squares(pieces))));
            done = done + step;
        }
    }
    proof {
        lemma_bb_squares_empty(pieces);
        assert(done + piece_fields(*board, pt, bb_squares(pieces)) =~= done);
    }
}

/// Appends the moves of the knights of the side to move.
fn gen_knight_moves(board: &Board, moves: &mut Vec<Move>)
    ensures
        forall|m: Move| #[trigger]
            final(moves)@.contains(m) <==> old(moves)@.contains(m) || piece_move(*board, PieceType::Knight, m),
        (old(moves)@.no_duplicates() && forall|m: Move| #[trigger] old(moves)@.contains(m) ==> !piece_move(
            *board,
            PieceType::Knight,
            m,
        )) ==> final(moves)@.no_duplicates(),
        extends(final(moves)@, old(moves)@, piece_order(*board, PieceType::Knight)),
{
    gen_piece_moves(board, PieceType::Knight, moves);
}

/// Appends the moves of the bishops of the side to move.
fn gen_bishop_moves(board: &Board, moves: &mut Vec<Move>)
    ensures
        forall|m: Move| #[trigger]
            final(moves)@.contains(m) <==> old(moves)@.contains(m) || piece_move(*board, PieceType::Bishop, m),
        (old(moves)@.no_duplicates() && forall|m: Move| #[trigger] old(moves)@.contains(m) ==> !piece_move(
            *board,
            PieceType::Bishop,
            m,
        )) ==> final(moves)@.no_duplicates(),
        extends(final(moves)@, old(moves)@, piece_order(*board, PieceType::Bishop)),
{
    gen_piece_moves(board, PieceType::Bishop, moves);
}

/// Appends the moves of the rooks of the side to move.
fn gen_rook_moves(board: &Board, moves: &mut Vec<Move>)
    ensures
        forall|m: Move| #[trigger]
            final(moves)@.contains(m) <==> old(moves)@.contains(m) || piece_move(*board, PieceType::Rook, m),
        (old(moves)@.no_duplicates() && forall|m: Move| #[trigger] old(moves)@.contains(m) ==> !piece_move(
            *board,
            PieceType::Rook,
            m,
        )) ==> final(moves)@.no_duplicates(),
        extends(final(moves)@, old(moves)@, piece_order(*board, PieceType::Rook)),
{
    gen_piece_moves(board, PieceType::Rook, moves);
}

/// Appends the moves of the queens of the side to move.
fn gen_queen_moves(board: &Board, moves: &mut Vec<Move>)
    ensures
        forall|m: Move| #[trigger]
            final(moves)@.contains(m) <==> old(moves)@.contains(m) || piece_move(*board, PieceType::Queen, m),
        (old(moves)@.no_duplicates() && forall|m: Move| #[trigger] old(moves)@.contains(m) ==> !piece_move(
            *board,
            PieceType::Queen,
            m,
        )) ==> final(moves)@.no_duplicates(),
        extends(final(moves)@, old(moves)@, piece_order(*board, PieceType::Queen)),
{
    gen_piece_moves(board, PieceType::Queen, moves);
}

/// The castling move of the side to move on the king's side (by `king_side`) or the queen's
/// side, when it has a castling rook there and the paths of king and rook are clear; else
/// nothing.
pub open spec fn castle_fields(b: Board, king_side: bool) -> Seq<(int, int, int, int)> {
    let white = b.stm_spec() == Color::White;
    let pair = b.rooks_spec().rooks[b.stm_spec()@];
    let k = b.king_square(b.stm_spec());
    let rook = if king_side {
        pair.king_side
    } else {
        pair.queen_side
    };
    let to: int = if king_side {
        if white {
            6
        } else {
            62
        }
    } else if white {
        2
    } else {
        58
    };
    let rook_to: int = if king_side {
        if white {
            5
        } else {
            61
        }
    } else if white {
        3
    } else {
        59
    };
    match rook {
        Some(r) => if castle_path_clear(b, k, to, r@, rook_to) {
            seq![(k, to, 2int, 0int)]
        } else {
            Seq::empty()
        },
        None => Seq::empty(),
    }
}

/// The moves of the king of the side to move in the order the generator yields them: its
/// steps by ascending target, then castling on the king's side, then on the queen's side.
pub open spec fn king_order(b: Board) -> Seq<(int, int, int, int)> {
    let k = b.king_square(b.stm_spec());
    normal_fields(
        k,
        ascending(|t: int| king_step(k, t) && 0 <= t < 64 && !b.has_color(b.stm_spec(), t)),
    ) + castle_fields(b, true) + castle_fields(b, false)
}

/// Appends a castling move from `king` to `king_to` when no piece stands strictly between the
/// king and its target or strictly between `rook` and its target `rook_to`.
fn push_castle(board: &Board, king: Square, king_to: Square, rook: Square, rook_to: Square, moves: &mut Vec<Move>)
    ensures
        forall|m: Move| #[trigger]
            final(moves)@.contains(m) <==> old(moves)@.contains(m) || (move_is(m, king@, king_to@, 2, 0)
                && castle_path_clear(*board, king@, king_to@, rook@, rook_to@)),
        (old(moves)@.no_duplicates() && forall|m: Move| #[trigger] old(moves)@.contains(m) ==> !(move_is(
            m,
            king@,
            king_to@,
            2,
            0,
        ) && castle_path_clear(*board, king@, king_to@, rook@, rook_to@))) ==> final(moves)@.no_duplicates(),
        extends(
            final(moves)@,
            old(moves)@,
            if castle_path_clear(*board, king@, king_to@, rook@, rook_to@) {
                seq![(king@, king_to@, 2int, 0int)]
            } else {
                Seq::empty()
            },
        ),
{
    let path = attacks::line_between(king, king_to).bit_or(attacks::line_between(rook, rook_to));
    let blocked = board.occ().bit_and(path);
    let ghost prev = moves@;
    if blocked.empty() {
        let m = Move::castle(king, king_to);
        moves.push(m);
        proof {
            lemma_extends_push(prev, m);
            assert forall|q: int| #[trigger] board.occupied(q) implies !strictly_between(
                king@,
                king_to@,
                q,
            ) && !strictly_between(rook@, rook_to@, q) by {
                assert(!blocked.contains(q));
            }
            if prev.no_duplicates() && forall|x: Move| #[trigger] prev.contains(x) ==> !(move_is(x, king@, king_to@, 2, 0)
                && castle_path_clear(*board, king@, king_to@, rook@, rook_to@)) {
                assert(!prev.contains(m));
                assert forall|i: int, j: int| 0 <= i < j < moves@.len() implies moves@[i] != moves@[j] by {
                    if j == moves@.len() - 1 {
                        assert(prev.contains(moves@[i]));
                    } else {
                        assert(prev[i] == moves@[i] && prev[j] == moves@[j]);
                    }
                }
            }
            assert forall|s: int| #[trigger] board.occupied(s) implies !strictly_between(
                king@,
                king_to@,
                s,
            ) && !strictly_between(rook@, rook_to@, s) by {
                assert(!blocked.contains(s));
            }
            assert forall|x: Move| #[trigger]
                moves@.contains(x) <==> prev.contains(x) || (move_is(x, king@, king_to@, 2, 0)
                    && castle_path_clear(*board, king@, king_to@, rook@, rook_to@)) by {
                if moves@.contains(x) {
                    let i = choose|i: int| 0 <= i < moves@.len() && moves@[i] == x;
                    if i < prev.len() {
                        assert(prev[i] == x);
                    }
                }
                if move_is(x, king@, king_to@, 2, 0) {
                    Move::lemma_eq(x, m);
                    assert(moves@[moves@.len() - 1] == m);
                }
                if prev.contains(x) {
                    let i = choose|i: int| 0 <= i < prev.len() && prev[i] == x;
                    assert(moves@[i] == x);
                }
            }
        }
    } else {
        proof {
            let s = choose|s: int| #[trigger] blocked.contains(s);
            assert(blocked.contains(s));
            assert(!castle_path_clear(*board, king@, king_to@, rook@, rook_to@));
            lemma_extends_refl(prev);
        }
    }
}

/// Appends the steps of the king of the side to move, then its castling moves.
fn gen_king_moves(board: &Board, moves: &mut Vec<Move>)
    requires
        board.has_king(board.stm_spec()),
    ensures
        forall|m: Move| #[trigger]
            final(moves)@.contains(m) <==> old(moves)@.contains(m) || king_move(*board, m) || castle_move(
                *board,
                m,
            ),
        (old(moves)@.no_duplicates() && forall|m: Move| #[trigger] old(moves)@.contains(m) ==> !king_move(*board, m)
            && !castle_move(*board, m)) ==> final(moves)@.no_duplicates(),
        extends(final(moves)@, old(moves)@, king_order(*board)),
{
    let ghost start = moves@;
    let ghost clean = start.no_duplicates() && forall|m: Move| #[trigger] start.contains(m) ==> !king_move(*board, m)
        && !castle_move(*board, m);
    let stm = board.stm();
    let sq = board.king_sq(stm);
    let targets = attacks::king_attacks(sq).bit_and(board.colors(stm).bit_not());
    proof {
        if clean {
            assert forall|m: Move| #[trigger] start.contains(m) implies !(m.from_spec() == sq@ && m.kind_spec()
                == 0 && m.promo_spec() == 0 && targets.contains(m.to_spec())) by {
                if m.from_spec() == sq@ && m.kind_spec() == 0 && m.promo_spec() == 0 && targets.contains(m.to_spec()) {
                    assert(king_move(*board, m));
                }
            }
        }
    }
    push_normal_moves(sq, targets, moves);
    let ghost after_steps = moves@;
    proof {
        lemma_bb_squares(
            targets,
            |t: int| king_step(sq@, t) && 0 <= t < 64 && !board.has_color(board.stm_spec(), t),
        );
    }
    let rooks = board.castling_rooks();
    let pair = rooks.color(stm);
    let white = stm == Color::White;
    if pair.king_side.is_some() {
        let king_dst = if white {
            Square::G1
        } else {
            Square::G8
        };
        let rook_dst = if white {
            Square::F1
        } else {
            Square::F8
        };
        let rook_sq = pair.king_side.unwrap();
        proof {
            if clean {
                assert forall|m: Move| #[trigger] moves@.contains(m) implies !(move_is(m, sq@, king_dst@, 2, 0)
                    && castle_path_clear(*board, sq@, king_dst@, rook_sq@, rook_dst@)) by {
                    if move_is(m, sq@, king_dst@, 2, 0) && castle_path_clear(*board, sq@, king_dst@, rook_sq@, rook_dst@) {
                        assert(castle_move(*board, m));
                    }
                }
            }
        }
        push_castle(board, sq, king_dst, rook_sq, rook_dst, moves);
    }
    let ghost after_king_side = moves@;
    proof {
        if pair.king_side.is_none() {
            lemma_extends_refl(after_steps);
        }
        assert(extends(after_king_side, after_steps, castle_fields(*board, true)));
        lemma_extends_trans(after_steps, after_king_side, start, normal_fields(sq@, bb_squares(targets)), castle_fields(*board, true));
    }
    if pair.queen_side.is_some() {
        let king_dst = if white {
            Square::C1
        } else {
            Square::C8
        };
        let rook_dst = if white {
            Square::D1
        } else {
            Square::D8
        };
        let rook_sq = pair.queen_side.unwrap();
        proof {
            if clean {
                assert forall|m: Move| #[trigger] moves@.contains(m) implies !(move_is(m, sq@, king_dst@, 2, 0)
                    && castle_path_clear(*board, sq@, king_dst@, rook_sq@, rook_dst@)) by {
                    if move_is(m, sq@, king_dst@, 2, 0) && castle_path_clear(*board, sq@, king_dst@, rook_sq@, rook_dst@) {
                        assert(castle_move(*board, m));
                    }
                }
            }
        }
        push_castle(board, sq, king_dst, rook_sq, rook_dst, moves);
    }
    proof {
        if pair.queen_side.is_none() {
            lemma_extends_refl(after_king_side);
        }
        assert(extends(moves@, after_king_side, castle_fields(*board, false)));
        lemma_extends_trans(after_king_side, moves@, start, normal_fields(sq@, bb_squares(targets)) + castle_fields(*board, true), castle_fields(*board, false));
        assert forall|m: Move| #[trigger]
            moves@.contains(m) <==> start.contains(m) || king_move(*board, m) || castle_move(*board, m) by {
            if king_move(*board, m) {
                assert(targets.contains(m.to_spec()));
            }
        }
    }
}

/// The kind and promotion of a pawn move: one of the four promotions when `promote`, else a
/// plain move.
pub open spec fn pawn_push_kind(promote: bool, m: Move) -> bool {
    if promote {
        m.kind_spec() == 3 && 0 <= m.promo_spec() < 4
    } else {
        m.kind_spec() == 0 && m.promo_spec() == 0
    }
}

/// Pushing a move that is not yet in a list without repeats gives a list without repeats.
proof fn lemma_push_no_dup(s: Seq<Move>, x: Move)
    requires
        s.no_duplicates(),
        !s.contains(x),
    ensures
        s.push(x).no_duplicates(),
{
    let t = s.push(x);
    assert forall|i: int, j: int| 0 <= i < j < t.len() implies t[i] != t[j] by {
        if j == t.len() - 1 {
            assert(t[i] == s[i]);
            assert(s.contains(s[i]));
        } else {
            assert(t[i] == s[i] && t[j] == s[j]);
        }
    }
}

/// The pawn moves from `from` to `to`: the promotions to knight, bishop, rook and queen, in
/// this order, when `promote`, else a plain move.
pub open spec fn promo_fields(from: int, to: int, promote: bool) -> Seq<(int, int, int, int)> {
    if promote {
        seq![(from, to, 3int, 0int), (from, to, 3int, 1int), (from, to, 3int, 2int), (from, to, 3int, 3int)]
    } else {
        seq![(from, to, 0int, 0int)]
    }
}

/// The pawn moves to the squares `ts` in turn, each from `delta` squares away.
pub open spec fn pawn_fields(ts: Seq<int>, delta: int, promote: bool) -> Seq<(int, int, int, int)>
    decreases ts.len(),
{
    if ts.len() == 0 {
        Seq::empty()
    } else {
        promo_fields(ts[0] + delta, ts[0], promote) + pawn_fields(ts.drop_first(), delta, promote)
    }
}

/// The pawn moves to `t` come first, then those to the squares of `rest`.
proof fn lemma_pawn_fields_cons(t: int, rest: Seq<int>, delta: int, promote: bool)
    ensures
        pawn_fields(seq![t] + rest, delta, promote) == promo_fields(t + delta, t, promote)
            + pawn_fields(rest, delta, promote),
{
    let s = seq![t] + rest;
    assert(s[0] == t);
    assert(s.drop_first() =~= rest);
}

/// Appends for each square `t` of `targets` the pawn moves from `t + delta` to `t`: the
/// promotions to knight, bishop, rook and queen when `promote`, else a plain move.
fn push_pawn_moves(targets: Bitboard, delta: i32, promote: bool, moves: &mut Vec<Move>)
    requires
        forall|t: int| #[trigger] targets.contains(t) ==> 0 <= t + delta < 64,
    ensures
        forall|m: Move| #[trigger]
            final(moves)@.contains(m) <==> old(moves)@.contains(m) || (targets.contains(m.to_spec())
                && m.from_spec() == m.to_spec() + delta && pawn_push_kind(promote, m)),
        (old(moves)@.no_duplicates() && forall|m: Move| #[trigger] old(moves)@.contains(m) ==> !(targets.contains(
            m.to_spec(),
        ) && m.from_spec() == m.to_spec() + delta && pawn_push_kind(promote, m))) ==> final(moves)@.no_duplicates(),
        extends(final(moves)@, old(moves)@, pawn_fields(bb_squares(targets), delta as int, promote)),
{
    let ghost start = moves@;
    let ghost mut done: Seq<(int, int, int, int)> = Seq::empty();
    proof {
        lemma_extends_refl(start);
        assert(done + pawn_fields(bb_squares(targets), delta as int, promote) =~= pawn_fields(bb_squares(targets), delta as int, promote));
    }
    let ghost clean = start.no_duplicates() && forall|m: Move| #[trigger] start.contains(m) ==> !(targets.contains(
        m.to_spec(),
    ) && m.from_spec() == m.to_spec() + delta && pawn_push_kind(promote, m));
    let mut bb = targets;
    while bb.any()
        invariant
            clean == (start.no_duplicates() && forall|m: Move| #[trigger] start.contains(m) ==> !(targets.contains(
                m.to_spec(),
            ) && m.from_spec() == m.to_spec() + delta && pawn_push_kind(promote, m))),
            clean ==> moves@.no_duplicates(),
            forall|i: int| #[trigger] bb.contains(i) ==> targets.contains(i),
            forall|t: int| #[trigger] targets.contains(t) ==> 0 <= t + delta < 64,
            forall|m: Move| #[trigger]
                moves@.contains(m) <==> start.contains(m) || (targets.contains(m.to_spec())
                    && !bb.contains(m.to_spec()) && m.from_spec() == m.to_spec() + delta
                    && pawn_push_kind(promote, m)),
            extends(moves@, start, done),
            done + pawn_fields(bb_squares(bb), delta as int, promote) == pawn_fields(
                bb_squares(targets),
                delta as int,
                promote,
            ),
        decreases bb@,
    {
        let ghost prev = moves@;
        let ghost bb0 = bb;
        let t = bb.poplsb();
        assert(targets.contains(t@));
        let from = t.offset(delta);
        proof {
            lemma_bb_squares_pop(bb0, bb, t@);
            lemma_pawn_fields_cons(t@, bb_squares(bb), delta as int, promote);
        }
        if promote {
            let m1 = Move::promo(from, t, PieceType::Knight);
            let m2 = Move::promo(from, t, PieceType::Bishop);
            let m3 = Move::promo(from, t, PieceType::Rook);
            let m4 = Move::promo(from, t, PieceType::Queen);
            moves.push(m1);
            moves.push(m2);
            moves.push(m3);
            moves.push(m4);
            proof {
                if clean {
                    let p1 = prev.push(m1);
                    let p2 = p1.push(m2);
                    let p3 = p2.push(m3);
                    assert(!prev.contains(m1) && !prev.contains(m2) && !prev.contains(m3) && !prev.contains(m4)) by {
                        assert(bb0.contains(t@));
                    }
                    lemma_push_no_dup(prev, m1);
                    vstd::seq_lib::lemma_seq_contains_after_push(prev, m1, m2);
                    lemma_push_no_dup(p1, m2);
                    vstd::seq_lib::lemma_seq_contains_after_push(p1, m2, m3);
                    vstd::seq_lib::lemma_seq_contains_after_push(prev, m1, m3);
                    lemma_push_no_dup(p2, m3);
                    vstd::seq_lib::lemma_seq_contains_after_push(p2, m3, m4);
                    vstd::seq_lib::lemma_seq_contains_after_push(p1, m2, m4);
                    vstd::seq_lib::lemma_seq_contains_after_push(prev, m1, m4);
                    lemma_push_no_dup(p3, m4);
                }
                assert(moves@ == prev.push(m1).push(m2).push(m3).push(m4));
                let ghost p1 = prev.push(m1);
                let ghost p2 = p1.push(m2);
                let ghost p3 = p2.push(m3);
                let step = promo_fields(from@, t@, true);
                lemma_extends_push(prev, m1);
                lemma_extends_push(p1, m2);
                lemma_extends_push(p2, m3);
                lemma_extends_push(p3, m4);
                lemma_extends_trans(prev, p1, start, done, seq![fields(m1)]);
                lemma_extends_trans(p1, p2, start, done + seq![fields(m1)], seq![fields(m2)]);
                lemma_extends_trans(p2, p3, start, done + seq![fields(m1)] + seq![fields(m2)], seq![fields(m3)]);
                lemma_extends_trans(p3, moves@, start, done + seq![fields(m1)] + seq![fields(m2)] + seq![fields(m3)], seq![fields(m4)]);
                assert(done + seq![fields(m1)] + seq![fields(m2)] + seq![fields(m3)] + seq![fields(m4)] =~= done + step);
                assert(done + step + pawn_fields(bb_squares(bb), delta as int, promote) =~= done + (step
                    + pawn_fields(bb_squares(bb), delta as int, promote)));
                done = done + step;
                assert forall|x: Move| #[trigger]
                    moves@.contains(x) <==> start.contains(x) || (targets.contains(x.to_spec())
                        && !bb.contains(x.to_spec()) && x.from_spec() == x.to_spec() + delta
                        && pawn_push_kind(promote, x)) by {
                    assert(prev.contains(x) <==> start.contains(x) || (targets.contains(x.to_spec())
                        && !bb0.contains(x.to_spec()) && x.from_spec() == x.to_spec() + delta
                        && pawn_push_kind(promote, x)));
                    assert(bb.contains(x.to_spec()) <==> bb0.contains(x.to_spec()) && x.to_spec() != t@);
                    vstd::seq_lib::lemma_seq_contains_after_push(prev, m1, x);
                    vstd::seq_lib::lemma_seq_contains_after_push(p1, m2, x);
                    vstd::seq_lib::lemma_seq_contains_after_push(p2, m3, x);
                    vstd::seq_lib::lemma_seq_contains_after_push(p3, m4, x);
                    if x == m1 || x == m2 || x == m3 || x == m4 {
                        assert(pawn_push_kind(promote, x));
                    }
                    if x.to_spec() == t@ && x.from_spec() == from@ && x.kind_spec() == 3 {
                        if x.promo_spec() == 0 {
                            Move::lemma_eq(x, m1);
                        } else if x.promo_spec() == 1 {
                            Move::lemma_eq(x, m2);
                        } else if x.promo_spec() == 2 {
                            Move::lemma_eq(x, m3);
                        } else if x.promo_spec() == 3 {
                            Move::lemma_eq(x, m4);
                        }
                    }
                }
            }
        } else {
            let m = Move::normal(from, t);
            moves.push(m);
            proof {
                if clean {
                    assert(!prev.contains(m)) by {
                        assert(bb0.contains(t@));
                    }
                    lemma_push_no_dup(prev, m);
                }
                let step = promo_fields(from@, t@, false);
                lemma_extends_push(prev, m);
                lemma_extends_trans(prev, moves@, start, done, seq![fields(m)]);
                assert(seq![fields(m)] =~= step);
                assert(done + step + pawn_fields(bb_squares(bb), delta as int, promote) =~= done + (step
                    + pawn_fields(bb_squares(bb), delta as int, promote)));
                done = done + step;
                assert forall|x: Move| #[trigger]
                    moves@.contains(x) <==> start.contains(x) || (targets.contains(x.to_spec())
                        && !bb.contains(x.to_spec()) && x.from_spec() == x.to_spec() + delta
                        && pawn_push_kind(promote, x)) by {
                    assert(moves@ == prev.push(m));
                    assert(prev.contains(x) <==> start.contains(x) || (targets.contains(x.to_spec())
                        && !bb0.contains(x.to_spec()) && x.from_spec() == x.to_spec() + delta
                        && pawn_push_kind(promote, x)));
                    assert(bb.contains(x.to_spec()) <==> bb0.contains(x.to_spec()) && x.to_spec() != t@);
                    if x.to_spec() == t@ && x.from_spec() == from@ && x.kind_spec() == 0 && x.promo_spec() == 0 {
                        Move::lemma_eq(x, m);
                    }
                    vstd::seq_lib::lemma_seq_contains_after_push(prev, m, x);
                    if x == m {
                        assert(pawn_push_kind(promote, x));
                        assert(targets.contains(x.to_spec()));
                        assert(!bb.contains(x.to_spec()));
                        assert(x.from_spec() == x.to_spec() + delta);
                    }
                }
            }
        }
    }
    proof {
        lemma_bb_squares_empty(bb);
        assert(done + pawn_fields(bb_squares(bb), delta as int, promote) =~= done);
    }
}

/// The pawns of the side to move.
pub open spec fn own_pawns(b: Board) -> Bitboard {
    b.colored_bb(b.stm_spec(), PieceType::Pawn)
}

/// An empty square that a pawn of the side to move reaches by one step forward.
pub open spec fn push_target(b: Board, t: int) -> bool {
    push_set(b.stm_spec() == Color::White, own_pawns(b), t) && !b.occupied(t)
}

/// An empty square that a pawn of the side to move reaches by two steps forward from its
/// second rank, over an empty square.
pub open spec fn double_push_target(b: Board, t: int) -> bool {
    let white = b.stm_spec() == Color::White;
    let s = t - pawn_dir(white);
    &&& 0 <= t < 64
    &&& push_target(b, s)
    &&& !promo_rank(white, s)
    &&& rank_of(s) == (if white {
        2int
    } else {
        5int
    })
    &&& !b.occupied(t)
}

/// A square of the other side that a pawn of the side to move captures towards the a-file.
pub open spec fn west_target(b: Board, t: int) -> bool {
    west_capture_set(b.stm_spec() == Color::White, own_pawns(b), t) && b.has_color(
        b.stm_spec().opp(),
        t,
    )
}

/// A square of the other side that a pawn of the side to move captures towards the h-file.
pub open spec fn east_target(b: Board, t: int) -> bool {
    east_capture_set(b.stm_spec() == Color::White, own_pawns(b), t) && b.has_color(
        b.stm_spec().opp(),
        t,
    )
}

/// The pawn moves of the side to move in the order the generator yields them, each group by
/// ascending target: pushes to the last rank (each as its four promotions), other pushes,
/// double pushes, captures towards the a-file off and onto the last rank, then captures
/// towards the h-file off and onto the last rank.
pub open spec fn pawn_order(b: Board) -> Seq<(int, int, int, int)> {
    let white = b.stm_spec() == Color::White;
    let d = pawn_dir(white);
    pawn_fields(ascending(|t: int| push_target(b, t) && promo_rank(white, t)), -d, true)
        + pawn_fields(ascending(|t: int| push_target(b, t) && !promo_rank(white, t)), -d, false)
        + pawn_fields(ascending(|t: int| double_push_target(b, t)), -2 * d, false) + pawn_fields(
        ascending(|t: int| west_target(b, t) && !promo_rank(white, t)),
        1 - d,
        false,
    ) + pawn_fields(ascending(|t: int| west_target(b, t) && promo_rank(white, t)), 1 - d, true)
        + pawn_fields(ascending(|t: int| east_target(b, t) && !promo_rank(white, t)), -1 - d, false)
        + pawn_fields(ascending(|t: int| east_target(b, t) && promo_rank(white, t)), -1 - d, true)
}

/// Appends the pawn moves of the side to move: pushes, double pushes and captures, with the
/// four promotions for each move to the last rank.
#[verifier::rlimit(80)]
fn gen_pawn_moves(board: &Board, moves: &mut Vec<Move>)
    ensures
        forall|m: Move| #[trigger]
            final(moves)@.contains(m) <==> old(moves)@.contains(m) || pawn_move(*board, m),
        old(moves)@.len() == 0 ==> final(moves)@.no_duplicates(),
        extends(final(moves)@, old(moves)@, pawn_order(*board)),
{
    let ghost start = moves@;
    let stm = board.stm();
    let white = stm == Color::White;
    let eighth_rank = if white {
        Bitboard::rank(7)
    } else {
        Bitboard::rank(0)
    };
    let third_rank = if white {
        Bitboard::rank(2)
    } else {
        Bitboard::rank(5)
    };
    let push_offset: i32 = if white {
        8
    } else {
        -8
    };
    let pawns = board.colored_pieces(Piece::new(stm, PieceType::Pawn));
    let empty = board.occ().bit_not();
    let pushes = attacks::pawn_pushes_bb(stm, pawns).bit_and(empty);
    let promo_pushes = pushes.bit_and(eighth_rank);
    let non_promo_pushes = pushes.bit_xor(promo_pushes);
    proof {
        if start.len() == 0 {
            assert forall|m: Move| #[trigger] moves@.contains(m) implies !(promo_pushes.contains(m.to_spec()) && m.from_spec()
                == m.to_spec() + (-push_offset) && pawn_push_kind(true, m)) by {
                if start.contains(m) {
                    assert(false);
                }
            }
        }
    }
    push_pawn_moves(promo_pushes, -push_offset, true, moves);
    let ghost s1 = moves@;
    let double_pushes = attacks::pawn_pushes_bb(stm, non_promo_pushes.bit_and(third_rank)).bit_and(
        empty,
    );
    proof {
        if start.len() == 0 {
            assert forall|m: Move| #[trigger] moves@.contains(m) implies !(non_promo_pushes.contains(m.to_spec()) && m.from_spec()
                == m.to_spec() + (-push_offset) && pawn_push_kind(false, m)) by {
                if start.contains(m) {
                    assert(false);
                }
            }
        }
    }
    push_pawn_moves(non_promo_pushes, -push_offset, false, moves);
    let ghost s2 = moves@;
    proof {
        if start.len() == 0 {
            assert forall|m: Move| #[trigger] moves@.contains(m) implies !(double_pushes.contains(m.to_spec()) && m.from_spec()
                == m.to_spec() + (-2 * push_offset) && pawn_push_kind(false, m)) by {
                if start.contains(m) {
                    assert(false);
                }
            }
        }
    }
    push_pawn_moves(double_pushes, -2 * push_offset, false, moves);
    let ghost s3 = moves@;
    let them = board.colors(stm.flip());
    let mut west_caps = them.bit_and(attacks::pawn_west_attacks_bb(stm, pawns));
    let promo_west_caps = west_caps.bit_and(eighth_rank);
    west_caps = west_caps.bit_xor(promo_west_caps);
    proof {
        if start.len() == 0 {
            assert forall|m: Move| #[trigger] moves@.contains(m) implies !(west_caps.contains(m.to_spec()) && m.from_spec()
                == m.to_spec() + (-push_offset + 1) && pawn_push_kind(false, m)) by {
                if start.contains(m) {
                    assert(false);
                }
            }
        }
    }
    push_pawn_moves(west_caps, -push_offset + 1, false, moves);
    let ghost s4 = moves@;
    proof {
        if start.len() == 0 {
            assert forall|m: Move| #[trigger] moves@.contains(m) implies !(promo_west_caps.contains(m.to_spec()) && m.from_spec()
                == m.to_spec() + (-push_offset + 1) && pawn_push_kind(true, m)) by {
                if start.contains(m) {
                    assert(false);
                }
            }
        }
    }
    push_pawn_moves(promo_west_caps, -push_offset + 1, true, moves);
    let ghost s5 = moves@;
    let mut east_caps = them.bit_and(attacks::pawn_east_attacks_bb(stm, pawns));
    let promo_east_caps = east_caps.bit_and(eighth_rank);
    east_caps = east_caps.bit_xor(promo_east_caps);
    proof {
        if start.len() == 0 {
            assert forall|m: Move| #[trigger] moves@.contains(m) implies !(east_caps.contains(m.to_spec()) && m.from_spec()
                == m.to_spec() + (-push_offset - 1) && pawn_push_kind(false, m)) by {
                if start.contains(m) {
                    assert(false);
                }
            }
        }
    }
    push_pawn_moves(east_caps, -push_offset - 1, false, moves);
    let ghost s6 = moves@;
    proof {
        if start.len() == 0 {
            assert forall|m: Move| #[trigger] moves@.contains(m) implies !(promo_east_caps.contains(m.to_spec()) && m.from_spec()
                == m.to_spec() + (-push_offset - 1) && pawn_push_kind(true, m)) by {
                if start.contains(m) {
                    assert(false);
                }
            }
        }
    }
    push_pawn_moves(promo_east_caps, -push_offset - 1, true, moves);
    proof {
        assert forall|m: Move| #[trigger]
            moves@.contains(m) <==> start.contains(m) || pawn_move(*board, m) by {
            let f = m.from_spec();
            let t = m.to_spec();
            m.lemma_fields();
            crate::chess::attacks::lemma_coords(f);
            crate::chess::attacks::lemma_coords(t);
            assert(s1.contains(m) <==> start.contains(m) || (promo_pushes.contains(t) && f == t - push_offset && pawn_push_kind(true, m)));
            assert(s2.contains(m) <==> s1.contains(m) || (non_promo_pushes.contains(t) && f == t - push_offset && pawn_push_kind(false, m)));
            assert(s3.contains(m) <==> s2.contains(m) || (double_pushes.contains(t) && f == t - 2 * push_offset && pawn_push_kind(false, m)));
            assert(s4.contains(m) <==> s3.contains(m) || (west_caps.contains(t) && f == t - push_offset + 1 && pawn_push_kind(false, m)));
            assert(s5.contains(m) <==> s4.contains(m) || (promo_west_caps.contains(t) && f == t - push_offset + 1 && pawn_push_kind(true, m)));
            assert(s6.contains(m) <==> s5.contains(m) || (east_caps.contains(t) && f == t - push_offset - 1 && pawn_push_kind(false, m)));
            assert(moves@.contains(m) <==> s6.contains(m) || (promo_east_caps.contains(t) && f == t - push_offset - 1 && pawn_push_kind(true, m)));
            assert(pawns.contains(f) <==> own_piece(*board, PieceType::Pawn, f));
            assert(them.contains(t) <==> board.has_color(board.stm_spec().opp(), t));
        }
    }
    proof {
        let b = *board;
        let d = pawn_dir(white);
        assert(push_offset as int == d);
        let seg1 = pawn_fields(bb_squares(promo_pushes), -d, true);
        let seg2 = pawn_fields(bb_squares(non_promo_pushes), -d, false);
        let seg3 = pawn_fields(bb_squares(double_pushes), -2 * d, false);
        let seg4 = pawn_fields(bb_squares(west_caps), 1 - d, false);
        let seg5 = pawn_fields(bb_squares(promo_west_caps), 1 - d, true);
        let seg6 = pawn_fields(bb_squares(east_caps), -1 - d, false);
        let seg7 = pawn_fields(bb_squares(promo_east_caps), -1 - d, true);
        lemma_extends_trans(s1, s2, start, seg1, seg2);
        lemma_extends_trans(s2, s3, start, seg1 + seg2, seg3);
        lemma_extends_trans(s3, s4, start, seg1 + seg2 + seg3, seg4);
        lemma_extends_trans(s4, s5, start, seg1 + seg2 + seg3 + seg4, seg5);
        lemma_extends_trans(s5, s6, start, seg1 + seg2 + seg3 + seg4 + seg5, seg6);
        lemma_extends_trans(s6, moves@, start, seg1 + seg2 + seg3 + seg4 + seg5 + seg6, seg7);
        assert(pawns == own_pawns(b));
        assert forall|t: int| 0 <= t < 64 implies #[trigger] eighth_rank.contains(t) == promo_rank(white, t) by {}
        assert forall|t: int| 0 <= t < 64 implies #[trigger] promo_pushes.contains(t) == (push_target(b, t) && promo_rank(white, t)) by {
            assert(eighth_rank.contains(t) == promo_rank(white, t));
        }
        lemma_bb_squares(promo_pushes, |t: int| push_target(b, t) && promo_rank(white, t));
        assert forall|t: int| 0 <= t < 64 implies #[trigger] non_promo_pushes.contains(t) == (push_target(b, t) && !promo_rank(white, t)) by {
            assert(eighth_rank.contains(t) == promo_rank(white, t));
        }
        lemma_bb_squares(non_promo_pushes, |t: int| push_target(b, t) && !promo_rank(white, t));
        assert forall|t: int| 0 <= t < 64 implies #[trigger] double_pushes.contains(t) == double_push_target(b, t) by {
            let s = t - d;
            if 0 <= s < 64 {
                assert(non_promo_pushes.contains(s) == (push_target(b, s) && !promo_rank(white, s))) by {
                    assert(eighth_rank.contains(s) == promo_rank(white, s));
                }
                assert(third_rank.contains(s) == (rank_of(s) == (if white { 2int } else { 5int })));
            }
        }
        lemma_bb_squares(double_pushes, |t: int| double_push_target(b, t));
        assert forall|t: int| 0 <= t < 64 implies #[trigger] west_caps.contains(t) == (west_target(b, t) && !promo_rank(white, t)) by {
            assert(eighth_rank.contains(t) == promo_rank(white, t));
        }
        lemma_bb_squares(west_caps, |t: int| west_target(b, t) && !promo_rank(white, t));
        assert forall|t: int| 0 <= t < 64 implies #[trigger] promo_west_caps.contains(t) == (west_target(b, t) && promo_rank(white, t)) by {
            assert(eighth_rank.contains(t) == promo_rank(white, t));
        }
        lemma_bb_squares(promo_west_caps, |t: int| west_target(b, t) && promo_rank(white, t));
        assert forall|t: int| 0 <= t < 64 implies #[trigger] east_caps.contains(t) == (east_target(b, t) && !promo_rank(white, t)) by {
            assert(eighth_rank.contains(t) == promo_rank(white, t));
        }
        lemma_bb_squares(east_caps, |t: int| east_target(b, t) && !promo_rank(white, t));
        assert forall|t: int| 0 <= t < 64 implies #[trigger] promo_east_caps.contains(t) == (east_target(b, t) && promo_rank(white, t)) by {
            assert(eighth_rank.contains(t) == promo_rank(white, t));
        }
        lemma_bb_squares(promo_east_caps, |t: int| east_target(b, t) && promo_rank(white, t));
        assert(seg1 + seg2 + seg3 + seg4 + seg5 + seg6 + seg7 == pawn_order(b));
    }
}

/// The moves the generator yields, in its order: the pawn moves, then the moves of the knights,
/// bishops, rooks and queens, then those of the king.
pub open spec fn move_order(b: Board) -> Seq<(int, int, int, int)> {
    pawn_order(b) + piece_order(b, PieceType::Knight) + piece_order(b, PieceType::Bishop)
        + piece_order(b, PieceType::Rook) + piece_order(b, PieceType::Queen) + king_order(b)
}

/// The pseudo-legal moves of the side to move, which must have a king: every move that
/// `pseudo_legal` admits, and no other, in the order `move_order` gives; on a consistent board
/// each comes once.
pub fn movegen(board: &Board) -> (r: Vec<Move>)
    requires
        board.has_king(board.stm_spec()),
    ensures
        forall|m: Move| #[trigger] r@.contains(m) <==> pseudo_legal(*board, m),
        board.wf() ==> r@.no_duplicates(),
        r@.len() == move_order(*board).len(),
        forall|k: int| 0 <= k < r@.len() ==> fields(#[trigger] r@[k]) == move_order(*board)[k],
{
    let mut result: Vec<Move> = Vec::new();
    let ghost empty = result@;
    gen_pawn_moves(board, &mut result);
    let ghost after_pawns = result@;
    proof {
        if board.wf() {
            assert forall|m: Move| #[trigger] result@.contains(m) implies !piece_move(*board, PieceType::Knight, m) by {
                assert(board.has_type(PieceType::Pawn, m.from_spec()));
            }
        }
    }
    gen_knight_moves(board, &mut result);
    proof {
        if board.wf() {
            assert forall|m: Move| #[trigger] result@.contains(m) implies !piece_move(*board, PieceType::Bishop, m) by {
                if after_pawns.contains(m) {
                    assert(board.has_type(PieceType::Pawn, m.from_spec()));
                } else {
                    assert(board.has_type(PieceType::Knight, m.from_spec()));
                }
            }
        }
    }
    let ghost after_knights = result@;
    gen_bishop_moves(board, &mut result);
    proof {
        if board.wf() {
            assert forall|m: Move| #[trigger] result@.contains(m) implies !piece_move(*board, PieceType::Rook, m) by {
                if after_pawns.contains(m) {
                    assert(board.has_type(PieceType::Pawn, m.from_spec()));
                } else if after_knights.contains(m) {
                    assert(board.has_type(PieceType::Knight, m.from_spec()));
                } else {
                    assert(board.has_type(PieceType::Bishop, m.from_spec()));
                }
            }
        }
    }
    let ghost after_bishops = result@;
    gen_rook_moves(board, &mut result);
    proof {
        if board.wf() {
            assert forall|m: Move| #[trigger] result@.contains(m) implies !piece_move(*board, PieceType::Queen, m) by {
                if after_pawns.contains(m) {
                    assert(board.has_type(PieceType::Pawn, m.from_spec()));
                } else if after_knights.contains(m) {
                    assert(board.has_type(PieceType::Knight, m.from_spec()));
                } else if after_bishops.contains(m) {
                    assert(board.has_type(PieceType::Bishop, m.from_spec()));
                } else {
                    assert(board.has_type(PieceType::Rook, m.from_spec()));
                }
            }
        }
    }
    let ghost after_rooks = result@;
    gen_queen_moves(board, &mut result);
    proof {
        if board.wf() {
            board.lemma_king_square_is_king(board.stm_spec());
            let k = board.king_square(board.stm_spec());
            assert forall|m: Move| #[trigger] result@.contains(m) implies !king_move(*board, m) && !castle_move(*board, m) by {
                if king_move(*board, m) {
                    assert(board.has_type(PieceType::King, m.from_spec()));
                    if after_pawns.contains(m) {
                        assert(board.has_type(PieceType::Pawn, m.from_spec()));
                    } else if after_knights.contains(m) {
                        assert(board.has_type(PieceType::Knight, m.from_spec()));
                    } else if after_bishops.contains(m) {
                        assert(board.has_type(PieceType::Bishop, m.from_spec()));
                    } else if after_rooks.contains(m) {
                        assert(board.has_type(PieceType::Rook, m.from_spec()));
                    } else {
                        assert(board.has_type(PieceType::Queen, m.from_spec()));
                    }
                }
            }
        }
    }
    let ghost after_queens = result@;
    gen_king_moves(board, &mut result);
    proof {
        let b = *board;
        lemma_extends_trans(after_pawns, after_knights, empty, pawn_order(b), piece_order(b, PieceType::Knight));
        lemma_extends_trans(after_knights, after_bishops, empty, pawn_order(b) + piece_order(b, PieceType::Knight), piece_order(b, PieceType::Bishop));
        lemma_extends_trans(after_bishops, after_rooks, empty, pawn_order(b) + piece_order(b, PieceType::Knight)
            + piece_order(b, PieceType::Bishop), piece_order(b, PieceType::Rook));
        lemma_extends_trans(after_rooks, after_queens, empty, pawn_order(b) + piece_order(b, PieceType::Knight)
            + piece_order(b, PieceType::Bishop) + piece_order(b, PieceType::Rook), piece_order(b, PieceType::Queen));
        lemma_extends_trans(after_queens, result@, empty, pawn_order(b) + piece_order(b, PieceType::Knight)
            + piece_order(b, PieceType::Bishop) + piece_order(b, PieceType::Rook) + piece_order(b, PieceType::Queen),
            king_order(b));
    }
    result
}

} // verus!
