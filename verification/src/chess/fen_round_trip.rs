use vstd::prelude::*;

use crate::text::{all_digits, digits_value, is_whitespace, parse_u8_spec, split_ws, words_prefix};
use super::castling_rooks::{right_bits_spec, CastlingRooks, RookPair};
use super::chess_move::utf8_width;
use super::fen::{
    castling_of, castling_ok, decimal_text, digit_char, ep_outcome, ep_square_of, piece_of_letter, place_scan,
    fen_color_at, fen_type_at, last_piece_file, placed_at, placement_outcome, row_text, row_text_upto, rows_text, stm_of,
};
use super::board::Board;
use crate::types::piece::piece_char;
use crate::types::Piece;
use crate::types::square::{file_of, rank_of, square_name};
use crate::types::{Color, PieceType, Square};

verus! {

/// Whether no character of `w` is white space.
pub open spec fn no_ws(w: Seq<char>) -> bool {
    forall|i: int| 0 <= i < w.len() ==> !is_whitespace(#[trigger] w[i])
}

/// The words of `ws` joined by single spaces.
pub open spec fn join_ws(ws: Seq<Seq<char>>) -> Seq<char>
    decreases ws.len(),
{
    if ws.len() == 0 {
        Seq::empty()
    } else if ws.len() == 1 {
        ws[0]
    } else {
        join_ws(ws.drop_last()) + seq![' '] + ws.last()
    }
}

/// The words of a prefix depend on the prefix only.
proof fn lemma_words_prefix_ext(s: Seq<char>, t: Seq<char>, n: int)
    requires
        0 <= n <= s.len(),
    ensures
        words_prefix(s + t, n) == words_prefix(s, n),
    decreases n,
{
    if n > 0 {
        lemma_words_prefix_ext(s, t, n - 1);
        assert((s + t)[n - 1] == s[n - 1]);
    }
}

/// Reading characters other than white space extends the open word.
proof fn lemma_words_prefix_word(s: Seq<char>, t: Seq<char>, k: int)
    requires
        no_ws(t),
        0 <= k <= t.len(),
    ensures
        words_prefix(s + t, s.len() + k) == (words_prefix(s, s.len() as int).0, words_prefix(
            s,
            s.len() as int,
        ).1 + t.take(k)),
    decreases k,
{
    if k == 0 {
        lemma_words_prefix_ext(s, t, s.len() as int);
        assert(words_prefix(s, s.len() as int).1 + t.take(0) =~= words_prefix(s, s.len() as int).1);
    } else {
        lemma_words_prefix_word(s, t, k - 1);
        assert((s + t)[s.len() + k - 1] == t[k - 1]);
        assert(!is_whitespace(t[k - 1]));
        assert(words_prefix(s, s.len() as int).1 + t.take(k) =~= (words_prefix(s, s.len() as int).1
            + t.take(k - 1)).push(t[k - 1]));
    }
}

/// Splitting words joined by single spaces gives the words back, when none is empty or
/// holds white space.
pub proof fn lemma_split_join(ws: Seq<Seq<char>>)
    requires
        ws.len() >= 1,
        forall|i: int| 0 <= i < ws.len() ==> (#[trigger] ws[i]).len() > 0 && no_ws(ws[i]),
    ensures
        words_prefix(join_ws(ws), join_ws(ws).len() as int) == (ws.drop_last(), ws.last()),
        split_ws(join_ws(ws)) == ws,
    decreases ws.len(),
{
    let j = join_ws(ws);
    let w = ws.last();
    if ws.len() == 1 {
        lemma_words_prefix_word(Seq::empty(), w, w.len() as int);
        assert(Seq::<char>::empty() + w =~= w);
        assert(w.take(w.len() as int) =~= w);
        assert(Seq::<char>::empty() + w =~= w);
        assert(ws.drop_last() =~= Seq::<Seq<char>>::empty());
    } else {
        let rest = ws.drop_last();
        assert forall|i: int| 0 <= i < rest.len() implies (#[trigger] rest[i]).len() > 0 && no_ws(rest[i]) by {
            assert(rest[i] == ws[i]);
        }
        lemma_split_join(rest);
        let a = join_ws(rest);
        let sp = a + seq![' '];
        lemma_words_prefix_ext(a, seq![' '], a.len() as int);
        assert(sp[a.len() as int] == ' ');
        assert(is_whitespace(' '));
        assert(words_prefix(sp, sp.len() as int) == words_prefix(sp, (a.len() + 1) as int));
        assert(rest.last().len() > 0);
        assert(rest.drop_last().push(rest.last()) =~= rest);
        lemma_words_prefix_word(sp, w, w.len() as int);
        assert(w.take(w.len() as int) =~= w);
        assert(Seq::<char>::empty() + w =~= w);
        assert(j == sp + w);
    }
    assert(ws.drop_last().push(ws.last()) =~= ws);
}

/// A digit character stands for its value.
pub proof fn lemma_digit_char(n: int)
    requires
        0 <= n <= 9,
    ensures
        '0' <= digit_char(n) <= '9',
        digit_char(n) as int == n + 48,
        !is_whitespace(digit_char(n)),
{
}

/// The decimal text of a number is a nonempty run of digits that reads back as the number.
pub proof fn lemma_decimal_text(n: int)
    requires
        n >= 0,
    ensures
        decimal_text(n).len() > 0,
        all_digits(decimal_text(n)),
        digits_value(decimal_text(n)) == n,
        no_ws(decimal_text(n)),
    decreases n,
{
    let d = decimal_text(n);
    if n < 10 {
        lemma_digit_char(n);
        assert(d.drop_last() =~= Seq::<char>::empty());
        assert(d.last() == digit_char(n));
        assert(digits_value(d) == digits_value(d.drop_last()) * 10 + (d.last() as int - 48));
    } else {
        lemma_decimal_text(n / 10);
        lemma_digit_char(n % 10);
        assert(d.drop_last() =~= decimal_text(n / 10));
        assert(d.last() == digit_char(n % 10));
        assert(n == (n / 10) * 10 + n % 10);
        assert(digits_value(d) == digits_value(d.drop_last()) * 10 + (d.last() as int - 48));
        assert forall|i: int| 0 <= i < d.len() implies '0' <= #[trigger] d[i] <= '9' by {
            if i < d.len() - 1 {
                assert(d[i] == decimal_text(n / 10)[i]);
            }
        }
    }
    assert forall|i: int| 0 <= i < d.len() implies !is_whitespace(#[trigger] d[i]) by {
        assert('0' <= d[i] <= '9');
    }
}

/// The decimal text of a number up to 255 parses back as that number.
pub proof fn lemma_parse_decimal(n: int)
    requires
        0 <= n <= 255,
    ensures
        parse_u8_spec(decimal_text(n)) == Some(n),
{
    lemma_decimal_text(n);
    assert('0' <= decimal_text(n)[0] <= '9');
}

/// The name of a square reads back as an en passant field naming that square.
pub proof fn lemma_square_name_read(q: int)
    requires
        0 <= q < 64,
    ensures
        square_name(q).len() == 2,
        no_ws(square_name(q)),
        ep_outcome(square_name(q)) == 1,
        ep_square_of(square_name(q)) == q,
{
    let n = square_name(q);
    assert(0 <= file_of(q) < 8 && 0 <= rank_of(q) < 8);
    assert(n[0] as int == file_of(q) + 97);
    assert(n[1] as int == rank_of(q) + 49);
    assert(utf8_width(n[0]) == 1);
    assert(utf8_width(n[1]) == 1);
    assert(q == rank_of(q) * 8 + file_of(q));
}

/// Whether the castling rooks are those of standard chess: each one present stands on its
/// corner.
pub open spec fn standard_rooks(r: CastlingRooks) -> bool {
    &&& !r.frc
    &&& (r.rooks[0].king_side is None || r.rooks[0].king_side == Some(Square::H1))
    &&& (r.rooks[0].queen_side is None || r.rooks[0].queen_side == Some(Square::A1))
    &&& (r.rooks[1].king_side is None || r.rooks[1].king_side == Some(Square::H8))
    &&& (r.rooks[1].queen_side is None || r.rooks[1].queen_side == Some(Square::A8))
}

/// A letter when `present`, else nothing.
pub open spec fn opt_char(present: bool, c: char) -> Seq<char> {
    if present {
        seq![c]
    } else {
        Seq::empty()
    }
}

/// What an optional letter in front of `rest` adds to its characters.
proof fn lemma_opt_char(present: bool, c: char, rest: Seq<char>)
    ensures
        forall|x: char| #[trigger] (opt_char(present, c) + rest).contains(x) <==> (present && c == x)
            || rest.contains(x),
        forall|i: int| 0 <= i < (opt_char(present, c) + rest).len() ==> {
            let y = #[trigger] (opt_char(present, c) + rest)[i];
            (present && y == c) || rest.contains(y)
        },
        (opt_char(present, c) + rest).len() == rest.len() + (if present {
            1int
        } else {
            0
        }),
{
    let t = opt_char(present, c) + rest;
    let o = if present {
        1int
    } else {
        0
    };
    assert forall|i: int| 0 <= i < t.len() implies {
        let y = #[trigger] t[i];
        (present && y == c) || rest.contains(y)
    } by {
        if i >= o {
            assert(t[i] == rest[i - o]);
        }
    }
    assert forall|x: char| #[trigger] t.contains(x) <==> (present && c == x) || rest.contains(x) by {
        if t.contains(x) {
            let i = choose|i: int| 0 <= i < t.len() && t[i] == x;
            assert((present && t[i] == c) || rest.contains(t[i]));
        }
        if present && c == x {
            assert(t[0] == x);
        }
        if rest.contains(x) {
            let i = choose|i: int| 0 <= i < rest.len() && rest[i] == x;
            assert(t[i + o] == x);
        }
    }
}

/// The castling text of standard rooks reads back as the same rooks.
pub proof fn lemma_castling_read(r: CastlingRooks)
    requires
        standard_rooks(r),
    ensures
        r.text().len() > 0,
        no_ws(r.text()),
        castling_ok(r.text()),
        castling_of(r.text()) == r,
{
    let t = r.text();
    let w = r.rooks[0];
    let b = r.rooks[1];
    let bits = right_bits_spec(w, b);
    let (a1, a2, a3, a4) = (w.king_side is Some, w.queen_side is Some, b.king_side is Some, b.queen_side is Some);
    if bits == 0 {
        assert(!a1 && !a2 && !a3 && !a4);
        assert(t =~= seq!['-']);
        assert(forall|x: char| #[trigger] t.contains(x) ==> x == '-');
        assert(t.contains('-')) by {
            assert(t[0] == '-');
        }
        assert(castling_of(t).rooks =~= r.rooks);
    } else {
        assert((bits % 2 == 1) == a1);
        assert(((bits / 2) % 2 == 1) == a2);
        assert(((bits / 4) % 2 == 1) == a3);
        assert(((bits / 8) % 2 == 1) == a4);
        let e = Seq::<char>::empty();
        let p4 = opt_char(a4, 'q') + e;
        let p3 = opt_char(a3, 'k') + p4;
        let p2 = opt_char(a2, 'Q') + p3;
        let p1 = opt_char(a1, 'K') + p2;
        assert(t =~= p1);
        lemma_opt_char(a4, 'q', e);
        lemma_opt_char(a3, 'k', p4);
        lemma_opt_char(a2, 'Q', p3);
        lemma_opt_char(a1, 'K', p2);
        assert(t.contains('K') == a1);
        assert(t.contains('Q') == a2);
        assert(t.contains('k') == a3);
        assert(t.contains('q') == a4);
        assert(!t.contains('-'));
        assert forall|i: int| 0 <= i < t.len() implies (#[trigger] t[i] == 'K' || t[i] == 'Q' || t[i]
            == 'k' || t[i] == 'q') by {
            assert(t.contains(t[i]));
        }
        assert(castling_of(t).rooks =~= r.rooks);
    }
    assert forall|i: int| 0 <= i < t.len() implies !is_whitespace(#[trigger] t[i]) by {
        assert(t[i] == 'K' || t[i] == 'Q' || t[i] == 'k' || t[i] == 'q' || t[i] == '-');
    }
}

/// One step of the placement scan: the state after reading `c` in state `st`.
pub open spec fn scan_step(st: (int, int, int), c: char) -> (int, int, int) {
    if st.0 != 0 {
        st
    } else if '1' <= c <= '9' {
        (0, st.1 + (c as int - 48), st.2)
    } else if piece_of_letter(c) is Some {
        if 0 <= st.1 < 64 {
            (0, st.1 + 1, st.2)
        } else {
            (2, st.1, st.2)
        }
    } else if c == '/' {
        if st.1 != 64 - 8 * st.2 {
            (1, st.1, st.2)
        } else {
            (0, st.1 - 16, st.2 + 1)
        }
    } else {
        (1, st.1, st.2)
    }
}

/// The state of the placement scan after reading `t` from state `st`.
pub open spec fn scan_run(st: (int, int, int), t: Seq<char>) -> (int, int, int)
    decreases t.len(),
{
    if t.len() == 0 {
        st
    } else {
        scan_step(scan_run(st, t.drop_last()), t.last())
    }
}

/// Whether character `i` of `t`, read from state `st`, puts a piece on square `sq`.
pub open spec fn seg_placed(st: (int, int, int), t: Seq<char>, i: int, sq: int) -> bool {
    &&& 0 <= i < t.len()
    &&& piece_of_letter(t[i]) is Some
    &&& scan_run(st, t.take(i)).0 == 0
    &&& scan_run(st, t.take(i)).1 == sq
}

/// Reading two texts in turn is reading them joined.
proof fn lemma_scan_join(st: (int, int, int), t: Seq<char>, u: Seq<char>)
    ensures
        scan_run(st, t + u) == scan_run(scan_run(st, t), u),
    decreases u.len(),
{
    if u.len() == 0 {
        assert(t + u =~= t);
    } else {
        lemma_scan_join(st, t, u.drop_last());
        assert((t + u).drop_last() =~= t + u.drop_last());
        assert((t + u).last() == u.last());
    }
}

/// The placement scan of a whole field is the scan run from the first square of rank 8.
proof fn lemma_place_scan_run(p: Seq<char>, n: int)
    requires
        0 <= n <= p.len(),
    ensures
        place_scan(p, n) == scan_run((0, 56, 0), p.take(n)),
    decreases n,
{
    if n > 0 {
        lemma_place_scan_run(p, n - 1);
        assert(p.take(n).drop_last() =~= p.take(n - 1));
        assert(p.take(n).last() == p[n - 1]);
    } else {
        assert(p.take(0).len() == 0);
    }
}

/// A character of a field puts a piece where the scan run puts it.
proof fn lemma_placed_at_run(p: Seq<char>, j: int, sq: int)
    ensures
        placed_at(p, j, sq) == seg_placed((0, 56, 0), p, j, sq),
{
    if 0 <= j < p.len() {
        lemma_place_scan_run(p, j);
    }
}

/// Where the characters of two joined texts put pieces.
proof fn lemma_seg_placed_join(st: (int, int, int), t: Seq<char>, u: Seq<char>, i: int, sq: int)
    ensures
        seg_placed(st, t + u, i, sq) == if i < t.len() {
            seg_placed(st, t, i, sq)
        } else {
            seg_placed(scan_run(st, t), u, i - t.len(), sq)
        },
{
    if 0 <= i < t.len() {
        assert((t + u).take(i) =~= t.take(i));
        assert((t + u)[i] == t[i]);
    } else if t.len() <= i < t.len() + u.len() {
        assert((t + u).take(i) =~= t + u.take(i - t.len()));
        lemma_scan_join(st, t, u.take(i - t.len()));
        assert((t + u)[i] == u[i - t.len()]);
    }
}

/// The letter of a piece stands for that piece, and is neither a digit, nor '/', nor white
/// space.
pub proof fn lemma_piece_letter(p: Piece)
    ensures
        piece_of_letter(piece_char(p@)) == Some(p),
        !('1' <= piece_char(p@) <= '9'),
        piece_char(p@) != '/',
        !is_whitespace(piece_char(p@)),
{
    match p {
        Piece::WhitePawn => assert(piece_char(p@) == 'P'),
        Piece::BlackPawn => assert(piece_char(p@) == 'p'),
        Piece::WhiteKnight => assert(piece_char(p@) == 'N'),
        Piece::BlackKnight => assert(piece_char(p@) == 'n'),
        Piece::WhiteBishop => assert(piece_char(p@) == 'B'),
        Piece::BlackBishop => assert(piece_char(p@) == 'b'),
        Piece::WhiteRook => assert(piece_char(p@) == 'R'),
        Piece::BlackRook => assert(piece_char(p@) == 'r'),
        Piece::WhiteQueen => assert(piece_char(p@) == 'Q'),
        Piece::BlackQueen => assert(piece_char(p@) == 'q'),
        Piece::WhiteKing => assert(piece_char(p@) == 'K'),
        Piece::BlackKing => assert(piece_char(p@) == 'k'),
    }
}

/// A digit from 1 to 9 is no piece letter and moves the scan on by its value.
proof fn lemma_digit_step(st: (int, int, int), n: int)
    requires
        1 <= n <= 9,
        st.0 == 0,
    ensures
        piece_of_letter(digit_char(n)) is None,
        scan_step(st, digit_char(n)) == (0int, st.1 + n, st.2),
        scan_run(st, seq![digit_char(n)]) == (0int, st.1 + n, st.2),
{
    lemma_digit_char(n);
    assert(seq![digit_char(n)].drop_last() =~= Seq::<char>::empty());
    assert(scan_run(st, Seq::<char>::empty()) == st);
}

/// Reading the text of the first `f` files of rank `r` from its first square.
proof fn lemma_row_upto(b: Board, r: int, f: int, s: int)
    requires
        0 <= r < 8,
        0 <= f <= 8,
    ensures
        ({
            let t = row_text_upto(b, r, f);
            let st = (0int, 8 * r, s);
            let l = last_piece_file(b, r, f);
            &&& -1 <= l < f
            &&& l >= 0 ==> b.piece_at_spec(8 * r + l) is Some
            &&& forall|sq: int| 8 * r + l < sq < 8 * r + f ==> #[trigger] b.piece_at_spec(sq) is None
            &&& scan_run(st, t) == (0int, 8 * r + l + 1, s)
            &&& no_ws(t)
            &&& forall|i: int, sq: int| #[trigger] seg_placed(st, t, i, sq) ==> 8 * r <= sq < 8 * r + f
                && piece_of_letter(t[i]) == b.piece_at_spec(sq)
            &&& forall|sq: int| 8 * r <= sq < 8 * r + f && #[trigger] b.piece_at_spec(sq) is Some ==> exists|i: int|
                #[trigger] seg_placed(st, t, i, sq)
        }),
    decreases f,
{
    let t = row_text_upto(b, r, f);
    let st = (0int, 8 * r, s);
    if f == 0 {
        assert(t.len() == 0);
        assert forall|i: int, sq: int| #[trigger] seg_placed(st, t, i, sq) implies false by {}
    } else {
        lemma_row_upto(b, r, f - 1, s);
        let prev = row_text_upto(b, r, f - 1);
        let l0 = last_piece_file(b, r, f - 1);
        let here = 8 * r + f - 1;
        match b.piece_at_spec(here) {
            None => {
                assert(t == prev);
                assert(last_piece_file(b, r, f) == l0);
            },
            Some(p) => {
                let gap = f - 1 - l0 - 1;
                let c = piece_char(p@);
                let mid_state = (0int, here, s);
                lemma_piece_letter(p);
                let tail = if gap > 0 {
                    seq![digit_char(gap), c]
                } else {
                    seq![c]
                };
                assert(t =~= prev + tail);
                let pstate = scan_run(st, prev);
                // the tail first skips the empty squares, then puts the piece
                let before = if gap > 0 {
                    seq![digit_char(gap)]
                } else {
                    Seq::<char>::empty()
                };
                assert(tail =~= before.push(c));
                assert(tail.take(tail.len() - 1) =~= before);
                if gap > 0 {
                    lemma_digit_step(pstate, gap);
                } else {
                    assert(scan_run(pstate, Seq::<char>::empty()) == pstate);
                }
                assert(scan_run(pstate, before) == mid_state);
                assert(tail.drop_last() =~= before);
                assert(scan_run(pstate, tail) == (0int, here + 1, s));
                lemma_scan_join(st, prev, tail);
                assert forall|i: int| 0 <= i < tail.len() implies !is_whitespace(#[trigger] tail[i]) by {
                    if gap > 0 && i == 0 {
                        lemma_digit_char(gap);
                    }
                }
                assert forall|i: int| 0 <= i < t.len() implies !is_whitespace(#[trigger] t[i]) by {
                    if i < prev.len() {
                        assert(t[i] == prev[i]);
                    } else {
                        assert(t[i] == tail[i - prev.len()]);
                    }
                }
                assert forall|i: int, sq: int| #[trigger] seg_placed(st, t, i, sq) implies 8 * r <= sq < 8 * r + f
                    && piece_of_letter(t[i]) == b.piece_at_spec(sq) by {
                    lemma_seg_placed_join(st, prev, tail, i, sq);
                    if i < prev.len() {
                        assert(seg_placed(st, prev, i, sq));
                        assert(t[i] == prev[i]);
                    } else {
                        let k = i - prev.len();
                        assert(seg_placed(pstate, tail, k, sq));
                        if k < tail.len() - 1 {
                            lemma_digit_step(pstate, gap);
                            assert(tail[k] == digit_char(gap));
                        } else {
                            assert(tail.take(k) =~= before);
                            assert(t[i] == c);
                        }
                    }
                }
                assert forall|sq: int| 8 * r <= sq < 8 * r + f && #[trigger] b.piece_at_spec(sq) is Some implies exists|i: int|
                    #[trigger] seg_placed(st, t, i, sq) by {
                    if sq < here {
                        let i = choose|i: int| #[trigger] seg_placed(st, prev, i, sq);
                        lemma_seg_placed_join(st, prev, tail, i, sq);
                    } else {
                        let k = tail.len() - 1;
                        let i = prev.len() + k;
                        assert(tail.take(k) =~= before);
                        assert(tail[k] == c);
                        assert(seg_placed(pstate, tail, k, here));
                        lemma_seg_placed_join(st, prev, tail, i, here);
                    }
                }
            },
        }
    }
}

/// Reading the text of rank `r` from its first square.
proof fn lemma_row(b: Board, r: int, s: int)
    requires
        0 <= r < 8,
    ensures
        ({
            let t = row_text(b, r);
            let st = (0int, 8 * r, s);
            &&& t.len() > 0
            &&& no_ws(t)
            &&& scan_run(st, t) == (0int, 8 * r + 8, s)
            &&& forall|i: int, sq: int| #[trigger] seg_placed(st, t, i, sq) ==> 8 * r <= sq < 8 * r + 8
                && piece_of_letter(t[i]) == b.piece_at_spec(sq)
            &&& forall|sq: int| 8 * r <= sq < 8 * r + 8 && #[trigger] b.piece_at_spec(sq) is Some ==> exists|i: int|
                #[trigger] seg_placed(st, t, i, sq)
        }),
{
    lemma_row_upto(b, r, 8, s);
    let u = row_text_upto(b, r, 8);
    let t = row_text(b, r);
    let st = (0int, 8 * r, s);
    let l = last_piece_file(b, r, 8);
    let gap = 7 - l;
    if l >= 0 {
        let i = choose|i: int| #[trigger] seg_placed(st, u, i, 8 * r + l);
        assert(u.len() > 0);
    }
    if gap > 0 {
        let tail = seq![digit_char(gap)];
        assert(t =~= u + tail);
        lemma_digit_step(scan_run(st, u), gap);
        lemma_scan_join(st, u, tail);
        lemma_digit_char(gap);
        assert forall|i: int| 0 <= i < t.len() implies !is_whitespace(#[trigger] t[i]) by {
            if i < u.len() {
                assert(t[i] == u[i]);
            }
        }
        assert forall|i: int, sq: int| #[trigger] seg_placed(st, t, i, sq) implies 8 * r <= sq < 8 * r + 8
            && piece_of_letter(t[i]) == b.piece_at_spec(sq) by {
            lemma_seg_placed_join(st, u, tail, i, sq);
            if i < u.len() {
                assert(t[i] == u[i]);
            }
        }
        assert forall|sq: int| 8 * r <= sq < 8 * r + 8 && #[trigger] b.piece_at_spec(sq) is Some implies exists|i: int|
            #[trigger] seg_placed(st, t, i, sq) by {
            let i = choose|i: int| #[trigger] seg_placed(st, u, i, sq);
            lemma_seg_placed_join(st, u, tail, i, sq);
        }
    } else {
        assert(t == u);
    }
}

/// Reading the text of the ranks 8 down to `9 - k` from a8.
proof fn lemma_rows(b: Board, k: int)
    requires
        1 <= k <= 8,
    ensures
        ({
            let t = rows_text(b, k);
            let st = (0int, 56int, 0int);
            &&& t.len() > 0
            &&& no_ws(t)
            &&& scan_run(st, t) == (0int, 72 - 8 * k, k - 1)
            &&& forall|i: int, sq: int| #[trigger] seg_placed(st, t, i, sq) ==> 64 - 8 * k <= sq < 64
                && piece_of_letter(t[i]) == b.piece_at_spec(sq)
            &&& forall|sq: int| 64 - 8 * k <= sq < 64 && #[trigger] b.piece_at_spec(sq) is Some ==> exists|i: int|
                #[trigger] seg_placed(st, t, i, sq)
        }),
    decreases k,
{
    let st = (0int, 56int, 0int);
    let t = rows_text(b, k);
    if k == 1 {
        lemma_row(b, 7, 0);
    } else {
        lemma_rows(b, k - 1);
        let prev = rows_text(b, k - 1);
        let r = 8 - k;
        lemma_row(b, r, k - 1);
        let row = row_text(b, r);
        let slash = seq!['/'];
        let head = prev + slash;
        assert(t =~= head + row);
        lemma_scan_join(st, prev, slash);
        assert(slash.drop_last() =~= Seq::<char>::empty());
        assert(scan_run(scan_run(st, prev), Seq::<char>::empty()) == scan_run(st, prev));
        assert(scan_run(st, head) == (0int, 8 * r, k - 1));
        lemma_scan_join(st, head, row);
        assert forall|i: int| 0 <= i < t.len() implies !is_whitespace(#[trigger] t[i]) by {
            if i < prev.len() {
                assert(t[i] == prev[i]);
            } else if i == prev.len() {
                assert(t[i] == '/');
            } else {
                assert(t[i] == row[i - head.len()]);
            }
        }
        assert forall|i: int, sq: int| #[trigger] seg_placed(st, t, i, sq) implies 64 - 8 * k <= sq < 64
            && piece_of_letter(t[i]) == b.piece_at_spec(sq) by {
            lemma_seg_placed_join(st, head, row, i, sq);
            if i < head.len() {
                lemma_seg_placed_join(st, prev, slash, i, sq);
                if i < prev.len() {
                    assert(t[i] == prev[i]);
                } else {
                    assert(head[i] == '/');
                }
            } else {
                assert(t[i] == row[i - head.len()]);
            }
        }
        assert forall|sq: int| 64 - 8 * k <= sq < 64 && #[trigger] b.piece_at_spec(sq) is Some implies exists|i: int|
            #[trigger] seg_placed(st, t, i, sq) by {
            if sq < 8 * r + 8 {
                let j = choose|j: int| #[trigger] seg_placed(scan_run(st, head), row, j, sq);
                lemma_seg_placed_join(st, head, row, j + head.len(), sq);
            } else {
                let i = choose|i: int| #[trigger] seg_placed(st, prev, i, sq);
                lemma_seg_placed_join(st, prev, slash, i, sq);
                lemma_seg_placed_join(st, head, row, i, sq);
            }
        }
    }
}

/// The placement text of a board reads back as its pieces.
pub proof fn lemma_placement_read(b: Board)
    requires
        b.wf(),
    ensures
        ({
            let p = rows_text(b, 8);
            &&& p.len() > 0
            &&& no_ws(p)
            &&& placement_outcome(p) == 0
            &&& forall|c: Color, sq: int| #[trigger] fen_color_at(p, c, sq) == b.has_color(c, sq)
            &&& forall|pt: PieceType, sq: int| #[trigger] fen_type_at(p, pt, sq) == b.has_type(pt, sq)
        }),
{
    let p = rows_text(b, 8);
    let st = (0int, 56int, 0int);
    lemma_rows(b, 8);
    lemma_place_scan_run(p, p.len() as int);
    assert(p.take(p.len() as int) =~= p);
    assert forall|c: Color, sq: int| #[trigger] fen_color_at(p, c, sq) == b.has_color(c, sq) by {
        b.lemma_wf_piece_at(sq);
        if fen_color_at(p, c, sq) {
            let j = choose|j: int|
                0 <= j < p.len() && #[trigger] placed_at(p, j, sq) && piece_of_letter(p[j])->0.color_spec() == c;
            lemma_placed_at_run(p, j, sq);
            assert(seg_placed(st, p, j, sq));
        }
        if b.has_color(c, sq) {
            assert(0 <= sq < 64);
            assert(b.occupied(sq));
            let q = b.piece_at_spec(sq)->0;
            assert(b.has_color(q.color_spec(), sq));
            assert(q.color_spec() == c);
            let j = choose|j: int| #[trigger] seg_placed(st, p, j, sq);
            lemma_placed_at_run(p, j, sq);
            assert(placed_at(p, j, sq) && piece_of_letter(p[j])->0.color_spec() == c);
        }
    }
    assert forall|pt: PieceType, sq: int| #[trigger] fen_type_at(p, pt, sq) == b.has_type(pt, sq) by {
        b.lemma_wf_piece_at(sq);
        if fen_type_at(p, pt, sq) {
            let j = choose|j: int|
                0 <= j < p.len() && #[trigger] placed_at(p, j, sq) && piece_of_letter(p[j])->0.type_spec() == pt;
            lemma_placed_at_run(p, j, sq);
            assert(seg_placed(st, p, j, sq));
        }
        if b.has_type(pt, sq) {
            assert(0 <= sq < 64);
            assert(b.occupied(sq));
            let q = b.piece_at_spec(sq)->0;
            assert(b.has_type(q.type_spec(), sq));
            assert(q.type_spec() == pt);
            let j = choose|j: int| #[trigger] seg_placed(st, p, j, sq);
            lemma_placed_at_run(p, j, sq);
            assert(placed_at(p, j, sq) && piece_of_letter(p[j])->0.type_spec() == pt);
        }
    }
}

} // verus!
