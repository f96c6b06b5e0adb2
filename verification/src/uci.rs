use vstd::prelude::*;

use crate::chess::board::Board;
use crate::chess::chess_move::{is_byte_boundary, parse_move_spec, Move, MoveKind};
use crate::chess::move_order::fields;
use crate::chess::movegen::{move_order, movegen, pseudo_legal};
use crate::search::SearchLimits;
use crate::chess::fen_round_trip::join_ws;
use crate::text::{chars_eq, parse_i32, parse_i32_spec};
use crate::types::Color;

verus! {

/// Whether the generated move `c` is the one a name parsed as `p` stands for: same origin,
/// target and (for a promotion) piece, or a castle from the same square towards the same side.
pub open spec fn matches_name(c: Move, p: Move) -> bool {
    ||| (c.from_spec() == p.from_spec() && c.to_spec() == p.to_spec() && (c.kind_spec() != 3
        || c.promo_spec() == p.promo_spec()))
    ||| (c.from_spec() == p.from_spec() && c.kind_spec() == 2 && ((c.to_spec() > c.from_spec())
        == (p.to_spec() > p.from_spec())))
}

/// Origin, target and promotion index of a move name, or all zero (the null move) when the
/// name does not parse.
pub open spec fn name_fields(s: Seq<char>) -> (int, int, int) {
    match parse_move_spec(s) {
        Some((f, t, p)) => (f, t, match p {
            Some(pi) => pi,
            None => 0,
        }),
        None => (0, 0, 0),
    }
}

/// Whether the move `c` is one that the name `s` stands for.
pub open spec fn name_matches(c: Move, s: Seq<char>) -> bool {
    let (f, t, p) = name_fields(s);
    ||| (c.from_spec() == f && c.to_spec() == t && (c.kind_spec() != 3 || c.promo_spec() == p))
    ||| (c.from_spec() == f && c.kind_spec() == 2 && ((c.to_spec() > c.from_spec()) == (t > f)))
}

/// Whether the move with origin, target, kind index and promotion index `f` is one that the
/// name `s` stands for.
pub open spec fn name_matches_fields(f: (int, int, int, int), s: Seq<char>) -> bool {
    let (nf, nt, np) = name_fields(s);
    ||| (f.0 == nf && f.1 == nt && (f.2 != 3 || f.3 == np))
    ||| (f.0 == nf && f.2 == 2 && ((f.1 > f.0) == (nt > nf)))
}

/// The first move of `moves` that the parsed name `parsed` stands for, if any.
pub fn select_move(moves: &Vec<Move>, parsed: Move) -> (r: Option<Move>)
    ensures
        r is None <==> forall|i: int| 0 <= i < moves@.len() ==> !matches_name(#[trigger] moves@[i], parsed),
        r matches Some(m) ==> exists|i: int|
            0 <= i < moves@.len() && #[trigger] moves@[i] == m && matches_name(m, parsed) && forall|j: int|
                0 <= j < i ==> !matches_name(#[trigger] moves@[j], parsed),
{
    let mut i: usize = 0;
    while i < moves.len()
        invariant
            i <= moves@.len(),
            forall|j: int| 0 <= j < i ==> !matches_name(#[trigger] moves@[j], parsed),
        decreases moves.len() - i,
    {
        let c = moves[i];
        let same_from = c.from_sq().value() == parsed.from_sq().value();
        let kind = c.kind();
        let is_promo = match kind {
            MoveKind::Promotion => true,
            _ => false,
        };
        let is_castle = match kind {
            MoveKind::Castle => true,
            _ => false,
        };
        if same_from && c.to_sq().value() == parsed.to_sq().value() && (!is_promo
            || c.promo_piece().index() == parsed.promo_piece().index()) {
            return Some(c);
        }
        if same_from && is_castle && ((c.to_sq().value() > c.from_sq().value()) == (
        parsed.to_sq().value() > parsed.from_sq().value())) {
            return Some(c);
        }
        i = i + 1;
    }
    None
}

/// The pseudo-legal move that the name `mv_str` (such as "e2e4", "e7e8q", or a king move
/// towards a castling side) stands for, or `None` when there is none; a name that does not
/// parse stands for the null move. Where several moves match, the first that the generator
/// yields is taken. The side to move must have a king, and the name must be split after its
/// second and fourth byte at character boundaries.
pub fn move_from_str(board: &Board, mv_str: &str) -> (r: Option<Move>)
    requires
        board.has_king(board.stm_spec()),
        is_byte_boundary(mv_str@, 2),
        is_byte_boundary(mv_str@, 4),
    ensures
        r matches Some(m) ==> pseudo_legal(*board, m) && name_matches(m, mv_str@),
        r is None <==> forall|m: Move| #[trigger] pseudo_legal(*board, m) ==> !name_matches(m, mv_str@),
        r matches Some(m) ==> exists|i: int|
            0 <= i < move_order(*board).len() && fields(m) == move_order(*board)[i] && forall|j: int|
                0 <= j < i ==> !name_matches_fields(#[trigger] move_order(*board)[j], mv_str@),
{
    let parsed = match Move::from_str(mv_str) {
        Ok(m) => m,
        Err(_) => Move::null(),
    };
    let moves = movegen(board);
    let r = select_move(&moves, parsed);
    proof {
        assert forall|c: Move| #[trigger] matches_name(c, parsed) == name_matches(c, mv_str@) by {}
        if r is None {
            assert forall|m: Move| #[trigger] pseudo_legal(*board, m) implies !name_matches(m, mv_str@) by {
                assert(moves@.contains(m));
                let i = choose|i: int| 0 <= i < moves@.len() && moves@[i] == m;
                assert(!matches_name(moves@[i], parsed));
            }
        } else {
            let m = r->0;
            let i = choose|i: int| 0 <= i < moves@.len() && #[trigger] moves@[i] == m && matches_name(m, parsed)
                && forall|j: int| 0 <= j < i ==> !matches_name(#[trigger] moves@[j], parsed);
            assert(moves@.contains(m));
            assert(fields(moves@[i]) == move_order(*board)[i]);
            assert forall|j: int| 0 <= j < i implies !name_matches_fields(#[trigger] move_order(*board)[j], mv_str@) by {
                assert(fields(moves@[j]) == move_order(*board)[j]);
                assert(!matches_name(moves@[j], parsed));
            }
        }
    }
    r
}

/// Search limits with no limit at all, the clock unused.
pub open spec fn no_limits() -> SearchLimits {
    SearchLimits { use_clock: false, time: -1i32, inc: -1i32, max_depth: -1i32, max_time: -1i32, max_nodes: -1i32 }
}

/// The number the token after index `i` writes, if there is one.
pub open spec fn number_after(t: Seq<Seq<char>>, i: int) -> Option<int> {
    if 0 <= i + 1 < t.len() {
        parse_i32_spec(t[i + 1])
    } else {
        None
    }
}

/// The search limits of the tokens of a `go` command from index `i` on, with the limits `l`
/// read so far. "infinite" lifts every limit and ends the command; "nodes", "movetime" and
/// "depth" take the next token as the node, time or depth limit when it is a number, and
/// skip it in any case; "wtime" and "winc" when white is to move, and "btime" and "binc"
/// when black is, do the same for the time left and the increment and turn the clock on,
/// and the other side's two words are skipped alone; any other token ends the command.
pub open spec fn go_limits_from(t: Seq<Seq<char>>, white: bool, i: int, l: SearchLimits) -> SearchLimits
    decreases t.len() - i,
{
    if i < 0 || i >= t.len() {
        l
    } else {
        let w = t[i];
        let num = number_after(t, i);
        let ours_time = (white && w == "wtime"@) || (!white && w == "btime"@);
        let ours_inc = (white && w == "winc"@) || (!white && w == "binc"@);
        let theirs = (!white && (w == "wtime"@ || w == "winc"@)) || (white && (w == "btime"@ || w == "binc"@));
        if w == "infinite"@ {
            no_limits()
        } else if theirs {
            go_limits_from(t, white, i + 1, l)
        } else if i + 1 >= t.len() {
            l
        } else if w == "nodes"@ {
            go_limits_from(t, white, i + 2, match num {
                Some(v) => SearchLimits { max_nodes: v as i32, ..l },
                None => l,
            })
        } else if w == "movetime"@ {
            go_limits_from(t, white, i + 2, match num {
                Some(v) => SearchLimits { max_time: v as i32, ..l },
                None => l,
            })
        } else if w == "depth"@ {
            go_limits_from(t, white, i + 2, match num {
                Some(v) => SearchLimits { max_depth: v as i32, ..l },
                None => l,
            })
        } else if ours_time {
            go_limits_from(t, white, i + 2, match num {
                Some(v) => SearchLimits { use_clock: true, time: v as i32, ..l },
                None => l,
            })
        } else if ours_inc {
            go_limits_from(t, white, i + 2, match num {
                Some(v) => SearchLimits { use_clock: true, inc: v as i32, ..l },
                None => l,
            })
        } else {
            l
        }
    }
}

/// The views of a list of words.
pub open spec fn word_views(tokens: Seq<Vec<char>>) -> Seq<Seq<char>> {
    tokens.map_values(|w: Vec<char>| w@)
}

/// The search limits that the tokens after `go` set for side `stm` to move, as
/// `go_limits_from` reads them from no limits.
pub fn go_limits(tokens: &Vec<Vec<char>>, stm: Color) -> (r: SearchLimits)
    ensures
        r == go_limits_from(word_views(tokens@), stm == Color::White, 0, no_limits()),
{
    let ghost t = word_views(tokens@);
    let white = match stm {
        Color::White => true,
        Color::Black => false,
    };
    let mut limits = SearchLimits::new();
    let mut i: usize = 0;
    while i < tokens.len()
        invariant
            i <= tokens.len(),
            t == word_views(tokens@),
            white == (stm == Color::White),
            go_limits_from(t, white, 0, no_limits()) == go_limits_from(t, white, i as int, limits),
        decreases tokens.len() - i,
    {
        let w = &tokens[i];
        assert(t[i as int] == w@);
        let num = if i + 1 < tokens.len() {
            parse_i32(&tokens[i + 1])
        } else {
            None
        };
        proof {
            if i + 1 < tokens.len() {
                assert(t[i + 1] == tokens@[i + 1]@);
            }
        }
        let is_wtime = chars_eq(w, "wtime");
        let is_btime = chars_eq(w, "btime");
        let is_winc = chars_eq(w, "winc");
        let is_binc = chars_eq(w, "binc");
        if chars_eq(w, "infinite") {
            return SearchLimits::new();
        }
        if (!white && (is_wtime || is_winc)) || (white && (is_btime || is_binc)) {
            i = i + 1;
        } else if i + 1 >= tokens.len() {
            return limits;
        } else if chars_eq(w, "nodes") {
            if let Some(v) = num {
                limits.max_nodes = v;
            }
            i = i + 2;
        } else if chars_eq(w, "movetime") {
            if let Some(v) = num {
                limits.max_time = v;
            }
            i = i + 2;
        } else if chars_eq(w, "depth") {
            if let Some(v) = num {
                limits.max_depth = v;
            }
            i = i + 2;
        } else if (white && is_wtime) || (!white && is_btime) {
            if let Some(v) = num {
                limits.use_clock = true;
                limits.time = v;
            }
            i = i + 2;
        } else if (white && is_winc) || (!white && is_binc) {
            if let Some(v) = num {
                limits.use_clock = true;
                limits.inc = v;
            }
            i = i + 2;
        } else {
            return limits;
        }
    }
    limits
}

/// Where the position of a `position` command comes from.
#[derive(Debug)]
pub enum PositionSource {
    /// A FEN string: the tokens after "fen", up to six, joined by single spaces.
    Fen(Vec<char>),
    /// The starting position.
    StartPos,
    /// Neither "fen" nor "startpos" came first.
    Invalid,
}

/// A `position` command read into its parts.
#[derive(Debug)]
pub struct PositionCommand {
    pub source: PositionSource,
    /// The move names after "moves", when that word follows the position.
    pub moves: Vec<Vec<char>>,
}

/// The number of tokens that the position part of a `position` command takes: "fen" and
/// up to six more, or one word, or none of an empty command.
pub open spec fn position_part_len(t: Seq<Seq<char>>) -> int {
    if t.len() == 0 {
        0
    } else if t[0] == "fen"@ {
        if t.len() - 1 < 6 {
            t.len() as int
        } else {
            7
        }
    } else {
        1
    }
}

/// Whether the `position` command with tokens `t` is read as `r`: the source from its first
/// word, and the move names after a "moves" that directly follows the position part.
pub open spec fn position_command_spec(t: Seq<Seq<char>>, r: PositionCommand) -> bool {
    let n = position_part_len(t);
    &&& match r.source {
        PositionSource::Fen(f) => t.len() > 0 && t[0] == "fen"@ && f@ == join_ws(t.subrange(1, n)),
        PositionSource::StartPos => t.len() > 0 && t[0] != "fen"@ && t[0] == "startpos"@,
        PositionSource::Invalid => t.len() == 0 || (t[0] != "fen"@ && t[0] != "startpos"@),
    }
    &&& word_views(r.moves@) == if n < t.len() && t[n] == "moves"@ {
        t.subrange(n + 1, t.len() as int)
    } else {
        Seq::empty()
    }
}

/// A copy of the characters `w`.
fn copy_chars(w: &Vec<char>) -> (r: Vec<char>)
    ensures
        r@ == w@,
{
    let mut out: Vec<char> = Vec::new();
    let mut j: usize = 0;
    while j < w.len()
        invariant
            j <= w.len(),
            out@ == w@.take(j as int),
        decreases w.len() - j,
    {
        out.push(w[j]);
        proof {
            assert(w@.take(j as int + 1) =~= w@.take(j as int).push(w@[j as int]));
        }
        j = j + 1;
    }
    assert(w@.take(w.len() as int) =~= w@);
    out
}

/// Reads the tokens after `position`.
pub fn position_command(tokens: &Vec<Vec<char>>) -> (r: PositionCommand)
    ensures
        position_command_spec(word_views(tokens@), r),
{
    let ghost t = word_views(tokens@);
    let len = tokens.len();
    let mut n: usize = 0;
    let source = if len == 0 {
        PositionSource::Invalid
    } else if chars_eq(&tokens[0], "fen") {
        n = if len - 1 < 6 {
            len
        } else {
            7
        };
        let mut out: Vec<char> = Vec::new();
        if n > 1 {
            out = copy_chars(&tokens[1]);
            proof {
                assert(t.subrange(1, 2) =~= seq![t[1]]);
            }
            let mut k: usize = 2;
            while k < n
                invariant
                    2 <= k <= n <= tokens.len(),
                    t == word_views(tokens@),
                    out@ == join_ws(t.subrange(1, k as int)),
                decreases n - k,
            {
                out.push(' ');
                let w = &tokens[k];
                let mut j: usize = 0;
                let ghost base = out@;
                while j < w.len()
                    invariant
                        j <= w.len(),
                        out@ == base + w@.take(j as int),
                    decreases w.len() - j,
                {
                    out.push(w[j]);
                    proof {
                        assert(w@.take(j as int + 1) =~= w@.take(j as int).push(w@[j as int]));
                    }
                    j = j + 1;
                }
                proof {
                    assert(w@.take(w.len() as int) =~= w@);
                    assert(t[k as int] == w@);
                    assert(t.subrange(1, k + 1).drop_last() =~= t.subrange(1, k as int));
                    assert(t.subrange(1, k + 1).last() == w@);
                }
                k = k + 1;
            }
        } else {
            proof {
                assert(t.subrange(1, n as int) =~= Seq::<Seq<char>>::empty());
            }
        }
        PositionSource::Fen(out)
    } else if chars_eq(&tokens[0], "startpos") {
        n = 1;
        PositionSource::StartPos
    } else {
        n = 1;
        PositionSource::Invalid
    };
    proof {
        if len > 0 {
            assert(t[0] == tokens@[0]@);
        }
    }
    let mut moves: Vec<Vec<char>> = Vec::new();
    if n < len && chars_eq(&tokens[n], "moves") {
        let mut k: usize = n + 1;
        while k < len
            invariant
                n + 1 <= k <= len,
                len == tokens.len(),
                t == word_views(tokens@),
                word_views(moves@) == t.subrange(n + 1, k as int),
                moves@.len() == k - (n + 1),
            decreases len - k,
        {
            let ghost before = moves@;
            let c = copy_chars(&tokens[k]);
            moves.push(c);
            proof {
                assert(t[k as int] == tokens@[k as int]@);
                assert forall|i: int| 0 <= i < moves@.len() implies #[trigger] word_views(moves@)[i] == t.subrange(n + 1, k + 1)[i] by {
                    assert(word_views(moves@)[i] == moves@[i]@);
                    if i < before.len() {
                        assert(moves@[i] == before[i]);
                        assert(word_views(before)[i] == before[i]@);
                        assert(word_views(before)[i] == t.subrange(n + 1, k as int)[i]);
                    } else {
                        assert(moves@[i] == c);
                    }
                }
                assert(word_views(moves@) =~= t.subrange(n + 1, k + 1));
            }
            k = k + 1;
        }
        proof {
            assert(t[n as int] == tokens@[n as int]@);
        }
    } else {
        proof {
            if n < len {
                assert(t[n as int] == tokens@[n as int]@);
            }
            assert(word_views(moves@) =~= Seq::<Seq<char>>::empty());
        }
    }
    PositionCommand { source, moves }
}

} // verus!
