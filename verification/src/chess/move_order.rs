use vstd::prelude::*;

use super::chess_move::Move;
use crate::types::Bitboard;

verus! {

/// The squares from `n` up to the last square that satisfy `p`, in ascending order.
pub open spec fn squares_from(p: spec_fn(int) -> bool, n: int) -> Seq<int>
    decreases 64 - n,
{
    if n >= 64 {
        Seq::empty()
    } else if p(n) {
        seq![n] + squares_from(p, n + 1)
    } else {
        squares_from(p, n + 1)
    }
}

/// The squares of the board that satisfy `p`, in ascending order.
pub open spec fn ascending(p: spec_fn(int) -> bool) -> Seq<int> {
    squares_from(p, 0)
}

/// The squares of `bb`, in ascending order.
pub open spec fn bb_squares(bb: Bitboard) -> Seq<int> {
    ascending(|i: int| bb.contains(i))
}

/// Origin, target, kind index and promotion index of a move.
pub open spec fn fields(m: Move) -> (int, int, int, int) {
    (m.from_spec(), m.to_spec(), m.kind_spec(), m.promo_spec())
}

/// Plain moves from `from` to each square of `ts`, in the order of `ts`.
pub open spec fn normal_fields(from: int, ts: Seq<int>) -> Seq<(int, int, int, int)> {
    ts.map_values(|t: int| (from, t, 0int, 0int))
}

/// `moves` is `start` followed by moves whose fields are those of `l`, in order.
pub open spec fn extends(moves: Seq<Move>, start: Seq<Move>, l: Seq<(int, int, int, int)>) -> bool {
    &&& moves.len() == start.len() + l.len()
    &&& forall|k: int| 0 <= k < start.len() ==> #[trigger] moves[k] == start[k]
    &&& forall|k: int|
        start.len() <= k < moves.len() ==> fields(#[trigger] moves[k]) == l[k - start.len()]
}

/// Squares that fail `p` can be skipped.
proof fn lemma_skip(p: spec_fn(int) -> bool, n: int, m: int)
    requires
        0 <= n <= m <= 64,
        forall|i: int| n <= i < m ==> !#[trigger] p(i),
    ensures
        squares_from(p, n) == squares_from(p, m),
    decreases m - n,
{
    if n < m {
        assert(!p(n));
        lemma_skip(p, n + 1, m);
    }
}

/// Predicates that agree from `n` up give the same squares from `n` up.
proof fn lemma_agree(p: spec_fn(int) -> bool, q: spec_fn(int) -> bool, n: int)
    requires
        0 <= n <= 64,
        forall|i: int| n <= i < 64 ==> #[trigger] p(i) == q(i),
    ensures
        squares_from(p, n) == squares_from(q, n),
    decreases 64 - n,
{
    if n < 64 {
        assert(p(n) == q(n));
        lemma_agree(p, q, n + 1);
    }
}

/// The squares of `bb` are those that satisfy `p`, when `bb` holds exactly the squares of `p`.
pub proof fn lemma_bb_squares(bb: Bitboard, p: spec_fn(int) -> bool)
    requires
        forall|i: int| 0 <= i < 64 ==> #[trigger] bb.contains(i) == p(i),
    ensures
        bb_squares(bb) == ascending(p),
{
    let q = |i: int| bb.contains(i);
    assert forall|i: int| 0 <= i < 64 implies #[trigger] q(i) == p(i) by {
        assert(bb.contains(i) == p(i));
    }
    lemma_agree(q, p, 0);
}

/// An empty set has no squares.
pub proof fn lemma_bb_squares_empty(bb: Bitboard)
    requires
        forall|i: int| !#[trigger] bb.contains(i),
    ensures
        bb_squares(bb) == Seq::<int>::empty(),
{
    let p = |i: int| bb.contains(i);
    assert forall|i: int| 0 <= i < 64 implies !#[trigger] p(i) by {
        assert(!bb.contains(i));
    }
    lemma_skip(p, 0, 64);
}

/// Taking the lowest square `t` off `bb`, which leaves `rest`, splits its squares into `t` and
/// those of `rest`.
pub proof fn lemma_bb_squares_pop(bb: Bitboard, rest: Bitboard, t: int)
    requires
        bb.contains(t),
        forall|i: int| 0 <= i < t ==> !#[trigger] bb.contains(i),
        forall|i: int| #[trigger] rest.contains(i) <==> bb.contains(i) && i != t,
    ensures
        bb_squares(bb) == seq![t] + bb_squares(rest),
{
    let p = |i: int| bb.contains(i);
    let q = |i: int| rest.contains(i);
    assert(0 <= t < 64);
    assert forall|i: int| 0 <= i < t implies !#[trigger] p(i) by {
        assert(!bb.contains(i));
    }
    lemma_skip(p, 0, t);
    assert forall|i: int| 0 <= i < t + 1 implies !#[trigger] q(i) by {
        assert(!rest.contains(i));
    }
    lemma_skip(q, 0, t + 1);
    assert forall|i: int| t + 1 <= i < 64 implies #[trigger] p(i) == q(i) by {
        assert(rest.contains(i) == bb.contains(i));
    }
    lemma_agree(p, q, t + 1);
    assert(p(t));
}

/// Plain moves to `t` and then to the squares of `rest`.
pub proof fn lemma_normal_fields_cons(from: int, t: int, rest: Seq<int>)
    ensures
        normal_fields(from, seq![t] + rest) == seq![(from, t, 0int, 0int)] + normal_fields(from, rest),
{
    assert(normal_fields(from, seq![t] + rest) =~= seq![(from, t, 0int, 0int)] + normal_fields(from, rest));
}

/// Any list extends itself by nothing.
pub proof fn lemma_extends_refl(s: Seq<Move>)
    ensures
        extends(s, s, Seq::empty()),
{
}

/// Pushing one move extends a list by its fields.
pub proof fn lemma_extends_push(s: Seq<Move>, m: Move)
    ensures
        extends(s.push(m), s, seq![fields(m)]),
{
}

/// Extensions compose.
pub proof fn lemma_extends_trans(
    a: Seq<Move>,
    b: Seq<Move>,
    s: Seq<Move>,
    l1: Seq<(int, int, int, int)>,
    l2: Seq<(int, int, int, int)>,
)
    requires
        extends(a, s, l1),
        extends(b, a, l2),
    ensures
        extends(b, s, l1 + l2),
{
    assert forall|k: int| 0 <= k < s.len() implies #[trigger] b[k] == s[k] by {
        assert(b[k] == a[k]);
        assert(a[k] == s[k]);
    }
    assert forall|k: int| s.len() <= k < b.len() implies fields(#[trigger] b[k]) == (l1 + l2)[k - s.len()] by {
        if k < a.len() {
            assert(b[k] == a[k]);
            assert(fields(a[k]) == l1[k - s.len()]);
        } else {
            assert(fields(b[k]) == l2[k - a.len()]);
        }
    }
}

} // verus!
