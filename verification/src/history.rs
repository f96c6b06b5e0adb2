use vstd::prelude::*;

use crate::chess::board::Board;
use crate::chess::chess_move::Move;
use crate::eval::total::div_trunc;

verus! {

/// The bound that the gravity update keeps history scores near.
pub const MAX_HISTORY: i16 = 8192;

/// The index of the entry of side `c` (0 or 1) for a move from `from` to `to`.
pub open spec fn entry_index(c: int, from: int, to: int) -> int {
    (c * 64 + from) * 64 + to
}

/// The score of a move after the gravity update with `bonus`: the bonus is added, less its
/// size times the score divided by `MAX_HISTORY`.
pub open spec fn gravity(score: int, bonus: int) -> int {
    let size = if bonus < 0 {
        -bonus
    } else {
        bonus
    };
    score + (bonus - div_trunc(size * score, 8192))
}

/// Whether the gravity update of `score` with `bonus` stays within `i16` at every step.
pub open spec fn gravity_fits(score: int, bonus: int) -> bool {
    let size = if bonus < 0 {
        -bonus
    } else {
        bonus
    };
    &&& bonus > i16::MIN
    &&& i16::MIN <= size * score <= i16::MAX
    &&& i16::MIN <= bonus - div_trunc(size * score, 8192) <= i16::MAX
    &&& i16::MIN <= gravity(score, bonus) <= i16::MAX
}

/// Scores of moves by side to move, origin and target.
pub struct History {
    entries: Vec<i16>,
}

impl History {
    /// The score of side `c` (0 white, 1 black) for a move from `from` to `to`.
    pub closed spec fn score(&self, c: int, from: int, to: int) -> int {
        self.entries@[entry_index(c, from, to)] as int
    }

    /// The table holds an entry for each side, origin and target.
    pub closed spec fn wf(&self) -> bool {
        self.entries@.len() == 8192
    }

    /// A table of zero scores.
    pub fn new() -> (r: History)
        ensures
            r.wf(),
            forall|c: int, f: int, t: int| 0 <= c < 2 && 0 <= f < 64 && 0 <= t < 64 ==> #[trigger] r.score(c, f, t) == 0,
    {
        let mut entries: Vec<i16> = Vec::new();
        let mut i: usize = 0;
        while i < 8192
            invariant
                i <= 8192,
                entries@.len() == i,
                forall|j: int| 0 <= j < i ==> #[trigger] entries@[j] == 0,
            decreases 8192 - i,
        {
            entries.push(0);
            i = i + 1;
        }
        let r = History { entries };
        proof {
            assert forall|c: int, f: int, t: int| 0 <= c < 2 && 0 <= f < 64 && 0 <= t < 64 implies #[trigger] r.score(c, f, t) == 0 by {
                assert(0 <= entry_index(c, f, t) < 8192) by (nonlinear_arith)
                    requires
                        0 <= c < 2,
                        0 <= f < 64,
                        0 <= t < 64,
                ;
            }
        }
        r
    }

    /// The score of `mv` for the side to move on `board`.
    pub fn get(&self, board: &Board, mv: Move) -> (r: i32)
        requires
            self.wf(),
        ensures
            r == self.score(board.stm_spec()@, mv.from_spec(), mv.to_spec()),
    {
        let i = Self::index(board, mv);
        self.entries[i] as i32
    }

    /// The entry of `mv` for the side to move on `board`.
    fn index(board: &Board, mv: Move) -> (r: usize)
        ensures
            r == entry_index(board.stm_spec()@, mv.from_spec(), mv.to_spec()),
            r < 8192,
    {
        let c = board.stm().index();
        let f = mv.from_sq().value() as usize;
        let t = mv.to_sq().value() as usize;
        assert((c * 64 + f) * 64 + t < 8192) by (nonlinear_arith)
            requires
                c < 2,
                f < 64,
                t < 64,
        ;
        (c * 64 + f) * 64 + t
    }

    /// Applies the gravity update with `bonus` to the score of `mv` for the side to move on
    /// `board`; the other scores stay.
    pub fn update_with_bonus(&mut self, board: &Board, mv: Move, bonus: i16)
        requires
            old(self).wf(),
            gravity_fits(old(self).score(board.stm_spec()@, mv.from_spec(), mv.to_spec()), bonus as int),
        ensures
            final(self).wf(),
            final(self).score(board.stm_spec()@, mv.from_spec(), mv.to_spec()) == gravity(
                old(self).score(board.stm_spec()@, mv.from_spec(), mv.to_spec()),
                bonus as int,
            ),
            forall|c: int, f: int, t: int| 0 <= c < 2 && 0 <= f < 64 && 0 <= t < 64 && entry_index(c, f, t) != entry_index(
                board.stm_spec()@,
                mv.from_spec(),
                mv.to_spec(),
            ) ==> #[trigger] final(self).score(c, f, t) == old(self).score(c, f, t),
    {
        let i = Self::index(board, mv);
        let score = self.entries[i];
        let size: i16 = if bonus < 0 {
            -bonus
        } else {
            bonus
        };
        let product: i16 = size * score;
        let step: i16 = bonus - product / MAX_HISTORY;
        let updated: i16 = score + step;
        self.entries.set(i, updated);
        proof {
            assert forall|c: int, f: int, t: int| 0 <= c < 2 && 0 <= f < 64 && 0 <= t < 64 && entry_index(c, f, t) != i implies #[trigger] self.score(c, f, t) == old(self).score(c, f, t) by {
                assert(0 <= entry_index(c, f, t) < 8192) by (nonlinear_arith)
                    requires
                        0 <= c < 2,
                        0 <= f < 64,
                        0 <= t < 64,
                ;
            }
        }
    }

    /// Sets every score to zero.
    pub fn clear(&mut self)
        requires
            old(self).wf(),
        ensures
            final(self).wf(),
            forall|c: int, f: int, t: int| 0 <= c < 2 && 0 <= f < 64 && 0 <= t < 64 ==> #[trigger] final(self).score(c, f, t) == 0,
    {
        let mut i: usize = 0;
        while i < self.entries.len()
            invariant
                self.entries@.len() == 8192,
                i <= 8192,
                forall|j: int| 0 <= j < i ==> #[trigger] self.entries@[j] == 0,
            decreases 8192 - i,
        {
            self.entries.set(i, 0);
            i = i + 1;
        }
        proof {
            assert forall|c: int, f: int, t: int| 0 <= c < 2 && 0 <= f < 64 && 0 <= t < 64 implies #[trigger] self.score(c, f, t) == 0 by {
                assert(0 <= entry_index(c, f, t) < 8192) by (nonlinear_arith)
                    requires
                        0 <= c < 2,
                        0 <= f < 64,
                        0 <= t < 64,
                ;
            }
        }
    }
}

} // verus!
