use vstd::prelude::*;

use crate::chess::board::Board;
use crate::chess::chess_move::Move;
use crate::chess::movegen::{movegen, pseudo_legal};
use crate::eval::total::div_trunc;

verus! {

/// How a game stands at a node: going on, lost by checkmate, or drawn.
#[derive(Debug, Clone, Copy, PartialEq, Eq, Structural)]
pub enum GameResult {
    NonTerminal,
    Mated,
    Drawn,
}

/// A proven result in plies: a loss or a win for the side to move at the node.
#[derive(Debug, Clone, Copy, PartialEq, Eq, Structural)]
pub enum MateScore {
    Loss(u16),
    Win(u16),
}

/// The limits of a search; a negative value means no limit.
#[derive(Debug, Clone, Copy, PartialEq, Eq, Structural)]
pub struct SearchLimits {
    pub use_clock: bool,
    pub time: i32,
    pub inc: i32,
    pub max_depth: i32,
    pub max_time: i32,
    pub max_nodes: i32,
}

impl SearchLimits {
    /// No limit at all, the clock unused.
    pub fn new() -> (r: SearchLimits)
        ensures
            !r.use_clock,
            r.time == -1 && r.inc == -1,
            r.max_depth == -1 && r.max_time == -1 && r.max_nodes == -1,
    {
        SearchLimits { use_clock: false, time: -1, inc: -1, max_depth: -1, max_time: -1, max_nodes: -1 }
    }

    /// Whether the search goes on for another iteration after `iters` iterations: when there
    /// is no node limit, or `iters` is at most the limit.
    pub fn more_iterations(&self, iters: u32) -> (r: bool)
        ensures
            r == (self.max_nodes < 0 || iters <= self.max_nodes),
    {
        self.max_nodes < 0 || iters <= self.max_nodes as u32
    }

    /// Whether the search stops on reaching depth `depth`: when a positive depth limit is
    /// reached.
    pub fn depth_reached(&self, depth: u32) -> (r: bool)
        ensures
            r == (self.max_depth > 0 && depth >= self.max_depth),
    {
        self.max_depth > 0 && depth >= self.max_depth as u32
    }

    /// Whether the time is up after `elapsed_ms` milliseconds: a time limit that is reached,
    /// or with the clock a twentieth of the time left plus half the increment spent.
    pub fn time_up(&self, elapsed_ms: i32) -> (r: bool)
        ensures
            r == ((self.max_time >= 0 && elapsed_ms >= self.max_time) || (self.use_clock && elapsed_ms
                >= div_trunc(self.time as int, 20) + div_trunc(self.inc as int, 2))),
    {
        (self.max_time >= 0 && elapsed_ms >= self.max_time) || (self.use_clock && elapsed_ms >= self.time / 20
            + self.inc / 2)
    }
}

/// The game result of a position: with no pseudo-legal move the side to move is mated when
/// in check and drawn otherwise; else drawn when `drawn` (the position repeats or the
/// fifty move rule applies), else the game goes on. The side to move must have a king.
pub fn game_result(board: &Board, drawn: bool) -> (r: GameResult)
    requires
        board.has_king(board.stm_spec()),
    ensures
        r == (if forall|m: Move| !#[trigger] pseudo_legal(*board, m) {
            if board.checkers_spec()@ != 0 {
                GameResult::Mated
            } else {
                GameResult::Drawn
            }
        } else if drawn {
            GameResult::Drawn
        } else {
            GameResult::NonTerminal
        }),
{
    let moves = movegen(board);
    if moves.len() == 0 {
        assert forall|m: Move| !#[trigger] pseudo_legal(*board, m) by {
            if pseudo_legal(*board, m) {
                assert(moves@.contains(m));
            }
        }
        if board.checkers().any() {
            GameResult::Mated
        } else {
            GameResult::Drawn
        }
    } else {
        assert(moves@.contains(moves@[0]));
        assert(pseudo_legal(*board, moves@[0]));
        if drawn {
            GameResult::Drawn
        } else {
            GameResult::NonTerminal
        }
    }
}

/// The proven result of a node from its game result and its mate distance (positive for a
/// win, negative for a loss, never zero): a checkmated node is lost at distance 0.
pub fn mate_score(result: GameResult, mate_dist: Option<i16>) -> (r: Option<MateScore>)
    requires
        mate_dist != Some(0i16),
    ensures
        r == (if result == GameResult::Mated {
            Some(MateScore::Loss(0))
        } else {
            match mate_dist {
                Some(d) => if d > 0 {
                    Some(MateScore::Win(d as u16))
                } else {
                    Some(MateScore::Loss((-d) as u16))
                },
                None => None,
            }
        }),
{
    if result == GameResult::Mated {
        Some(MateScore::Loss(0))
    } else {
        match mate_dist {
            Some(d) => {
                let dist = d as i32;
                if dist > 0 {
                    Some(MateScore::Win(dist as u16))
                } else {
                    Some(MateScore::Loss((-dist) as u16))
                }
            },
            None => None,
        }
    }
}

/// Tries to prove a win at a node after a child was proven lost at distance
/// `-backprop_mate_dist` (0 or less): the node wins one ply later unless it already wins
/// sooner. Returns the mate distance to store, if it changes, and the distance proven.
pub fn prove_mate_win(current: Option<MateScore>, backprop_mate_dist: i32) -> (r: (Option<i16>, Option<i32>))
    requires
        -32766 <= backprop_mate_dist <= 0,
    ensures
        ({
            let d = -backprop_mate_dist + 1;
            r == match current {
                Some(MateScore::Win(dist)) => if d < dist {
                    (Some(d as i16), Some(d as i32))
                } else {
                    (None, None)
                },
                _ => (Some(d as i16), Some(d as i32)),
            }
        }),
{
    let move_mate_dist = -backprop_mate_dist + 1;
    let replace = move_mate_dist as i16;
    match current {
        Some(MateScore::Loss(_)) => (Some(replace), Some(move_mate_dist)),
        Some(MateScore::Win(dist)) => {
            if move_mate_dist < dist as i32 {
                (Some(replace), Some(move_mate_dist))
            } else {
                (None, None)
            }
        },
        None => (Some(replace), Some(move_mate_dist)),
    }
}

/// The largest distance among the first `n` children when all of them are proven wins.
pub open spec fn max_win_dist(children: Seq<Option<MateScore>>, n: int) -> int
    decreases n,
{
    if n <= 0 {
        0
    } else {
        let rest = max_win_dist(children, n - 1);
        match children[n - 1] {
            Some(MateScore::Win(d)) => if d > rest {
                d as int
            } else {
                rest
            },
            _ => rest,
        }
    }
}

/// Whether all children are proven wins for the side that moves after the node.
pub open spec fn all_children_win(children: Seq<Option<MateScore>>) -> bool {
    forall|i: int| 0 <= i < children.len() ==> (#[trigger] children[i] matches Some(MateScore::Win(_)))
}

/// Tries to prove a loss at a node whose children have the proven results `children`: the
/// node is lost when every child is a win for the other side, one ply after the longest of
/// those wins, unless the node is already lost sooner. Returns the mate distance to store, if
/// it changes, and the distance proven.
pub fn prove_mate_loss(children: &Vec<Option<MateScore>>, current: Option<MateScore>) -> (r: (Option<i16>, Option<i32>))
    requires
        all_children_win(children@) ==> max_win_dist(children@, children@.len() as int) > 0,
        all_children_win(children@) ==> !(current matches Some(MateScore::Win(_))),
        max_win_dist(children@, children@.len() as int) < 32767,
    ensures
        !all_children_win(children@) ==> r == (None::<i16>, None::<i32>),
        all_children_win(children@) ==> ({
            let d = -max_win_dist(children@, children@.len() as int) - 1;
            r == match current {
                Some(MateScore::Loss(dist)) => if -d < dist {
                    (Some(d as i16), Some(d as i32))
                } else {
                    (None, None)
                },
                _ => (Some(d as i16), Some(d as i32)),
            }
        }),
{
    let mut max_dist: i32 = 0;
    let mut i: usize = 0;
    while i < children.len()
        invariant
            i <= children.len(),
            max_dist == max_win_dist(children@, i as int),
            forall|j: int| 0 <= j < i ==> (#[trigger] children@[j] matches Some(MateScore::Win(_))),
            max_win_dist(children@, children@.len() as int) < 32767,
        decreases children.len() - i,
    {
        proof {
            lemma_max_win_mono(children@, i as int + 1, children@.len() as int);
        }
        match children[i] {
            Some(MateScore::Win(child_dist)) => {
                if child_dist as i32 > max_dist {
                    max_dist = child_dist as i32;
                }
            },
            _ => {
                return (None, None);
            },
        }
        i = i + 1;
    }
    let move_dist = -max_dist - 1;
    let replace = move_dist as i16;
    match current {
        Some(MateScore::Loss(mate_dist)) => {
            if -move_dist < mate_dist as i32 {
                (Some(replace), Some(move_dist))
            } else {
                (None, None)
            }
        },
        _ => (Some(replace), Some(move_dist)),
    }
}

/// The largest win distance over more children is at least as large.
proof fn lemma_max_win_mono(children: Seq<Option<MateScore>>, a: int, b: int)
    requires
        a <= b,
    ensures
        max_win_dist(children, a) <= max_win_dist(children, b),
    decreases b - a,
{
    if a < b {
        lemma_max_win_mono(children, a, b - 1);
    }
}

} // verus!
