use vstd::prelude::*;

use super::attacks::{self, pawn_capture_step};
use super::board::{type_of_index, Board};
use super::chess_move::Move;
use super::movegen::piece_reach;
use crate::types::{Bitboard, Color, PieceType, Square};

verus! {

/// The kind of the piece on `t`.
pub open spec fn kind_at(b: Board, t: int) -> PieceType {
    match b.type_at(t) {
        Some(pt) => pt,
        None => PieceType::Pawn,
    }
}

/// The kind of the piece that stands on the target after move `m`: the promotion piece for a
/// promotion, else the moving piece.
pub open spec fn landing_kind(b: Board, m: Move) -> PieceType {
    if m.kind_spec() == 3 {
        type_of_index(m.promo_spec() + 1)
    } else {
        kind_at(b, m.from_spec())
    }
}

/// The occupied squares after move `m`: its origin emptied, its target filled.
pub open spec fn occ_after(b: Board, m: Move) -> Bitboard {
    Bitboard::from_raw_spec(
        (b.occ_bb()@ & !(1u64 << (m.from_spec() as u64))) | (1u64 << (m.to_spec() as u64)),
    )
}

/// Whether the piece that stands on the target after move `m` attacks the king of the other
/// side from there; a king gives no check.
pub open spec fn gives_direct_check_spec(b: Board, m: Move) -> bool {
    let k = b.king_square(b.stm_spec().opp());
    let to = m.to_spec();
    match landing_kind(b, m) {
        PieceType::Pawn => pawn_capture_step(b.stm_spec() == Color::White, to, k),
        PieceType::King => false,
        pt => piece_reach(pt, to, k, occ_after(b, m)),
    }
}

impl Board {
    /// Whether the piece that stands on the target after `mv` attacks the other king from
    /// there, as `gives_direct_check_spec` states. Discovered checks are not counted.
    pub fn gives_direct_check(&self, mv: Move) -> (r: bool)
        requires
            self.wf(),
            self.has_king(self.stm_spec().opp()),
        ensures
            r == gives_direct_check_spec(*self, mv),
    {
        let from = mv.from_sq();
        let to = mv.to_sq();
        let their_king = self.king_sq(self.stm().flip());
        proof {
            self.lemma_wf_piece_at(from@);
        }
        let pt = if mv.kind() == super::chess_move::MoveKind::Promotion {
            mv.promo_piece()
        } else {
            match self.piece_at(from) {
                Some(p) => p.piece_type(),
                None => PieceType::Pawn,
            }
        };
        proof {
            if mv.kind_spec() != 3 {
                match self.piece_at_spec(from@) {
                    Some(p) => {
                        crate::types::piece::lemma_piece_round_trip(p, p.color_spec(), p.type_spec());
                    },
                    None => {},
                }
            }
        }
        match pt {
            PieceType::Pawn => attacks::pawn_attacks(self.stm(), to).has(their_king),
            PieceType::King => false,
            _ => {
                let occ = self.occ().bit_and(Bitboard::from_square(from).bit_not()).bit_or(Bitboard::from_square(to));
                proof {
                    Bitboard::lemma_from_raw_spec(occ@);
                    Bitboard::lemma_view_injective(occ, occ_after(*self, mv));
                }
                attacks::piece_attacks(pt, to, occ).has(their_king)
            },
        }
    }
}

} // verus!
