use vstd::prelude::*;

use crate::chess::board::Board;
use crate::eval::params::pair_value;
use crate::eval::score_pair::{eg_of, lemma_wrap_add, lemma_wrap_mul, mg_of, wrap32, ScorePair};
use crate::eval::total::{div_trunc, phase_of};
use crate::types::bitboard::pop_count;
use crate::types::PieceType;

verus! {

/// The groups of parameters of the evaluation, in the order in which they are laid out.
#[derive(Debug, Clone, Copy, PartialEq, Eq, Structural)]
pub enum EvalFeature {
    Material,
    Psqt,
    Mobility,
    PassedPawn,
    PawnPhalanx,
    DefendedPawn,
    SafeKnightCheck,
    SafeBishopCheck,
    SafeRookCheck,
    SafeQueenCheck,
    KingAttackerWeight,
    KingAttacks,
    ThreatByPawn,
    ThreatByKnight,
    ThreatByBishop,
    ThreatByRook,
    ThreatByQueen,
    PushThreat,
    Tempo,
}

/// The number of parameters of the feature with index `i`.
pub open spec fn eval_ft_cnt(i: int) -> int {
    if i == 0 {
        (2 * 6) as int
    } else if i == 1 {
        (2 * 6 * 64) as int
    } else if i == 2 {
        (2 * 4 * 28) as int
    } else if i == 3 {
        (2 * 8) as int
    } else if i == 4 {
        (2 * 8) as int
    } else if i == 5 {
        (2 * 8) as int
    } else if i == 6 {
        (2) as int
    } else if i == 7 {
        (2) as int
    } else if i == 8 {
        (2) as int
    } else if i == 9 {
        (2) as int
    } else if i == 10 {
        (2 * 4) as int
    } else if i == 11 {
        (2 * 14) as int
    } else if i == 12 {
        (2 * 2 * 6) as int
    } else if i == 13 {
        (2 * 2 * 2 * 6) as int
    } else if i == 14 {
        (2 * 2 * 2 * 6) as int
    } else if i == 15 {
        (2 * 2 * 2 * 6) as int
    } else if i == 16 {
        (2 * 2 * 2 * 6) as int
    } else if i == 17 {
        (2 * 2) as int
    } else {
        (1) as int
    }
}

/// The number of parameters of the features with an index below `n`.
pub open spec fn eval_ft_offset(n: int) -> int
    decreases n,
{
    if n <= 0 {
        0
    } else {
        eval_ft_offset(n - 1) + eval_ft_cnt(n - 1)
    }
}

impl EvalFeature {
    /// The number of features.
    pub const TOTAL_FEATURES: u32 = 19;

    /// The index of the feature.
    pub open spec fn view(self) -> int {
        self as int
    }

    /// The feature with index `raw`.
    fn from_raw(raw: u32) -> (r: Self)
        requires
            raw < 19,
        ensures
            r@ == raw,
    {
        match raw {
            0u32 => Self::Material,
            1u32 => Self::Psqt,
            2u32 => Self::Mobility,
            3u32 => Self::PassedPawn,
            4u32 => Self::PawnPhalanx,
            5u32 => Self::DefendedPawn,
            6u32 => Self::SafeKnightCheck,
            7u32 => Self::SafeBishopCheck,
            8u32 => Self::SafeRookCheck,
            9u32 => Self::SafeQueenCheck,
            10u32 => Self::KingAttackerWeight,
            11u32 => Self::KingAttacks,
            12u32 => Self::ThreatByPawn,
            13u32 => Self::ThreatByKnight,
            14u32 => Self::ThreatByBishop,
            15u32 => Self::ThreatByRook,
            16u32 => Self::ThreatByQueen,
            17u32 => Self::PushThreat,
            _ => Self::Tempo,
        }
    }

    /// The number of parameters of the feature.
    pub fn ft_cnt(self) -> (r: u32)
        ensures
            r == eval_ft_cnt(self@),
    {
        match self {
            Self::Material => 2 * 6,
            Self::Psqt => 2 * 6 * 64,
            Self::Mobility => 2 * 4 * 28,
            Self::PassedPawn => 2 * 8,
            Self::PawnPhalanx => 2 * 8,
            Self::DefendedPawn => 2 * 8,
            Self::SafeKnightCheck => 2,
            Self::SafeBishopCheck => 2,
            Self::SafeRookCheck => 2,
            Self::SafeQueenCheck => 2,
            Self::KingAttackerWeight => 2 * 4,
            Self::KingAttacks => 2 * 14,
            Self::ThreatByPawn => 2 * 2 * 6,
            Self::ThreatByKnight => 2 * 2 * 2 * 6,
            Self::ThreatByBishop => 2 * 2 * 2 * 6,
            Self::ThreatByRook => 2 * 2 * 2 * 6,
            Self::ThreatByQueen => 2 * 2 * 2 * 6,
            Self::PushThreat => 2 * 2,
            Self::Tempo => 1,
        }
    }

    /// The index of the first parameter of the feature: the parameters of the features
    /// before it.
    pub fn ft_offset(self) -> (r: u32)
        ensures
            r == eval_ft_offset(self@),
    {
        let mut offset: u32 = 0;
        let mut i: u32 = 0;
        let end = self as u32;
        while i < end
            invariant
                end == self@,
                end < 19,
                i <= end,
                offset == eval_ft_offset(i as int),
            decreases end - i,
        {
            proof {
                lemma_eval_ft_offset_mono(i as int + 1, end as int);
            }
            offset = offset + Self::from_raw(i).ft_cnt();
            i = i + 1;
        }
        offset
    }

    /// The number of parameters of all features.
    pub fn total_fts() -> (r: u32)
        ensures
            r == eval_ft_offset(19),
    {
        let mut count: u32 = 0;
        let mut i: u32 = 0;
        while i < Self::TOTAL_FEATURES
            invariant
                i <= 19,
                count == eval_ft_offset(i as int),
            decreases 19 - i,
        {
            proof {
                lemma_eval_ft_offset_mono(i as int + 1, 19);
            }
            count = count + Self::from_raw(i).ft_cnt();
            i = i + 1;
        }
        count
    }
}

/// The offsets grow with the index and stay within the total of the last.
proof fn lemma_eval_ft_offset_mono(a: int, b: int)
    requires
        0 <= a <= b <= 19,
    ensures
        eval_ft_offset(a) <= eval_ft_offset(b) <= eval_ft_offset(19) < 100000,
    decreases b - a,
{
    reveal_with_fuel(eval_ft_offset, 20);
    if a < b {
        lemma_eval_ft_offset_mono(a + 1, b);
    }
}

/// The groups of parameters of the policy, in the order in which they are laid out.
#[derive(Debug, Clone, Copy, PartialEq, Eq, Structural)]
pub enum PolicyFeature {
    CapBonus,
    PawnProtectedPenalty,
    ThreatEvasion,
    PsqtScore,
    PassedPawnPush,
    Threat,
    PromoBonus,
    BadSeePenalty,
    CheckBonus,
}

/// The number of parameters of the feature with index `i`.
pub open spec fn policy_ft_cnt(i: int) -> int {
    if i == 0 {
        (5) as int
    } else if i == 1 {
        (5) as int
    } else if i == 2 {
        (5 * 5) as int
    } else if i == 3 {
        (6 * 64 * 2) as int
    } else if i == 4 {
        (2 * 8) as int
    } else if i == 5 {
        (5 * 5) as int
    } else if i == 6 {
        (2) as int
    } else if i == 7 {
        (1) as int
    } else {
        (1) as int
    }
}

/// The number of parameters of the features with an index below `n`.
pub open spec fn policy_ft_offset(n: int) -> int
    decreases n,
{
    if n <= 0 {
        0
    } else {
        policy_ft_offset(n - 1) + policy_ft_cnt(n - 1)
    }
}

impl PolicyFeature {
    /// The number of features.
    pub const TOTAL_FEATURES: u32 = 9;

    /// The index of the feature.
    pub open spec fn view(self) -> int {
        self as int
    }

    /// The feature with index `raw`.
    fn from_raw(raw: u32) -> (r: Self)
        requires
            raw < 9,
        ensures
            r@ == raw,
    {
        match raw {
            0u32 => Self::CapBonus,
            1u32 => Self::PawnProtectedPenalty,
            2u32 => Self::ThreatEvasion,
            3u32 => Self::PsqtScore,
            4u32 => Self::PassedPawnPush,
            5u32 => Self::Threat,
            6u32 => Self::PromoBonus,
            7u32 => Self::BadSeePenalty,
            _ => Self::CheckBonus,
        }
    }

    /// The number of parameters of the feature.
    pub fn ft_cnt(self) -> (r: u32)
        ensures
            r == policy_ft_cnt(self@),
    {
        match self {
            Self::CapBonus => 5,
            Self::PawnProtectedPenalty => 5,
            Self::ThreatEvasion => 5 * 5,
            Self::PsqtScore => 6 * 64 * 2,
            Self::PassedPawnPush => 2 * 8,
            Self::Threat => 5 * 5,
            Self::PromoBonus => 2,
            Self::BadSeePenalty => 1,
            Self::CheckBonus => 1,
        }
    }

    /// The index of the first parameter of the feature: the parameters of the features
    /// before it.
    pub fn ft_offset(self) -> (r: u32)
        ensures
            r == policy_ft_offset(self@),
    {
        let mut offset: u32 = 0;
        let mut i: u32 = 0;
        let end = self as u32;
        while i < end
            invariant
                end == self@,
                end < 9,
                i <= end,
                offset == policy_ft_offset(i as int),
            decreases end - i,
        {
            proof {
                lemma_policy_ft_offset_mono(i as int + 1, end as int);
            }
            offset = offset + Self::from_raw(i).ft_cnt();
            i = i + 1;
        }
        offset
    }

    /// The number of parameters of all features.
    pub fn total_fts() -> (r: u32)
        ensures
            r == policy_ft_offset(9),
    {
        let mut count: u32 = 0;
        let mut i: u32 = 0;
        while i < Self::TOTAL_FEATURES
            invariant
                i <= 9,
                count == policy_ft_offset(i as int),
            decreases 9 - i,
        {
            proof {
                lemma_policy_ft_offset_mono(i as int + 1, 9);
            }
            count = count + Self::from_raw(i).ft_cnt();
            i = i + 1;
        }
        count
    }
}

/// The offsets grow with the index and stay within the total of the last.
proof fn lemma_policy_ft_offset_mono(a: int, b: int)
    requires
        0 <= a <= b <= 9,
    ensures
        policy_ft_offset(a) <= policy_ft_offset(b) <= policy_ft_offset(9) < 100000,
    decreases b - a,
{
    reveal_with_fuel(policy_ft_offset, 10);
    if a < b {
        lemma_policy_ft_offset_mono(a + 1, b);
    }
}

/// The material values that seed the tuner, pawn to king; middle and end game values alternate.
pub const DEFAULT_MATERIAL: [i32; 12] = [63, 119, 267, 337, 301, 360, 381, 631, 769, 1197, 0, 0];

/// The difference in the number of pieces of kind `pt` between the side to move and the other
/// side.
pub open spec fn count_diff(b: Board, pt: PieceType) -> int {
    pop_count(b.colored_bb(b.stm_spec(), pt)@) - pop_count(b.colored_bb(b.stm_spec().opp(), pt)@)
}

/// The material balance with the seed values, pawns to queens, before tapering.
pub open spec fn default_material_total(b: Board) -> int {
    pair_value(DEFAULT_MATERIAL@, 0) * count_diff(b, PieceType::Pawn) + pair_value(DEFAULT_MATERIAL@, 1) * count_diff(b, PieceType::Knight)
        + pair_value(DEFAULT_MATERIAL@, 2) * count_diff(b, PieceType::Bishop) + pair_value(DEFAULT_MATERIAL@, 3) * count_diff(b, PieceType::Rook)
        + pair_value(DEFAULT_MATERIAL@, 4) * count_diff(b, PieceType::Queen)
}

/// The material balance of `board` from the side to move's point of view with the seed values,
/// tapered by the game phase like the evaluation.
pub fn compute_default_material(board: &Board) -> (r: i32)
    ensures
        ({
            let t = wrap32(default_material_total(*board));
            let ph = if phase_of(*board) < 24 {
                phase_of(*board)
            } else {
                24
            };
            r == div_trunc(mg_of(t) * ph + eg_of(t) * (24 - ph), 24)
        }),
{
    let ghost b = *board;
    let stm = board.stm();
    let opp = stm.flip();
    let mut material = ScorePair::zero();
    let ghost mut total: int = 0;
    let mut i: usize = 0;
    while i < 5
        invariant
            i <= 5,
            b == *board,
            stm == b.stm_spec(),
            opp == stm.opp(),
            total == (if i > 0 { pair_value(DEFAULT_MATERIAL@, 0) * count_diff(b, PieceType::Pawn) } else { 0 })
                + (if i > 1 { pair_value(DEFAULT_MATERIAL@, 1) * count_diff(b, PieceType::Knight) } else { 0 })
                + (if i > 2 { pair_value(DEFAULT_MATERIAL@, 2) * count_diff(b, PieceType::Bishop) } else { 0 })
                + (if i > 3 { pair_value(DEFAULT_MATERIAL@, 3) * count_diff(b, PieceType::Rook) } else { 0 })
                + (if i > 4 { pair_value(DEFAULT_MATERIAL@, 4) * count_diff(b, PieceType::Queen) } else { 0 }),
            material@ == wrap32(total),
        decreases 5 - i,
    {
        let pt = PieceType::from_raw(i as u8);
        let value = ScorePair::new(DEFAULT_MATERIAL[2 * i], DEFAULT_MATERIAL[2 * i + 1]);
        let diff = board.piece_count(stm, pt) - board.piece_count(opp, pt);
        let term = value.times(diff);
        material = material.plus(term);
        proof {
            let v = pair_value(DEFAULT_MATERIAL@, i as int);
            assert(value@ == v);
            assert(diff == count_diff(b, pt));
            lemma_wrap_mul(v, diff as int);
            lemma_wrap_add(total, term@);
            lemma_wrap_add(total, v * diff);
            total = total + v * diff;
        }
        i = i + 1;
    }
    let phase = (4 * board.pieces(PieceType::Queen).popcount() + 2 * board.pieces(PieceType::Rook).popcount()
        + board.pieces(PieceType::Bishop).popcount() + board.pieces(PieceType::Knight).popcount()) as i32;
    let ph = if phase < 24 {
        phase
    } else {
        24
    };
    let mg = material.mg();
    let eg = material.eg();
    assert(-32768 * 24 <= mg * ph <= 32768 * 24) by (nonlinear_arith)
        requires
            -32768 <= mg < 32768,
            0 <= ph <= 24,
    ;
    assert(-32768 * 24 <= eg * (24 - ph) <= 32768 * 24) by (nonlinear_arith)
        requires
            -32768 <= eg < 32768,
            0 <= ph <= 24,
    ;
    (mg * ph + eg * (24 - ph)) / 24
}

} // verus!
