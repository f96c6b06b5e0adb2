use vstd::prelude::*;

use super::score_pair::{wrap32, ScorePair};
use crate::types::square::{flipped_index, relative_index};
use crate::types::{Color, PieceType, Square};

verus! {

/// Material by piece kind, pawn to king. Middle and end game values alternate.
pub const MATERIAL: [i32; 12] = [
    62, 156, 219, 333, 252, 358, 319, 608, 624, 1138, 0, 0,
];

/// Piece square values by piece kind, then square index from white's side with a8 first. Middle and end game values alternate.
pub const PSQT: [i32; 768] = [
    0, 0, 0, 0, 0, 0, 0, 0, 0, 0, 0, 0, 0, 0, 0, 0,
    79, 87, 43, 97, 32, 85, 64, 64, 50, 82, -6, 106, 8, 106, 16, 102,
    5, 66, 3, 54, -1, 41, 33, 8, 21, 14, -29, 45, 3, 50, 0, 60,
    -17, 9, -1, -3, -2, -26, 1, -33, 10, -40, -1, -32, 11, -20, -9, -8,
    -29, -20, -22, -22, -4, -48, -4, -46, 0, -55, -1, -51, -15, -32, -20, -36,
    -32, -29, -14, -33, -17, -48, -17, -36, -7, -44, -18, -43, 14, -47, -21, -40,
    -35, -16, -8, -29, -19, -37, -25, -47, -15, -33, -4, -37, 20, -47, -22, -36,
    0, 0, 0, 0, 0, 0, 0, 0, 0, 0, 0, 0, 0, 0, 0, 0,
    -51, -42, -8, -22, -40, 1, -13, -2, 39, -18, -66, -14, -37, -20, 2, -72,
    -5, -5, -8, 3, 6, -1, 9, -1, 11, 2, 12, -5, -41, 5, 15, -6,
    16, -5, 10, 2, 3, 20, 25, 14, 27, 14, 38, 17, 16, 10, 26, 4,
    19, 3, 16, 16, 19, 23, 32, 26, 32, 27, 32, 23, 30, 19, 40, 2,
    5, 9, 4, 6, 11, 27, 10, 27, 9, 29, 25, 21, 20, 9, 13, 13,
    -19, -13, -4, -2, -10, 10, -2, 22, 5, 18, -4, 9, 12, -2, -8, -11,
    -18, -31, -22, 1, -10, -14, -7, 7, -2, 0, 2, -9, -8, -3, -5, -12,
    -42, -38, -29, -26, -24, -13, -20, -8, -16, -4, -8, -8, -28, -7, -30, -24,
    -11, 0, -35, 4, -26, -8, -39, -4, -12, -10, -65, -2, -7, 3, 7, -5,
    -19, -4, -16, -1, -1, -2, -3, -3, -35, -1, -1, -2, -42, 4, -20, -11,
    10, -6, 16, 1, 5, 16, 19, 7, 30, 1, 21, 24, 14, 9, 30, -4,
    5, -10, 8, 14, 8, 21, 24, 26, 22, 28, 18, 20, 18, 8, 14, -7,
    10, -15, -2, 7, 11, 18, 14, 27, 12, 23, 10, 16, 3, 11, 18, -19,
    4, -10, 14, 0, 3, 14, 3, 14, 1, 11, 7, 7, 13, -1, 7, -10,
    6, -8, 8, -11, 7, -13, -7, -9, -1, -8, 13, -13, 21, -9, 3, -28,
    -16, -7, -10, -9, -6, -28, -28, -10, -13, -19, -18, -5, -9, -20, -15, -4,
    45, 9, 60, 7, 51, 11, 64, 1, 62, 4, 72, -1, 55, 4, 45, 5,
    19, 19, 23, 21, 37, 13, 60, 0, 66, -4, 61, -2, 45, 9, 44, 10,
    -15, 17, 2, 12, -4, 6, 15, -8, 26, -11, 28, -8, 20, -2, 10, -1,
    -22, 16, -13, 12, -3, 7, -2, -1, 5, -9, 6, -5, 9, 0, 2, -6,
    -39, 15, -34, 16, -19, 10, -26, 8, -20, 2, -18, 2, -5, 0, -27, 2,
    -48, 13, -34, 8, -37, 8, -37, 7, -27, -3, -28, -3, -11, -5, -34, 1,
    -55, -1, -39, -10, -36, -5, -33, -10, -28, -14, -28, -15, -11, -27, -34, -26,
    -36, -13, -30, -4, -22, -1, -16, -4, -10, -13, -20, -9, -11, -21, -23, -32,
    6, 2, 14, 17, 40, 0, 20, 40, 36, 33, 90, 12, 46, 17, 32, 13,
    -5, 9, -30, 56, -11, 67, -4, 58, 3, 72, 37, 74, 6, 50, 34, 18,
    -10, -4, -10, 32, -12, 53, -5, 59, -1, 77, 39, 77, 16, 66, 37, 15,
    -13, 3, -18, 38, -20, 48, -24, 73, -19, 77, -9, 61, -6, 51, 42, -61,
    -7, -20, -23, 15, -21, 38, -24, 54, -16, 34, -11, 34, -1, 12, 2, -18,
    -19, -35, -12, -12, -19, 17, -16, -12, -14, -7, -5, -7, 0, -19, 0, -46,
    -17, -49, -15, -36, -4, -70, -10, -68, -5, -59, 1, -83, 6, -79, 6, -82,
    -14, -72, -14, -83, -7, -83, -7, -62, 0, -86, -10, -118, -19, -105, -4, -99,
    -85, 34, 82, -6, 38, -1, 121, -36, 136, -61, 126, -36, 47, 32, 124, -3,
    -165, 64, -21, 64, 73, 7, 72, 7, 46, 15, 83, 10, 109, 27, -18, 30,
    -54, 38, 7, 53, 7, 32, 31, 24, 40, 24, 86, 24, 55, 48, -118, 58,
    -116, 22, -44, 44, -4, 23, -61, 36, -51, 35, -51, 39, -80, 57, -155, 35,
    -141, 7, 9, 8, -38, 14, -60, 22, -68, 24, -46, 20, -59, 26, -130, 10,
    1, -30, 35, -11, -23, 0, -25, 5, -34, 6, -25, 0, 12, -2, -33, -17,
    41, -51, 43, -31, 22, -35, 3, -25, -7, -19, 9, -30, 49, -30, 38, -46,
    -19, -85, 54, -62, 40, -66, -19, -60, 25, -79, -6, -67, 52, -52, 38, -86,
];

/// Mobility by piece kind, knight to queen, then number of reachable squares. Middle and end game values alternate.
pub const MOBILITY: [i32; 224] = [
    -28, -54, -27, -41, -14, -13, -4, 3, 2, 12, 6, 23, 12, 26, 22, 27,
    32, 17, 0, 0, 0, 0, 0, 0, 0, 0, 0, 0, 0, 0, 0, 0,
    0, 0, 0, 0, 0, 0, 0, 0, 0, 0, 0, 0, 0, 0, 0, 0,
    0, 0, 0, 0, 0, 0, 0, 0, 0, -53, -14, -49, -22, -14, -15, 5,
    -8, 11, -4, 19, -3, 22, 0, 20, 3, 19, 6, 14, 5, 14, 13, -1,
    12, 4, 28, -10, 0, 0, 0, 0, 0, 0, 0, 0, 0, 0, 0, 0,
    0, 0, 0, 0, 0, 0, 0, 0, 0, 0, 0, 0, 0, 0, 0, 0,
    -59, -95, -9, -74, -15, -52, -16, -14, -12, 0, -10, 12, -6, 19, -5, 22,
    1, 25, 5, 26, 11, 29, 15, 30, 19, 33, 22, 35, 60, 3, 0, 0,
    0, 0, 0, 0, 0, 0, 0, 0, 0, 0, 0, 0, 0, 0, 0, 0,
    0, 0, 0, 0, 0, 0, 0, 0, -203, -339, -203, -339, -130, -332, -9, -110,
    -7, -13, -36, 115, -13, 62, -9, 66, -6, 70, -6, 80, -6, 93, -5, 99,
    -2, 101, -1, 100, -1, 99, 3, 97, 4, 94, 8, 85, 11, 73, 15, 67,
    25, 49, 48, 15, 58, 9, 86, -29, 83, -40, 123, -69, 75, -43, 98, -59,
];

/// Passed pawns by relative rank. Middle and end game values alternate.
pub const PASSED_PAWN: [i32; 16] = [
    0, 0, 1, -77, -8, -57, -20, -7, -7, 37, -1, 84, 87, 196, 0, 0,
];

/// Passed pawns by the distance of the own king. Middle and end game values alternate.
pub const OUR_PASSER_DIST: [i32; 16] = [
    0, 0, -11, 57, -1, 34, 5, 18, 6, 12, 6, 14, 10, 15, -1, 13,
];

/// Passed pawns by the distance of the other king. Middle and end game values alternate.
pub const THEIR_PASSER_DIST: [i32; 16] = [
    0, 0, 5, -17, 15, 15, 6, 32, 1, 40, -4, 43, -2, 44, -17, 41,
];

/// Blocked passed pawns by relative rank, from the fourth. Middle and end game values alternate.
pub const PASSED_BLOCKED: [i32; 8] = [
    6, -28, 14, -57, 22, -117, -42, -246,
];

/// Passed pawns with a safe push square by relative rank, from the fourth. Middle and end game values alternate.
pub const PASSED_SAFE_ADV: [i32; 8] = [
    -5, 15, -14, 44, -7, 65, -17, 137,
];

/// Pawns with a pawn beside them by relative rank. Middle and end game values alternate.
pub const PAWN_PHALANX: [i32; 16] = [
    0, 0, 5, -3, 8, 9, 13, 26, 22, 74, 103, 136, 235, 295, 0, 0,
];

/// Pawns defended by a pawn by relative rank. Middle and end game values alternate.
pub const DEFENDED_PAWN: [i32; 16] = [
    0, 0, 0, 0, 12, 18, 10, 19, 15, 29, 57, 64, 166, 72, 0, 0,
];

/// A safe knight check. Middle and end game values alternate.
pub const SAFE_KNIGHT_CHECK: [i32; 2] = [
    17, 2,
];

/// A safe bishop check. Middle and end game values alternate.
pub const SAFE_BISHOP_CHECK: [i32; 2] = [
    6, 19,
];

/// A safe rook check. Middle and end game values alternate.
pub const SAFE_ROOK_CHECK: [i32; 2] = [
    61, -2,
];

/// A safe queen check. Middle and end game values alternate.
pub const SAFE_QUEEN_CHECK: [i32; 2] = [
    27, 16,
];

/// Pieces that attack the king ring by kind, knight to queen. Middle and end game values alternate.
pub const KING_ATTACKER_WEIGHT: [i32; 8] = [
    12, 14, 9, 17, 11, 11, 0, 65,
];

/// Attacks on the king ring by their number, up to 13. Middle and end game values alternate.
pub const KING_ATTACKS: [i32; 28] = [
    -25, 32, -38, 13, -39, 8, -42, 8, -33, -1, -19, -11, 3, -20, 33, -37,
    71, -53, 106, -61, 145, -84, 186, -103, 221, -135, 245, -50,
];

/// Shield pawns by distance of the file to the edge, then relative rank. Middle and end game values alternate.
pub const PAWN_SHIELD: [i32; 64] = [
    16, 6, -5, 14, -11, 16, -2, 8, 12, -9, 11, -26, -7, -41, 0, 0,
    7, 7, -14, -2, -13, 7, -9, 5, 7, -8, 2, -25, 13, -43, 0, 0,
    8, 5, -6, 0, 3, -1, 3, 1, 2, -4, -11, -8, -6, -31, 0, 0,
    5, 5, -3, -2, -7, 8, -6, 9, -4, 5, 11, -12, 55, -34, 0, 0,
];

/// Storming pawns by distance of the file to the edge, then relative rank. Middle and end game values alternate.
pub const PAWN_STORM: [i32; 64] = [
    4, 27, -58, -33, 25, -53, 8, -6, 3, 14, 2, 21, 4, 17, 0, 0,
    -2, 11, -5, -57, 46, -47, -7, -9, -1, -3, -12, 7, -8, 9, 0, 0,
    -4, 11, 51, -63, 61, -49, 4, -6, -3, 7, -8, 12, -3, 8, 0, 0,
    2, 5, 38, -57, 0, -25, 0, 0, 0, 7, -3, 4, -6, 10, 0, 0,
];

/// Pawn threats by side (other, to move), then threatened kind. Middle and end game values alternate.
pub const THREAT_BY_PAWN: [i32; 24] = [
    -23, -73, 60, 45, 45, 60, 46, 37, -23, 198, 0, 0, -18, -53, 120, 211,
    134, 243, 132, 486, 332, 1061, 0, 0,
];

/// Knight threats by side, then defended, then threatened kind. Middle and end game values alternate.
pub const THREAT_BY_KNIGHT: [i32; 48] = [
    9, 41, -26, -29, 31, 48, 52, 39, 51, 34, 0, 0, 1, 14, -29, -42,
    25, 40, 40, 46, 36, 63, 0, 0, 14, 57, 12, 60, 81, 171, 75, 397,
    245, 1008, 0, 0, -7, 12, -26, -35, 35, 47, 60, 193, 217, 672, 0, 0,
];

/// Bishop threats by side, then defended, then threatened kind. Middle and end game values alternate.
pub const THREAT_BY_BISHOP: [i32; 48] = [
    9, 31, 43, 58, -7, -4, 45, 59, 70, 95, 0, 0, 1, 8, 23, 39,
    -19, -34, 36, 79, 49, 141, 0, 0, 23, 50, 81, 163, 45, 70, 120, 417,
    279, 948, 0, 0, -5, 7, 18, 45, -21, -26, 55, 231, 294, 511, 0, 0,
];

/// Rook threats by side, then defended, then threatened kind. Middle and end game values alternate.
pub const THREAT_BY_ROOK: [i32; 48] = [
    4, 58, 36, 68, 51, 76, -78, -175, 77, 56, 0, 0, -6, 30, 13, 28,
    23, 30, -91, -185, 77, 88, 0, 0, 4, 79, 47, 209, 84, 231, -42, 274,
    290, 1155, 0, 0, -8, 16, 14, 10, 21, 11, -81, -196, 212, 601, 0, 0,
];

/// Queen threats by side, then defended, then threatened kind. Middle and end game values alternate.
pub const THREAT_BY_QUEEN: [i32; 48] = [
    12, 1, 33, 27, 42, 41, 45, 44, -84, -270, 0, 0, -2, 2, 3, 0,
    7, 6, 2, 13, -122, -256, 0, 0, 25, 44, 75, 178, 113, 196, 203, 328,
    197, 645, 0, 0, -5, 2, -2, 4, 0, 19, -2, 5, -120, -254, 0, 0,
];

/// Threats after a pawn push by side (other, to move). Middle and end game values alternate.
pub const PUSH_THREAT: [i32; 4] = [
    7, 12, 14, 11,
];

/// The bonus of the side to move.
pub const TEMPO: i32 = 18;

/// The pair stored at position `i` of a table whose middle and end game values alternate.
pub open spec fn pair_value(t: Seq<i32>, i: int) -> int {
    wrap32(t[2 * i + 1] * 65536 + t[2 * i])
}

/// The pair stored at position `i` of `t`.
fn table_pair<const N: usize>(t: &[i32; N], i: usize) -> (r: ScorePair)
    requires
        2 * i + 1 < N,
    ensures
        r@ == pair_value(t@, i as int),
{
    ScorePair::new(t[2 * i], t[2 * i + 1])
}

/// The terms of the evaluation.
pub trait EvalValues {
    /// The material value of a piece kind.
    spec fn material_spec(pt: PieceType) -> int;

    /// The material value of a piece kind.
    fn material(pt: PieceType) -> (r: ScorePair)
        ensures
            r@ == Self::material_spec(pt),
    ;

    /// The piece square value of a piece of color `c` and kind `pt` on `sq`.
    spec fn psqt_spec(c: Color, pt: PieceType, sq: int) -> int;

    /// The piece square value of a piece of color `c` and kind `pt` on `sq`.
    fn psqt(c: Color, pt: PieceType, sq: Square) -> (r: ScorePair)
        ensures
            r@ == Self::psqt_spec(c, pt, sq@),
    ;

    /// The mobility value of a knight, bishop, rook or queen that reaches `mob` squares.
    spec fn mobility_spec(pt: PieceType, mob: u32) -> int;

    /// The mobility value of a knight, bishop, rook or queen that reaches `mob` squares.
    fn mobility(pt: PieceType, mob: u32) -> (r: ScorePair)
        requires
            1 <= pt@ <= 4,
            mob < 28,
        ensures
            r@ == Self::mobility_spec(pt, mob),
    ;

    /// The value of a passed pawn on relative rank `rank`.
    spec fn passed_pawn_spec(rank: u8) -> int;

    /// The value of a passed pawn on relative rank `rank`.
    fn passed_pawn(rank: u8) -> (r: ScorePair)
        requires
            rank < 8,
        ensures
            r@ == Self::passed_pawn_spec(rank),
    ;

    /// The value of a passed pawn at king distance `dist` from the own king.
    spec fn our_passer_dist_spec(dist: i32) -> int;

    /// The value of a passed pawn at king distance `dist` from the own king.
    fn our_passer_dist(dist: i32) -> (r: ScorePair)
        requires
            0 <= dist < 8,
        ensures
            r@ == Self::our_passer_dist_spec(dist),
    ;

    /// The value of a passed pawn at king distance `dist` from the other king.
    spec fn their_passer_dist_spec(dist: i32) -> int;

    /// The value of a passed pawn at king distance `dist` from the other king.
    fn their_passer_dist(dist: i32) -> (r: ScorePair)
        requires
            0 <= dist < 8,
        ensures
            r@ == Self::their_passer_dist_spec(dist),
    ;

    /// The value of a blocked passed pawn on relative rank `rank`.
    spec fn passed_blocked_spec(rank: u8) -> int;

    /// The value of a blocked passed pawn on relative rank `rank`.
    fn passed_blocked(rank: u8) -> (r: ScorePair)
        requires
            3 <= rank < 7,
        ensures
            r@ == Self::passed_blocked_spec(rank),
    ;

    /// The value of a passed pawn with a safe push square on relative rank `rank`.
    spec fn passed_safe_adv_spec(rank: u8) -> int;

    /// The value of a passed pawn with a safe push square on relative rank `rank`.
    fn passed_safe_adv(rank: u8) -> (r: ScorePair)
        requires
            3 <= rank < 7,
        ensures
            r@ == Self::passed_safe_adv_spec(rank),
    ;

    /// The value of a pawn with a pawn beside it on relative rank `rank`.
    spec fn pawn_phalanx_spec(rank: u8) -> int;

    /// The value of a pawn with a pawn beside it on relative rank `rank`.
    fn pawn_phalanx(rank: u8) -> (r: ScorePair)
        requires
            rank < 8,
        ensures
            r@ == Self::pawn_phalanx_spec(rank),
    ;

    /// The value of a pawn defended by a pawn on relative rank `rank`.
    spec fn defended_pawn_spec(rank: u8) -> int;

    /// The value of a pawn defended by a pawn on relative rank `rank`.
    fn defended_pawn(rank: u8) -> (r: ScorePair)
        requires
            rank < 8,
        ensures
            r@ == Self::defended_pawn_spec(rank),
    ;

    /// The value of a safe knight check.
    spec fn safe_knight_check_spec() -> int;

    /// The value of a safe knight check.
    fn safe_knight_check() -> (r: ScorePair)
        ensures
            r@ == Self::safe_knight_check_spec(),
    ;

    /// The value of a safe bishop check.
    spec fn safe_bishop_check_spec() -> int;

    /// The value of a safe bishop check.
    fn safe_bishop_check() -> (r: ScorePair)
        ensures
            r@ == Self::safe_bishop_check_spec(),
    ;

    /// The value of a safe rook check.
    spec fn safe_rook_check_spec() -> int;

    /// The value of a safe rook check.
    fn safe_rook_check() -> (r: ScorePair)
        ensures
            r@ == Self::safe_rook_check_spec(),
    ;

    /// The value of a safe queen check.
    spec fn safe_queen_check_spec() -> int;

    /// The value of a safe queen check.
    fn safe_queen_check() -> (r: ScorePair)
        ensures
            r@ == Self::safe_queen_check_spec(),
    ;

    /// The value of a knight, bishop, rook or queen that attacks the king ring.
    spec fn king_attacker_weight_spec(pt: PieceType) -> int;

    /// The value of a knight, bishop, rook or queen that attacks the king ring.
    fn king_attacker_weight(pt: PieceType) -> (r: ScorePair)
        requires
            1 <= pt@ <= 4,
        ensures
            r@ == Self::king_attacker_weight_spec(pt),
    ;

    /// The value of `attacks` attacks on the king ring.
    spec fn king_attacks_spec(attacks: u32) -> int;

    /// The value of `attacks` attacks on the king ring.
    fn king_attacks(attacks: u32) -> (r: ScorePair)
        requires
            attacks < 14,
        ensures
            r@ == Self::king_attacks_spec(attacks),
    ;

    /// The value of a shield pawn on relative rank `rank` of a file `edge_dist` files from the edge.
    spec fn pawn_shield_spec(edge_dist: u8, rank: u8) -> int;

    /// The value of a shield pawn on relative rank `rank` of a file `edge_dist` files from the edge.
    fn pawn_shield(edge_dist: u8, rank: u8) -> (r: ScorePair)
        requires
            edge_dist < 4,
            rank < 8,
        ensures
            r@ == Self::pawn_shield_spec(edge_dist, rank),
    ;

    /// The value of a storming pawn on relative rank `rank` of a file `edge_dist` files from the edge.
    spec fn pawn_storm_spec(edge_dist: u8, rank: u8) -> int;

    /// The value of a storming pawn on relative rank `rank` of a file `edge_dist` files from the edge.
    fn pawn_storm(edge_dist: u8, rank: u8) -> (r: ScorePair)
        requires
            edge_dist < 4,
            rank < 8,
        ensures
            r@ == Self::pawn_storm_spec(edge_dist, rank),
    ;

    /// The value of a pawn threat on a piece of kind `pt`.
    spec fn threat_by_pawn_spec(stm: bool, pt: PieceType) -> int;

    /// The value of a pawn threat on a piece of kind `pt`.
    fn threat_by_pawn(stm: bool, pt: PieceType) -> (r: ScorePair)
        ensures
            r@ == Self::threat_by_pawn_spec(stm, pt),
    ;

    /// The value of a knight threat on a piece of kind `pt`.
    spec fn threat_by_knight_spec(stm: bool, pt: PieceType, defended: bool) -> int;

    /// The value of a knight threat on a piece of kind `pt`.
    fn threat_by_knight(stm: bool, pt: PieceType, defended: bool) -> (r: ScorePair)
        ensures
            r@ == Self::threat_by_knight_spec(stm, pt, defended),
    ;

    /// The value of a bishop threat on a piece of kind `pt`.
    spec fn threat_by_bishop_spec(stm: bool, pt: PieceType, defended: bool) -> int;

    /// The value of a bishop threat on a piece of kind `pt`.
    fn threat_by_bishop(stm: bool, pt: PieceType, defended: bool) -> (r: ScorePair)
        ensures
            r@ == Self::threat_by_bishop_spec(stm, pt, defended),
    ;

    /// The value of a rook threat on a piece of kind `pt`.
    spec fn threat_by_rook_spec(stm: bool, pt: PieceType, defended: bool) -> int;

    /// The value of a rook threat on a piece of kind `pt`.
    fn threat_by_rook(stm: bool, pt: PieceType, defended: bool) -> (r: ScorePair)
        ensures
            r@ == Self::threat_by_rook_spec(stm, pt, defended),
    ;

    /// The value of a queen threat on a piece of kind `pt`.
    spec fn threat_by_queen_spec(stm: bool, pt: PieceType, defended: bool) -> int;

    /// The value of a queen threat on a piece of kind `pt`.
    fn threat_by_queen(stm: bool, pt: PieceType, defended: bool) -> (r: ScorePair)
        ensures
            r@ == Self::threat_by_queen_spec(stm, pt, defended),
    ;

    /// The value of a threat that a pawn push makes.
    spec fn push_threat_spec(stm: bool) -> int;

    /// The value of a threat that a pawn push makes.
    fn push_threat(stm: bool) -> (r: ScorePair)
        ensures
            r@ == Self::push_threat_spec(stm),
    ;

    /// The bonus of the side to move.
    spec fn tempo_spec() -> int;

    /// The bonus of the side to move.
    fn tempo() -> (r: i32)
        ensures
            r == Self::tempo_spec(),
    ;
}

/// The tuned values of the evaluation terms.
pub struct EvalParams {}

impl EvalValues for EvalParams {
    open spec fn material_spec(pt: PieceType) -> int {
        pair_value(MATERIAL@, pt@)
    }

    fn material(pt: PieceType) -> (r: ScorePair) {
        table_pair(&MATERIAL, pt.index())
    }

    open spec fn psqt_spec(c: Color, pt: PieceType, sq: int) -> int {
        pair_value(PSQT@, 64 * pt@ + flipped_index(relative_index(sq, c == Color::White)))
    }

    fn psqt(c: Color, pt: PieceType, sq: Square) -> (r: ScorePair) {
        table_pair(&PSQT, 64 * pt.index() + (sq.relative_sq(c).flip().value() as usize))
    }

    open spec fn mobility_spec(pt: PieceType, mob: u32) -> int {
        pair_value(MOBILITY@, 28 * (pt@ - 1) + mob)
    }

    fn mobility(pt: PieceType, mob: u32) -> (r: ScorePair) {
        table_pair(&MOBILITY, 28 * (pt.index() - 1) + (mob as usize))
    }

    open spec fn passed_pawn_spec(rank: u8) -> int {
        pair_value(PASSED_PAWN@, rank as int)
    }

    fn passed_pawn(rank: u8) -> (r: ScorePair) {
        table_pair(&PASSED_PAWN, rank as usize)
    }

    open spec fn our_passer_dist_spec(dist: i32) -> int {
        pair_value(OUR_PASSER_DIST@, dist as int)
    }

    fn our_passer_dist(dist: i32) -> (r: ScorePair) {
        table_pair(&OUR_PASSER_DIST, dist as usize)
    }

    open spec fn their_passer_dist_spec(dist: i32) -> int {
        pair_value(THEIR_PASSER_DIST@, dist as int)
    }

    fn their_passer_dist(dist: i32) -> (r: ScorePair) {
        table_pair(&THEIR_PASSER_DIST, dist as usize)
    }

    open spec fn passed_blocked_spec(rank: u8) -> int {
        pair_value(PASSED_BLOCKED@, rank - 3)
    }

    fn passed_blocked(rank: u8) -> (r: ScorePair) {
        table_pair(&PASSED_BLOCKED, (rank - 3) as usize)
    }

    open spec fn passed_safe_adv_spec(rank: u8) -> int {
        pair_value(PASSED_SAFE_ADV@, rank - 3)
    }

    fn passed_safe_adv(rank: u8) -> (r: ScorePair) {
        table_pair(&PASSED_SAFE_ADV, (rank - 3) as usize)
    }

    open spec fn pawn_phalanx_spec(rank: u8) -> int {
        pair_value(PAWN_PHALANX@, rank as int)
    }

    fn pawn_phalanx(rank: u8) -> (r: ScorePair) {
        table_pair(&PAWN_PHALANX, rank as usize)
    }

    open spec fn defended_pawn_spec(rank: u8) -> int {
        pair_value(DEFENDED_PAWN@, rank as int)
    }

    fn defended_pawn(rank: u8) -> (r: ScorePair) {
        table_pair(&DEFENDED_PAWN, rank as usize)
    }

    open spec fn safe_knight_check_spec() -> int {
        pair_value(SAFE_KNIGHT_CHECK@, 0)
    }

    fn safe_knight_check() -> (r: ScorePair) {
        table_pair(&SAFE_KNIGHT_CHECK, 0)
    }

    open spec fn safe_bishop_check_spec() -> int {
        pair_value(SAFE_BISHOP_CHECK@, 0)
    }

    fn safe_bishop_check() -> (r: ScorePair) {
        table_pair(&SAFE_BISHOP_CHECK, 0)
    }

    open spec fn safe_rook_check_spec() -> int {
        pair_value(SAFE_ROOK_CHECK@, 0)
    }

    fn safe_rook_check() -> (r: ScorePair) {
        table_pair(&SAFE_ROOK_CHECK, 0)
    }

    open spec fn safe_queen_check_spec() -> int {
        pair_value(SAFE_QUEEN_CHECK@, 0)
    }

    fn safe_queen_check() -> (r: ScorePair) {
        table_pair(&SAFE_QUEEN_CHECK, 0)
    }

    open spec fn king_attacker_weight_spec(pt: PieceType) -> int {
        pair_value(KING_ATTACKER_WEIGHT@, pt@ - 1)
    }

    fn king_attacker_weight(pt: PieceType) -> (r: ScorePair) {
        table_pair(&KING_ATTACKER_WEIGHT, pt.index() - 1)
    }

    open spec fn king_attacks_spec(attacks: u32) -> int {
        pair_value(KING_ATTACKS@, attacks as int)
    }

    fn king_attacks(attacks: u32) -> (r: ScorePair) {
        table_pair(&KING_ATTACKS, attacks as usize)
    }

    open spec fn pawn_shield_spec(edge_dist: u8, rank: u8) -> int {
        pair_value(PAWN_SHIELD@, 8 * edge_dist + rank)
    }

    fn pawn_shield(edge_dist: u8, rank: u8) -> (r: ScorePair) {
        table_pair(&PAWN_SHIELD, 8 * (edge_dist as usize) + (rank as usize))
    }

    open spec fn pawn_storm_spec(edge_dist: u8, rank: u8) -> int {
        pair_value(PAWN_STORM@, 8 * edge_dist + rank)
    }

    fn pawn_storm(edge_dist: u8, rank: u8) -> (r: ScorePair) {
        table_pair(&PAWN_STORM, 8 * (edge_dist as usize) + (rank as usize))
    }

    open spec fn threat_by_pawn_spec(stm: bool, pt: PieceType) -> int {
        pair_value(THREAT_BY_PAWN@, 6 * (if stm { 1int } else { 0int }) + pt@)
    }

    fn threat_by_pawn(stm: bool, pt: PieceType) -> (r: ScorePair) {
        table_pair(&THREAT_BY_PAWN, 6 * (stm as usize) + pt.index())
    }

    open spec fn threat_by_knight_spec(stm: bool, pt: PieceType, defended: bool) -> int {
        pair_value(THREAT_BY_KNIGHT@, 12 * (if stm { 1int } else { 0int }) + 6 * (if defended { 1int } else { 0int }) + pt@)
    }

    fn threat_by_knight(stm: bool, pt: PieceType, defended: bool) -> (r: ScorePair) {
        table_pair(&THREAT_BY_KNIGHT, 12 * (stm as usize) + 6 * (defended as usize) + pt.index())
    }

    open spec fn threat_by_bishop_spec(stm: bool, pt: PieceType, defended: bool) -> int {
        pair_value(THREAT_BY_BISHOP@, 12 * (if stm { 1int } else { 0int }) + 6 * (if defended { 1int } else { 0int }) + pt@)
    }

    fn threat_by_bishop(stm: bool, pt: PieceType, defended: bool) -> (r: ScorePair) {
        table_pair(&THREAT_BY_BISHOP, 12 * (stm as usize) + 6 * (defended as usize) + pt.index())
    }

    open spec fn threat_by_rook_spec(stm: bool, pt: PieceType, defended: bool) -> int {
        pair_value(THREAT_BY_ROOK@, 12 * (if stm { 1int } else { 0int }) + 6 * (if defended { 1int } else { 0int }) + pt@)
    }

    fn threat_by_rook(stm: bool, pt: PieceType, defended: bool) -> (r: ScorePair) {
        table_pair(&THREAT_BY_ROOK, 12 * (stm as usize) + 6 * (defended as usize) + pt.index())
    }

    open spec fn threat_by_queen_spec(stm: bool, pt: PieceType, defended: bool) -> int {
        pair_value(THREAT_BY_QUEEN@, 12 * (if stm { 1int } else { 0int }) + 6 * (if defended { 1int } else { 0int }) + pt@)
    }

    fn threat_by_queen(stm: bool, pt: PieceType, defended: bool) -> (r: ScorePair) {
        table_pair(&THREAT_BY_QUEEN, 12 * (stm as usize) + 6 * (defended as usize) + pt.index())
    }

    open spec fn push_threat_spec(stm: bool) -> int {
        pair_value(PUSH_THREAT@, (if stm { 1int } else { 0int }))
    }

    fn push_threat(stm: bool) -> (r: ScorePair) {
        table_pair(&PUSH_THREAT, stm as usize)
    }

    open spec fn tempo_spec() -> int {
        TEMPO as int
    }

    fn tempo() -> (r: i32) {
        TEMPO
    }
}

} // verus!
