//! Static evaluation: a pure function of material counts.
//!
//! The evaluator is deliberately material-only: the score of a position is
//! the sum, over the side to move's pieces, of fixed piece values, minus the
//! same sum for the opponent.  Kings are not counted; checkmate is handled
//! structurally by the search, not by the evaluator.

use vstd::prelude::*;

verus! {

pub const PAWN_VALUE: i32 = 100;

pub const KNIGHT_VALUE: i32 = 320;

pub const BISHOP_VALUE: i32 = 330;

pub const ROOK_VALUE: i32 = 500;

pub const QUEEN_VALUE: i32 = 900;

/// Largest value one side's material sum can take: every count is a `u8`,
/// so it is bounded by 255 * (100 + 320 + 330 + 500 + 900).
pub const MAX_SIDE_SCORE: i32 = 255 * 2150;

/// The number of pieces of each role that one side has on the board.
/// Kings carry no material value and are not recorded.
#[derive(Clone, Copy, PartialEq, Eq, Structural, Debug)]
pub struct SideMaterial {
    pub pawns: u8,
    pub knights: u8,
    pub bishops: u8,
    pub rooks: u8,
    pub queens: u8,
}

/// The material sum of one side: each count weighted by its piece value.
pub open spec fn side_value(m: SideMaterial) -> int {
    (m.pawns as int) * (PAWN_VALUE as int) + (m.knights as int) * (KNIGHT_VALUE as int)
        + (m.bishops as int) * (BISHOP_VALUE as int) + (m.rooks as int) * (ROOK_VALUE as int)
        + (m.queens as int) * (QUEEN_VALUE as int)
}

/// The score of a position from the mover's perspective: the mover's
/// material sum minus the opponent's.
pub open spec fn material_score(player: SideMaterial, enemy: SideMaterial) -> int {
    side_value(player) - side_value(enemy)
}

/// One side's weighted material sum.
pub fn score(side: &SideMaterial) -> (r: i32)
    ensures
        r == side_value(*side),
        0 <= r <= MAX_SIDE_SCORE,
{
    let mut s: i32 = 0;
    s += (side.pawns as i32) * PAWN_VALUE;
    s += (side.knights as i32) * KNIGHT_VALUE;
    s += (side.bishops as i32) * BISHOP_VALUE;
    s += (side.rooks as i32) * ROOK_VALUE;
    s += (side.queens as i32) * QUEEN_VALUE;
    s
}

/// The static evaluation, side-to-move relative: positive favors the mover.
pub fn calculate_score(player: &SideMaterial, enemy: &SideMaterial) -> (r: i32)
    ensures
        r == material_score(*player, *enemy),
        -MAX_SIDE_SCORE <= r <= MAX_SIDE_SCORE,
{
    let player_score = score(player);
    let enemy_score = score(enemy);
    player_score - enemy_score
}

/// Determinism of evaluation: the score is a pure function of the piece
/// counts per side.  Two positions with identical material evaluate equally,
/// regardless of where the pieces stand.
pub proof fn lemma_score_determined_by_material(
    p1: SideMaterial,
    e1: SideMaterial,
    p2: SideMaterial,
    e2: SideMaterial,
)
    requires
        p1 == p2,
        e1 == e2,
    ensures
        material_score(p1, e1) == material_score(p2, e2),
{
}

} // verus!
