use vstd::prelude::*;

use crate::stats::PositionStats;

verus! {

/// Weight of one game played in a ranking score, in millionths of a point:
/// each game adds a hundredth of a point.
pub const GAME_WEIGHT: i128 = 10_000;

/// The ranking score of a position summary, in millionths of a point:
/// hit differential times MVP points, plus a hundredth of a point per game
/// played.
pub open spec fn smvp_of(stats: PositionStats) -> int {
    stats.hit_diff * stats.mvp + stats.games_played * GAME_WEIGHT
}

/// Ranking score of a position summary; see [`smvp_of`].
pub fn calculate_smvp(stats: PositionStats) -> (r: i128)
    ensures
        r == smvp_of(stats),
{
    proof {
        lemma_smvp_bounds(stats);
    }
    stats.hit_diff as i128 * stats.mvp as i128 + stats.games_played as i128 * GAME_WEIGHT
}

/// Every ranking score lies well inside the range of `i128`.
pub proof fn lemma_smvp_bounds(stats: PositionStats)
    ensures
        -0x4000_0000_0000_0000_0000_0000_0000_0000 <= stats.hit_diff * stats.mvp
            <= 0x4000_0000_0000_0000_0000_0000_0000_0000,
        0 <= stats.games_played * GAME_WEIGHT <= 0x1_0000_0000_0000_0000_0000,
        -0x4000_0000_0000_0000_0000_0000_0000_0000 <= smvp_of(stats)
            <= 0x4000_0000_0000_0000_0000_0000_0000_0000 + 0x1_0000_0000_0000_0000_0000,
{
    let h = stats.hit_diff as int;
    let m = stats.mvp as int;
    let g = stats.games_played as int;
    assert(-0x4000_0000_0000_0000_0000_0000_0000_0000 <= h * m <= 0x4000_0000_0000_0000_0000_0000_0000_0000)
        by (nonlinear_arith)
        requires
            -0x8000_0000_0000_0000 <= h <= 0x7fff_ffff_ffff_ffff,
            -0x8000_0000_0000_0000 <= m <= 0x7fff_ffff_ffff_ffff,
    ;
    assert(0 <= g * 10_000 <= 0x1_0000_0000_0000_0000_0000) by (nonlinear_arith)
        requires
            0 <= g <= 0xffff_ffff_ffff_ffff,
    ;
}

} // verus!
