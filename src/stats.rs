use vstd::prelude::*;

use crate::aggregate::{find_mean, find_median, mean_of, median_of};
use crate::error::SelectionError;
use crate::positions::{position_label, set_position_from_index, POSITION_COUNT};

verus! {

/// MVP points assumed at a position with no recorded games: 7 points, in thousandths.
pub const DEFAULT_MVP: i64 = 7000;

/// Hit differential assumed at a position with no recorded games: 1.0, in thousandths.
pub const DEFAULT_HIT_DIFF: i64 = 1000;

/// How a column of past results is reduced to one value.
#[allow(non_camel_case_types)]
#[derive(Clone, Copy, Debug, PartialEq, Eq, Structural)]
pub enum MVPCalculationMode {
    Median,
    Mean,
    /// Median of the last N games: declared, not implemented.
    Last_N_Median,
    /// Mean of the last N games: declared, not implemented.
    Last_N_Mean,
}

/// One recorded game of a player: points in thousandths, and the label of
/// the position played.
#[derive(Clone, Debug, PartialEq, Eq)]
pub struct ScoreRow {
    pub mvp_points: i64,
    pub hit_diff: i64,
    pub position: String,
    pub player_name: String,
}

/// Summary of a player's games at one position. `mvp` and `hit_diff` are in
/// thousandths of a point.
#[derive(Clone, Copy, Debug, PartialEq, Eq, Structural)]
pub struct PositionStats {
    pub mvp: i64,
    pub hit_diff: i64,
    pub games_played: u64,
}

/// A player with one summary per position.
#[derive(Clone, Debug, PartialEq, Eq)]
pub struct PlayerStats {
    pub player_id: u64,
    pub player_name: String,
    pub commander_stats: PositionStats,
    pub heavy_stats: PositionStats,
    pub scout_stats: PositionStats,
    pub ammo_stats: PositionStats,
    pub medic_stats: PositionStats,
}

/// The summary of `player` for position `pos`.
pub open spec fn stat_block(player: PlayerStats, pos: int) -> PositionStats {
    if pos == 0 {
        player.commander_stats
    } else if pos == 1 {
        player.heavy_stats
    } else if pos == 2 {
        player.scout_stats
    } else if pos == 3 {
        player.ammo_stats
    } else {
        player.medic_stats
    }
}

/// Whether the mode has an implementation.
pub open spec fn mode_supported(mode: MVPCalculationMode) -> bool {
    mode is Median || mode is Mean
}

/// A column reduced by `mode`, or `fallback` when it is empty.
pub open spec fn aggregate_of(s: Seq<i64>, mode: MVPCalculationMode, fallback: int) -> int {
    if s.len() == 0 {
        fallback
    } else if mode is Median {
        median_of(s)
    } else {
        mean_of(s)
    }
}

/// The rows recorded at position `p`, in the order given.
pub open spec fn rows_at(rows: Seq<ScoreRow>, p: int) -> Seq<ScoreRow>
    decreases rows.len(),
{
    if rows.len() == 0 {
        rows
    } else {
        let prev = rows_at(rows.drop_last(), p);
        if rows.last().position@ == position_label(p) {
            prev.push(rows.last())
        } else {
            prev
        }
    }
}

pub open spec fn mvp_column(rows: Seq<ScoreRow>) -> Seq<i64> {
    rows.map_values(|r: ScoreRow| r.mvp_points)
}

pub open spec fn hit_diff_column(rows: Seq<ScoreRow>) -> Seq<i64> {
    rows.map_values(|r: ScoreRow| r.hit_diff)
}

/// The summary of the rows at position `p` under a supported mode.
pub open spec fn position_summary(rows: Seq<ScoreRow>, p: int, mode: MVPCalculationMode) -> PositionStats {
    let at = rows_at(rows, p);
    PositionStats {
        mvp: aggregate_of(mvp_column(at), mode, DEFAULT_MVP as int) as i64,
        hit_diff: aggregate_of(hit_diff_column(at), mode, DEFAULT_HIT_DIFF as int) as i64,
        games_played: at.len() as u64,
    }
}

/// The display name taken from a player's rows.
pub open spec fn name_from_rows(rows: Seq<ScoreRow>) -> Seq<char> {
    if rows.len() == 0 {
        "Unknown Player"@
    } else {
        rows[0].player_name@
    }
}

proof fn lemma_rows_at_len(rows: Seq<ScoreRow>, p: int)
    ensures
        rows_at(rows, p).len() <= rows.len(),
    decreases rows.len(),
{
    if rows.len() > 0 {
        lemma_rows_at_len(rows.drop_last(), p);
    }
}

/// Reduces `stats` by `mode`; an empty column gives `fallback`. The last-N
/// modes are refused.
pub fn calculate_stats(stats: &Vec<i64>, mode: MVPCalculationMode, fallback: i64) -> (r: Result<
    i64,
    SelectionError,
>)
    ensures
        mode_supported(mode) ==> r == Ok::<i64, SelectionError>(
            aggregate_of(stats@, mode, fallback as int) as i64,
        ) && aggregate_of(stats@, mode, fallback as int) == r->Ok_0 as int,
        !mode_supported(mode) ==> r == Err::<i64, SelectionError>(SelectionError::NotImplemented),
{
    match mode {
        MVPCalculationMode::Median => match find_median(stats) {
            Some(v) => Ok(v),
            None => Ok(fallback),
        },
        MVPCalculationMode::Mean => match find_mean(stats) {
            Some(v) => Ok(v),
            None => Ok(fallback),
        },
        MVPCalculationMode::Last_N_Median => Err(SelectionError::NotImplemented),
        MVPCalculationMode::Last_N_Mean => Err(SelectionError::NotImplemented),
    }
}

/// Summary of the rows recorded at position `p`.
pub fn summarize_position(rows: &Vec<ScoreRow>, p: u64, mode: MVPCalculationMode) -> (r: Result<
    PositionStats,
    SelectionError,
>)
    requires
        p < POSITION_COUNT,
    ensures
        mode_supported(mode) ==> r == Ok::<PositionStats, SelectionError>(
            position_summary(rows@, p as int, mode),
        ),
        !mode_supported(mode) ==> r == Err::<PositionStats, SelectionError>(
            SelectionError::NotImplemented,
        ),
{
    let label = set_position_from_index(p);
    let mut mvps: Vec<i64> = Vec::new();
    let mut hit_diffs: Vec<i64> = Vec::new();
    let mut game_count: u64 = 0;
    let mut i: usize = 0;
    while i < rows.len()
        invariant
            i <= rows@.len(),
            label@ == position_label(p as int),
            mvps@ == mvp_column(rows_at(rows@.take(i as int), p as int)),
            hit_diffs@ == hit_diff_column(rows_at(rows@.take(i as int), p as int)),
            game_count == rows_at(rows@.take(i as int), p as int).len(),
        decreases rows@.len() - i,
    {
        let ghost before = rows@.take(i as int);
        assert(rows@.take(i + 1).drop_last() == before);
        proof {
            lemma_rows_at_len(before, p as int);
        }
        if rows[i].position == label {
            mvps.push(rows[i].mvp_points);
            hit_diffs.push(rows[i].hit_diff);
            game_count = game_count + 1;
            assert(mvps@ =~= mvp_column(rows_at(rows@.take(i + 1), p as int)));
            assert(hit_diffs@ =~= hit_diff_column(rows_at(rows@.take(i + 1), p as int)));
        }
        i = i + 1;
    }
    assert(rows@.take(i as int) == rows@);
    let mvp = calculate_stats(&mvps, mode, DEFAULT_MVP)?;
    let hit_diff = calculate_stats(&hit_diffs, mode, DEFAULT_HIT_DIFF)?;
    Ok(PositionStats { mvp, hit_diff, games_played: game_count })
}

/// The summaries of a player, built from all of their recorded rows. Rows
/// whose position label is none of the five canonical labels count nowhere.
pub fn player_stats_from_rows(player_id: u64, rows: &Vec<ScoreRow>, mode: MVPCalculationMode) -> (r:
    Result<PlayerStats, SelectionError>)
    ensures
        mode_supported(mode) <==> r is Ok,
        !mode_supported(mode) ==> r == Err::<PlayerStats, SelectionError>(
            SelectionError::NotImplemented,
        ),
        r matches Ok(player) ==> {
            &&& player.player_id == player_id
            &&& player.player_name@ == name_from_rows(rows@)
            &&& forall|k: int|
                0 <= k < POSITION_COUNT ==> #[trigger] stat_block(player, k) == position_summary(
                    rows@,
                    k,
                    mode,
                )
        },
{
    let commander_stats = summarize_position(rows, 0, mode)?;
    let heavy_stats = summarize_position(rows, 1, mode)?;
    let scout_stats = summarize_position(rows, 2, mode)?;
    let ammo_stats = summarize_position(rows, 3, mode)?;
    let medic_stats = summarize_position(rows, 4, mode)?;
    let player_name = if rows.len() == 0 {
        proof {
            reveal_strlit("Unknown Player");
        }
        "Unknown Player".to_owned()
    } else {
        rows[0].player_name.clone()
    };
    Ok(PlayerStats {
        player_id,
        player_name,
        commander_stats,
        heavy_stats,
        scout_stats,
        ammo_stats,
        medic_stats,
    })
}

/// The summary of `player` for the position with index `position`.
pub fn retrieve_stat_block_from_position(position: u64, player: &PlayerStats) -> (r: PositionStats)
    requires
        position < POSITION_COUNT,
    ensures
        r == stat_block(*player, position as int),
{
    if position == 0 {
        player.commander_stats
    } else if position == 1 {
        player.heavy_stats
    } else if position == 2 {
        player.scout_stats
    } else if position == 3 {
        player.ammo_stats
    } else {
        player.medic_stats
    }
}

} // verus!
