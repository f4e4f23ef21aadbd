//! A roster as a grid of slots, team by team: replacing and exchanging
//! slots, binding a player into a slot, and counting the free slots.
use vstd::prelude::*;

use crate::ledger::{same_positions, valid_cell};
use crate::positions::POSITION_COUNT;
use crate::roster::{cells, uniform_layout, PlayerSlot};
use crate::score::{calculate_smvp, lemma_smvp_bounds, smvp_of};
use crate::stats::{retrieve_stat_block_from_position, stat_block, PlayerStats, PositionStats};

verus! {

/// The grid with slot `s` of team `t` replaced by `v`.
pub open spec fn set_cell(g: Seq<Seq<PlayerSlot>>, t: int, s: int, v: PlayerSlot) -> Seq<Seq<PlayerSlot>> {
    g.update(t, g[t].update(s, v))
}

/// Ranking score of `player` at position `pos`.
pub open spec fn player_score(player: PlayerStats, pos: u64) -> int {
    smvp_of(stat_block(player, pos as int))
}

/// `slot` holding `player`, with the player's score at the slot's position.
pub open spec fn bind(slot: PlayerSlot, player: PlayerStats) -> PlayerSlot {
    PlayerSlot {
        position: slot.position,
        player_id: Some(player.player_id),
        smvp: player_score(player, slot.position) as i128,
        player_name: player.player_name,
    }
}

/// The score stored in a bound slot is the player's score, which fits in
/// `i128`.
pub proof fn lemma_bind_score_fits(slot: PlayerSlot, player: PlayerStats)
    ensures
        bind(slot, player).smvp == player_score(player, slot.position),
{
    lemma_smvp_bounds(stat_block(player, slot.position as int));
}

/// Puts `player` into `slot`, with `pos_stats` as the player's summary at the
/// slot's position.
pub(crate) fn map_player_to_slot(player: PlayerStats, pos_stats: PositionStats, slot: &mut PlayerSlot)
    ensures
        *final(slot) == (PlayerSlot {
            position: old(slot).position,
            player_id: Some(player.player_id),
            smvp: smvp_of(pos_stats) as i128,
            player_name: player.player_name,
        }),
{
    slot.player_id = Some(player.player_id);
    slot.player_name = player.player_name;
    slot.smvp = calculate_smvp(pos_stats);
}

/// Binds `player` into slot `s` of team `t`.
pub(crate) fn assign_slot(game: &mut Vec<Vec<PlayerSlot>>, t: usize, s: usize, player: PlayerStats)
    requires
        t < old(game)@.len(),
        s < old(game)@[t as int]@.len(),
        old(game)@[t as int]@[s as int].position < POSITION_COUNT,
    ensures
        final(game)@.len() == old(game)@.len(),
        cells(final(game)@) == set_cell(
            cells(old(game)@),
            t as int,
            s as int,
            bind(cells(old(game)@)[t as int][s as int], player),
        ),
{
    let ghost before = cells(game@);
    let position = game[t][s].position;
    let stats = retrieve_stat_block_from_position(position, &player);
    proof {
        lemma_bind_score_fits(before[t as int][s as int], player);
    }
    map_player_to_slot(player, stats, &mut game[t][s]);
    assert(cells(game@) =~= set_cell(before, t as int, s as int, bind(before[t as int][s as int], player)));
}

/// The grid with slot `s` of the first two teams exchanged.
pub open spec fn swap_cells(g: Seq<Seq<PlayerSlot>>, s: int) -> Seq<Seq<PlayerSlot>> {
    set_cell(set_cell(g, 0, s, g[1][s]), 1, s, g[0][s])
}

/// Exchanges slot `s` of the first two teams.
pub(crate) fn swap_first_teams(roster: &mut Vec<Vec<PlayerSlot>>, s: usize)
    requires
        old(roster)@.len() >= 2,
        s < old(roster)@[0]@.len(),
        s < old(roster)@[1]@.len(),
    ensures
        final(roster)@.len() == old(roster)@.len(),
        cells(final(roster)@) == swap_cells(cells(old(roster)@), s as int),
{
    let ghost g = cells(roster@);
    let mut held = PlayerSlot { position: 0, player_id: None, smvp: 0, player_name: String::new() };
    let ghost a = roster@[0]@[s as int];
    let ghost b = roster@[1]@[s as int];
    std::mem::swap(&mut held, &mut roster[0][s]);
    assert(held == a);
    assert(roster@[1]@ == g[1]);
    std::mem::swap(&mut held, &mut roster[1][s]);
    assert(held == b);
    assert(roster@[1]@ == g[1].update(s as int, a));
    std::mem::swap(&mut held, &mut roster[0][s]);
    assert(roster@[0]@ == g[0].update(s as int, b));
    assert(roster@[1]@ == g[1].update(s as int, a));
    assert(cells(roster@) =~= swap_cells(g, s as int));
}

/// Number of unassigned slots of a team.
pub open spec fn open_in_row(row: Seq<PlayerSlot>) -> int
    decreases row.len(),
{
    if row.len() == 0 {
        0
    } else {
        open_in_row(row.drop_last()) + if row.last().player_id is None {
            1int
        } else {
            0int
        }
    }
}

/// Number of unassigned slots of a grid.
pub open spec fn open_cells(g: Seq<Seq<PlayerSlot>>) -> int
    decreases g.len(),
{
    if g.len() == 0 {
        0
    } else {
        open_cells(g.drop_last()) + open_in_row(g.last())
    }
}

pub open spec fn open_weight(slot: PlayerSlot) -> int {
    if slot.player_id is None {
        1
    } else {
        0
    }
}

pub proof fn lemma_open_row_update(row: Seq<PlayerSlot>, s: int, v: PlayerSlot)
    requires
        0 <= s < row.len(),
    ensures
        open_in_row(row.update(s, v)) == open_in_row(row) - open_weight(row[s]) + open_weight(v),
        open_in_row(row) >= open_weight(row[s]),
    decreases row.len(),
{
    let r2 = row.update(s, v);
    if s == row.len() - 1 {
        assert(r2.drop_last() == row.drop_last());
        lemma_open_row_nonneg(row.drop_last());
    } else {
        lemma_open_row_update(row.drop_last(), s, v);
        assert(r2.drop_last() == row.drop_last().update(s, v));
    }
}

pub proof fn lemma_open_row_nonneg(row: Seq<PlayerSlot>)
    ensures
        open_in_row(row) >= 0,
    decreases row.len(),
{
    if row.len() > 0 {
        lemma_open_row_nonneg(row.drop_last());
    }
}

pub proof fn lemma_open_cells_nonneg(g: Seq<Seq<PlayerSlot>>)
    ensures
        open_cells(g) >= 0,
    decreases g.len(),
{
    if g.len() > 0 {
        lemma_open_cells_nonneg(g.drop_last());
        lemma_open_row_nonneg(g.last());
    }
}

/// Replacing one slot changes the count of unassigned slots by the
/// difference of the two slots.
pub proof fn lemma_open_cells_update(g: Seq<Seq<PlayerSlot>>, t: int, s: int, v: PlayerSlot)
    requires
        0 <= t < g.len(),
        0 <= s < g[t].len(),
    ensures
        open_cells(set_cell(g, t, s, v)) == open_cells(g) - open_weight(g[t][s]) + open_weight(v),
        open_cells(g) >= open_weight(g[t][s]),
    decreases g.len(),
{
    let g2 = set_cell(g, t, s, v);
    lemma_open_row_update(g[t], s, v);
    if t == g.len() - 1 {
        assert(g2.drop_last() == g.drop_last());
        lemma_open_cells_nonneg(g.drop_last());
    } else {
        lemma_open_cells_update(g.drop_last(), t, s, v);
        assert(g2.drop_last() == set_cell(g.drop_last(), t, s, v));
        lemma_open_row_nonneg(g.last());
    }
}

/// Replacing a slot by one of the same position keeps the layout.
pub proof fn lemma_set_cell_layout(g: Seq<Seq<PlayerSlot>>, t: int, s: int, v: PlayerSlot)
    requires
        uniform_layout(g),
        0 <= t < g.len(),
        0 <= s < g[t].len(),
        v.position == g[t][s].position,
    ensures
        uniform_layout(set_cell(g, t, s, v)),
        same_positions(set_cell(g, t, s, v), g),
{
    let g2 = set_cell(g, t, s, v);
    assert forall|u: int, j: int| valid_cell(g, u, j) implies #[trigger] g2[u][j].position
        == g[u][j].position by {
    }
    assert forall|u: int| 0 <= u < g2.len() implies #[trigger] g2[u].len() == g2[0].len() by {
        assert(g[u].len() == g[0].len());
    }
    assert forall|u: int, j: int|
        0 <= u < g2.len() && 0 <= j < g2[0].len() implies #[trigger] g2[u][j].position
        == g2[0][j].position by {
        assert(g[u][j].position == g[0][j].position);
    }
}

} // verus!
