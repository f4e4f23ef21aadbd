//! Position overrides: players pinned to a position on the first team
//! before any slot is drawn.
use vstd::prelude::*;

use crate::error::SelectionError;
use crate::grid::{assign_slot, bind, set_cell};
use crate::roster::{cells, uniform_layout, PlayerSlot};
use crate::stats::PlayerStats;

verus! {

/// Index of the first player of `pool` at or after `i` with id `id`.
pub open spec fn find_player_from(pool: Seq<PlayerStats>, id: u64, i: int) -> Option<int>
    decreases pool.len() - i,
{
    if i >= pool.len() {
        None
    } else if pool[i].player_id == id {
        Some(i)
    } else {
        find_player_from(pool, id, i + 1)
    }
}

/// Index of the first unassigned slot of `team` at or after `s` whose
/// position is `pos`.
pub open spec fn free_slot_from(team: Seq<PlayerSlot>, pos: u64, s: int) -> Option<int>
    decreases team.len() - s,
{
    if s >= team.len() {
        None
    } else if team[s].position == pos && team[s].player_id is None {
        Some(s)
    } else {
        free_slot_from(team, pos, s + 1)
    }
}

/// The position overrides from the pair at index `k` on, applied in order
/// to the first team: each pair (player id, position index) binds that
/// player to the first free slot of that position and takes it out of the
/// pool.
pub open spec fn apply_overrides(
    g: Seq<Seq<PlayerSlot>>,
    pool: Seq<PlayerStats>,
    mods: Seq<u64>,
    k: int,
) -> Result<(Seq<Seq<PlayerSlot>>, Seq<PlayerStats>), SelectionError>
    decreases mods.len() - k,
{
    if k < 0 || k + 1 >= mods.len() {
        Ok((g, pool))
    } else {
        let id = mods[k];
        let pos = mods[k + 1];
        match find_player_from(pool, id, 0) {
            None => Err(SelectionError::UnknownOverridePlayer(id)),
            Some(i) => match free_slot_from(g[0], pos, 0) {
                None => Err(SelectionError::NoFreeSlot { player_id: id, position: pos }),
                Some(s) => apply_overrides(
                    set_cell(g, 0, s, bind(g[0][s], pool[i])),
                    pool.remove(i),
                    mods,
                    k + 2,
                ),
            },
        }
    }
}

/// Index of the first player of `pool` with id `id`.
fn find_player(pool: &Vec<PlayerStats>, id: u64) -> (r: Option<usize>)
    ensures
        r matches Some(i) ==> find_player_from(pool@, id, 0) == Some(i as int),
        r is None ==> find_player_from(pool@, id, 0) is None,
{
    let mut i: usize = 0;
    while i < pool.len()
        invariant
            i <= pool@.len(),
            find_player_from(pool@, id, 0) == find_player_from(pool@, id, i as int),
        decreases pool@.len() - i,
    {
        if pool[i].player_id == id {
            return Some(i);
        }
        i = i + 1;
    }
    None
}

/// Index of the first unassigned slot of `team` whose position is `pos`.
fn find_free_slot(team: &Vec<PlayerSlot>, pos: u64) -> (r: Option<usize>)
    ensures
        r matches Some(s) ==> free_slot_from(team@, pos, 0) == Some(s as int),
        r is None ==> free_slot_from(team@, pos, 0) is None,
{
    let mut s: usize = 0;
    while s < team.len()
        invariant
            s <= team@.len(),
            free_slot_from(team@, pos, 0) == free_slot_from(team@, pos, s as int),
        decreases team@.len() - s,
    {
        if team[s].position == pos && team[s].player_id.is_none() {
            return Some(s);
        }
        s = s + 1;
    }
    None
}

pub proof fn lemma_find_player_from_range(pool: Seq<PlayerStats>, id: u64, i: int)
    requires
        0 <= i,
    ensures
        find_player_from(pool, id, i) matches Some(j) ==> i <= j < pool.len() && pool[j].player_id
            == id,
    decreases pool.len() - i,
{
    if i < pool.len() && pool[i].player_id != id {
        lemma_find_player_from_range(pool, id, i + 1);
    }
}

pub proof fn lemma_free_slot_from_range(team: Seq<PlayerSlot>, pos: u64, s: int)
    requires
        0 <= s,
    ensures
        free_slot_from(team, pos, s) matches Some(j) ==> s <= j < team.len() && team[j].position
            == pos && team[j].player_id is None,
    decreases team.len() - s,
{
    if s < team.len() && !(team[s].position == pos && team[s].player_id is None) {
        lemma_free_slot_from_range(team, pos, s + 1);
    }
}

/// Binds the players named by the position overrides, given as a flat list
/// of (player id, position index) pairs, to the first team: each goes to the
/// first free slot of its position, in the order given, and leaves the pool.
/// Fails on an id that is not in the pool and on a position with no free
/// slot left.
pub fn assign_position_modifier_to_slot(
    game: Vec<Vec<PlayerSlot>>,
    players: Vec<PlayerStats>,
    modifiers_position: &Vec<u64>,
) -> (r: Result<(Vec<Vec<PlayerSlot>>, Vec<PlayerStats>), SelectionError>)
    requires
        uniform_layout(cells(game@)),
        modifiers_position@.len() % 2 == 0,
    ensures
        apply_overrides(cells(game@), players@, modifiers_position@, 0) matches Err(e) ==> r matches Err(re) && re == e,
        apply_overrides(cells(game@), players@, modifiers_position@, 0) matches Ok((g, pool)) ==> r matches Ok((rg, rp)) && cells(rg@) == g && rp@ == pool,
{
    let ghost g0 = cells(game@);
    let ghost p0 = players@;
    let mut roster = game;
    let mut pool = players;
    let mut k: usize = 0;
    while k < modifiers_position.len()
        invariant
            k <= modifiers_position@.len(),
            k % 2 == 0,
            modifiers_position@.len() % 2 == 0,
            uniform_layout(cells(roster@)),
            g0 == cells(game@),
            p0 == players@,
            apply_overrides(cells(roster@), pool@, modifiers_position@, k as int)
                == apply_overrides(g0, p0, modifiers_position@, 0),
        decreases modifiers_position@.len() - k,
    {
        assert(k + 1 < modifiers_position@.len());
        let player_id = modifiers_position[k];
        let position = modifiers_position[k + 1];
        let ghost g = cells(roster@);
        let i = match find_player(&pool, player_id) {
            Some(i) => i,
            None => {
                return Err(SelectionError::UnknownOverridePlayer(player_id));
            },
        };
        proof {
            lemma_find_player_from_range(pool@, player_id, 0);
        }
        let s = match find_free_slot(&roster[0], position) {
            Some(s) => s,
            None => {
                return Err(SelectionError::NoFreeSlot { player_id, position });
            },
        };
        proof {
            lemma_free_slot_from_range(g[0], position, 0);
        }
        let player = pool.remove(i);
        assign_slot(&mut roster, 0, s, player);
        proof {
            let g1 = cells(roster@);
            assert forall|t: int| 0 <= t < g1.len() implies #[trigger] g1[t].len() == g1[0].len() by {
                assert(g[t].len() == g[0].len());
            }
            assert forall|t: int, j: int|
                0 <= t < g1.len() && 0 <= j < g1[0].len() implies #[trigger] g1[t][j].position
                == g1[0][j].position by {
                assert(g[t][j].position == g[0][j].position);
            }
        }
        k = k + 2;
    }
    Ok((roster, pool))
}

} // verus!
