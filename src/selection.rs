use vstd::prelude::*;

use rand::rngs::StdRng;

use crate::chance::{draw_index, draw_ratio};
use crate::error::SelectionError;
use crate::grid::{
    assign_slot, bind, lemma_open_cells_update, lemma_set_cell_layout, open_cells, open_in_row,
    player_score, set_cell, swap_cells, swap_first_teams,
};
use crate::ledger::{
    accounted, distinct_slots, fill_state, lemma_accounted_start, lemma_fill_from, lemma_overrides,
    lemma_random_rows, random_state, same_positions, slots_from, unique_ids, valid_cell,
};
use crate::overrides::{apply_overrides, assign_position_modifier_to_slot};
use crate::positions::POSITION_COUNT;
use crate::roster::{
    blank_roster, capacity, cells, create_game, twelve_player_layout, uniform_layout, GameType,
    PlayerSlot,
};
use crate::score::calculate_smvp;
use crate::stats::{retrieve_stat_block_from_position, PlayerStats};

verus! {

/// The balancing algorithms that can be requested.
#[allow(non_camel_case_types)]
#[derive(Clone, Copy, Debug, PartialEq, Eq, Structural)]
pub enum Algorithm {
    Random_Random,
    /// Declared, not implemented.
    Simple_Selection,
    Advanced_Selection,
    /// Declared, not implemented.
    AI_Selection,
}

/// Whether the algorithm has an implementation.
pub open spec fn algorithm_supported(algorithm: Algorithm) -> bool {
    algorithm is Random_Random || algorithm is Advanced_Selection
}

/// Distance between two scores.
pub open spec fn distance(a: int, b: int) -> int {
    if a >= b {
        a - b
    } else {
        b - a
    }
}

/// Index, among the first `n` players of `pool`, of the one whose score at
/// `pos` is closest to `anchor`; of several equally close, the first.
pub open spec fn closest_in(pool: Seq<PlayerStats>, pos: u64, anchor: int, n: int) -> int
    decreases n,
{
    if n <= 1 {
        0
    } else {
        let best = closest_in(pool, pos, anchor, n - 1);
        if distance(player_score(pool[n - 1], pos), anchor) < distance(
            player_score(pool[best], pos),
            anchor,
        ) {
            n - 1
        } else {
            best
        }
    }
}

pub proof fn lemma_closest_in_range(pool: Seq<PlayerStats>, pos: u64, anchor: int, n: int)
    requires
        1 <= n,
    ensures
        0 <= closest_in(pool, pos, anchor, n) < n,
    decreases n,
{
    if n > 1 {
        lemma_closest_in_range(pool, pos, anchor, n - 1);
    }
}

/// Slot `s` of the teams from `t` on, each filled in turn with the pool's
/// player closest to `anchor`.
pub open spec fn match_teams(
    g: Seq<Seq<PlayerSlot>>,
    pool: Seq<PlayerStats>,
    s: int,
    anchor: int,
    t: int,
    teams: int,
) -> (Seq<Seq<PlayerSlot>>, Seq<PlayerStats>)
    decreases teams - t,
{
    if t >= teams {
        (g, pool)
    } else {
        let i = closest_in(pool, g[t][s].position, anchor, pool.len() as int);
        match_teams(set_cell(g, t, s, bind(g[t][s], pool[i])), pool.remove(i), s, anchor, t + 1, teams)
    }
}

/// The draw for slot index `s`, or 0 past the end of the draws.
pub open spec fn pick_of(picks: Seq<usize>, s: int) -> int {
    if 0 <= s < picks.len() {
        picks[s] as int
    } else {
        0
    }
}

/// The exchange decision for slot index `s`, or no exchange past the end.
pub open spec fn swap_of(swaps: Seq<bool>, s: int) -> bool {
    0 <= s < swaps.len() && swaps[s]
}

/// One slot index of the balancing: the first team's slot keeps its pinned
/// player or takes the pool's player at `pick` (modulo the pool's size); each
/// other team takes the pool's player closest in score to it; a pinned slot
/// is exchanged with the second team's when `swap` says so.
pub open spec fn fill_slot(
    g: Seq<Seq<PlayerSlot>>,
    pool: Seq<PlayerStats>,
    s: int,
    pick: int,
    swap: bool,
) -> (Seq<Seq<PlayerSlot>>, Seq<PlayerStats>) {
    let pinned = g[0][s].player_id is Some;
    let i = pick % (pool.len() as int);
    let g1 = if pinned {
        g
    } else {
        set_cell(g, 0, s, bind(g[0][s], pool[i]))
    };
    let pool1 = if pinned {
        pool
    } else {
        pool.remove(i)
    };
    let matched = match_teams(g1, pool1, s, g1[0][s].smvp as int, 1, g.len() as int);
    if pinned && swap && g.len() >= 2 {
        (swap_cells(matched.0, s), matched.1)
    } else {
        matched
    }
}

/// The slot indices from `s` to `len`, balanced in order.
pub open spec fn fill_from(
    g: Seq<Seq<PlayerSlot>>,
    pool: Seq<PlayerStats>,
    picks: Seq<usize>,
    swaps: Seq<bool>,
    s: int,
    len: int,
) -> (Seq<Seq<PlayerSlot>>, Seq<PlayerStats>)
    decreases len - s,
{
    if s >= len {
        (g, pool)
    } else {
        let next = fill_slot(g, pool, s, pick_of(picks, s), swap_of(swaps, s));
        fill_from(next.0, next.1, picks, swaps, s + 1, len)
    }
}

/// Distance between two scores, exact over the whole range of `i128`.
fn score_distance(a: i128, b: i128) -> (r: u128)
    ensures
        r == distance(a as int, b as int),
{
    if a >= b {
        if b >= 0 || a < 0 {
            (a - b) as u128
        } else {
            a as u128 + (-(b + 1)) as u128 + 1
        }
    } else {
        if a >= 0 || b < 0 {
            (b - a) as u128
        } else {
            b as u128 + (-(a + 1)) as u128 + 1
        }
    }
}

/// Score of `player` at position `pos`.
fn score_at(player: &PlayerStats, pos: u64) -> (r: i128)
    requires
        pos < POSITION_COUNT,
    ensures
        r == player_score(*player, pos),
{
    calculate_smvp(retrieve_stat_block_from_position(pos, player))
}

/// Index of the pool's player whose score at `pos` is closest to `anchor`;
/// of several equally close, the first.
fn closest_player(pool: &Vec<PlayerStats>, pos: u64, anchor: i128) -> (r: usize)
    requires
        pool@.len() > 0,
        pos < POSITION_COUNT,
    ensures
        r == closest_in(pool@, pos, anchor as int, pool@.len() as int),
        r < pool@.len(),
{
    let mut best: usize = 0;
    let mut best_diff = score_distance(score_at(&pool[0], pos), anchor);
    let mut i: usize = 1;
    while i < pool.len()
        invariant
            1 <= i <= pool@.len(),
            pos < POSITION_COUNT,
            best < i,
            best == closest_in(pool@, pos, anchor as int, i as int),
            best_diff == distance(player_score(pool@[best as int], pos), anchor as int),
        decreases pool@.len() - i,
    {
        let diff = score_distance(score_at(&pool[i], pos), anchor);
        if diff < best_diff {
            best = i;
            best_diff = diff;
        }
        i = i + 1;
    }
    best
}

/// A grid the balancing can run on: one layout, every team after the first
/// still unassigned, and at least as many players in the pool as there are
/// unassigned slots.
pub open spec fn ready_for_fill(g: Seq<Seq<PlayerSlot>>, pool: Seq<PlayerStats>) -> bool {
    &&& uniform_layout(g)
    &&& forall|t: int, s: int|
        1 <= t < g.len() && 0 <= s < g[0].len() ==> #[trigger] g[t][s].player_id is None
    &&& pool.len() >= open_cells(g)
}

/// Balances a grid whose position overrides are already applied, slot index
/// by slot index in order (see [`fill_slot`]). `picks[s]` chooses the first
/// team's player at slot index `s` (modulo the pool's size) and `swaps[s]`
/// whether a pinned slot there changes places with the second team's.
pub fn fill_advanced(
    game: Vec<Vec<PlayerSlot>>,
    players: Vec<PlayerStats>,
    picks: &Vec<usize>,
    swaps: &Vec<bool>,
) -> (r: Vec<Vec<PlayerSlot>>)
    requires
        ready_for_fill(cells(game@), players@),
    ensures
        cells(r@) == fill_from(
            cells(game@),
            players@,
            picks@,
            swaps@,
            0,
            cells(game@)[0].len() as int,
        ).0,
{
    let ghost g0 = cells(game@);
    let ghost p0 = players@;
    let mut roster = game;
    let mut pool = players;
    let team_count = roster.len();
    let slot_count = roster[0].len();
    let mut s: usize = 0;
    while s < slot_count
        invariant
            team_count == roster@.len(),
            slot_count == cells(roster@)[0].len(),
            s <= slot_count,
            uniform_layout(cells(roster@)),
            forall|t: int, j: int|
                1 <= t < team_count && s <= j < slot_count ==> #[trigger] cells(
                    roster@,
                )[t][j].player_id is None,
            pool@.len() >= open_cells(cells(roster@)),
            fill_from(cells(roster@), pool@, picks@, swaps@, s as int, slot_count as int)
                == fill_from(g0, p0, picks@, swaps@, 0, slot_count as int),
        decreases slot_count - s,
    {
        let ghost gs = cells(roster@);
        let ghost ps = pool@;
        let pinned = roster[0][s].player_id.is_some();
        if !pinned {
            proof {
                lemma_open_cells_update(gs, 0, s as int, gs[0][s as int]);
            }
            let pick: usize = if s < picks.len() {
                picks[s]
            } else {
                0
            };
            let i = pick % pool.len();
            let player = pool.remove(i);
            proof {
                lemma_set_cell_layout(gs, 0, s as int, bind(gs[0][s as int], player));
                lemma_open_cells_update(gs, 0, s as int, bind(gs[0][s as int], player));
            }
            assign_slot(&mut roster, 0, s, player);
        }
        let anchor = roster[0][s].smvp;
        let ghost g1 = cells(roster@);
        let ghost p1 = pool@;
        assert(g1[0].len() == slot_count);
        let mut t: usize = 1;
        while t < team_count
            invariant
                1 <= t <= team_count,
                team_count == roster@.len(),
                s < slot_count,
                slot_count == cells(roster@)[0].len(),
                uniform_layout(cells(roster@)),
                forall|u: int, j: int|
                    t <= u < team_count && s <= j < slot_count ==> #[trigger] cells(
                        roster@,
                    )[u][j].player_id is None,
                forall|u: int, j: int|
                    1 <= u < team_count && s < j < slot_count ==> #[trigger] cells(
                        roster@,
                    )[u][j].player_id is None,
                pool@.len() >= open_cells(cells(roster@)),
                match_teams(cells(roster@), pool@, s as int, anchor as int, t as int, team_count as int)
                    == match_teams(g1, p1, s as int, anchor as int, 1, team_count as int),
            decreases team_count - t,
        {
            let ghost gt = cells(roster@);
            assert(gt[t as int].len() == slot_count);
            let position = roster[t][s].position;
            assert(position == gt[0][s as int].position);
            proof {
                lemma_open_cells_update(gt, t as int, s as int, gt[t as int][s as int]);
            }
            let i = closest_player(&pool, position, anchor);
            let player = pool.remove(i);
            proof {
                lemma_set_cell_layout(gt, t as int, s as int, bind(gt[t as int][s as int], player));
                lemma_open_cells_update(gt, t as int, s as int, bind(gt[t as int][s as int], player));
            }
            assign_slot(&mut roster, t, s, player);
            t = t + 1;
        }
        if pinned && s < swaps.len() && swaps[s] && team_count >= 2 {
            let ghost gw = cells(roster@);
            assert(gw[1].len() == slot_count);
            proof {
                let a = gw[0][s as int];
                let b = gw[1][s as int];
                lemma_set_cell_layout(gw, 0, s as int, b);
                lemma_open_cells_update(gw, 0, s as int, b);
                let gm = set_cell(gw, 0, s as int, b);
                lemma_set_cell_layout(gm, 1, s as int, a);
                lemma_open_cells_update(gm, 1, s as int, a);
            }
            swap_first_teams(&mut roster, s);
        }
        s = s + 1;
    }
    roster
}

/// The checks made before any slot is touched, in order: the roster is a
/// blank roster of one layout, there are enough players for it, and no id is
/// supplied twice.
pub open spec fn precheck(g: Seq<Seq<PlayerSlot>>, pool: Seq<PlayerStats>) -> Option<SelectionError> {
    if !blank_roster(g) {
        Some(SelectionError::MalformedRoster)
    } else if pool.len() < capacity(g) {
        Some(SelectionError::NotEnoughPlayers)
    } else if !unique_ids(pool) {
        Some(SelectionError::DuplicatePlayer)
    } else {
        None
    }
}

/// The position overrides, if any, applied to the grid and the pool.
pub open spec fn overrides_of(
    g: Seq<Seq<PlayerSlot>>,
    pool: Seq<PlayerStats>,
    mods: Option<Vec<u64>>,
) -> Result<(Seq<Seq<PlayerSlot>>, Seq<PlayerStats>), SelectionError> {
    match mods {
        Some(m) => apply_overrides(g, pool, m@, 0),
        None => Ok((g, pool)),
    }
}

/// Slots `s` to `len` of team `t` filled in order, each with the pool's
/// player at the next draw (modulo the pool's size); `k` counts the draws
/// used so far.
pub open spec fn random_row(
    g: Seq<Seq<PlayerSlot>>,
    pool: Seq<PlayerStats>,
    picks: Seq<usize>,
    k: int,
    t: int,
    s: int,
    len: int,
) -> (Seq<Seq<PlayerSlot>>, Seq<PlayerStats>)
    decreases len - s,
{
    if s >= len {
        (g, pool)
    } else {
        let i = pick_of(picks, k) % (pool.len() as int);
        random_row(set_cell(g, t, s, bind(g[t][s], pool[i])), pool.remove(i), picks, k + 1, t, s + 1, len)
    }
}

/// Teams `t` to `teams` filled in order, each by [`random_row`].
pub open spec fn random_rows(
    g: Seq<Seq<PlayerSlot>>,
    pool: Seq<PlayerStats>,
    picks: Seq<usize>,
    k: int,
    t: int,
    teams: int,
    len: int,
) -> (Seq<Seq<PlayerSlot>>, Seq<PlayerStats>)
    decreases teams - t,
{
    if t >= teams {
        (g, pool)
    } else {
        let row = random_row(g, pool, picks, k, t, 0, len);
        random_rows(row.0, row.1, picks, k + len, t + 1, teams, len)
    }
}

/// Every slot holds a player, no player holds two slots, and each slot holds
/// one of `players` with that player's name and score at its position.
pub open spec fn balanced_roster(g: Seq<Seq<PlayerSlot>>, players: Seq<PlayerStats>) -> bool {
    &&& forall|t: int, s: int| valid_cell(g, t, s) ==> (#[trigger] g[t][s]).player_id is Some
    &&& distinct_slots(g)
    &&& slots_from(g, players)
}

/// Whether the roster is a blank roster of one layout.
fn is_blank_roster(game: &Vec<Vec<PlayerSlot>>) -> (r: bool)
    ensures
        r == blank_roster(cells(game@)),
{
    let ghost g = cells(game@);
    if game.len() == 0 {
        return false;
    }
    let slot_count = game[0].len();
    let mut t: usize = 0;
    while t < game.len()
        invariant
            g == cells(game@),
            g.len() >= 1,
            slot_count == g[0].len(),
            t <= g.len(),
            forall|u: int| 0 <= u < t ==> #[trigger] g[u].len() == slot_count,
            forall|u: int, s: int|
                0 <= u < t && 0 <= s < slot_count ==> {
                    &&& (#[trigger] g[u][s]).position == g[0][s].position
                    &&& g[u][s].position < POSITION_COUNT
                    &&& g[u][s].player_id is None
                },
        decreases g.len() - t,
    {
        if game[t].len() != slot_count {
            return false;
        }
        let mut s: usize = 0;
        while s < slot_count
            invariant
                g == cells(game@),
                g.len() >= 1,
                slot_count == g[0].len(),
                t < g.len(),
                g[t as int].len() == slot_count,
                s <= slot_count,
                forall|j: int|
                    0 <= j < s ==> {
                        &&& (#[trigger] g[t as int][j]).position == g[0][j].position
                        &&& g[t as int][j].position < POSITION_COUNT
                        &&& g[t as int][j].player_id is None
                    },
            decreases slot_count - s,
        {
            let slot = &game[t][s];
            if slot.position != game[0][s].position || slot.position >= POSITION_COUNT
                || slot.player_id.is_some() {
                return false;
            }
            s = s + 1;
        }
        t = t + 1;
    }
    true
}

/// Whether no two players share an id.
fn has_unique_ids(players: &Vec<PlayerStats>) -> (r: bool)
    ensures
        r == unique_ids(players@),
{
    let mut j: usize = 0;
    while j < players.len()
        invariant
            j <= players@.len(),
            forall|a: int, b: int|
                0 <= a < b < j ==> #[trigger] players@[a].player_id != #[trigger] players@[b].player_id,
        decreases players@.len() - j,
    {
        let mut i: usize = 0;
        while i < j
            invariant
                i <= j < players@.len(),
                forall|a: int| 0 <= a < i ==> #[trigger] players@[a].player_id != players@[j as int].player_id,
            decreases j - i,
        {
            if players[i].player_id == players[j].player_id {
                return false;
            }
            i = i + 1;
        }
        j = j + 1;
    }
    true
}

/// The checks of [`precheck`], made in the same order.
fn check_roster_and_pool(game: &Vec<Vec<PlayerSlot>>, players: &Vec<PlayerStats>) -> (r: Result<(), SelectionError>)
    ensures
        precheck(cells(game@), players@) matches Some(e) ==> r == Err::<(), SelectionError>(e),
        precheck(cells(game@), players@) is None ==> r is Ok,
{
    if !is_blank_roster(game) {
        return Err(SelectionError::MalformedRoster);
    }
    let team_count = game.len() as u128;
    let slot_count = game[0].len() as u128;
    assert(team_count * slot_count <= u128::MAX) by (nonlinear_arith)
        requires
            team_count <= u64::MAX,
            slot_count <= u64::MAX,
    ;
    if (players.len() as u128) < team_count * slot_count {
        return Err(SelectionError::NotEnoughPlayers);
    }
    if !has_unique_ids(players) {
        return Err(SelectionError::DuplicatePlayer);
    }
    Ok(())
}

proof fn lemma_open_row_full(row: Seq<PlayerSlot>)
    requires
        forall|j: int| 0 <= j < row.len() ==> (#[trigger] row[j]).player_id is None,
    ensures
        open_in_row(row) == row.len(),
    decreases row.len(),
{
    if row.len() > 0 {
        lemma_open_row_full(row.drop_last());
    }
}

proof fn lemma_open_cells_full(g: Seq<Seq<PlayerSlot>>, len: int)
    requires
        forall|t: int| 0 <= t < g.len() ==> (#[trigger] g[t]).len() == len,
        forall|t: int, j: int| 0 <= t < g.len() && 0 <= j < len ==> (#[trigger] g[t][j]).player_id is None,
    ensures
        open_cells(g) == g.len() * len,
    decreases g.len(),
{
    if g.len() > 0 {
        let last = g.last();
        assert(last.len() == len);
        assert forall|j: int| 0 <= j < last.len() implies (#[trigger] last[j]).player_id is None by {
            assert(last[j] == g[g.len() - 1][j]);
        }
        lemma_open_row_full(last);
        assert forall|t: int, j: int| 0 <= t < g.drop_last().len() && 0 <= j < len implies (
        #[trigger] g.drop_last()[t][j]).player_id is None by {
            assert(g.drop_last()[t] == g[t]);
        }
        lemma_open_cells_full(g.drop_last(), len);
        assert(g.len() * len == (g.len() - 1) * len + len) by (nonlinear_arith);
    }
}

/// A blank roster with enough players, none twice, is ready for the
/// override phase and the balancing.
proof fn lemma_start_ready(g: Seq<Seq<PlayerSlot>>, players: Seq<PlayerStats>)
    requires
        precheck(g, players) is None,
    ensures
        accounted(g, players, players),
        ready_for_fill(g, players),
{
    lemma_open_cells_full(g, g[0].len() as int);
    lemma_accounted_start(g, players);
}

/// The balancing state after the position overrides, for every outcome of
/// the draws: the law behind [`calculate_advanced`]'s final promise.
proof fn lemma_advanced_outcome(
    g: Seq<Seq<PlayerSlot>>,
    players: Seq<PlayerStats>,
    mods: Option<Vec<u64>>,
    picks: Seq<usize>,
    swaps: Seq<bool>,
)
    requires
        precheck(g, players) is None,
        overrides_of(g, players, mods) is Ok,
    ensures
        ({
            let (g1, p1) = overrides_of(g, players, mods)->Ok_0;
            &&& ready_for_fill(g1, p1)
            &&& g1.len() == g.len()
            &&& g1[0].len() == g[0].len()
            &&& ({
                let out = fill_from(g1, p1, picks, swaps, 0, g1[0].len() as int);
                &&& fill_state(out.0, out.1, players, g[0].len() as int, g.len() as int, g[0].len() as int)
                &&& same_positions(out.0, g)
            })
        }),
{
    lemma_start_ready(g, players);
    match mods {
        Some(m) => lemma_overrides(g, players, players, m@, 0),
        None => {},
    }
    let (g1, p1) = overrides_of(g, players, mods)->Ok_0;
    lemma_fill_from(g1, p1, players, picks, swaps, 0, g1.len() as int, g1[0].len() as int);
}

/// The advanced balancing of a checked roster ends with every player
/// accounted for, whatever the draws.
pub proof fn lemma_advanced_state(
    g: Seq<Seq<PlayerSlot>>,
    players: Seq<PlayerStats>,
    mods: Option<Vec<u64>>,
    picks: Seq<usize>,
    swaps: Seq<bool>,
)
    requires
        precheck(g, players) is None,
        overrides_of(g, players, mods) is Ok,
    ensures
        ({
            let (g1, p1) = overrides_of(g, players, mods)->Ok_0;
            let out = fill_from(g1, p1, picks, swaps, 0, g1[0].len() as int);
            accounted(out.0, out.1, players) && balanced_roster(out.0, players) && same_positions(out.0, g)
        }),
{
    lemma_advanced_outcome(g, players, mods, picks, swaps);
    let (g1, p1) = overrides_of(g, players, mods)->Ok_0;
    let out = fill_from(g1, p1, picks, swaps, 0, g1[0].len() as int);
    lemma_finished_balanced(out.0, out.1, players, g.len() as int, g[0].len() as int);
}

/// A finished balancing state is a balanced roster.
proof fn lemma_finished_balanced(
    g: Seq<Seq<PlayerSlot>>,
    pool: Seq<PlayerStats>,
    players: Seq<PlayerStats>,
    teams: int,
    len: int,
)
    requires
        fill_state(g, pool, players, len, teams, len),
    ensures
        balanced_roster(g, players),
{
    assert forall|t: int, s: int| valid_cell(g, t, s) implies (#[trigger] g[t][s]).player_id is Some by {
        assert(g[t].len() == g[0].len());
    }
}

/// Draws, for each slot index of a grid after the overrides, the first
/// team's player (an index below the pool's size at that point) and, for a
/// pinned slot, whether it changes places with the second team's.
fn draw_for_advanced(roster: &Vec<Vec<PlayerSlot>>, pool_len: usize, rng: &mut StdRng) -> (r: (
    Vec<usize>,
    Vec<bool>,
))
    requires
        roster@.len() >= 1,
{
    let team_count = roster.len();
    let slot_count = roster[0].len();
    let mut picks: Vec<usize> = Vec::new();
    let mut swaps: Vec<bool> = Vec::new();
    let mut remaining = pool_len;
    let mut s: usize = 0;
    while s < slot_count
        invariant
            team_count == roster@.len(),
            team_count >= 1,
            slot_count == roster@[0]@.len(),
            s <= slot_count,
        decreases slot_count - s,
    {
        if roster[0][s].player_id.is_some() {
            picks.push(0);
            swaps.push(draw_ratio(rng, 1, 2));
        } else {
            if remaining > 0 {
                picks.push(draw_index(rng, remaining));
                remaining = remaining - 1;
            } else {
                picks.push(0);
            }
            swaps.push(false);
        }
        remaining = if remaining >= team_count - 1 {
            remaining - (team_count - 1)
        } else {
            0
        };
        s = s + 1;
    }
    (picks, swaps)
}

/// Balances `players` into `game`: applies the position overrides (a flat
/// list of (player id, position index) pairs) to the first team, then fills
/// each slot index in order. An unpinned slot of the first team takes a
/// player drawn uniformly from the pool; each other team takes the pool's
/// player whose score at that position is closest to it, the first of
/// equals winning; a pinned slot changes places with the second team's with
/// even odds. Team overrides are accepted and not consulted.
pub fn calculate_advanced(
    game: Vec<Vec<PlayerSlot>>,
    players: Vec<PlayerStats>,
    modifiers_position: &Option<Vec<u64>>,
    _modifiers_team: &Option<Vec<u64>>,
    rng: &mut StdRng,
) -> (r: Result<Vec<Vec<PlayerSlot>>, SelectionError>)
    requires
        *modifiers_position matches Some(m) ==> m@.len() % 2 == 0,
    ensures
        precheck(cells(game@), players@) matches Some(e) ==> r == Err::<
            Vec<Vec<PlayerSlot>>,
            SelectionError,
        >(e),
        precheck(cells(game@), players@) is None ==> {
            &&& overrides_of(cells(game@), players@, *modifiers_position) matches Err(e) ==> r
                == Err::<Vec<Vec<PlayerSlot>>, SelectionError>(e)
            &&& overrides_of(cells(game@), players@, *modifiers_position) matches Ok((g1, p1)) ==> (
            r matches Ok(out) && exists|picks: Seq<usize>, swaps: Seq<bool>|
                cells(out@) == #[trigger] fill_from(g1, p1, picks, swaps, 0, g1[0].len() as int).0)
        },
        r matches Ok(out) ==> balanced_roster(cells(out@), players@) && same_positions(
            cells(out@),
            cells(game@),
        ),
{
    check_roster_and_pool(&game, &players)?;
    let ghost g0 = cells(game@);
    let ghost p0 = players@;
    let (roster, pool) = match modifiers_position {
        Some(m) => assign_position_modifier_to_slot(game, players, m)?,
        None => (game, players),
    };
    let ghost g1 = cells(roster@);
    let ghost p1 = pool@;
    assert(overrides_of(g0, p0, *modifiers_position) == Ok::<
        (Seq<Seq<PlayerSlot>>, Seq<PlayerStats>),
        SelectionError,
    >((g1, p1)));
    proof {
        // the grid after the overrides keeps its teams
        lemma_advanced_outcome(g0, p0, *modifiers_position, Seq::empty(), Seq::empty());
    }
    let (picks, swaps) = draw_for_advanced(&roster, pool.len(), rng);
    proof {
        lemma_advanced_outcome(g0, p0, *modifiers_position, picks@, swaps@);
        lemma_advanced_state(g0, p0, *modifiers_position, picks@, swaps@);
    }
    let result = fill_advanced(roster, pool, &picks, &swaps);
    Ok(result)
}

/// Fills every slot of a blank roster, team by team and slot by slot, each
/// with the pool's player at the next of `picks` (modulo the pool's size);
/// see [`random_rows`].
pub fn fill_random(game: Vec<Vec<PlayerSlot>>, players: Vec<PlayerStats>, picks: &Vec<usize>) -> (r: Vec<
    Vec<PlayerSlot>,
>)
    requires
        blank_roster(cells(game@)),
        players@.len() >= capacity(cells(game@)),
    ensures
        cells(r@) == random_rows(
            cells(game@),
            players@,
            picks@,
            0,
            0,
            cells(game@).len() as int,
            cells(game@)[0].len() as int,
        ).0,
{
    let ghost g0 = cells(game@);
    let ghost p0 = players@;
    proof {
        lemma_open_cells_full(g0, g0[0].len() as int);
    }
    let mut roster = game;
    let mut pool = players;
    assert(p0.len() == pool.len());
    let team_count = roster.len();
    let slot_count = roster[0].len();
    let mut k: usize = 0;
    let mut t: usize = 0;
    while t < team_count
        invariant
            team_count == roster@.len(),
            slot_count == cells(roster@)[0].len(),
            t <= team_count,
            uniform_layout(cells(roster@)),
            forall|u: int, j: int|
                t <= u < team_count && 0 <= j < slot_count ==> #[trigger] cells(roster@)[u][j].player_id is None,
            pool@.len() >= open_cells(cells(roster@)),
            pool@.len() + k == p0.len(),
            p0.len() <= usize::MAX,
            random_rows(cells(roster@), pool@, picks@, k as int, t as int, team_count as int, slot_count as int)
                == random_rows(g0, p0, picks@, 0, 0, team_count as int, slot_count as int),
        decreases team_count - t,
    {
        let ghost gt = cells(roster@);
        let ghost pt = pool@;
        let ghost kt = k as int;
        let mut s: usize = 0;
        while s < slot_count
            invariant
                team_count == roster@.len(),
                slot_count == cells(roster@)[0].len(),
                t < team_count,
                s <= slot_count,
                uniform_layout(cells(roster@)),
                forall|j: int| s <= j < slot_count ==> #[trigger] cells(roster@)[t as int][j].player_id is None,
                forall|u: int, j: int|
                    t < u < team_count && 0 <= j < slot_count ==> #[trigger] cells(roster@)[u][j].player_id is None,
                pool@.len() >= open_cells(cells(roster@)),
                pool@.len() + k == p0.len(),
                p0.len() <= usize::MAX,
                k == kt + s,
                random_row(cells(roster@), pool@, picks@, k as int, t as int, s as int, slot_count as int)
                    == random_row(gt, pt, picks@, kt, t as int, 0, slot_count as int),
            decreases slot_count - s,
        {
            let ghost gs = cells(roster@);
            assert(gs[t as int].len() == slot_count);
            proof {
                lemma_open_cells_update(gs, t as int, s as int, gs[t as int][s as int]);
            }
            let pick: usize = if k < picks.len() {
                picks[k]
            } else {
                0
            };
            let i = pick % pool.len();
            let player = pool.remove(i);
            proof {
                lemma_set_cell_layout(gs, t as int, s as int, bind(gs[t as int][s as int], player));
                lemma_open_cells_update(gs, t as int, s as int, bind(gs[t as int][s as int], player));
            }
            assign_slot(&mut roster, t, s, player);
            k = k + 1;
            s = s + 1;
        }
        t = t + 1;
    }
    roster
}

/// Fills every slot of `game`, team by team and slot by slot, each with a
/// player drawn uniformly from those not yet placed. Overrides are accepted
/// and not consulted.
pub fn random_random(
    game: Vec<Vec<PlayerSlot>>,
    players: Vec<PlayerStats>,
    _modifiers_position: &Option<Vec<u64>>,
    _modifiers_team: &Option<Vec<u64>>,
    rng: &mut StdRng,
) -> (r: Result<Vec<Vec<PlayerSlot>>, SelectionError>)
    ensures
        precheck(cells(game@), players@) matches Some(e) ==> r == Err::<
            Vec<Vec<PlayerSlot>>,
            SelectionError,
        >(e),
        precheck(cells(game@), players@) is None ==> (r matches Ok(out) && exists|picks: Seq<usize>|
            cells(out@) == #[trigger] random_rows(
                cells(game@),
                players@,
                picks,
                0,
                0,
                cells(game@).len() as int,
                cells(game@)[0].len() as int,
            ).0),
        r matches Ok(out) ==> balanced_roster(cells(out@), players@) && same_positions(
            cells(out@),
            cells(game@),
        ),
{
    check_roster_and_pool(&game, &players)?;
    assert(cells(game@)[0] == game@[0]@);
    assert(capacity(cells(game@)) == game@.len() * game@[0]@.len());
    let player_count = players.len();
    assert(game@.len() * game@[0]@.len() <= player_count);
    let slot_total = game.len() * game[0].len();
    let mut picks: Vec<usize> = Vec::new();
    let mut remaining = player_count;
    let mut k: usize = 0;
    while k < slot_total
        invariant
            k <= slot_total,
        decreases slot_total - k,
    {
        if remaining > 0 {
            picks.push(draw_index(rng, remaining));
            remaining = remaining - 1;
        } else {
            picks.push(0);
        }
        k = k + 1;
    }
    proof {
        lemma_random_state(cells(game@), players@, picks@);
    }
    Ok(fill_random(game, players, &picks))
}

/// The team-by-team fill of a checked roster ends with every player
/// accounted for.
pub proof fn lemma_random_state(g: Seq<Seq<PlayerSlot>>, players: Seq<PlayerStats>, picks: Seq<usize>)
    requires
        precheck(g, players) is None,
    ensures
        ({
            let out = random_rows(g, players, picks, 0, 0, g.len() as int, g[0].len() as int);
            accounted(out.0, out.1, players) && balanced_roster(out.0, players) && same_positions(out.0, g)
        }),
{
    lemma_start_ready(g, players);
    let teams = g.len() as int;
    let len = g[0].len() as int;
    assert(random_state(g, players, players, 0, 0, teams, len));
    lemma_random_rows(g, players, players, picks, 0, 0, teams, len);
    let out = random_rows(g, players, picks, 0, 0, teams, len);
    assert forall|t: int, s: int| valid_cell(out.0, t, s) implies (#[trigger] out.0[t][s]).player_id is Some by {
        assert(out.0[t].len() == len);
    }
}


/// Builds the roster of `team_count` teams for a layout and balances
/// `players` into it with the requested algorithm. Refusals come before any
/// slot is filled, in this order: an unimplemented algorithm, a layout with
/// no roster definition, no teams, too few players, a repeated player id.
/// The advanced algorithm may then refuse a position override.
pub fn select_teams(
    game_type: GameType,
    algorithm: Algorithm,
    team_count: u8,
    players: Vec<PlayerStats>,
    modifiers_position: &Option<Vec<u64>>,
    modifiers_team: &Option<Vec<u64>>,
    rng: &mut StdRng,
) -> (r: Result<Vec<Vec<PlayerSlot>>, SelectionError>)
    requires
        *modifiers_position matches Some(m) ==> m@.len() % 2 == 0,
    ensures
        !algorithm_supported(algorithm) ==> r == Err::<Vec<Vec<PlayerSlot>>, SelectionError>(
            SelectionError::NotImplemented,
        ),
        algorithm_supported(algorithm) && game_type != GameType::Sm5_12_Player ==> r == Err::<
            Vec<Vec<PlayerSlot>>,
            SelectionError,
        >(SelectionError::UnsupportedLayout),
        algorithm_supported(algorithm) && game_type == GameType::Sm5_12_Player ==> {
            &&& team_count == 0 ==> r == Err::<Vec<Vec<PlayerSlot>>, SelectionError>(
                SelectionError::MalformedRoster,
            )
            &&& team_count > 0 && players@.len() < 6 * team_count ==> r == Err::<
                Vec<Vec<PlayerSlot>>,
                SelectionError,
            >(SelectionError::NotEnoughPlayers)
            &&& team_count > 0 && players@.len() >= 6 * team_count && !unique_ids(players@) ==> r
                == Err::<Vec<Vec<PlayerSlot>>, SelectionError>(SelectionError::DuplicatePlayer)
            &&& algorithm is Random_Random && team_count > 0 && players@.len() >= 6 * team_count
                && unique_ids(players@) ==> r is Ok
            &&& algorithm is Advanced_Selection && team_count > 0 && players@.len() >= 6
                * team_count && unique_ids(players@) && *modifiers_position is None ==> r is Ok
        },
        r matches Ok(out) ==> {
            &&& balanced_roster(cells(out@), players@)
            &&& out@.len() == team_count
            &&& forall|t: int| 0 <= t < team_count ==> (#[trigger] out@[t])@.len() == 6
            &&& forall|t: int, s: int|
                0 <= t < team_count && 0 <= s < 6 ==> (#[trigger] out@[t]@[s]).position
                    == twelve_player_layout()[s]
        },
{
    match algorithm {
        Algorithm::Simple_Selection => {
            return Err(SelectionError::NotImplemented);
        },
        Algorithm::AI_Selection => {
            return Err(SelectionError::NotImplemented);
        },
        _ => {},
    }
    let game = create_game(game_type, team_count)?;
    let ghost g = cells(game@);
    proof {
        assert forall|t: int| 0 <= t < g.len() implies #[trigger] g[t].len() == 6 by {
            assert(g[t] == game@[t]@);
        }
        assert forall|t: int, s: int| 0 <= t < g.len() && 0 <= s < 6 implies #[trigger] g[t][s]
            == game@[t]@[s] by {
            assert(g[t] == game@[t]@);
        }
        if team_count > 0 {
            assert(g[0].len() == 6);
            assert(g.len() == team_count);
            assert(capacity(g) == 6 * team_count);
            assert(uniform_layout(g));
            assert(blank_roster(g));
        }
    }
    let result = match algorithm {
        Algorithm::Random_Random => random_random(game, players, modifiers_position, modifiers_team, rng),
        _ => calculate_advanced(game, players, modifiers_position, modifiers_team, rng),
    };
    proof {
        if result is Ok {
            let out = result->Ok_0;
            let c = cells(out@);
            assert forall|t: int| 0 <= t < team_count implies (#[trigger] out@[t])@.len() == 6 by {
                assert(c[t] == out@[t]@);
                assert(g[t].len() == 6);
            }
            assert forall|t: int, s: int|
                0 <= t < team_count && 0 <= s < 6 implies (#[trigger] out@[t]@[s]).position
                == twelve_player_layout()[s] by {
                assert(c[t] == out@[t]@);
                assert(g[t][s] == game@[t]@[s]);
                assert(valid_cell(g, t, s));
            }
        }
    }
    result
}

} // verus!
