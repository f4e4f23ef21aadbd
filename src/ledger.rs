//! Bookkeeping of where each player is while a roster is filled: still in
//! the pool, or in exactly one slot.
use vstd::prelude::*;

use crate::roster::{uniform_layout, PlayerSlot};
use crate::grid::{
    bind, lemma_open_cells_update, lemma_set_cell_layout, open_cells, set_cell, swap_cells,
};
use crate::overrides::{
    apply_overrides, find_player_from, free_slot_from, lemma_find_player_from_range,
    lemma_free_slot_from_range,
};
use crate::selection::{
    closest_in, fill_from, fill_slot, lemma_closest_in_range, match_teams, pick_of, random_row,
    random_rows, ready_for_fill, swap_of,
};
use crate::stats::PlayerStats;

verus! {

/// `a` has the shape of `b` and the same position in every slot.
pub open spec fn same_positions(a: Seq<Seq<PlayerSlot>>, b: Seq<Seq<PlayerSlot>>) -> bool {
    &&& a.len() == b.len()
    &&& forall|t: int| 0 <= t < b.len() ==> #[trigger] a[t].len() == b[t].len()
    &&& forall|t: int, j: int| valid_cell(b, t, j) ==> #[trigger] a[t][j].position == b[t][j].position
}

/// Slot `s` of team `t` exists.
pub open spec fn valid_cell(g: Seq<Seq<PlayerSlot>>, t: int, s: int) -> bool {
    0 <= t < g.len() && 0 <= s < g[t].len()
}

/// No two players of `pool` share an id.
pub open spec fn unique_ids(pool: Seq<PlayerStats>) -> bool {
    forall|i: int, j: int| 0 <= i < j < pool.len() ==> #[trigger] pool[i].player_id != #[trigger] pool[j].player_id
}

/// Some slot of the grid holds the player with id `id`.
pub open spec fn roster_has(g: Seq<Seq<PlayerSlot>>, id: u64) -> bool {
    exists|t: int, s: int| valid_cell(g, t, s) && #[trigger] g[t][s].player_id == Some(id)
}

/// Some player of `pool` has id `id`.
pub open spec fn pool_has(pool: Seq<PlayerStats>, id: u64) -> bool {
    exists|k: int| 0 <= k < pool.len() && #[trigger] pool[k].player_id == id
}

/// No two slots hold the same player.
pub open spec fn distinct_slots(g: Seq<Seq<PlayerSlot>>) -> bool {
    forall|t1: int, s1: int, t2: int, s2: int|
        #![trigger g[t1][s1], g[t2][s2]]
        valid_cell(g, t1, s1) && valid_cell(g, t2, s2) && (t1 != t2 || s1 != s2)
            && g[t1][s1].player_id is Some ==> g[t1][s1].player_id != g[t2][s2].player_id
}

/// Every assigned slot holds one of `players`, with that player's name and
/// score at the slot's position.
pub open spec fn slots_from(g: Seq<Seq<PlayerSlot>>, players: Seq<PlayerStats>) -> bool {
    forall|t: int, s: int|
        valid_cell(g, t, s) && (#[trigger] g[t][s]).player_id is Some ==> exists|j: int|
            0 <= j < players.len() && g[t][s] == bind(g[t][s], #[trigger] players[j])
}

/// Where the players of `players` are, part way through filling `g` from
/// `pool`: each is in the pool or in a slot, none in both, none twice.
pub open spec fn accounted(g: Seq<Seq<PlayerSlot>>, pool: Seq<PlayerStats>, players: Seq<PlayerStats>) -> bool {
    &&& unique_ids(pool)
    &&& forall|t: int, s: int|
        valid_cell(g, t, s) && (#[trigger] g[t][s]).player_id is Some ==> !pool_has(
            pool,
            g[t][s].player_id->Some_0,
        )
    &&& distinct_slots(g)
    &&& forall|k: int| 0 <= k < pool.len() ==> players.contains(#[trigger] pool[k])
    &&& slots_from(g, players)
    &&& forall|j: int|
        0 <= j < players.len() ==> pool_has(pool, #[trigger] players[j].player_id) || roster_has(
            g,
            players[j].player_id,
        )
}

/// At the start, with every slot free, all players are in the pool.
pub proof fn lemma_accounted_start(g: Seq<Seq<PlayerSlot>>, players: Seq<PlayerStats>)
    requires
        unique_ids(players),
        forall|t: int, s: int| valid_cell(g, t, s) ==> (#[trigger] g[t][s]).player_id is None,
    ensures
        accounted(g, players, players),
{
    assert forall|k: int| 0 <= k < players.len() implies players.contains(#[trigger] players[k]) by {
    }
    assert forall|j: int| 0 <= j < players.len() implies pool_has(players, #[trigger] players[j].player_id) by {
    }
}

/// Binding a player of the pool into a free slot keeps the account.
pub proof fn lemma_accounted_bind(
    g: Seq<Seq<PlayerSlot>>,
    pool: Seq<PlayerStats>,
    players: Seq<PlayerStats>,
    t: int,
    s: int,
    i: int,
)
    requires
        accounted(g, pool, players),
        valid_cell(g, t, s),
        g[t][s].player_id is None,
        0 <= i < pool.len(),
    ensures
        accounted(set_cell(g, t, s, bind(g[t][s], pool[i])), pool.remove(i), players),
{
    let p = pool[i];
    let v = bind(g[t][s], p);
    let g2 = set_cell(g, t, s, v);
    let pool2 = pool.remove(i);
    assert(players.contains(pool[i]));
    assert forall|a: int, b: int| 0 <= a < b < pool2.len() implies #[trigger] pool2[a].player_id
        != #[trigger] pool2[b].player_id by {
        let a0 = if a < i { a } else { a + 1 };
        let b0 = if b < i { b } else { b + 1 };
        assert(pool2[a] == pool[a0]);
        assert(pool2[b] == pool[b0]);
    }
    assert forall|u: int, j: int|
        valid_cell(g2, u, j) && (#[trigger] g2[u][j]).player_id is Some implies !pool_has(
        pool2,
        g2[u][j].player_id->Some_0,
    ) by {
        if pool_has(pool2, g2[u][j].player_id->Some_0) {
            let k = choose|k: int| 0 <= k < pool2.len() && #[trigger] pool2[k].player_id == g2[u][j].player_id->Some_0;
            let k0 = if k < i { k } else { k + 1 };
            assert(pool2[k] == pool[k0]);
            if u == t && j == s {
                assert(pool[k0].player_id == pool[i].player_id);
            } else {
                assert(g2[u][j] == g[u][j]);
                assert(pool_has(pool, g[u][j].player_id->Some_0));
            }
        }
    }
    assert forall|t1: int, s1: int, t2: int, s2: int|
        #![trigger g2[t1][s1], g2[t2][s2]]
        valid_cell(g2, t1, s1) && valid_cell(g2, t2, s2) && (t1 != t2 || s1 != s2)
            && g2[t1][s1].player_id is Some implies g2[t1][s1].player_id != g2[t2][s2].player_id by {
        if t1 == t && s1 == s {
            if g2[t2][s2].player_id is Some {
                assert(g2[t2][s2] == g[t2][s2]);
                assert(pool_has(pool, p.player_id));
            }
        } else if t2 == t && s2 == s {
            assert(g2[t1][s1] == g[t1][s1]);
            assert(pool_has(pool, p.player_id));
        } else {
            assert(g2[t1][s1] == g[t1][s1]);
            assert(g2[t2][s2] == g[t2][s2]);
        }
    }
    assert forall|k: int| 0 <= k < pool2.len() implies players.contains(#[trigger] pool2[k]) by {
        let k0 = if k < i { k } else { k + 1 };
        assert(pool2[k] == pool[k0]);
    }
    assert forall|u: int, j: int|
        valid_cell(g2, u, j) && (#[trigger] g2[u][j]).player_id is Some implies exists|w: int|
        0 <= w < players.len() && g2[u][j] == bind(g2[u][j], #[trigger] players[w]) by {
        if u == t && j == s {
            let w = choose|w: int| 0 <= w < players.len() && players[w] == p;
            assert(g2[u][j] == bind(g2[u][j], players[w]));
        } else {
            assert(g2[u][j] == g[u][j]);
        }
    }
    assert forall|j: int| 0 <= j < players.len() implies pool_has(pool2, #[trigger] players[j].player_id)
        || roster_has(g2, players[j].player_id) by {
        let id = players[j].player_id;
        if id == p.player_id {
            assert(g2[t][s].player_id == Some(id));
        } else if pool_has(pool, id) {
            let k = choose|k: int| 0 <= k < pool.len() && #[trigger] pool[k].player_id == id;
            assert(k != i);
            let k2 = if k < i { k } else { k - 1 };
            assert(pool2[k2] == pool[k]);
        } else {
            let (u, w) = choose|u: int, w: int| valid_cell(g, u, w) && #[trigger] g[u][w].player_id == Some(id);
            assert(u != t || w != s);
            assert(g2[u][w] == g[u][w]);
        }
    }
}

/// Exchanging slot `s` of the first two teams keeps the account.
pub proof fn lemma_accounted_swap(g: Seq<Seq<PlayerSlot>>, pool: Seq<PlayerStats>, players: Seq<PlayerStats>, s: int)
    requires
        accounted(g, pool, players),
        g.len() >= 2,
        valid_cell(g, 0, s),
        valid_cell(g, 1, s),
    ensures
        accounted(swap_cells(g, s), pool, players),
{
    let g2 = swap_cells(g, s);
    // where the slot now at (u, j) was before
    let src_t = |u: int, j: int| if j == s && u == 0 { 1int } else if j == s && u == 1 { 0int } else { u };
    assert forall|u: int, j: int| valid_cell(g2, u, j) implies valid_cell(g, src_t(u, j), j) && #[trigger] g2[u][j]
        == g[src_t(u, j)][j] by {
    }
    assert forall|u: int, j: int|
        valid_cell(g2, u, j) && (#[trigger] g2[u][j]).player_id is Some implies !pool_has(
        pool,
        g2[u][j].player_id->Some_0,
    ) by {
        assert(g2[u][j] == g[src_t(u, j)][j]);
    }
    assert forall|t1: int, s1: int, t2: int, s2: int|
        #![trigger g2[t1][s1], g2[t2][s2]]
        valid_cell(g2, t1, s1) && valid_cell(g2, t2, s2) && (t1 != t2 || s1 != s2)
            && g2[t1][s1].player_id is Some implies g2[t1][s1].player_id != g2[t2][s2].player_id by {
        assert(g2[t1][s1] == g[src_t(t1, s1)][s1]);
        assert(g2[t2][s2] == g[src_t(t2, s2)][s2]);
    }
    assert forall|u: int, j: int|
        valid_cell(g2, u, j) && (#[trigger] g2[u][j]).player_id is Some implies exists|w: int|
        0 <= w < players.len() && g2[u][j] == bind(g2[u][j], #[trigger] players[w]) by {
        assert(g2[u][j] == g[src_t(u, j)][j]);
    }
    assert forall|j: int| 0 <= j < players.len() implies pool_has(pool, #[trigger] players[j].player_id)
        || roster_has(g2, players[j].player_id) by {
        let id = players[j].player_id;
        if !pool_has(pool, id) {
            let (u, w) = choose|u: int, w: int| valid_cell(g, u, w) && #[trigger] g[u][w].player_id == Some(id);
            let u2 = src_t(u, w);
            assert(g2[u2][w] == g[u][w]);
        }
    }
}

/// Filling slot `s` of the teams from `t` on keeps the account and the
/// layout, fills those slots, and changes no other slot.
pub proof fn lemma_match_teams(
    g: Seq<Seq<PlayerSlot>>,
    pool: Seq<PlayerStats>,
    players: Seq<PlayerStats>,
    s: int,
    anchor: int,
    t: int,
    teams: int,
)
    requires
        accounted(g, pool, players),
        uniform_layout(g),
        g.len() == teams,
        0 <= s < g[0].len(),
        1 <= t <= teams,
        forall|u: int| t <= u < teams ==> (#[trigger] g[u][s]).player_id is None,
        pool.len() >= open_cells(g),
    ensures
        ({
            let m = match_teams(g, pool, s, anchor, t, teams);
            &&& accounted(m.0, m.1, players)
            &&& uniform_layout(m.0)
            &&& m.0.len() == teams
            &&& m.0[0].len() == g[0].len()
            &&& forall|u: int| t <= u < teams ==> (#[trigger] m.0[u][s]).player_id is Some
            &&& forall|u: int, j: int|
                0 <= u < teams && 0 <= j < g[0].len() && (j != s || u < t) ==> #[trigger] m.0[u][j]
                    == g[u][j]
            &&& m.1.len() >= open_cells(m.0)
            &&& same_positions(m.0, g)
        }),
    decreases teams - t,
{
    if t < teams {
        let pos = g[t][s].position;
        assert(g[t].len() == g[0].len());
        lemma_open_cells_update(g, t, s, g[t][s]);
        lemma_closest_in_range(pool, pos, anchor, pool.len() as int);
        let i = closest_in(pool, pos, anchor, pool.len() as int);
        let v = bind(g[t][s], pool[i]);
        let g1 = set_cell(g, t, s, v);
        lemma_accounted_bind(g, pool, players, t, s, i);
        lemma_set_cell_layout(g, t, s, v);
        lemma_open_cells_update(g, t, s, v);
        lemma_match_teams(g1, pool.remove(i), players, s, anchor, t + 1, teams);
        let m = match_teams(g1, pool.remove(i), s, anchor, t + 1, teams);
        assert(m == match_teams(g, pool, s, anchor, t, teams));
        assert forall|u: int| t <= u < teams implies (#[trigger] m.0[u][s]).player_id is Some by {
            if u == t {
                assert(m.0[u][s] == g1[u][s]);
            }
        }
        assert forall|u: int, j: int|
            0 <= u < teams && 0 <= j < g[0].len() && (j != s || u < t) implies #[trigger] m.0[u][j]
            == g[u][j] by {
            assert(m.0[u][j] == g1[u][j]);
        }
    }
}

/// The state of the balancing before slot index `s`: the account holds, the
/// layout is kept, every slot before `s` is filled, and every slot from `s`
/// on of the teams after the first is still free.
pub open spec fn fill_state(
    g: Seq<Seq<PlayerSlot>>,
    pool: Seq<PlayerStats>,
    players: Seq<PlayerStats>,
    s: int,
    teams: int,
    len: int,
) -> bool {
    &&& accounted(g, pool, players)
    &&& uniform_layout(g)
    &&& g.len() == teams
    &&& g[0].len() == len
    &&& 0 <= s <= len
    &&& forall|t: int, j: int| 1 <= t < teams && s <= j < len ==> (#[trigger] g[t][j]).player_id is None
    &&& forall|t: int, j: int| 0 <= t < teams && 0 <= j < s ==> (#[trigger] g[t][j]).player_id is Some
    &&& pool.len() >= open_cells(g)
}

pub proof fn lemma_fill_slot(
    g: Seq<Seq<PlayerSlot>>,
    pool: Seq<PlayerStats>,
    players: Seq<PlayerStats>,
    s: int,
    pick: int,
    swap: bool,
    teams: int,
    len: int,
)
    requires
        fill_state(g, pool, players, s, teams, len),
        s < len,
        pick >= 0,
    ensures
        ({
            let next = fill_slot(g, pool, s, pick, swap);
            fill_state(next.0, next.1, players, s + 1, teams, len) && same_positions(next.0, g)
        }),
{
    let pinned = g[0][s].player_id is Some;
    let i = pick % (pool.len() as int);
    let g1 = if pinned {
        g
    } else {
        set_cell(g, 0, s, bind(g[0][s], pool[i]))
    };
    let pool1 = if pinned {
        pool
    } else {
        pool.remove(i)
    };
    if !pinned {
        lemma_open_cells_update(g, 0, s, g[0][s]);
        let v = bind(g[0][s], pool[i]);
        lemma_accounted_bind(g, pool, players, 0, s, i);
        lemma_set_cell_layout(g, 0, s, v);
        lemma_open_cells_update(g, 0, s, v);
    }
    assert(g1[0][s].player_id is Some);
    assert forall|u: int| 1 <= u < teams implies (#[trigger] g1[u][s]).player_id is None by {
        assert(g1[u][s] == g[u][s]);
    }
    lemma_match_teams(g1, pool1, players, s, g1[0][s].smvp as int, 1, teams);
    let m = match_teams(g1, pool1, s, g1[0][s].smvp as int, 1, teams);
    assert(m.0[0][s] == g1[0][s]);
    let next = fill_slot(g, pool, s, pick, swap);
    assert forall|t: int, j: int| 1 <= t < teams && s + 1 <= j < len implies (#[trigger] m.0[t][j]).player_id is None by {
        assert(m.0[t][j] == g1[t][j]);
        assert(g1[t][j] == g[t][j]);
    }
    assert forall|t: int, j: int| 0 <= t < teams && 0 <= j < s + 1 implies (#[trigger] m.0[t][j]).player_id is Some by {
        if j < s {
            assert(m.0[t][j] == g1[t][j]);
            assert(g1[t][j] == g[t][j]);
        }
    }
    if pinned && swap && teams >= 2 {
        let gw = m.0;
        assert(gw[1].len() == gw[0].len());
        lemma_accounted_swap(gw, m.1, players, s);
        let a = gw[0][s];
        let b = gw[1][s];
        lemma_set_cell_layout(gw, 0, s, b);
        lemma_open_cells_update(gw, 0, s, b);
        let gm = set_cell(gw, 0, s, b);
        lemma_set_cell_layout(gm, 1, s, a);
        lemma_open_cells_update(gm, 1, s, a);
        let g2 = swap_cells(gw, s);
        assert(next.0 == g2);
        assert forall|t: int, j: int| 1 <= t < teams && s + 1 <= j < len implies (#[trigger] g2[t][j]).player_id is None by {
            assert(g2[t][j] == gw[t][j]);
        }
        assert forall|t: int, j: int| 0 <= t < teams && 0 <= j < s + 1 implies (#[trigger] g2[t][j]).player_id is Some by {
            if j != s || t >= 2 {
                assert(g2[t][j] == gw[t][j]);
            } else if t == 0 {
                assert(g2[t][j] == gw[1][j]);
            } else {
                assert(g2[t][j] == gw[0][j]);
            }
        }
    }
}

pub proof fn lemma_fill_from(
    g: Seq<Seq<PlayerSlot>>,
    pool: Seq<PlayerStats>,
    players: Seq<PlayerStats>,
    picks: Seq<usize>,
    swaps: Seq<bool>,
    s: int,
    teams: int,
    len: int,
)
    requires
        fill_state(g, pool, players, s, teams, len),
    ensures
        ({
            let out = fill_from(g, pool, picks, swaps, s, len);
            fill_state(out.0, out.1, players, len, teams, len) && same_positions(out.0, g)
        }),
    decreases len - s,
{
    if s < len {
        lemma_fill_slot(g, pool, players, s, pick_of(picks, s), swap_of(swaps, s), teams, len);
        let next = fill_slot(g, pool, s, pick_of(picks, s), swap_of(swaps, s));
        lemma_fill_from(next.0, next.1, players, picks, swaps, s + 1, teams, len);
    }
}

/// Applying position overrides keeps the account and leaves a grid the
/// balancing can run on.
pub proof fn lemma_overrides(
    g: Seq<Seq<PlayerSlot>>,
    pool: Seq<PlayerStats>,
    players: Seq<PlayerStats>,
    mods: Seq<u64>,
    k: int,
)
    requires
        accounted(g, pool, players),
        ready_for_fill(g, pool),
    ensures
        apply_overrides(g, pool, mods, k) matches Ok((g1, p1)) ==> accounted(g1, p1, players)
            && ready_for_fill(g1, p1) && g1.len() == g.len() && g1[0].len() == g[0].len()
            && same_positions(g1, g),
    decreases mods.len() - k,
{
    if !(k < 0 || k + 1 >= mods.len()) {
        let id = mods[k];
        let pos = mods[k + 1];
        lemma_find_player_from_range(pool, id, 0);
        lemma_free_slot_from_range(g[0], pos, 0);
        if let Some(i) = find_player_from(pool, id, 0) {
            if let Some(s) = free_slot_from(g[0], pos, 0) {
                let v = bind(g[0][s], pool[i]);
                let g1 = set_cell(g, 0, s, v);
                lemma_accounted_bind(g, pool, players, 0, s, i);
                lemma_set_cell_layout(g, 0, s, v);
                lemma_open_cells_update(g, 0, s, v);
                assert forall|t: int, j: int|
                    1 <= t < g1.len() && 0 <= j < g1[0].len() implies #[trigger] g1[t][j].player_id is None by {
                    assert(g1[t][j] == g[t][j]);
                }
                lemma_overrides(g1, pool.remove(i), players, mods, k + 2);
            }
        }
    }
}

/// The state of the team-by-team fill before slot `s` of team `t`: the
/// account holds, the layout is kept, every slot before is filled and every
/// slot from there on is free.
pub open spec fn random_state(
    g: Seq<Seq<PlayerSlot>>,
    pool: Seq<PlayerStats>,
    players: Seq<PlayerStats>,
    t: int,
    s: int,
    teams: int,
    len: int,
) -> bool {
    &&& accounted(g, pool, players)
    &&& uniform_layout(g)
    &&& g.len() == teams
    &&& g[0].len() == len
    &&& 0 <= t <= teams
    &&& 0 <= s <= len
    &&& forall|u: int, j: int|
        0 <= u < teams && 0 <= j < len && (u < t || (u == t && j < s)) ==> (#[trigger] g[u][j]).player_id is Some
    &&& forall|u: int, j: int|
        0 <= u < teams && 0 <= j < len && (u > t || (u == t && j >= s)) ==> (#[trigger] g[u][j]).player_id is None
    &&& pool.len() >= open_cells(g)
}

pub proof fn lemma_random_row(
    g: Seq<Seq<PlayerSlot>>,
    pool: Seq<PlayerStats>,
    players: Seq<PlayerStats>,
    picks: Seq<usize>,
    k: int,
    t: int,
    s: int,
    teams: int,
    len: int,
)
    requires
        random_state(g, pool, players, t, s, teams, len),
        t < teams,
    ensures
        ({
            let row = random_row(g, pool, picks, k, t, s, len);
            random_state(row.0, row.1, players, t, len, teams, len) && same_positions(row.0, g)
        }),
    decreases len - s,
{
    if s < len {
        assert(g[t].len() == len);
        lemma_open_cells_update(g, t, s, g[t][s]);
        let i = pick_of(picks, k) % (pool.len() as int);
        let v = bind(g[t][s], pool[i]);
        let g1 = set_cell(g, t, s, v);
        lemma_accounted_bind(g, pool, players, t, s, i);
        lemma_set_cell_layout(g, t, s, v);
        lemma_open_cells_update(g, t, s, v);
        assert forall|u: int, j: int|
            0 <= u < teams && 0 <= j < len && (u < t || (u == t && j < s + 1)) implies (
        #[trigger] g1[u][j]).player_id is Some by {
            if u != t || j != s {
                assert(g1[u][j] == g[u][j]);
            }
        }
        assert forall|u: int, j: int|
            0 <= u < teams && 0 <= j < len && (u > t || (u == t && j >= s + 1)) implies (
        #[trigger] g1[u][j]).player_id is None by {
            assert(g1[u][j] == g[u][j]);
        }
        lemma_random_row(g1, pool.remove(i), players, picks, k + 1, t, s + 1, teams, len);
    }
}

pub proof fn lemma_random_rows(
    g: Seq<Seq<PlayerSlot>>,
    pool: Seq<PlayerStats>,
    players: Seq<PlayerStats>,
    picks: Seq<usize>,
    k: int,
    t: int,
    teams: int,
    len: int,
)
    requires
        random_state(g, pool, players, t, 0, teams, len),
    ensures
        ({
            let rows = random_rows(g, pool, picks, k, t, teams, len);
            random_state(rows.0, rows.1, players, teams, 0, teams, len) && same_positions(rows.0, g)
        }),
    decreases teams - t,
{
    if t < teams {
        lemma_random_row(g, pool, players, picks, k, t, 0, teams, len);
        let row = random_row(g, pool, picks, k, t, 0, len);
        let g1 = row.0;
        assert forall|u: int, j: int|
            0 <= u < teams && 0 <= j < len && (u < t + 1 || (u == t + 1 && j < 0)) implies (
        #[trigger] g1[u][j]).player_id is Some by {
        }
        assert forall|u: int, j: int|
            0 <= u < teams && 0 <= j < len && (u > t + 1 || (u == t + 1 && j >= 0)) implies (
        #[trigger] g1[u][j]).player_id is None by {
        }
        lemma_random_rows(g1, row.1, players, picks, k + len, t + 1, teams, len);
    }
}

} // verus!
