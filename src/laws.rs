//! Properties that relate several functions of the library, or a function
//! to itself over several calls.
use vstd::prelude::*;

use crate::aggregate::{ascending, lemma_ascending_ensures, mean_of, median_of, midpoint, sum_of};
use crate::ledger::{accounted, pool_has, roster_has, same_positions, valid_cell};
use crate::roster::PlayerSlot;
use crate::score::smvp_of;
use crate::grid::{bind, set_cell};
use crate::overrides::{
    apply_overrides, find_player_from, free_slot_from, lemma_find_player_from_range,
    lemma_free_slot_from_range,
};
use crate::grid::player_score;
use crate::selection::{
    balanced_roster, closest_in, distance, fill_from, lemma_advanced_state, lemma_random_state, overrides_of, precheck,
    random_rows,
};
use crate::stats::{aggregate_of, MVPCalculationMode, PlayerStats, PositionStats};

verus! {

broadcast use vstd::seq_lib::group_to_multiset_ensures;

/// The median of a nonempty column is its middle value in ascending order
/// when the count is odd, and the midpoint of its two middle values when it
/// is even; its mean is its sum divided by its count.
pub proof fn law_aggregates(s: Seq<i64>)
    requires
        s.len() > 0,
    ensures
        s.len() % 2 == 1 ==> median_of(s) == ascending(s)[(s.len() / 2) as int] as int,
        s.len() % 2 == 0 ==> median_of(s) == midpoint(
            ascending(s)[s.len() / 2 - 1] as int,
            ascending(s)[(s.len() / 2) as int] as int,
        ),
        mean_of(s) == sum_of(s) / (s.len() as int),
{
    lemma_ascending_ensures(s);
    assert(ascending(s).len() == ascending(s).to_multiset().len());
    assert(s.len() == s.to_multiset().len());
}

/// An empty column reduces to the fallback, in either mode.
pub proof fn law_empty_fallback(mode: MVPCalculationMode, fallback: int)
    ensures
        aggregate_of(Seq::empty(), mode, fallback) == fallback,
{
}

/// The player matched to an anchor score is the first of those whose score
/// at the position is closest to it: no player is closer, and every player
/// before it is farther.
pub proof fn law_closest_first_minimum(pool: Seq<PlayerStats>, pos: u64, anchor: int, n: int)
    requires
        1 <= n <= pool.len(),
    ensures
        ({
            let i = closest_in(pool, pos, anchor, n);
            &&& 0 <= i < n
            &&& forall|j: int|
                0 <= j < n ==> distance(player_score(pool[i], pos), anchor) <= distance(
                    player_score(#[trigger] pool[j], pos),
                    anchor,
                )
            &&& forall|j: int|
                0 <= j < i ==> distance(player_score(pool[i], pos), anchor) < distance(
                    player_score(#[trigger] pool[j], pos),
                    anchor,
                )
        }),
    decreases n,
{
    if n > 1 {
        law_closest_first_minimum(pool, pos, anchor, n - 1);
    }
}

/// Equal summaries have equal scores.
pub proof fn law_score_pure(a: PositionStats, b: PositionStats)
    requires
        a == b,
    ensures
        smvp_of(a) == smvp_of(b),
{
}

/// The advanced balancing is a function of the grid, the pool, the overrides
/// and the draws: the same inputs and the same draws give the same roster.
pub proof fn law_advanced_deterministic(
    g: Seq<Seq<PlayerSlot>>,
    players: Seq<PlayerStats>,
    mods: Option<Vec<u64>>,
    picks: Seq<usize>,
    swaps: Seq<bool>,
    g2: Seq<Seq<PlayerSlot>>,
    players2: Seq<PlayerStats>,
    mods2: Option<Vec<u64>>,
    picks2: Seq<usize>,
    swaps2: Seq<bool>,
)
    requires
        g == g2,
        players == players2,
        mods == mods2,
        picks == picks2,
        swaps == swaps2,
        overrides_of(g, players, mods) is Ok,
    ensures
        ({
            let (a, pa) = overrides_of(g, players, mods)->Ok_0;
            let (b, pb) = overrides_of(g2, players2, mods2)->Ok_0;
            fill_from(a, pa, picks, swaps, 0, a[0].len() as int) == fill_from(
                b,
                pb,
                picks2,
                swaps2,
                0,
                b[0].len() as int,
            )
        }),
{
}

/// After the advanced balancing of a checked roster, whatever the draws:
/// every slot holds a supplied player, none twice, each slot keeps its
/// position, and a player holds a slot exactly when they were supplied and
/// are not among those left over.
pub proof fn law_advanced_balanced(
    g: Seq<Seq<PlayerSlot>>,
    players: Seq<PlayerStats>,
    mods: Option<Vec<u64>>,
    picks: Seq<usize>,
    swaps: Seq<bool>,
)
    requires
        precheck(g, players) is None,
        overrides_of(g, players, mods) is Ok,
    ensures
        ({
            let (g1, p1) = overrides_of(g, players, mods)->Ok_0;
            let out = fill_from(g1, p1, picks, swaps, 0, g1[0].len() as int);
            &&& balanced_roster(out.0, players)
            &&& same_positions(out.0, g)
            &&& forall|id: u64| #[trigger] roster_has(out.0, id) <==> (pool_has(players, id) && !pool_has(out.1, id))
        }),
{
    lemma_advanced_state(g, players, mods, picks, swaps);
    let (g1, p1) = overrides_of(g, players, mods)->Ok_0;
    let out = fill_from(g1, p1, picks, swaps, 0, g1[0].len() as int);
    lemma_leftover(out.0, out.1, players);
}

/// After the team-by-team random fill of a checked roster, whatever the
/// draws: every slot holds a supplied player, none twice, each slot keeps its
/// position, and a player holds a slot exactly when they were supplied and
/// are not among those left over.
pub proof fn law_random_balanced(g: Seq<Seq<PlayerSlot>>, players: Seq<PlayerStats>, picks: Seq<usize>)
    requires
        precheck(g, players) is None,
    ensures
        ({
            let out = random_rows(g, players, picks, 0, 0, g.len() as int, g[0].len() as int);
            &&& balanced_roster(out.0, players)
            &&& same_positions(out.0, g)
            &&& forall|id: u64| #[trigger] roster_has(out.0, id) <==> (pool_has(players, id) && !pool_has(out.1, id))
        }),
{
    lemma_random_state(g, players, picks);
    let out = random_rows(g, players, picks, 0, 0, g.len() as int, g[0].len() as int);
    lemma_leftover(out.0, out.1, players);
}

/// Some slot of the first team holds player `id` and has position `pos`.
pub open spec fn pinned_on_first_team(g: Seq<Seq<PlayerSlot>>, id: u64, pos: u64) -> bool {
    exists|s: int| 0 <= s < g[0].len() && #[trigger] g[0][s].player_id == Some(id) && g[0][s].position == pos
}

/// Once the position overrides are applied, each pinned player holds a slot
/// of the first team with the position named for them.
pub proof fn law_overrides_pin(g: Seq<Seq<PlayerSlot>>, pool: Seq<PlayerStats>, mods: Seq<u64>)
    requires
        g.len() >= 1,
        apply_overrides(g, pool, mods, 0) is Ok,
    ensures
        forall|j: int|
            0 <= j && 2 * j + 1 < mods.len() ==> pinned_on_first_team(
                apply_overrides(g, pool, mods, 0)->Ok_0.0,
                #[trigger] mods[2 * j],
                mods[2 * j + 1],
            ),
{
    lemma_overrides_kept(g, pool, mods, 0);
    let g1 = apply_overrides(g, pool, mods, 0)->Ok_0.0;
    assert forall|j: int| 0 <= j && 2 * j + 1 < mods.len() implies pinned_on_first_team(
        g1,
        #[trigger] mods[2 * j],
        mods[2 * j + 1],
    ) by {
        assert((2 * j - 0) % 2 == 0);
    }
}

proof fn lemma_overrides_kept(g: Seq<Seq<PlayerSlot>>, pool: Seq<PlayerStats>, mods: Seq<u64>, k: int)
    requires
        g.len() >= 1,
        0 <= k,
    ensures
        apply_overrides(g, pool, mods, k) matches Ok((g1, p1)) ==> {
            &&& g1.len() == g.len()
            &&& g1[0].len() == g[0].len()
            &&& forall|s: int|
                0 <= s < g[0].len() && (#[trigger] g[0][s]).player_id is Some ==> g1[0][s] == g[0][s]
            &&& forall|m: int|
                k <= m && m + 1 < mods.len() && (m - k) % 2 == 0 ==> pinned_on_first_team(
                    g1,
                    #[trigger] mods[m],
                    mods[m + 1],
                )
        },
    decreases mods.len() - k,
{
    if k + 1 < mods.len() {
        let id = mods[k];
        let pos = mods[k + 1];
        lemma_find_player_from_range(pool, id, 0);
        lemma_free_slot_from_range(g[0], pos, 0);
        if let Some(i) = find_player_from(pool, id, 0) {
            if let Some(s) = free_slot_from(g[0], pos, 0) {
                let g2 = set_cell(g, 0, s, bind(g[0][s], pool[i]));
                lemma_overrides_kept(g2, pool.remove(i), mods, k + 2);
                if apply_overrides(g, pool, mods, k) is Ok {
                    let g1 = apply_overrides(g, pool, mods, k)->Ok_0.0;
                    assert(g1 == apply_overrides(g2, pool.remove(i), mods, k + 2)->Ok_0.0);
                    assert(g2[0][s].player_id is Some);
                    assert(g1[0][s] == g2[0][s]);
                    assert forall|m: int|
                        k <= m && m + 1 < mods.len() && (m - k) % 2 == 0 implies pinned_on_first_team(
                        g1,
                        #[trigger] mods[m],
                        mods[m + 1],
                    ) by {
                        if m == k {
                            assert(g1[0][s].player_id == Some(id));
                        } else {
                            assert((m - (k + 2)) % 2 == 0);
                        }
                    }
                    assert forall|j: int|
                        0 <= j < g[0].len() && (#[trigger] g[0][j]).player_id is Some implies g1[0][j]
                        == g[0][j] by {
                        assert(g2[0][j] == g[0][j]);
                    }
                }
            }
        }
    }
}

proof fn lemma_leftover(g: Seq<Seq<PlayerSlot>>, pool: Seq<PlayerStats>, players: Seq<PlayerStats>)
    requires
        accounted(g, pool, players),
    ensures
        forall|id: u64| #[trigger] roster_has(g, id) <==> (pool_has(players, id) && !pool_has(pool, id)),
{
    assert forall|id: u64| #[trigger] roster_has(g, id) implies pool_has(players, id) && !pool_has(pool, id) by {
        let (t, s) = choose|t: int, s: int| valid_cell(g, t, s) && #[trigger] g[t][s].player_id == Some(id);
        let j = choose|j: int| 0 <= j < players.len() && g[t][s] == bind(g[t][s], #[trigger] players[j]);
        assert(players[j].player_id == id);
    }
    assert forall|id: u64| pool_has(players, id) && !pool_has(pool, id) implies #[trigger] roster_has(g, id) by {
        let k = choose|k: int| 0 <= k < players.len() && #[trigger] players[k].player_id == id;
    }
}

} // verus!
