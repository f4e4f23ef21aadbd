use vstd::prelude::*;

use crate::positions::POSITION_COUNT;

verus! {

/// The game layouts a roster can be requested for.
#[allow(non_camel_case_types)]
#[derive(Clone, Copy, Debug, PartialEq, Eq, Structural)]
pub enum GameType {
    Sm5_12_Player,
    Sm5_14_Player,
    Sm5_10_Player,
    Sm5_QueenBee,
}

/// One position opening on one team. `smvp` is the ranking score of the
/// assigned player at this position, in millionths of a point.
#[derive(Clone, Debug, PartialEq, Eq)]
pub struct PlayerSlot {
    pub position: u64,
    pub player_id: Option<u64>,
    pub smvp: i128,
    pub player_name: String,
}

/// The slots of a roster as a grid, team by team.
pub open spec fn cells(g: Seq<Vec<PlayerSlot>>) -> Seq<Seq<PlayerSlot>> {
    g.map_values(|team: Vec<PlayerSlot>| team@)
}

/// Number of slots per team of a layout.
pub open spec fn slots_per_team(game: GameType) -> int {
    match game {
        GameType::Sm5_12_Player => 6,
        GameType::Sm5_14_Player => 7,
        GameType::Sm5_10_Player => 5,
        GameType::Sm5_QueenBee => 4,
    }
}

/// Position indices of the slots of one team of the twelve-player layout.
pub open spec fn twelve_player_layout() -> Seq<u64> {
    seq![0u64, 1, 2, 2, 3, 4]
}

/// Every team has the slot count and the positions of the first team, every
/// position is one of the five, and there is at least one team.
pub open spec fn uniform_layout(g: Seq<Seq<PlayerSlot>>) -> bool {
    &&& g.len() >= 1
    &&& forall|t: int| 0 <= t < g.len() ==> #[trigger] g[t].len() == g[0].len()
    &&& forall|s: int| 0 <= s < g[0].len() ==> #[trigger] g[0][s].position < POSITION_COUNT
    &&& forall|t: int, s: int|
        0 <= t < g.len() && 0 <= s < g[0].len() ==> #[trigger] g[t][s].position == g[0][s].position
}

/// A roster of one layout with every slot unassigned.
pub open spec fn blank_roster(g: Seq<Seq<PlayerSlot>>) -> bool {
    &&& uniform_layout(g)
    &&& forall|t: int, s: int|
        0 <= t < g.len() && 0 <= s < g[0].len() ==> #[trigger] g[t][s].player_id is None
}

/// Number of players a roster needs.
pub open spec fn capacity(g: Seq<Seq<PlayerSlot>>) -> int {
    if g.len() == 0 {
        0
    } else {
        (g.len() * g[0].len()) as int
    }
}

/// Number of players needed for `team_count` teams of a layout.
pub fn required_player_count(game: GameType, team_count: u8) -> (r: u64)
    ensures
        r == slots_per_team(game) * team_count,
{
    let per_team: u64 = match game {
        GameType::Sm5_12_Player => 6,
        GameType::Sm5_14_Player => 7,
        GameType::Sm5_10_Player => 5,
        GameType::Sm5_QueenBee => 4,
    };
    per_team * team_count as u64
}

/// A blank roster of `team_count` teams for a layout. Only the twelve-player
/// layout is defined; the others are refused.
pub fn create_game(game: GameType, team_count: u8) -> (r: Result<Vec<Vec<PlayerSlot>>, crate::error::SelectionError>)
    ensures
        game != GameType::Sm5_12_Player ==> r == Err::<Vec<Vec<PlayerSlot>>, crate::error::SelectionError>(
            crate::error::SelectionError::UnsupportedLayout,
        ),
        game == GameType::Sm5_12_Player ==> (r matches Ok(g) && {
            &&& g@.len() == team_count
            &&& forall|t: int| 0 <= t < team_count ==> (#[trigger] g@[t])@.len() == 6
            &&& forall|t: int, s: int|
                0 <= t < team_count && 0 <= s < 6 ==> {
                    let slot = #[trigger] g@[t]@[s];
                    &&& slot.position == twelve_player_layout()[s]
                    &&& slot.player_id is None
                    &&& slot.smvp == 0
                    &&& slot.player_name@ == Seq::<char>::empty()
                }
        }),
{
    match game {
        GameType::Sm5_12_Player => {},
        _ => {
            return Err(crate::error::SelectionError::UnsupportedLayout);
        },
    }
    let layout: Vec<u64> = vec![0, 1, 2, 2, 3, 4];
    assert(layout@ == twelve_player_layout());
    let mut teams: Vec<Vec<PlayerSlot>> = Vec::new();
    let mut t: u8 = 0;
    while t < team_count
        invariant
            t <= team_count,
            layout@ == twelve_player_layout(),
            teams@.len() == t,
            forall|u: int| 0 <= u < t ==> (#[trigger] teams@[u])@.len() == 6,
            forall|u: int, s: int|
                0 <= u < t && 0 <= s < 6 ==> {
                    let slot = #[trigger] teams@[u]@[s];
                    &&& slot.position == twelve_player_layout()[s]
                    &&& slot.player_id is None
                    &&& slot.smvp == 0
                    &&& slot.player_name@ == Seq::<char>::empty()
                },
        decreases team_count - t,
    {
        let mut team: Vec<PlayerSlot> = Vec::new();
        let mut s: usize = 0;
        while s < layout.len()
            invariant
                s <= layout@.len(),
                layout@ == twelve_player_layout(),
                team@.len() == s,
                forall|j: int|
                    0 <= j < s ==> {
                        let slot = #[trigger] team@[j];
                        &&& slot.position == twelve_player_layout()[j]
                        &&& slot.player_id is None
                        &&& slot.smvp == 0
                        &&& slot.player_name@ == Seq::<char>::empty()
                    },
            decreases layout@.len() - s,
        {
            team.push(PlayerSlot { position: layout[s], player_id: None, smvp: 0, player_name: String::new() });
            s = s + 1;
        }
        teams.push(team);
        t = t + 1;
    }
    Ok(teams)
}

} // verus!
