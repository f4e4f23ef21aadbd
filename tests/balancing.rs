use rand::rngs::StdRng;
use rand::SeedableRng;
use team_selector::error::SelectionError;
use team_selector::roster::{create_game, required_player_count, GameType, PlayerSlot};
use team_selector::overrides::assign_position_modifier_to_slot;
use team_selector::selection::{
    calculate_advanced, fill_advanced, fill_random, random_random, select_teams, Algorithm,
};
use team_selector::stats::{PlayerStats, PositionStats};

fn flat(mvp: i64) -> PositionStats {
    PositionStats { mvp, hit_diff: 1000, games_played: 0 }
}

fn player(id: u64, mvp: i64) -> PlayerStats {
    PlayerStats {
        player_id: id,
        player_name: format!("P{}", id),
        commander_stats: flat(mvp),
        heavy_stats: flat(mvp),
        scout_stats: flat(mvp),
        ammo_stats: flat(mvp),
        medic_stats: flat(mvp),
    }
}

fn pool(n: u64) -> Vec<PlayerStats> {
    (1..=n).map(|id| player(id, id as i64 * 1000)).collect()
}

fn ids(game: &Vec<Vec<PlayerSlot>>) -> Vec<Vec<Option<u64>>> {
    game.iter().map(|team| team.iter().map(|s| s.player_id).collect()).collect()
}

fn blank(teams: u8) -> Vec<Vec<PlayerSlot>> {
    create_game(GameType::Sm5_12_Player, teams).unwrap()
}

#[test]
fn twelve_player_layout_is_built() {
    let game = blank(2);
    assert_eq!(game.len(), 2);
    for team in &game {
        let positions: Vec<u64> = team.iter().map(|s| s.position).collect();
        assert_eq!(positions, vec![0, 1, 2, 2, 3, 4]);
        assert!(team.iter().all(|s| s.player_id.is_none() && s.player_name.is_empty()));
    }
}

#[test]
fn other_layouts_are_unsupported() {
    for layout in [GameType::Sm5_14_Player, GameType::Sm5_10_Player, GameType::Sm5_QueenBee] {
        assert!(matches!(create_game(layout, 2), Err(SelectionError::UnsupportedLayout)));
    }
}

#[test]
fn player_counts_per_layout() {
    assert_eq!(required_player_count(GameType::Sm5_12_Player, 2), 12);
    assert_eq!(required_player_count(GameType::Sm5_14_Player, 2), 14);
    assert_eq!(required_player_count(GameType::Sm5_10_Player, 3), 15);
    assert_eq!(required_player_count(GameType::Sm5_QueenBee, 255), 1020);
}

#[test]
fn override_pins_player_to_first_commander_slot() {
    let (game, rest) = assign_position_modifier_to_slot(blank(2), pool(12), &vec![7, 0]).unwrap();
    assert_eq!(game[0][0].player_id, Some(7));
    assert_eq!(game[0][0].player_name, "P7");
    assert_eq!(game[0][0].smvp, 7_000_000);
    assert!(game[0][1..].iter().all(|s| s.player_id.is_none()));
    assert!(game[1].iter().all(|s| s.player_id.is_none()));
    assert_eq!(rest.len(), 11);
    assert!(rest.iter().all(|p| p.player_id != 7));
}

#[test]
fn scout_overrides_fill_scout_slots_in_order() {
    let (game, rest) =
        assign_position_modifier_to_slot(blank(2), pool(12), &vec![3, 2, 5, 2]).unwrap();
    assert_eq!(game[0][2].player_id, Some(3));
    assert_eq!(game[0][3].player_id, Some(5));
    assert_eq!(rest.len(), 10);
}

#[test]
fn override_without_free_slot_is_refused() {
    let result = assign_position_modifier_to_slot(blank(2), pool(12), &vec![3, 0, 5, 0]);
    assert!(matches!(
        result,
        Err(SelectionError::NoFreeSlot { player_id: 5, position: 0 })
    ));
    let result = assign_position_modifier_to_slot(blank(2), pool(12), &vec![3, 9]);
    assert!(matches!(
        result,
        Err(SelectionError::NoFreeSlot { player_id: 3, position: 9 })
    ));
}

#[test]
fn override_of_unknown_player_is_refused() {
    let result = assign_position_modifier_to_slot(blank(2), pool(12), &vec![99, 1]);
    assert!(matches!(result, Err(SelectionError::UnknownOverridePlayer(99))));
    let result = assign_position_modifier_to_slot(blank(2), pool(12), &vec![4, 1, 4, 2]);
    assert!(matches!(result, Err(SelectionError::UnknownOverridePlayer(4))));
}

#[test]
fn advanced_fill_pairs_closest_scores() {
    let game = fill_advanced(blank(2), pool(12), &vec![0; 6], &vec![false; 6]);
    assert_eq!(
        ids(&game),
        vec![
            vec![Some(1), Some(3), Some(5), Some(7), Some(9), Some(11)],
            vec![Some(2), Some(4), Some(6), Some(8), Some(10), Some(12)],
        ]
    );
    assert_eq!(game[1][5].smvp, 12_000_000);
    assert_eq!(game[1][5].player_name, "P12");
}

#[test]
fn advanced_fill_uses_picks_modulo_pool() {
    let game = fill_advanced(blank(2), pool(12), &vec![11, 100, 0, 0, 0, 0], &vec![]);
    assert_eq!(game[0][0].player_id, Some(12));
    assert_eq!(game[1][0].player_id, Some(11));
    // pool is now 1..=10; 100 % 10 == 0
    assert_eq!(game[0][1].player_id, Some(1));
    assert_eq!(game[1][1].player_id, Some(2));
}

#[test]
fn closest_match_ties_go_to_first_in_pool() {
    let mut players = vec![player(10, 5000), player(20, 6000), player(30, 4000)];
    players.extend((40..49).map(|id| player(id, 50_000)));
    let game = fill_advanced(blank(2), players, &vec![0; 6], &vec![false; 6]);
    assert_eq!(game[0][0].player_id, Some(10));
    assert_eq!(game[1][0].player_id, Some(20));
}

#[test]
fn closest_match_handles_negative_scores() {
    let mut players = vec![player(1, -2000), player(2, 3000), player(3, -1000)];
    players.extend((10..19).map(|id| player(id, 90_000)));
    let game = fill_advanced(blank(2), players, &vec![0; 6], &vec![false; 6]);
    assert_eq!(game[0][0].player_id, Some(1));
    assert_eq!(game[1][0].player_id, Some(3));
    assert_eq!(game[1][0].smvp, -1_000_000);
}

#[test]
fn pinned_slot_reuses_its_score_and_may_swap() {
    let (game, rest) = assign_position_modifier_to_slot(blank(2), pool(12), &vec![6, 0]).unwrap();
    let kept = fill_advanced(game, rest, &vec![0; 6], &vec![false; 6]);
    assert_eq!(kept[0][0].player_id, Some(6));
    assert_eq!(kept[1][0].player_id, Some(5));
    let (game, rest) = assign_position_modifier_to_slot(blank(2), pool(12), &vec![6, 0]).unwrap();
    let swapped = fill_advanced(game, rest, &vec![0; 6], &vec![true; 6]);
    assert_eq!(swapped[0][0].player_id, Some(5));
    assert_eq!(swapped[1][0].player_id, Some(6));
    // only the pinned slot index is exchanged
    assert_eq!(ids(&swapped)[0][1..], ids(&kept)[0][1..]);
}

#[test]
fn random_fill_goes_team_by_team() {
    let game = fill_random(blank(2), pool(12), &vec![0; 12]);
    assert_eq!(
        ids(&game),
        vec![
            vec![Some(1), Some(2), Some(3), Some(4), Some(5), Some(6)],
            vec![Some(7), Some(8), Some(9), Some(10), Some(11), Some(12)],
        ]
    );
    assert_eq!(game[1][0].smvp, 7_000_000);
}

fn assert_balanced(game: &Vec<Vec<PlayerSlot>>, supplied: &Vec<PlayerStats>) {
    let mut seen: Vec<u64> = Vec::new();
    for team in game {
        for slot in team {
            let id = slot.player_id.expect("every slot is filled");
            assert!(!seen.contains(&id));
            assert!(supplied.iter().any(|p| p.player_id == id));
            seen.push(id);
        }
    }
    assert_eq!(seen.len(), 12);
}

#[test]
fn seeded_advanced_runs_are_identical() {
    let mods = Some(vec![4, 0, 9, 2]);
    let mut first = StdRng::seed_from_u64(42);
    let mut second = StdRng::seed_from_u64(42);
    let a = calculate_advanced(blank(2), pool(14), &mods, &None, &mut first).unwrap();
    let b = calculate_advanced(blank(2), pool(14), &mods, &None, &mut second).unwrap();
    assert_eq!(a, b);
}

#[test]
fn advanced_run_fills_every_slot_once() {
    let mut rng = StdRng::seed_from_u64(7);
    let players = pool(15);
    let game =
        calculate_advanced(blank(2), players.clone(), &Some(vec![3, 4]), &None, &mut rng).unwrap();
    assert_balanced(&game, &players);
    assert!(game[0][5].player_id == Some(3) || game[1][5].player_id == Some(3));
}

#[test]
fn random_run_fills_every_slot_once() {
    let mut rng = StdRng::seed_from_u64(11);
    let players = pool(12);
    let game = random_random(blank(2), players.clone(), &None, &None, &mut rng).unwrap();
    assert_balanced(&game, &players);
    let mut again = StdRng::seed_from_u64(11);
    let repeat = random_random(blank(2), players.clone(), &None, &None, &mut again).unwrap();
    assert_eq!(game, repeat);
}

#[test]
fn too_few_players_fail_before_balancing() {
    let mut rng = StdRng::seed_from_u64(1);
    let result = calculate_advanced(blank(2), pool(5), &Some(vec![1, 0]), &None, &mut rng);
    assert!(matches!(result, Err(SelectionError::NotEnoughPlayers)));
    let result = random_random(blank(2), pool(11), &None, &None, &mut rng);
    assert!(matches!(result, Err(SelectionError::NotEnoughPlayers)));
}

#[test]
fn repeated_player_is_refused() {
    let mut rng = StdRng::seed_from_u64(1);
    let mut players = pool(12);
    players.push(player(5, 1000));
    let result = calculate_advanced(blank(2), players, &None, &None, &mut rng);
    assert!(matches!(result, Err(SelectionError::DuplicatePlayer)));
}

#[test]
fn malformed_roster_is_refused() {
    let mut rng = StdRng::seed_from_u64(1);
    let result = calculate_advanced(Vec::new(), pool(12), &None, &None, &mut rng);
    assert!(matches!(result, Err(SelectionError::MalformedRoster)));
    let mut game = blank(2);
    game[1].pop();
    let result = random_random(game, pool(12), &None, &None, &mut rng);
    assert!(matches!(result, Err(SelectionError::MalformedRoster)));
}

#[test]
fn advanced_run_reports_override_errors() {
    let mut rng = StdRng::seed_from_u64(1);
    let result = calculate_advanced(blank(2), pool(12), &Some(vec![77, 0]), &None, &mut rng);
    assert!(matches!(result, Err(SelectionError::UnknownOverridePlayer(77))));
}

#[test]
fn select_teams_dispatches_and_refuses() {
    let mut rng = StdRng::seed_from_u64(3);
    for algorithm in [Algorithm::Simple_Selection, Algorithm::AI_Selection] {
        let result = select_teams(GameType::Sm5_12_Player, algorithm, 2, pool(12), &None, &None, &mut rng);
        assert!(matches!(result, Err(SelectionError::NotImplemented)));
    }
    let result = select_teams(
        GameType::Sm5_14_Player,
        Algorithm::Advanced_Selection,
        2,
        pool(14),
        &None,
        &None,
        &mut rng,
    );
    assert!(matches!(result, Err(SelectionError::UnsupportedLayout)));
    let result = select_teams(
        GameType::Sm5_12_Player,
        Algorithm::Advanced_Selection,
        2,
        pool(5),
        &None,
        &None,
        &mut rng,
    );
    assert!(matches!(result, Err(SelectionError::NotEnoughPlayers)));
    let players = pool(12);
    for algorithm in [Algorithm::Random_Random, Algorithm::Advanced_Selection] {
        let game = select_teams(
            GameType::Sm5_12_Player,
            algorithm,
            2,
            players.clone(),
            &None,
            &None,
            &mut rng,
        )
        .unwrap();
        assert_balanced(&game, &players);
    }
}
