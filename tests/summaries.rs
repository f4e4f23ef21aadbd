use team_selector::error::SelectionError;
use team_selector::positions::set_position_from_index;
use team_selector::score::calculate_smvp;
use team_selector::stats::{
    player_stats_from_rows, retrieve_stat_block_from_position, summarize_position,
    MVPCalculationMode, PositionStats, ScoreRow,
};

fn row(mvp_points: i64, hit_diff: i64, position: &str) -> ScoreRow {
    ScoreRow {
        mvp_points,
        hit_diff,
        position: position.to_string(),
        player_name: "Pat".to_string(),
    }
}

#[test]
fn position_labels() {
    assert_eq!(set_position_from_index(0), "Commander");
    assert_eq!(set_position_from_index(1), "Heavy Weapons");
    assert_eq!(set_position_from_index(2), "Scout");
    assert_eq!(set_position_from_index(3), "Ammo Carrier");
    assert_eq!(set_position_from_index(4), "Medic");
}

#[test]
fn three_commander_rows_under_median() {
    let rows = vec![
        row(5000, 1000, "Commander"),
        row(7000, 1000, "Commander"),
        row(9000, 1000, "Commander"),
    ];
    let stats = summarize_position(&rows, 0, MVPCalculationMode::Median).unwrap();
    assert_eq!(stats, PositionStats { mvp: 7000, hit_diff: 1000, games_played: 3 });
    assert_eq!(calculate_smvp(stats), 7_030_000);
}

#[test]
fn no_medic_rows_gives_fallback_in_every_mode() {
    let rows = vec![row(5000, 2000, "Commander"), row(3000, 500, "Scout")];
    let expected = PositionStats { mvp: 7000, hit_diff: 1000, games_played: 0 };
    assert_eq!(summarize_position(&rows, 4, MVPCalculationMode::Median), Ok(expected));
    assert_eq!(summarize_position(&rows, 4, MVPCalculationMode::Mean), Ok(expected));
}

#[test]
fn unrecognized_labels_are_dropped() {
    let rows = vec![
        row(4000, 1000, "Scout"),
        row(100_000, 9000, "Goalie"),
        row(8000, 3000, "Scout"),
    ];
    let player = player_stats_from_rows(17, &rows, MVPCalculationMode::Mean).unwrap();
    assert_eq!(player.player_id, 17);
    assert_eq!(player.player_name, "Pat");
    assert_eq!(player.scout_stats, PositionStats { mvp: 6000, hit_diff: 2000, games_played: 2 });
    let total: u64 = [
        player.commander_stats,
        player.heavy_stats,
        player.scout_stats,
        player.ammo_stats,
        player.medic_stats,
    ]
    .iter()
    .map(|s| s.games_played)
    .sum();
    assert_eq!(total, 2);
}

#[test]
fn player_without_rows_is_unknown_and_average() {
    let player = player_stats_from_rows(3, &vec![], MVPCalculationMode::Median).unwrap();
    assert_eq!(player.player_name, "Unknown Player");
    let fallback = PositionStats { mvp: 7000, hit_diff: 1000, games_played: 0 };
    for p in 0..5 {
        assert_eq!(retrieve_stat_block_from_position(p, &player), fallback);
    }
}

#[test]
fn stat_blocks_by_position_index() {
    let rows = vec![
        row(1000, 1000, "Commander"),
        row(2000, 1000, "Heavy Weapons"),
        row(3000, 1000, "Scout"),
        row(4000, 1000, "Ammo Carrier"),
        row(5000, 1000, "Medic"),
    ];
    let player = player_stats_from_rows(1, &rows, MVPCalculationMode::Median).unwrap();
    for p in 0..5u64 {
        let block = retrieve_stat_block_from_position(p, &player);
        assert_eq!(block.mvp, 1000 * (p as i64 + 1));
        assert_eq!(block.games_played, 1);
    }
}

#[test]
fn summaries_refuse_last_n_modes() {
    let rows = vec![row(1000, 1000, "Commander")];
    assert!(matches!(
        player_stats_from_rows(1, &rows, MVPCalculationMode::Last_N_Median),
        Err(SelectionError::NotImplemented)
    ));
}

#[test]
fn score_formula() {
    let stats = PositionStats { mvp: 12_500, hit_diff: 2_000, games_played: 40 };
    assert_eq!(calculate_smvp(stats), 25_000_000 + 400_000);
    let same = PositionStats { mvp: 12_500, hit_diff: 2_000, games_played: 40 };
    assert_eq!(calculate_smvp(same), calculate_smvp(stats));
    let negative = PositionStats { mvp: -3_000, hit_diff: 500, games_played: 0 };
    assert_eq!(calculate_smvp(negative), -1_500_000);
}
