use team_selector::aggregate::{find_mean, find_median};
use team_selector::error::SelectionError;
use team_selector::stats::{calculate_stats, MVPCalculationMode};

#[test]
fn median_of_odd_count_is_middle_value() {
    assert_eq!(find_median(&vec![9000, 5000, 7000]), Some(7000));
}

#[test]
fn median_of_even_count_is_midpoint_of_middle_values() {
    assert_eq!(find_median(&vec![4000, 1000, 3000, 2000]), Some(2500));
}

#[test]
fn median_midpoint_rounds_down() {
    assert_eq!(find_median(&vec![1, 2]), Some(1));
    assert_eq!(find_median(&vec![-1, -2]), Some(-2));
}

#[test]
fn median_of_extremes_does_not_overflow() {
    assert_eq!(find_median(&vec![i64::MAX, i64::MAX]), Some(i64::MAX));
    assert_eq!(find_median(&vec![i64::MIN, i64::MAX]), Some(-1));
}

#[test]
fn mean_is_sum_over_count() {
    assert_eq!(find_mean(&vec![5000, 7000, 9000]), Some(7000));
    assert_eq!(find_mean(&vec![1000, 2000]), Some(1500));
}

#[test]
fn mean_rounds_down() {
    assert_eq!(find_mean(&vec![1, 2]), Some(1));
    assert_eq!(find_mean(&vec![-1, -2]), Some(-2));
}

#[test]
fn mean_of_extremes_does_not_overflow() {
    assert_eq!(find_mean(&vec![i64::MAX, i64::MAX, i64::MAX]), Some(i64::MAX));
    assert_eq!(find_mean(&vec![i64::MIN, i64::MIN]), Some(i64::MIN));
}

#[test]
fn empty_columns_have_no_median_or_mean() {
    assert_eq!(find_median(&vec![]), None);
    assert_eq!(find_mean(&vec![]), None);
}

#[test]
fn empty_column_gives_fallback_in_both_modes() {
    assert_eq!(calculate_stats(&vec![], MVPCalculationMode::Median, 7000), Ok(7000));
    assert_eq!(calculate_stats(&vec![], MVPCalculationMode::Mean, 1000), Ok(1000));
}

#[test]
fn calculate_stats_follows_mode() {
    let column = vec![1000, 2000, 9000];
    assert_eq!(calculate_stats(&column, MVPCalculationMode::Median, 0), Ok(2000));
    assert_eq!(calculate_stats(&column, MVPCalculationMode::Mean, 0), Ok(4000));
}

#[test]
fn last_n_modes_are_not_implemented() {
    assert_eq!(
        calculate_stats(&vec![1000], MVPCalculationMode::Last_N_Mean, 0),
        Err(SelectionError::NotImplemented)
    );
    assert_eq!(
        calculate_stats(&vec![], MVPCalculationMode::Last_N_Median, 0),
        Err(SelectionError::NotImplemented)
    );
}
