use promql_streaming::batch::Sample;
use promql_streaming::group_key::Label;
use promql_streaming::groups::GroupAccs;
use promql_streaming::merge::{merge_folds, RangeValue, Value};
use promql_streaming::outcome::{
    finish_query, settle_bands, timeout_message, BandsError, BandsOutcome,
};

fn label(name: &str, value: &str) -> Label {
    Label { name: name.to_string(), value: value.to_string() }
}

fn sample(timestamp: i64, value: f64) -> Sample<f64> {
    Sample { timestamp, value }
}

/// A group under `sig` whose accumulator holds one sample for each value.
fn fold_into(groups: &mut GroupAccs<Vec<f64>>, sig: u64, path: &str, value: f64) {
    groups.fold_series(
        sig,
        Some(vec![label("path", path)]),
        &vec![sample(1, value)],
        &Vec::new,
        &|mut acc: Vec<f64>, samples: &Vec<Sample<f64>>| {
            acc.extend(samples.iter().map(|s| s.value));
            acc
        },
    );
}

fn join(mut acc: Vec<f64>, other: Vec<f64>) -> Vec<f64> {
    acc.extend(other);
    acc
}

fn drain(acc: Vec<f64>) -> Vec<Sample<f64>> {
    acc.into_iter()
        .filter(|value| *value >= 0.0)
        .map(|value| sample(7, value))
        .collect()
}

fn series(path: &str, values: &[f64]) -> RangeValue<f64> {
    RangeValue {
        labels: vec![label("path", path)],
        samples: values.iter().map(|value| sample(7, *value)).collect(),
        exemplars: None,
        time_window: None,
    }
}

#[test]
fn all_bands_settle_in_band_order() {
    let outcome: BandsOutcome<u8, &str> = BandsOutcome::Joined(vec![Ok(3), Ok(1), Ok(2)]);
    assert_eq!(settle_bands(outcome), Ok(vec![3, 1, 2]));
}

#[test]
fn the_first_failing_band_is_reported() {
    let outcome: BandsOutcome<u8, &str> =
        BandsOutcome::Joined(vec![Ok(3), Err("second"), Err("third")]);
    assert_eq!(settle_bands(outcome), Err(BandsError::Band("second")));
}

#[test]
fn a_lost_task_and_a_timeout_are_reported() {
    let lost: BandsOutcome<u8, &str> = BandsOutcome::JoinFailed("task panicked".to_string());
    assert_eq!(
        settle_bands(lost),
        Err(BandsError::Join("task panicked".to_string()))
    );
    let late: BandsOutcome<u8, &str> = BandsOutcome::TimedOut;
    assert_eq!(settle_bands(late), Err(BandsError::Timeout));
    assert_eq!(timeout_message(), "[PromQL] streaming fused agg timeout");
}

#[test]
fn no_bands_give_an_empty_value() {
    let none: Vec<GroupAccs<Vec<f64>>> = vec![];
    assert_eq!(merge_folds(none, &join, &drain), Value::Empty);
    assert_eq!(merge_folds(vec![GroupAccs::new()], &join, &drain), Value::Empty);
}

#[test]
fn groups_are_merged_by_signature_in_band_order() {
    let mut first = GroupAccs::new();
    fold_into(&mut first, 900, "/one", 1.0);
    fold_into(&mut first, 5, "/two", 2.0);
    let mut second = GroupAccs::new();
    fold_into(&mut second, 5, "/two", 3.0);
    fold_into(&mut second, 77, "/three", 4.0);
    fold_into(&mut second, 900, "/one", 5.0);
    let mut third = GroupAccs::new();
    fold_into(&mut third, 5, "/two", 6.0);
    assert_eq!(
        merge_folds(vec![first, second, third], &join, &drain),
        Value::Matrix(vec![
            series("/one", &[1.0, 5.0]),
            series("/two", &[2.0, 3.0, 6.0]),
            series("/three", &[4.0]),
        ])
    );
}

#[test]
fn groups_without_samples_are_dropped() {
    let mut groups = GroupAccs::new();
    fold_into(&mut groups, 1, "/one", -1.0);
    fold_into(&mut groups, 2, "/two", 2.0);
    assert_eq!(
        merge_folds(vec![groups], &join, &drain),
        Value::Matrix(vec![series("/two", &[2.0])])
    );
    let mut groups = GroupAccs::new();
    fold_into(&mut groups, 1, "/one", -1.0);
    assert_eq!(merge_folds(vec![groups], &join, &drain), Value::Empty);
}

#[test]
fn a_query_counts_what_went_in_and_what_came_out() {
    let mut first = GroupAccs::new();
    fold_into(&mut first, 1, "/one", 1.0);
    fold_into(&mut first, 2, "/two", -1.0);
    let mut second = GroupAccs::new();
    fold_into(&mut second, 1, "/one", 3.0);
    fold_into(&mut second, 1, "/one", 4.0);
    let outcome = finish_query(vec![(first, 2), (second, 2)], &join, &drain);
    assert_eq!(outcome.folded_series, 4);
    assert_eq!(outcome.result_series, 1);
    assert_eq!(
        outcome.value,
        Value::Matrix(vec![series("/one", &[1.0, 3.0, 4.0])])
    );
    let nothing = finish_query(vec![], &join, &drain);
    assert_eq!(nothing.folded_series, 0);
    assert_eq!(nothing.result_series, 0);
    assert_eq!(nothing.value, Value::Empty);
}

#[test]
fn a_table_finds_its_groups_again() {
    let mut groups: GroupAccs<Vec<f64>> = GroupAccs::new();
    assert_eq!(groups.len(), 0);
    assert!(!groups.contains_key(5));
    fold_into(&mut groups, 5, "/two", 1.0);
    fold_into(&mut groups, u64::MAX, "/one", 2.0);
    fold_into(&mut groups, 5, "ignored", 3.0);
    assert_eq!(groups.len(), 2);
    assert!(groups.contains_key(5));
    assert!(groups.contains_key(u64::MAX));
    assert!(!groups.contains_key(0));
    let entries = groups.into_entries();
    assert_eq!(entries[0].sig, 5);
    assert_eq!(entries[0].labels, vec![label("path", "/two")]);
    assert_eq!(entries[0].acc, vec![1.0, 3.0]);
    assert_eq!(entries[1].sig, u64::MAX);
    assert_eq!(entries[1].acc, vec![2.0]);
}

#[test]
fn bands_without_series_change_nothing() {
    let bands = |empty_at: &[usize]| {
        let mut folds = vec![];
        for (index, value) in [1.0, 2.0].into_iter().enumerate() {
            if empty_at.contains(&index) {
                folds.push(GroupAccs::new());
            }
            let mut groups = GroupAccs::new();
            fold_into(&mut groups, 5, "/one", value);
            fold_into(&mut groups, 6 + index as u64, "/two", value);
            folds.push(groups);
        }
        if empty_at.contains(&2) {
            folds.push(GroupAccs::new());
        }
        folds
    };
    let expected = merge_folds(bands(&[]), &join, &drain);
    assert_eq!(expected.len(), 3);
    for empty_at in [vec![0], vec![1], vec![2], vec![0, 1, 2]] {
        assert_eq!(merge_folds(bands(&empty_at), &join, &drain), expected);
    }
}
