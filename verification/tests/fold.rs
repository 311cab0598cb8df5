use promql_streaming::bands::hash_bands;
use promql_streaming::batch::{batch_run_len, LabelColumn, Sample, SeriesBatch};
use promql_streaming::columns::{
    group_label_columns, ColumnNames, ColumnType, Field, LabelModifier, Schema,
};
use promql_streaming::cursor::ChainCursor;
use promql_streaming::fold::{BandFold, FoldParams, FoldStep};
use promql_streaming::group_key::{group_signature, materialize_labels, Label, NotText};
use promql_streaming::groups::{group_key_at, GroupAccs, GroupEntry};
use promql_streaming::merge::{merge_folds, Value};

const SECOND: i64 = 1_000_000;
const BASE: i64 = 1_000 * SECOND;

/// (hash, seconds offset, value, instance, path)
type Row = (u64, i64, f64, Option<&'static str>, Option<&'static str>);

/// What was folded into a group: one list of (time, value) for each series.
type Log = Vec<Vec<(i64, f64)>>;

fn test_rows() -> Vec<Row> {
    let dense = [10, 50, 70, 110, 130, 170];
    let series = |hash, values: [f64; 6], instance, path| {
        dense
            .into_iter()
            .zip(values)
            .map(move |(ts, value)| (hash, ts, value, instance, path))
    };
    let mut rows: Vec<Row> = series(
        100,
        [0.1, 40.7, 45.2, 85.9, 90.4, 130.8],
        Some("a"),
        Some("/one"),
    )
    .chain(series(
        200,
        [0.3, 80.1, 90.6, 170.2, 180.9, 260.5],
        Some("b"),
        Some("/one"),
    ))
    .chain(series(
        5,
        [0.2, 20.4, 25.1, 3.4, 50.3, 70.9],
        Some("c"),
        Some("/two"),
    ))
    .collect();
    rows.push((u64::MAX - 3, 130, 7.5, Some("z"), Some("/two")));
    rows.push((u64::MAX - 3, 170, 11.25, Some("z"), Some("/two")));
    rows.push((42, 50, 1.0, None, Some("/two")));
    rows.push((42, 110, 3.0, None, Some("/two")));
    rows
}

fn cell(text: Option<&str>) -> Option<String> {
    text.map(|t| t.to_string())
}

/// A batch with the label columns `instance` and `path`.
fn batch(rows: &[Row]) -> SeriesBatch<f64> {
    SeriesBatch {
        hashes: rows.iter().map(|row| row.0).collect(),
        times: rows.iter().map(|row| BASE + row.1 * SECOND).collect(),
        values: rows.iter().map(|row| row.2).collect(),
        labels: vec![
            LabelColumn::Text(rows.iter().map(|row| cell(row.3)).collect()),
            LabelColumn::Text(rows.iter().map(|row| cell(row.4)).collect()),
        ],
    }
}

/// Two hash-ordered chains that share every series with more than one sample.
fn two_chains() -> Vec<Vec<Row>> {
    let mut chains = vec![vec![], vec![]];
    for (index, row) in test_rows().into_iter().enumerate() {
        chains[index % 2].push(row);
    }
    for chain in &mut chains {
        chain.sort_by_key(|row| (row.0, row.1));
    }
    chains
}

fn cut(chain: &[Row], size: usize) -> Vec<SeriesBatch<f64>> {
    chain.chunks(size).map(batch).collect()
}

fn hash_parts(parts: &Vec<&[u8]>) -> u64 {
    let mut sig: u64 = 14695981039346656037;
    for part in parts.iter() {
        for byte in part.iter() {
            sig = (sig ^ *byte as u64).wrapping_mul(1099511628211);
        }
        sig = (sig ^ 0xff).wrapping_mul(1099511628211);
    }
    sig
}

fn log_series(mut log: Log, samples: &Vec<Sample<f64>>) -> Log {
    log.push(samples.iter().map(|s| (s.timestamp, s.value)).collect());
    log
}

fn names(list: &[&str]) -> Vec<String> {
    list.iter().map(|name| name.to_string()).collect()
}

fn label(name: &str, value: &str) -> Label {
    Label { name: name.to_string(), value: value.to_string() }
}

/// Folds the batches of some chains, handing each batch over when it is asked
/// for.
fn fold<A, H, N, F>(
    params: &FoldParams<H, N, F>,
    chains: Vec<Vec<SeriesBatch<f64>>>,
) -> Result<(GroupAccs<A>, usize), NotText>
where
    H: Fn(&Vec<&[u8]>) -> u64,
    N: Fn() -> A,
    F: Fn(A, &Vec<Sample<f64>>) -> A,
{
    let mut band = BandFold::new(params, chains.len());
    let mut streams: Vec<_> = chains.into_iter().map(|chain| chain.into_iter()).collect();
    loop {
        match band.step()? {
            FoldStep::NeedBatch(chain) => {
                let next = streams[chain].next();
                band.next_batch(chain, next);
            }
            FoldStep::Folded => {}
            FoldStep::Finished => return Ok(band.finish()),
        }
    }
}

/// Folds chains of rows that are cut into batches of `size`.
fn fold_rows(chains: &[Vec<Row>], size: usize, offset: i64) -> (Vec<GroupEntry<Log>>, usize) {
    let params = FoldParams {
        group_cols: names(&["instance", "path"]),
        offset,
        hash: hash_parts,
        new_acc: Log::new,
        fold: log_series,
    };
    let batches = chains.iter().map(|chain| cut(chain, size)).collect();
    let (groups, series) = fold(&params, batches).unwrap();
    (groups.into_entries(), series)
}

/// The samples of one series, in time order.
fn samples_of(hash: u64) -> Vec<(i64, f64)> {
    let mut samples: Vec<(i64, f64)> = test_rows()
        .into_iter()
        .filter(|row| row.0 == hash)
        .map(|row| (BASE + row.1 * SECOND, row.2))
        .collect();
    samples.sort_by_key(|sample| sample.0);
    samples
}

#[test]
fn each_series_is_folded_once_and_in_hash_order() {
    let (groups, series) = fold_rows(&two_chains(), 100, 0);
    assert_eq!(series, 5);
    let logs: Vec<&Log> = groups.iter().map(|group| &group.acc).collect();
    assert_eq!(
        logs,
        vec![
            &vec![samples_of(5)],
            &vec![samples_of(42)],
            &vec![samples_of(100)],
            &vec![samples_of(200)],
            &vec![samples_of(u64::MAX - 3)],
        ]
    );
    assert_eq!(
        groups[0].acc[0],
        vec![
            (BASE + 10 * SECOND, 0.2),
            (BASE + 50 * SECOND, 20.4),
            (BASE + 70 * SECOND, 25.1),
            (BASE + 110 * SECOND, 3.4),
            (BASE + 130 * SECOND, 50.3),
            (BASE + 170 * SECOND, 70.9),
        ]
    );
}

#[test]
fn groups_have_the_labels_of_their_series() {
    let (groups, _) = fold_rows(&two_chains(), 100, 0);
    assert_eq!(groups[0].labels, vec![label("instance", "c"), label("path", "/two")]);
    // an absent label is left out
    assert_eq!(groups[1].labels, vec![label("path", "/two")]);
    assert_eq!(groups[4].labels, vec![label("instance", "z"), label("path", "/two")]);
}

#[test]
fn labels_come_in_the_order_of_the_group_columns() {
    let rows = batch(&[(1, 0, 0.0, Some("z"), Some("/a"))]);
    let labels = materialize_labels(&rows.labels, &names(&["instance", "path"]), 0);
    assert_eq!(labels, vec![label("instance", "z"), label("path", "/a")]);
    let labels = materialize_labels(&rows.labels, &names(&["a", "b"]), 0);
    assert_eq!(labels, vec![label("a", "z"), label("b", "/a")]);
}

#[test]
fn different_labels_have_different_signatures() {
    let rows = batch(&[(1, 0, 0.0, Some("ab"), Some("c")), (2, 0, 0.0, Some("a"), Some("bc"))]);
    let cols = names(&["instance", "path"]);
    assert_ne!(
        group_signature(&rows.labels, &cols, 0, &hash_parts),
        group_signature(&rows.labels, &cols, 1, &hash_parts)
    );
}

#[test]
fn the_cut_into_batches_does_not_matter() {
    let (whole, _) = fold_rows(&two_chains(), 100, 0);
    for size in [1, 2, 3, 5, 7] {
        let (groups, series) = fold_rows(&two_chains(), size, 0);
        assert_eq!(series, 5);
        assert_eq!(groups.len(), whole.len());
        for (a, b) in whole.iter().zip(&groups) {
            assert_eq!(a.sig, b.sig);
            assert_eq!(a.labels, b.labels);
            assert_eq!(a.acc, b.acc);
        }
    }
}

#[test]
fn the_offset_shifts_all_timestamps() {
    let (groups, _) = fold_rows(&two_chains(), 3, 5 * SECOND);
    let expected: Vec<(i64, f64)> = samples_of(42)
        .into_iter()
        .map(|(time, value)| (time + 5 * SECOND, value))
        .collect();
    assert_eq!(groups[1].acc, vec![expected]);
    let (groups, _) = fold_rows(&two_chains(), 3, -BASE);
    assert_eq!(groups[1].acc, vec![vec![(50 * SECOND, 1.0), (110 * SECOND, 3.0)]]);
}

#[test]
fn empty_batches_are_skipped_and_empty_chains_end() {
    let params = FoldParams {
        group_cols: names(&["instance", "path"]),
        offset: 0,
        hash: hash_parts,
        new_acc: Log::new,
        fold: log_series,
    };
    let row: Row = (9, 1, 2.5, None, None);
    let chains = vec![vec![], vec![batch(&[]), batch(&[row]), batch(&[]), batch(&[row])]];
    let (groups, series) = fold(&params, chains).unwrap();
    assert_eq!(series, 1);
    let groups = groups.into_entries();
    assert_eq!(groups.len(), 1);
    assert_eq!(groups[0].labels, vec![]);
    assert_eq!(groups[0].acc, vec![vec![(BASE + SECOND, 2.5), (BASE + SECOND, 2.5)]]);
    let (groups, series) = fold(&params, vec![]).unwrap();
    assert_eq!((groups.len(), series), (0, 0));
}

#[test]
fn series_of_one_group_are_folded_one_after_another() {
    let params = FoldParams {
        group_cols: names(&[]),
        offset: 0,
        hash: hash_parts,
        new_acc: Log::new,
        fold: log_series,
    };
    let mut chains: Vec<Vec<SeriesBatch<f64>>> =
        two_chains().iter().map(|chain| cut(chain, 4)).collect();
    for batch in chains.iter_mut().flatten() {
        batch.labels.clear();
    }
    let (groups, series) = fold(&params, chains).unwrap();
    assert_eq!(series, 5);
    let groups = groups.into_entries();
    assert_eq!(groups.len(), 1);
    assert_eq!(
        groups[0].acc,
        vec![
            samples_of(5),
            samples_of(42),
            samples_of(100),
            samples_of(200),
            samples_of(u64::MAX - 3),
        ]
    );
}

#[test]
fn the_number_of_bands_does_not_matter() {
    let params = FoldParams {
        group_cols: names(&["instance", "path"]),
        offset: 0,
        hash: |parts: &Vec<&[u8]>| hash_parts(&parts[parts.len() - 2..].to_vec()),
        new_acc: Log::new,
        fold: log_series,
    };
    let join = |mut log: Log, other: Log| {
        log.extend(other);
        log
    };
    let drain = |log: Log| -> Vec<Sample<f64>> {
        log.into_iter()
            .flatten()
            .map(|(timestamp, value)| Sample { timestamp, value })
            .collect()
    };
    let mut values: Vec<Value<f64>> = vec![];
    for count in [1, 2, 3, 7, 16] {
        let mut folds = vec![];
        let mut total = 0;
        for (lo, hi) in hash_bands(count) {
            let chains = two_chains()
                .iter()
                .map(|chain| {
                    let own: Vec<Row> = chain
                        .iter()
                        .filter(|row| lo <= row.0 && row.0 <= hi)
                        .cloned()
                        .collect();
                    cut(&own, 3)
                })
                .collect();
            let (groups, series) = fold(&params, chains).unwrap();
            total += series;
            folds.push(groups);
        }
        assert_eq!(total, 5);
        values.push(merge_folds(folds, &join, &drain));
    }
    assert_eq!(values[0].len(), 2);
    for value in &values {
        assert_eq!(value, &values[0]);
    }
    match &values[0] {
        Value::Matrix(matrix) => {
            assert_eq!(matrix[0].labels[0], label("instance", "c"));
            assert_eq!(matrix[0].samples.len(), 10);
            assert_eq!(matrix[1].labels[1], label("path", "/one"));
            assert_eq!(matrix[1].samples.len(), 12);
        }
        Value::Empty => panic!("expected a matrix"),
    }
}

#[test]
fn a_label_column_without_text_is_an_error() {
    let params = FoldParams {
        group_cols: names(&["instance", "path"]),
        offset: 0,
        hash: hash_parts,
        new_acc: Log::new,
        fold: log_series,
    };
    let mut bad = batch(&[(1, 1, 1.0, Some("a"), Some("/one"))]);
    bad.labels[1] = LabelColumn::Other;
    match fold(&params, vec![vec![bad]]) {
        Err(e) => {
            assert_eq!(e, NotText { column: "path".to_string() });
            assert_eq!(e.message(), "label column path is not Utf8 or Utf8View");
        }
        Ok(_) => panic!("expected an error"),
    }
}

#[test]
fn a_band_asks_for_the_batches_it_needs() {
    let params = FoldParams {
        group_cols: names(&["instance", "path"]),
        offset: 0,
        hash: hash_parts,
        new_acc: Log::new,
        fold: log_series,
    };
    let mut band = BandFold::new(&params, 2);
    assert_eq!(band.step(), Ok(FoldStep::NeedBatch(0)));
    band.next_batch(0, Some(batch(&[(1, 1, 1.0, None, None), (2, 1, 2.0, None, None)])));
    assert_eq!(band.step(), Ok(FoldStep::NeedBatch(1)));
    band.next_batch(1, Some(batch(&[(1, 0, 3.0, None, None)])));
    // the run of chain 1 may go on in its next batch
    assert_eq!(band.step(), Ok(FoldStep::NeedBatch(1)));
    band.next_batch(1, Some(batch(&[(3, 0, 4.0, None, None)])));
    assert_eq!(band.step(), Ok(FoldStep::Folded));
    assert_eq!(band.series_count(), 1);
    assert_eq!(band.step(), Ok(FoldStep::NeedBatch(0)));
    band.next_batch(0, None);
    assert_eq!(band.step(), Ok(FoldStep::Folded));
    assert_eq!(band.step(), Ok(FoldStep::NeedBatch(1)));
    band.next_batch(1, None);
    assert_eq!(band.step(), Ok(FoldStep::Folded));
    assert_eq!(band.step(), Ok(FoldStep::Finished));
    let (groups, series) = band.finish();
    assert_eq!(series, 3);
    let groups = groups.into_entries();
    assert_eq!(groups.len(), 1);
    assert_eq!(
        groups[0].acc,
        vec![
            vec![(BASE, 3.0), (BASE + SECOND, 1.0)],
            vec![(BASE + SECOND, 2.0)],
            vec![(BASE, 4.0)],
        ]
    );
}

#[test]
fn a_cursor_follows_runs_across_batches() {
    let mut cursor = ChainCursor::start();
    assert_eq!(cursor.head_hash(), None);
    assert!(cursor.is_waiting());
    cursor.next_batch(Some(batch(&[])));
    assert!(cursor.is_waiting());
    cursor.next_batch(Some(batch(&[(1, 1, 1.0, None, None), (4, 2, 2.0, None, None)])));
    assert_eq!(cursor.head_hash(), Some(1));
    let mut samples = vec![];
    cursor.consume_run(4, 0, &mut samples);
    assert!(samples.is_empty());
    cursor.consume_run(1, 10, &mut samples);
    assert_eq!(samples, vec![Sample { timestamp: BASE + SECOND + 10, value: 1.0 }]);
    assert_eq!(cursor.head_hash(), Some(4));
    assert_eq!(cursor.head().unwrap().1, 1);
    cursor.consume_run(4, 0, &mut samples);
    assert!(cursor.is_waiting());
    cursor.next_batch(Some(batch(&[(4, 3, 3.0, None, None)])));
    cursor.consume_run(4, 0, &mut samples);
    assert_eq!(samples.len(), 3);
    assert_eq!(samples[2], Sample { timestamp: BASE + 3 * SECOND, value: 3.0 });
    cursor.next_batch(None);
    assert!(!cursor.is_waiting());
    assert_eq!(cursor.head_hash(), None);
}

#[test]
fn runs_end_where_the_hash_changes() {
    let hashes = vec![7, 7, 8, 7, 9, 9, 9];
    assert_eq!(batch_run_len(&hashes, 0), 2);
    assert_eq!(batch_run_len(&hashes, 1), 1);
    assert_eq!(batch_run_len(&hashes, 2), 1);
    assert_eq!(batch_run_len(&hashes, 3), 1);
    assert_eq!(batch_run_len(&hashes, 4), 3);
}

#[test]
fn a_signature_is_the_hash_of_names_and_values() {
    let rows = batch(&[(1, 0, 0.0, Some("a"), None), (2, 0, 0.0, None, None)]);
    let cols = names(&["instance", "path"]);
    let expected = hash_parts(&vec!["instance".as_bytes(), "a".as_bytes()]);
    assert_eq!(group_signature(&rows.labels, &cols, 0, &hash_parts), expected);
    assert_eq!(
        group_signature(&rows.labels, &cols, 1, &hash_parts),
        hash_parts(&vec![])
    );
    assert_eq!(materialize_labels(&rows.labels, &cols, 0), vec![label("instance", "a")]);
    assert_eq!(materialize_labels(&rows.labels, &cols, 1), vec![]);
}

#[test]
fn labels_are_given_for_new_groups_only() {
    let rows = batch(&[(1, 0, 0.0, Some("a"), Some("/one"))]);
    let cols = names(&["instance", "path"]);
    let mut groups: GroupAccs<Log> = GroupAccs::new();
    let (sig, labels) = group_key_at(&rows, 0, &cols, &groups, &hash_parts).unwrap();
    assert_eq!(
        labels,
        Some(vec![label("instance", "a"), label("path", "/one")])
    );
    groups.fold_series(sig, labels, &vec![], &Log::new, &log_series);
    let (again, labels) = group_key_at(&rows, 0, &cols, &groups, &hash_parts).unwrap();
    assert_eq!(again, sig);
    assert_eq!(labels, None);
}

#[test]
fn a_batch_knows_whether_it_is_in_order() {
    let mut rows = batch(&[(1, 0, 0.0, Some("a"), None)]);
    assert!(rows.is_wf());
    assert!(rows.can_shift(SECOND));
    assert!(!rows.can_shift(i64::MAX));
    assert!(rows.can_shift(i64::MAX - BASE));
    assert!(rows.can_shift(i64::MIN));
    rows.labels[0] = LabelColumn::Text(vec![]);
    assert!(!rows.is_wf());
    rows.labels[0] = LabelColumn::Other;
    assert!(rows.is_wf());
    rows.values.push(1.0);
    assert!(!rows.is_wf());
}

#[test]
fn equal_labels_fall_into_one_group() {
    // three series with equal labels, in two chains and three batches
    let chains = vec![
        vec![(1, 1, 1.0, Some("a"), None), (3, 1, 3.0, Some("a"), None)],
        vec![(2, 1, 2.0, Some("a"), None), (4, 1, 4.0, None, Some("a"))],
    ];
    let (groups, series) = fold_rows(&chains, 1, 0);
    assert_eq!(series, 4);
    assert_eq!(groups.len(), 2);
    assert_eq!(groups[0].labels, vec![label("instance", "a")]);
    assert_eq!(groups[0].acc.len(), 3);
    assert_eq!(groups[1].labels, vec![label("path", "a")]);
    assert_eq!(groups[1].acc, vec![vec![(BASE + SECOND, 4.0)]]);
}

#[test]
fn null_columns_add_nothing_to_a_signature() {
    let rows = batch(&[(1, 0, 0.0, None, Some("/one"))]);
    let both = names(&["instance", "path"]);
    let only = vec![LabelColumn::Text(vec![Some("/one".to_string())])];
    assert_eq!(
        group_signature(&rows.labels, &both, 0, &hash_parts),
        group_signature(&only, &names(&["path"]), 0, &hash_parts)
    );
    let nothing = batch(&[(1, 0, 0.0, None, None)]);
    assert_eq!(
        group_signature(&nothing.labels, &both, 0, &hash_parts),
        group_signature(&vec![], &vec![], 0, &hash_parts)
    );
}

#[test]
fn the_layout_over_chains_does_not_matter() {
    let (whole, _) = fold_rows(&two_chains(), 100, 0);
    let mut one = test_rows();
    one.sort_by_key(|row| (row.0, row.1));
    let mut swapped = two_chains();
    swapped.reverse();
    let mut spread: Vec<Vec<Row>> = vec![vec![]; 5];
    for (index, row) in test_rows().into_iter().enumerate() {
        spread[(index * 3) % 4].push(row);
    }
    for chain in &mut spread {
        // within a series the rows of a chain may come in any order of times
        chain.sort_by_key(|row| (row.0, -row.1));
    }
    for chains in [vec![one], swapped, spread] {
        let (groups, series) = fold_rows(&chains, 2, 0);
        assert_eq!(series, 5);
        assert_eq!(groups.len(), whole.len());
        for (a, b) in whole.iter().zip(&groups) {
            assert_eq!(a.sig, b.sig);
            assert_eq!(a.labels, b.labels);
            assert_eq!(a.acc, b.acc);
        }
    }
}

#[test]
fn the_offset_makes_up_for_earlier_rows() {
    let earlier: Vec<Vec<Row>> = two_chains()
        .into_iter()
        .map(|chain| chain.into_iter().map(|r| (r.0, r.1 - 7, r.2, r.3, r.4)).collect())
        .collect();
    let (before, _) = fold_rows(&two_chains(), 3, 5 * SECOND);
    let (after, _) = fold_rows(&earlier, 3, 12 * SECOND);
    assert_eq!(before.len(), after.len());
    for (a, b) in before.iter().zip(&after) {
        assert_eq!(a.labels, b.labels);
        assert_eq!(a.acc, b.acc);
    }
}

#[test]
fn a_run_is_read_once() {
    let mut cursor = ChainCursor::start();
    cursor.next_batch(Some(batch(&[(1, 1, 1.0, None, None), (4, 2, 2.0, None, None)])));
    let mut samples = vec![];
    cursor.consume_run(1, 0, &mut samples);
    assert_eq!(samples.len(), 1);
    assert_eq!(cursor.head_hash(), Some(4));
    // no row is shifted, so that any offset will do
    cursor.consume_run(1, i64::MAX, &mut samples);
    assert_eq!(samples.len(), 1);
    assert_eq!(cursor.head_hash(), Some(4));
    assert_eq!(cursor.head().unwrap().1, 1);
}

#[test]
fn only_the_rows_of_the_run_are_shifted() {
    let mut rows = batch(&[(1, 0, 1.0, None, None), (4, 0, 2.0, None, None)]);
    rows.times = vec![0, 1];
    let mut cursor = ChainCursor::start();
    cursor.next_batch(Some(rows));
    let mut samples = vec![];
    cursor.consume_run(1, i64::MAX, &mut samples);
    assert_eq!(samples, vec![Sample { timestamp: i64::MAX, value: 1.0 }]);
}

#[test]
fn empty_chains_do_not_show() {
    let (whole, _) = fold_rows(&two_chains(), 100, 0);
    let mut chains = two_chains();
    chains.insert(1, vec![]);
    chains.insert(0, vec![]);
    chains.push(vec![]);
    let (groups, series) = fold_rows(&chains, 4, 0);
    assert_eq!(series, 5);
    assert_eq!(groups.len(), whole.len());
    for (a, b) in whole.iter().zip(&groups) {
        assert_eq!(a.sig, b.sig);
        assert_eq!(a.acc, b.acc);
    }
}

#[test]
fn bands_may_have_chains_of_their_own() {
    let params = FoldParams {
        group_cols: names(&["instance", "path"]),
        offset: 0,
        hash: hash_parts,
        new_acc: Log::new,
        fold: log_series,
    };
    let mut folds = vec![];
    for (index, (lo, hi)) in hash_bands(2).into_iter().enumerate() {
        let own: Vec<Row> = test_rows()
            .into_iter()
            .filter(|row| lo <= row.0 && row.0 <= hi)
            .collect();
        // one chain in the first band, three in the second
        let mut chains: Vec<Vec<Row>> = vec![vec![]; 1 + 2 * index];
        for (at, row) in own.into_iter().enumerate() {
            let chain = at % (1 + 2 * index);
            chains[chain].push(row);
        }
        for chain in &mut chains {
            chain.sort_by_key(|row| (row.0, row.1));
        }
        let batches = chains.iter().map(|chain| cut(chain, 2)).collect();
        folds.push(fold(&params, batches).unwrap().0);
    }
    let join = |mut log: Log, other: Log| {
        log.extend(other);
        log
    };
    let count = |log: Log| -> Vec<Sample<f64>> {
        vec![Sample { timestamp: 0, value: log.iter().map(Vec::len).sum::<usize>() as f64 }]
    };
    match merge_folds(folds, &join, &count) {
        Value::Matrix(matrix) => {
            let counts: Vec<f64> = matrix.iter().map(|series| series.samples[0].value).collect();
            assert_eq!(counts, vec![6.0, 2.0, 6.0, 6.0, 2.0]);
            for series in &matrix {
                assert!(series.exemplars.is_none());
                assert!(series.time_window.is_none());
            }
        }
        Value::Empty => panic!("expected a matrix"),
    }
}

#[test]
fn absent_columns_group_like_none() {
    let schema = Schema {
        fields: vec![Field { name: "path".to_string(), column_type: ColumnType::Other }],
    };
    let columns = ColumnNames {
        timestamp: "_timestamp".to_string(),
        hash: "__hash__".to_string(),
        value: "value".to_string(),
        exemplars: "exemplars".to_string(),
        metric_name: "__name__".to_string(),
        sorted_table_suffix: "_sorted".to_string(),
        keep_metric_name_funcs: vec![],
    };
    let nope = Some(LabelModifier::Include(names(&["nope"])));
    let mut logs = vec![];
    for modifier in [None, nope] {
        let params = FoldParams {
            group_cols: group_label_columns(&modifier, &schema, "rate", &columns).unwrap(),
            offset: 0,
            hash: hash_parts,
            new_acc: Log::new,
            fold: log_series,
        };
        let mut chains: Vec<Vec<SeriesBatch<f64>>> =
            two_chains().iter().map(|chain| cut(chain, 4)).collect();
        for batch in chains.iter_mut().flatten() {
            batch.labels.clear();
        }
        let groups = fold(&params, chains).unwrap().0.into_entries();
        assert_eq!(groups.len(), 1);
        assert_eq!(groups[0].labels, vec![]);
        logs.push(groups.into_iter().next().unwrap().acc);
    }
    assert_eq!(logs[0], logs[1]);
}
