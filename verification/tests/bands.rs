use promql_streaming::bands::hash_bands;

#[test]
fn test_hash_bands_cover_the_full_space_contiguously() {
    for count in [1, 3, 7, 16] {
        let bands = hash_bands(count);
        assert_eq!(bands.len(), count);
        assert_eq!(bands[0].0, 0);
        assert_eq!(bands[count - 1].1, u64::MAX);
        for pair in bands.windows(2) {
            assert_eq!(pair[0].1.wrapping_add(1), pair[1].0);
        }
    }
}

#[test]
fn no_bands_means_one_band() {
    assert_eq!(hash_bands(0), vec![(0, u64::MAX)]);
    assert_eq!(hash_bands(1), vec![(0, u64::MAX)]);
}

#[test]
fn three_bands_have_these_bounds() {
    assert_eq!(
        hash_bands(3),
        vec![
            (0, 6148914691236517204),
            (6148914691236517205, 12297829382473034409),
            (12297829382473034410, u64::MAX),
        ]
    );
}

#[test]
fn every_hash_lies_in_exactly_one_band() {
    let hashes = [0, 1, 5, u64::MAX / 7, u64::MAX / 2, u64::MAX / 2 + 1, u64::MAX - 3, u64::MAX];
    for count in [1, 2, 3, 7, 16, 100] {
        let bands = hash_bands(count);
        for hash in hashes {
            let holding = bands
                .iter()
                .filter(|(lo, hi)| *lo <= hash && hash <= *hi)
                .count();
            assert_eq!(holding, 1, "{hash} in {count} bands");
        }
    }
}

#[test]
fn bands_differ_in_size_by_one_at_most() {
    for count in [2, 3, 7, 16, 100] {
        let sizes: Vec<u64> = hash_bands(count)
            .iter()
            .map(|(lo, hi)| hi - lo)
            .collect();
        let smallest = *sizes.iter().min().unwrap();
        let largest = *sizes.iter().max().unwrap();
        assert!(largest - smallest <= 1, "{count} bands");
    }
}
