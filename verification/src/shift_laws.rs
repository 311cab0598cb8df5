//! The offset is added to the times of samples, and to nothing else.
use vstd::prelude::*;

use crate::band_laws::{each_shifts, in_bands, within_band};
use crate::bands::{band_range, in_band};
use crate::batch::{Row, Sample};
use crate::cursor::{can_be_shifted, shifted};
use crate::fold::{all_contribute, all_shift, band_folded, contributes, FoldParams};
use crate::groups::{groups_from, Contribution, Group, GroupAccs};
use crate::layout_laws::{lemma_row_stands_somewhere, lemma_series_row_is_among};
use crate::merge_laws::is_run;
use crate::series::{
    behind, behind_run, gather, lemma_behind_is_shorter, lemma_min_head, lemma_run_len,
    lemma_run_len_is, min_head, run_len, run_of, series_of, total_rows,
};
use crate::series_laws::{all_hash_ordered, hash_ordered_rows, series_have_one_hash};
use crate::text::texts;

verus! {

/// The row, `by` earlier.
pub open spec fn earlier_row<V>(row: Row<V>, by: int) -> Row<V> {
    Row { timestamp: (row.timestamp - by) as i64, ..row }
}

/// The rows, all `by` earlier.
pub open spec fn earlier<V>(rows: Seq<Row<V>>, by: int) -> Seq<Row<V>> {
    rows.map_values(|row: Row<V>| earlier_row(row, by))
}

/// The lists of rows, all `by` earlier.
pub open spec fn all_earlier<V>(lists: Seq<Seq<Row<V>>>, by: int) -> Seq<Seq<Row<V>>> {
    lists.map_values(|rows: Seq<Row<V>>| earlier(rows, by))
}

proof fn lemma_earlier_run<V>(rows: Seq<Row<V>>, by: int, hash: u64)
    ensures
        run_of(earlier(rows, by), hash) == earlier(run_of(rows, hash), by),
        behind_run(earlier(rows, by), hash) == earlier(behind_run(rows, hash), by),
{
    let n = run_len(rows, hash) as int;
    let moved = earlier(rows, by);
    lemma_run_len(rows, hash);
    assert forall|i: int| 0 <= i < n implies (#[trigger] moved[i]).hash == hash by {
        assert(rows[i].hash == hash);
    }
    lemma_run_len_is(moved, hash, n);
    assert(moved.take(n) =~= earlier(rows.take(n), by));
    assert(moved.skip(n) =~= earlier(rows.skip(n), by));
}

proof fn lemma_earlier_chains<V>(chains: Seq<Seq<Row<V>>>, by: int, hash: u64)
    ensures
        min_head(all_earlier(chains, by)) == min_head(chains),
        gather(all_earlier(chains, by), hash) == earlier(gather(chains, hash), by),
        behind(all_earlier(chains, by), hash) == all_earlier(behind(chains, hash), by),
    decreases chains.len(),
{
    let moved = all_earlier(chains, by);
    if chains.len() == 0 {
        assert(gather(moved, hash) =~= earlier(gather(chains, hash), by));
        assert(behind(moved, hash) =~= all_earlier(behind(chains, hash), by));
    } else {
        let rest = chains.drop_last();
        lemma_earlier_chains(rest, by, hash);
        lemma_earlier_run(chains.last(), by, hash);
        assert(moved.drop_last() =~= all_earlier(rest, by));
        assert(moved.last() == earlier(chains.last(), by));
        assert(gather(moved, hash) =~= earlier(gather(chains, hash), by));
        assert forall|i: int| 0 <= i < chains.len() implies #[trigger] behind(moved, hash)[i]
            == all_earlier(behind(chains, hash), by)[i] by {
            lemma_earlier_run(chains[i], by, hash);
        }
        assert(behind(moved, hash) =~= all_earlier(behind(chains, hash), by));
    }
}

/// Chains of earlier rows have the same series, of earlier rows.
pub proof fn series_of_earlier_rows<V>(chains: Seq<Seq<Row<V>>>, by: int)
    ensures
        series_of(all_earlier(chains, by)) == all_earlier(series_of(chains), by),
    decreases total_rows(chains),
{
    lemma_min_head(chains);
    match min_head(chains) {
        None => {
            lemma_earlier_chains(chains, by, 0);
            assert(series_of(all_earlier(chains, by)) =~= all_earlier(series_of(chains), by));
        },
        Some(hash) => {
            let rest = behind(chains, hash);
            lemma_earlier_chains(chains, by, hash);
            lemma_behind_is_shorter(chains, hash);
            series_of_earlier_rows(rest, by);
            assert(series_of(all_earlier(chains, by)) =~= seq![earlier(gather(chains, hash), by)]
                + all_earlier(series_of(rest), by));
            assert(series_of(chains) =~= seq![gather(chains, hash)] + series_of(rest));
            assert(series_of(all_earlier(chains, by)) =~= all_earlier(series_of(chains), by));
        },
    }
}

/// Earlier rows that are shifted so much more give the same samples.
pub proof fn shifts_make_up_for_times<V>(rows: Seq<Row<V>>, offset: int, by: int)
    requires
        can_be_shifted(rows, -by),
    ensures
        shifted(earlier(rows, by), offset + by) == shifted(rows, offset),
{
    assert forall|i: int| 0 <= i < rows.len() implies #[trigger] shifted(
        earlier(rows, by),
        offset + by,
    )[i] == shifted(rows, offset)[i] by {
        assert(i64::MIN <= rows[i].timestamp + -by <= i64::MAX);
        assert(earlier(rows, by)[i].timestamp == rows[i].timestamp - by);
    }
    assert(shifted(earlier(rows, by), offset + by) =~= shifted(rows, offset));
}

/// The second fold shifts by so much more than the first, and is the same in
/// all else.
pub open spec fn shifts_more<H, N, F>(
    a: FoldParams<H, N, F>,
    b: FoldParams<H, N, F>,
    by: int,
) -> bool {
    &&& texts(a.group_cols@) == texts(b.group_cols@)
    &&& b.offset == a.offset + by
    &&& a.hash == b.hash
    &&& a.new_acc == b.new_acc
    &&& a.fold == b.fold
}

/// With all rows earlier, and the offset greater by as much, each series
/// contributes just what it contributed before.
pub proof fn contributions_of_earlier_rows<V, H: Fn(&Vec<&[u8]>) -> u64, N, F>(
    pa: FoldParams<H, N, F>,
    pb: FoldParams<H, N, F>,
    by: int,
    chains: Seq<Seq<Row<V>>>,
    contributions: Seq<(u64, Contribution<V>)>,
)
    requires
        shifts_more(pa, pb, by),
        all_shift(chains, -by),
    ensures
        all_contribute(pb, series_of(all_earlier(chains, by)), contributions) <==> all_contribute(
            pa,
            series_of(chains),
            contributions,
        ),
{
    let series = series_of(chains);
    let moved = series_of(all_earlier(chains, by));
    series_of_earlier_rows(chains, by);
    assert forall|k: int| 0 <= k < series.len() implies contributes(
        pb,
        #[trigger] moved[k],
        contributions[k].0,
        contributions[k].1,
    ) == contributes(pa, series[k], contributions[k].0, contributions[k].1) by {
        let rows = series[k];
        assert(moved[k] == earlier(rows, by));
        series_have_one_hash(chains, k);
        assert(earlier(rows, by)[0].cells == rows[0].cells);
        assert forall|i: int| 0 <= i < rows.len() implies i64::MIN <= (#[trigger] rows[i]).timestamp
            + -by <= i64::MAX by {
            lemma_series_row_is_among(chains, k, i);
            let (c, at) = lemma_row_stands_somewhere(chains, rows[i]);
            assert(can_be_shifted(chains[c], -by));
            assert(i64::MIN <= chains[c][at].timestamp + -by <= i64::MAX);
        }
        shifts_make_up_for_times(rows, pa.offset as int, by);
    }
    if all_contribute(pa, series, contributions) {
        assert forall|k: int| 0 <= k < moved.len() implies contributes(
            pb,
            moved[k],
            (#[trigger] contributions[k]).0,
            contributions[k].1,
        ) by {
            assert(contributes(pa, series[k], contributions[k].0, contributions[k].1));
            assert(moved[k] == moved[k]);
        }
    }
    if all_contribute(pb, moved, contributions) {
        assert forall|k: int| 0 <= k < series.len() implies contributes(
            pa,
            series[k],
            (#[trigger] contributions[k]).0,
            contributions[k].1,
        ) by {
            assert(contributes(pb, moved[k], contributions[k].0, contributions[k].1));
        }
    }
}

/// Lowering the times of all rows and raising the offset by as much leaves a
/// fold as it was: it may end in just the same groups.
pub proof fn offset_makes_up_for_times<
    V,
    A,
    H: Fn(&Vec<&[u8]>) -> u64,
    N: Fn() -> A,
    F: Fn(A, &Vec<Sample<V>>) -> A,
>(
    pa: FoldParams<H, N, F>,
    pb: FoldParams<H, N, F>,
    by: int,
    chains: Seq<Seq<Row<V>>>,
    groups: Seq<(u64, Group<A>)>,
)
    requires
        shifts_more(pa, pb, by),
        all_shift(chains, -by),
    ensures
        band_folded(pb, series_of(all_earlier(chains, by)), groups) <==> band_folded(
            pa,
            series_of(chains),
            groups,
        ),
{
    let moved = series_of(all_earlier(chains, by));
    if band_folded(pa, series_of(chains), groups) {
        let x = choose|x: Seq<(u64, Contribution<V>)>| #[trigger]
            all_contribute(pa, series_of(chains), x) && groups_from(pa.new_acc, pa.fold, x, groups);
        contributions_of_earlier_rows(pa, pb, by, chains, x);
        assert(all_contribute(pb, moved, x) && groups_from(pb.new_acc, pb.fold, x, groups));
    }
    if band_folded(pb, moved, groups) {
        let x = choose|x: Seq<(u64, Contribution<V>)>| #[trigger]
            all_contribute(pb, moved, x) && groups_from(pb.new_acc, pb.fold, x, groups);
        contributions_of_earlier_rows(pa, pb, by, chains, x);
        assert(all_contribute(pa, series_of(chains), x));
    }
}

/// The chains of all bands, `by` earlier.
pub open spec fn bands_earlier<V>(bands: Seq<Seq<Seq<Row<V>>>>, by: int) -> Seq<Seq<Seq<Row<V>>>> {
    bands.map_values(|chains: Seq<Seq<Row<V>>>| all_earlier(chains, by))
}

proof fn lemma_earlier_order<V>(chains: Seq<Seq<Row<V>>>, by: int, band: (u64, u64))
    ensures
        all_hash_ordered(all_earlier(chains, by)) <==> all_hash_ordered(chains),
        within_band(all_earlier(chains, by), band) <==> within_band(chains, band),
{
    let moved = all_earlier(chains, by);
    assert forall|i: int| 0 <= i < chains.len() implies hash_ordered_rows(#[trigger] moved[i])
        == hash_ordered_rows(chains[i]) by {
        let rows = chains[i];
        if hash_ordered_rows(rows) {
            assert forall|p: int, q: int| 0 <= p <= q < rows.len() implies (
            #[trigger] moved[i][p]).hash <= (#[trigger] moved[i][q]).hash by {
                assert(rows[p].hash <= rows[q].hash);
            }
        }
        if hash_ordered_rows(moved[i]) {
            assert forall|p: int, q: int| 0 <= p <= q < rows.len() implies (
            #[trigger] rows[p]).hash <= (#[trigger] rows[q]).hash by {
                assert(moved[i][p].hash <= moved[i][q].hash);
            }
        }
    }
    if all_hash_ordered(moved) {
        assert forall|i: int| 0 <= i < chains.len() implies hash_ordered_rows(
            #[trigger] chains[i],
        ) by {
            assert(hash_ordered_rows(moved[i]));
        }
    }
    if within_band(moved, band) {
        assert forall|i: int, k: int| 0 <= i < chains.len() && 0 <= k < chains[i].len() implies
            in_band((#[trigger] chains[i][k]).hash, band) by {
            assert(in_band(moved[i][k].hash, band));
        }
    }
    if within_band(chains, band) {
        assert forall|i: int, k: int| 0 <= i < moved.len() && 0 <= k < moved[i].len() implies
            in_band((#[trigger] moved[i][k]).hash, band) by {
            assert(in_band(chains[i][k].hash, band));
        }
    }
}

/// Lowering the times of all rows and raising the offset by as much leaves a
/// query as it was: with however many bands, its runs over the earlier rows end
/// in just the groups that its runs over the rows as they were end in.
pub proof fn runs_over_earlier_rows<
    V,
    A,
    H: Fn(&Vec<&[u8]>) -> u64,
    N: Fn() -> A,
    F: Fn(A, &Vec<Sample<V>>) -> A,
    M: Fn(A, A) -> A,
>(
    pa: FoldParams<H, N, F>,
    pb: FoldParams<H, N, F>,
    merge: M,
    by: int,
    bands: Seq<Seq<Seq<Row<V>>>>,
    folds: Seq<GroupAccs<A>>,
    groups: Seq<(u64, Group<A>)>,
)
    requires
        shifts_more(pa, pb, by),
        each_shifts(bands, -by),
    ensures
        is_run(pb, merge, bands_earlier(bands, by), folds, groups) <==> is_run(
            pa,
            merge,
            bands,
            folds,
            groups,
        ),
{
    let moved = bands_earlier(bands, by);
    let count = bands.len() as int;
    assert forall|k: int|
        #![trigger moved[k]]
        #![trigger bands[k]]
        0 <= k < count implies {
        &&& all_hash_ordered(moved[k]) == all_hash_ordered(bands[k])
        &&& within_band(moved[k], band_range(k, count)) == within_band(
            bands[k],
            band_range(k, count),
        )
    } by {
        lemma_earlier_order(bands[k], by, band_range(k, count));
    }
    assert(in_bands(moved) == in_bands(bands)) by {
        if in_bands(moved) {
            assert forall|k: int| 0 <= k < count implies all_hash_ordered(#[trigger] bands[k])
                && within_band(bands[k], band_range(k, count)) by {
                assert(all_hash_ordered(moved[k]));
            }
        }
    }
    if folds.len() == bands.len() {
        assert forall|k: int| 0 <= k < count implies band_folded(
            pb,
            series_of(moved[k]),
            (#[trigger] folds[k])@,
        ) == band_folded(pa, series_of(bands[k]), folds[k]@) by {
            assert(all_shift(bands[k], -by));
            offset_makes_up_for_times(pa, pb, by, bands[k], folds[k]@);
        }
    }
}

} // verus!
