//! What holds of bands that merge chains of their own.
use vstd::prelude::*;

use crate::bands::{band_range, each_hash_has_one_band, in_band};
use crate::batch::Row;
use crate::cursor::can_be_shifted;
use crate::fold::{all_shift, has_all_cells};
use crate::series::{
    behind, gather, lemma_behind_is_shorter, lemma_min_head, lemma_no_runs, lemma_run_len_is,
    min_head, run_len, series_of, total_rows,
};
use crate::series_laws::{
    all_hash_ordered, all_rows, band_chains, bands_fold_the_same_series, hash_ordered_rows, kept,
    lemma_all_empty, lemma_all_rows_add, lemma_filter_all, lemma_filter_none, series_of_bands,
};

verus! {

/// All chains are without rows.
pub open spec fn all_empty<V>(chains: Seq<Seq<Row<V>>>) -> bool {
    forall|i: int| 0 <= i < chains.len() ==> (#[trigger] chains[i]).len() == 0
}

/// All rows of the chains lie in the band.
pub open spec fn within_band<V>(chains: Seq<Seq<Row<V>>>, band: (u64, u64)) -> bool {
    forall|i: int, k: int|
        0 <= i < chains.len() && 0 <= k < chains[i].len() ==> in_band(
            (#[trigger] chains[i][k]).hash,
            band,
        )
}

/// The chains of each band are hash-ordered and lie in the band. Each band has
/// chains of its own, as many as it likes.
pub open spec fn in_bands<V>(bands: Seq<Seq<Seq<Row<V>>>>) -> bool {
    forall|k: int|
        0 <= k < bands.len() ==> {
            &&& all_hash_ordered(#[trigger] bands[k])
            &&& within_band(bands[k], band_range(k, bands.len() as int))
        }
}

/// The chains of all bands, band after band.
pub open spec fn all_chains<V>(bands: Seq<Seq<Seq<Row<V>>>>) -> Seq<Seq<Row<V>>>
    decreases bands.len(),
{
    if bands.len() == 0 {
        Seq::empty()
    } else {
        all_chains(bands.drop_last()) + bands.last()
    }
}

/// The series of the first `n` bands, band after band.
pub open spec fn joined_series<V>(bands: Seq<Seq<Seq<Row<V>>>>, n: int) -> Seq<Seq<Row<V>>>
    decreases n,
{
    if n <= 0 {
        Seq::empty()
    } else {
        joined_series(bands, n - 1) + series_of(bands[n - 1])
    }
}

proof fn lemma_gather_add<V>(a: Seq<Seq<Row<V>>>, b: Seq<Seq<Row<V>>>, hash: u64)
    ensures
        gather(a + b, hash) == gather(a, hash) + gather(b, hash),
        behind(a + b, hash) == behind(a, hash) + behind(b, hash),
    decreases b.len(),
{
    assert(behind(a + b, hash) =~= behind(a, hash) + behind(b, hash));
    if b.len() == 0 {
        assert(a + b =~= a);
        assert(gather(a, hash) + gather(b, hash) =~= gather(a, hash));
    } else {
        assert((a + b).drop_last() =~= a + b.drop_last());
        lemma_gather_add(a, b.drop_last(), hash);
        assert(gather(a + b, hash) =~= gather(a, hash) + gather(b, hash));
    }
}

proof fn lemma_nothing_to_gather<V>(chains: Seq<Seq<Row<V>>>, hash: u64)
    requires
        all_empty(chains),
    ensures
        gather(chains, hash) == Seq::<Row<V>>::empty(),
        behind(chains, hash) == chains,
{
    assert forall|i: int| 0 <= i < chains.len() implies run_len(#[trigger] chains[i], hash)
        == 0 by {
        lemma_run_len_is(chains[i], hash, 0);
    }
    lemma_no_runs(chains, hash);
}

/// Chains without rows do not show, however many there are and wherever they
/// stand.
pub proof fn empty_chains_do_not_show<V>(
    front: Seq<Seq<Row<V>>>,
    chains: Seq<Seq<Row<V>>>,
    back: Seq<Seq<Row<V>>>,
)
    requires
        all_empty(front),
        all_empty(back),
    ensures
        series_of(front + chains + back) == series_of(chains),
        all_rows(front + chains + back) == all_rows(chains),
    decreases total_rows(chains),
{
    let all = front + chains + back;
    lemma_all_rows_add(front, chains);
    lemma_all_rows_add(front + chains, back);
    lemma_all_empty(front);
    lemma_all_empty(back);
    assert(all_rows(all) =~= all_rows(chains));
    lemma_min_head(all);
    lemma_min_head(chains);
    assert forall|i: int| 0 <= i < chains.len() implies #[trigger] chains[i] == all[front.len()
        + i] by {}
    assert forall|i: int| 0 <= i < all.len() && (#[trigger] all[i]).len() > 0 implies front.len()
        <= i < front.len() + chains.len() && all[i] == chains[i - front.len()] by {
        if i < front.len() {
            assert(all[i] == front[i]);
        } else if i >= front.len() + chains.len() {
            assert(all[i] == back[i - front.len() - chains.len()]);
        }
    }
    if min_head(all) is Some {
        let i = choose|i: int|
            0 <= i < all.len() && (#[trigger] all[i]).len() > 0 && all[i][0].hash == min_head(
                all,
            )->0;
        assert(chains[i - front.len()].len() > 0);
    }
    if min_head(chains) is Some {
        let hash = min_head(chains)->0;
        let i = choose|i: int|
            0 <= i < chains.len() && (#[trigger] chains[i]).len() > 0 && chains[i][0].hash == hash;
        assert(all[front.len() + i].len() > 0);
        assert(min_head(all) == Some(hash));
        lemma_gather_add(front, chains, hash);
        lemma_gather_add(front + chains, back, hash);
        lemma_nothing_to_gather(front, hash);
        lemma_nothing_to_gather(back, hash);
        lemma_behind_is_shorter(chains, hash);
        empty_chains_do_not_show(front, behind(chains, hash), back);
        assert(gather(all, hash) =~= gather(chains, hash));
        assert(behind(all, hash) =~= front + behind(chains, hash) + back);
    }
}

proof fn lemma_all_chains_add<V>(a: Seq<Seq<Seq<Row<V>>>>, b: Seq<Seq<Seq<Row<V>>>>)
    ensures
        all_chains(a + b) == all_chains(a) + all_chains(b),
    decreases b.len(),
{
    if b.len() == 0 {
        assert(a + b =~= a);
        assert(all_chains(a) + all_chains(b) =~= all_chains(a));
    } else {
        assert((a + b).drop_last() =~= a + b.drop_last());
        lemma_all_chains_add(a, b.drop_last());
        assert(all_chains(a + b) =~= all_chains(a) + all_chains(b));
    }
}

/// Each of all chains is a chain of some band.
pub proof fn lemma_chain_of_some_band<V>(bands: Seq<Seq<Seq<Row<V>>>>, i: int) -> (at: (int, int))
    requires
        0 <= i < all_chains(bands).len(),
    ensures
        0 <= at.0 < bands.len(),
        0 <= at.1 < bands[at.0].len(),
        all_chains(bands)[i] == bands[at.0][at.1],
    decreases bands.len(),
{
    let rest = bands.drop_last();
    let n = all_chains(rest).len();
    if i < n {
        let at = lemma_chain_of_some_band(rest, i);
        assert(rest[at.0] == bands[at.0]);
        at
    } else {
        (bands.len() - 1, i - n)
    }
}

/// Every row of each band has a cell for each of `group_cols` group columns.
pub open spec fn each_has_all_cells<V>(bands: Seq<Seq<Seq<Row<V>>>>, group_cols: nat) -> bool {
    forall|k: int| 0 <= k < bands.len() ==> has_all_cells(#[trigger] bands[k], group_cols)
}

/// The times of all rows of each band can be shifted by `offset`.
pub open spec fn each_shifts<V>(bands: Seq<Seq<Seq<Row<V>>>>, offset: int) -> bool {
    forall|k: int| 0 <= k < bands.len() ==> all_shift(#[trigger] bands[k], offset)
}

/// Where the rows of each band have all cells, so have the rows of all bands.
pub proof fn all_chains_have_all_cells<V>(bands: Seq<Seq<Seq<Row<V>>>>, group_cols: nat)
    requires
        each_has_all_cells(bands, group_cols),
    ensures
        has_all_cells(all_chains(bands), group_cols),
{
    let all = all_chains(bands);
    assert forall|i: int, k: int| 0 <= i < all.len() && 0 <= k < all[i].len() implies (
    #[trigger] all[i][k]).cells.len() == group_cols by {
        let (b, c) = lemma_chain_of_some_band(bands, i);
        assert(has_all_cells(bands[b], group_cols));
        assert(bands[b][c][k].cells.len() == group_cols);
    }
}

/// Where the rows of each band can be shifted, so can the rows of all bands.
pub proof fn all_chains_shift<V>(bands: Seq<Seq<Seq<Row<V>>>>, offset: int)
    requires
        each_shifts(bands, offset),
    ensures
        all_shift(all_chains(bands), offset),
{
    let all = all_chains(bands);
    assert forall|i: int| 0 <= i < all.len() implies can_be_shifted(#[trigger] all[i], offset) by {
        let (b, c) = lemma_chain_of_some_band(bands, i);
        assert(all_shift(bands[b], offset));
        assert(can_be_shifted(bands[b][c], offset));
    }
}

/// Of the chains of other bands, a band has no rows.
proof fn lemma_none_of_other_bands<V>(
    bands: Seq<Seq<Seq<Row<V>>>>,
    others: Seq<Seq<Seq<Row<V>>>>,
    first: int,
    k: int,
)
    requires
        in_bands(bands),
        bands.len() <= u64::MAX,
        0 <= k < bands.len(),
        0 <= first,
        first + others.len() <= bands.len(),
        first + others.len() <= k || k < first,
        forall|j: int| 0 <= j < others.len() ==> #[trigger] others[j] == bands[first + j],
    ensures
        all_empty(band_chains(all_chains(others), band_range(k, bands.len() as int))),
{
    let count = bands.len() as int;
    let band = band_range(k, count);
    let chains = all_chains(others);
    let own = band_chains(chains, band);
    assert forall|i: int| 0 <= i < own.len() implies (#[trigger] own[i]).len() == 0 by {
        let (j, c) = lemma_chain_of_some_band(others, i);
        assert(others[j] == bands[first + j]);
        let other = bands[first + j];
        let keep = |row: Row<V>| in_band(row.hash, band);
        assert forall|p: int| 0 <= p < chains[i].len() implies !keep(#[trigger] chains[i][p]) by {
            let hash = other[c][p].hash;
            assert(in_band(hash, band_range(first + j, count)));
            let one = each_hash_has_one_band(count, hash);
            assert(in_band(hash, band_range(first + j, count)) ==> first + j == one);
            if in_band(hash, band_range(k, count)) {
                assert(k == one);
            }
        }
        lemma_filter_none(chains[i], keep);
    }
}

/// What a band reads of the chains of all bands are its own chains, among
/// chains without rows.
proof fn lemma_own_part<V>(bands: Seq<Seq<Seq<Row<V>>>>, k: int)
    requires
        in_bands(bands),
        bands.len() <= u64::MAX,
        0 <= k < bands.len(),
    ensures
        series_of(band_chains(all_chains(bands), band_range(k, bands.len() as int))) == series_of(
            bands[k],
        ),
        all_rows(band_chains(all_chains(bands), band_range(k, bands.len() as int))) == all_rows(
            bands[k],
        ),
{
    let band = band_range(k, bands.len() as int);
    let keep = |row: Row<V>| in_band(row.hash, band);
    let before = bands.take(k);
    let after = bands.skip(k + 1);
    let one = seq![bands[k]];
    assert(bands =~= before + one + after);
    lemma_all_chains_add(before, one);
    lemma_all_chains_add(before + one, after);
    assert(one.drop_last() =~= Seq::<Seq<Seq<Row<V>>>>::empty());
    assert(all_chains(one.drop_last()) =~= Seq::<Seq<Row<V>>>::empty());
    assert(all_chains(one) =~= bands[k]);
    lemma_none_of_other_bands(bands, before, 0, k);
    lemma_none_of_other_bands(bands, after, k + 1, k);
    let front = kept(all_chains(before), keep);
    let back = kept(all_chains(after), keep);
    assert(within_band(bands[k], band));
    assert forall|i: int| 0 <= i < bands[k].len() implies #[trigger] kept(bands[k], keep)[i]
        == bands[k][i] by {
        lemma_filter_all(bands[k][i], keep);
    }
    assert(kept(bands[k], keep) =~= bands[k]);
    assert(kept(all_chains(bands), keep) =~= front + bands[k] + back);
    empty_chains_do_not_show(front, bands[k], back);
}

proof fn lemma_all_chains_are_ordered<V>(bands: Seq<Seq<Seq<Row<V>>>>)
    requires
        in_bands(bands),
    ensures
        all_hash_ordered(all_chains(bands)),
{
    assert forall|i: int| 0 <= i < all_chains(bands).len() implies hash_ordered_rows(
        #[trigger] all_chains(bands)[i],
    ) by {
        let (k, c) = lemma_chain_of_some_band(bands, i);
        assert(all_hash_ordered(bands[k]));
        assert(hash_ordered_rows(bands[k][c]));
    }
}

proof fn lemma_joined_series<V>(bands: Seq<Seq<Seq<Row<V>>>>, n: int)
    requires
        in_bands(bands),
        bands.len() <= u64::MAX,
        0 <= n <= bands.len(),
    ensures
        series_of_bands(all_chains(bands), bands.len() as int, n) == joined_series(bands, n),
    decreases n,
{
    if n > 0 {
        lemma_joined_series(bands, n - 1);
        lemma_own_part(bands, n - 1);
    }
}

/// Bands that merge chains of their own fold, band after band, the same series
/// in the same order as one fold of the chains of all bands; the rows of a band
/// are just those of all rows that lie in it.
pub proof fn bands_with_own_chains<V>(bands: Seq<Seq<Seq<Row<V>>>>)
    requires
        in_bands(bands),
        1 <= bands.len() <= u64::MAX,
    ensures
        all_hash_ordered(all_chains(bands)),
        series_of(all_chains(bands)) == joined_series(bands, bands.len() as int),
        forall|k: int|
            0 <= k < bands.len() ==> all_rows(#[trigger] bands[k]) == all_rows(
                band_chains(all_chains(bands), band_range(k, bands.len() as int)),
            ),
{
    let count = bands.len() as int;
    lemma_all_chains_are_ordered(bands);
    lemma_joined_series(bands, count);
    bands_fold_the_same_series(all_chains(bands), count);
    assert forall|k: int| 0 <= k < bands.len() implies all_rows(#[trigger] bands[k]) == all_rows(
        band_chains(all_chains(bands), band_range(k, count)),
    ) by {
        lemma_own_part(bands, k);
    }
}

/// All chains are those of the bands, and all series those of the bands, one
/// band after another.
pub proof fn bands_are_joined<V>(bands: Seq<Seq<Seq<Row<V>>>>, n: int)
    requires
        0 <= n <= bands.len(),
    ensures
        all_chains(bands) == bands.flatten(),
        joined_series(bands, n) == Seq::new(n as nat, |k: int| series_of(bands[k])).flatten(),
    decreases bands.len(), n,
{
    if bands.len() > 0 {
        let rest = bands.drop_last();
        bands_are_joined(rest, 0);
        rest.lemma_flatten_push(bands.last());
        assert(bands =~= rest.push(bands.last()));
    }
    let lists = Seq::new(n as nat, |k: int| series_of(bands[k]));
    if n > 0 {
        bands_are_joined(bands, n - 1);
        let fewer = Seq::new((n - 1) as nat, |k: int| series_of(bands[k]));
        assert(lists =~= fewer.push(series_of(bands[n - 1])));
        fewer.lemma_flatten_push(series_of(bands[n - 1]));
    }
}

} // verus!
