//! How the rows are laid out over chains does not show in a fold.
use vstd::prelude::*;
use vstd::seq_lib::{
    to_multiset_contains, to_multiset_insert, to_multiset_len, to_multiset_remove,
};

use crate::batch::{Row, Sample};
use crate::cursor::{can_be_shifted, shifted};
use crate::fold::{
    all_contribute, all_shift, band_folded, contributes, in_time_order, FoldParams,
};
use crate::group_key::{equal_labels_have_one_signature, is_function};
use crate::groups::{folded, groups_from, of_sig, sigs_of, Contribution, Group};
use crate::series::{behind, gather, lemma_min_head, min_head, series_of, total_rows};
use crate::series_laws::{
    all_hash_ordered, all_rows, each_row_is_folded_once, kept, lemma_all_rows_of_kept,
    lemma_gathers_all, lemma_rest_comes_later, lemma_taken_and_left, series_are_whole, series_have_one_hash,
};
use crate::text::texts;

verus! {

/// No two rows of one series have the same time.
pub open spec fn times_are_unique<V>(rows: Seq<Row<V>>) -> bool {
    forall|i: int, j: int|
        0 <= i < j < rows.len() && (#[trigger] rows[i]).hash == (#[trigger] rows[j]).hash
            ==> rows[i].timestamp != rows[j].timestamp
}

/// All rows of one series have the same labels.
pub open spec fn series_share_labels<V>(rows: Seq<Row<V>>) -> bool {
    forall|i: int, j: int|
        0 <= i < rows.len() && 0 <= j < rows.len() && (#[trigger] rows[i]).hash == (
        #[trigger] rows[j]).hash ==> rows[i].cells == rows[j].cells
}

/// The chains hold the same rows, though not in the same places.
pub open spec fn same_rows<V>(a: Seq<Seq<Row<V>>>, b: Seq<Seq<Row<V>>>) -> bool {
    all_rows(a).to_multiset() == all_rows(b).to_multiset()
}

/// Two folds shift by the same offset, and hash and aggregate alike.
pub open spec fn same_work<H, N, F>(a: FoldParams<H, N, F>, b: FoldParams<H, N, F>) -> bool {
    &&& a.offset == b.offset
    &&& a.hash == b.hash
    &&& a.new_acc == b.new_acc
    &&& a.fold == b.fold
}

/// Two folds group by the same columns, and do the same work.
pub open spec fn same_query<H, N, F>(a: FoldParams<H, N, F>, b: FoldParams<H, N, F>) -> bool {
    &&& texts(a.group_cols@) == texts(b.group_cols@)
    &&& same_work(a, b)
}

/// There is one new accumulator, and one result of folding given samples into a
/// given accumulator.
pub open spec fn folds_are_functions<V, A, N: Fn() -> A, F: Fn(A, &Vec<Sample<V>>) -> A>(
    new_acc: N,
    fold: F,
) -> bool {
    &&& forall|a: A, b: A| #[trigger]
        call_ensures(new_acc, (), a) && #[trigger] call_ensures(new_acc, (), b) ==> a == b
    &&& forall|acc: A, x: Vec<Sample<V>>, y: Vec<Sample<V>>, a: A, b: A|
        {
            &&& x@ == y@
            &&& #[trigger] call_ensures(fold, (acc, &x), a)
            &&& #[trigger] call_ensures(fold, (acc, &y), b)
        } ==> a == b
}

/// A row of a chain is among all rows.
pub proof fn lemma_row_is_among<V>(chains: Seq<Seq<Row<V>>>, i: int, k: int)
    requires
        0 <= i < chains.len(),
        0 <= k < chains[i].len(),
    ensures
        all_rows(chains).contains(chains[i][k]),
    decreases chains.len(),
{
    let rest = chains.drop_last();
    if i < rest.len() {
        lemma_row_is_among(rest, i, k);
        let p = choose|p: int|
            0 <= p < all_rows(rest).len() && all_rows(rest)[p] == rest[i][k];
        assert(all_rows(chains)[p] == chains[i][k]);
    } else {
        assert(all_rows(chains)[all_rows(rest).len() + k] == chains[i][k]);
    }
}

/// Each of all rows stands in some chain.
pub proof fn lemma_row_stands_somewhere<V>(chains: Seq<Seq<Row<V>>>, row: Row<V>) -> (at: (int, int))
    requires
        all_rows(chains).contains(row),
    ensures
        0 <= at.0 < chains.len(),
        0 <= at.1 < chains[at.0].len(),
        chains[at.0][at.1] == row,
    decreases chains.len(),
{
    let p = choose|p: int| 0 <= p < all_rows(chains).len() && all_rows(chains)[p] == row;
    let rest = chains.drop_last();
    let n = all_rows(rest).len();
    if p < n {
        assert(all_rows(rest)[p] == row);
        let at = lemma_row_stands_somewhere(rest, row);
        assert(rest[at.0] == chains[at.0]);
        at
    } else {
        assert(chains.last()[p - n] == row);
        (chains.len() - 1, p - n)
    }
}

/// Filtering chain by chain is filtering all rows.
pub proof fn lemma_all_rows_filter<V>(chains: Seq<Seq<Row<V>>>, keep: spec_fn(Row<V>) -> bool)
    ensures
        all_rows(kept(chains, keep)) == all_rows(chains).filter(keep),
{
    lemma_all_rows_of_kept(chains, keep);
}

proof fn lemma_filter_count<T>(s: Seq<T>, keep: spec_fn(T) -> bool, x: T)
    ensures
        s.filter(keep).to_multiset().count(x) == if keep(x) {
            s.to_multiset().count(x)
        } else {
            0
        },
    decreases s.len(),
{
    reveal(Seq::filter);
    broadcast use vstd::seq_lib::group_to_multiset_ensures;

    if s.len() > 0 {
        let rest = s.drop_last();
        lemma_filter_count(rest, keep, x);
        assert(rest.push(s.last()) =~= s);
    } else {
        assert(s.filter(keep) =~= s);
    }
}

/// Filtering keeps two lists of the same items the same.
pub proof fn lemma_same_filter<T>(a: Seq<T>, b: Seq<T>, keep: spec_fn(T) -> bool)
    requires
        a.to_multiset() == b.to_multiset(),
    ensures
        a.filter(keep).to_multiset() == b.filter(keep).to_multiset(),
{
    assert forall|x: T|
        a.filter(keep).to_multiset().count(x) == b.filter(keep).to_multiset().count(x) by {
        lemma_filter_count(a, keep, x);
        lemma_filter_count(b, keep, x);
    }
    assert(a.filter(keep).to_multiset() =~= b.filter(keep).to_multiset());
}

/// What is left by a filter is among the list, and satisfies the filter.
pub proof fn lemma_filtered_is_among<T>(s: Seq<T>, keep: spec_fn(T) -> bool, i: int)
    requires
        0 <= i < s.filter(keep).len(),
    ensures
        s.contains(s.filter(keep)[i]),
        keep(s.filter(keep)[i]),
{
    let x = s.filter(keep)[i];
    assert(s.filter(keep).contains(x));
    to_multiset_contains(s.filter(keep), x);
    lemma_filter_count(s, keep, x);
    to_multiset_contains(s, x);
}

/// The smallest head of ordered chains does not exceed the hash of any row.
proof fn lemma_min_head_is_least<V>(chains: Seq<Seq<Row<V>>>, row: Row<V>)
    requires
        all_hash_ordered(chains),
        all_rows(chains).contains(row),
    ensures
        min_head(chains) matches Some(hash) && hash <= row.hash,
{
    let (i, k) = lemma_row_stands_somewhere(chains, row);
    lemma_min_head(chains);
    assert(chains[i].len() > 0);
    assert(chains[i][0].hash <= chains[i][k].hash);
}

proof fn lemma_min_head_bounds<V>(a: Seq<Seq<Row<V>>>, b: Seq<Seq<Row<V>>>)
    requires
        all_hash_ordered(b),
        same_rows(a, b),
        min_head(a) is Some,
    ensures
        min_head(b) matches Some(hash) && hash <= min_head(a)->0,
{
    lemma_min_head(a);
    let i = choose|i: int|
        0 <= i < a.len() && (#[trigger] a[i]).len() > 0 && a[i][0].hash == min_head(a)->0;
    let row = a[i][0];
    lemma_row_is_among(a, i, 0);
    to_multiset_contains(all_rows(a), row);
    to_multiset_contains(all_rows(b), row);
    lemma_min_head_is_least(b, row);
}

/// Hash-ordered chains that hold the same rows have the same series: as many,
/// in the same order, and each of the same rows, however these are spread over
/// the chains.
pub proof fn series_do_not_depend_on_layout<V>(a: Seq<Seq<Row<V>>>, b: Seq<Seq<Row<V>>>)
    requires
        all_hash_ordered(a),
        all_hash_ordered(b),
        same_rows(a, b),
    ensures
        series_of(a).len() == series_of(b).len(),
        forall|k: int|
            0 <= k < series_of(a).len() ==> (#[trigger] series_of(a)[k]).to_multiset()
                == series_of(b)[k].to_multiset(),
    decreases total_rows(a),
{
    if min_head(a) is Some || min_head(b) is Some {
        if min_head(a) is Some {
            lemma_min_head_bounds(a, b);
        }
        lemma_min_head_bounds(b, a);
        let hash = min_head(a)->0;
        assert(min_head(b) == Some(hash));
        let x = behind(a, hash);
        let y = behind(b, hash);
        lemma_min_head(a);
        lemma_min_head(b);
        lemma_rest_comes_later(a, hash);
        lemma_rest_comes_later(b, hash);
        lemma_gathers_all(a, hash, hash);
        lemma_gathers_all(b, hash, hash);
        let own = |row: Row<V>| row.hash == hash;
        lemma_all_rows_filter(a, own);
        lemma_all_rows_filter(b, own);
        lemma_same_filter(all_rows(a), all_rows(b), own);
        lemma_taken_and_left(a, hash);
        lemma_taken_and_left(b, hash);
        assert forall|row: Row<V>|
            all_rows(x).to_multiset().count(row) == all_rows(y).to_multiset().count(row) by {
            let all = all_rows(a).to_multiset().count(row);
            assert(all == gather(a, hash).to_multiset().count(row) + all_rows(
                x,
            ).to_multiset().count(row));
            assert(all == gather(b, hash).to_multiset().count(row) + all_rows(
                y,
            ).to_multiset().count(row));
        }
        assert(all_rows(x).to_multiset() =~= all_rows(y).to_multiset());
        series_do_not_depend_on_layout(x, y);
        assert forall|k: int| 0 <= k < series_of(a).len() implies (
        #[trigger] series_of(a)[k]).to_multiset() == series_of(b)[k].to_multiset() by {
            if k > 0 {
                assert(series_of(a)[k] == series_of(x)[k - 1]);
                assert(series_of(b)[k] == series_of(y)[k - 1]);
            }
        }
    }
}

/// Each row of a series is among all rows of the chains.
pub proof fn lemma_series_row_is_among<V>(chains: Seq<Seq<Row<V>>>, k: int, i: int)
    requires
        0 <= k < series_of(chains).len(),
        0 <= i < series_of(chains)[k].len(),
    ensures
        all_rows(chains).contains(series_of(chains)[k][i]),
{
    let row = series_of(chains)[k][i];
    lemma_row_is_among(series_of(chains), k, i);
    each_row_is_folded_once(chains);
    to_multiset_contains(all_rows(series_of(chains)), row);
    to_multiset_contains(all_rows(chains), row);
}

/// Filtering keeps times unique.
pub proof fn lemma_filter_keeps_unique<V>(rows: Seq<Row<V>>, keep: spec_fn(Row<V>) -> bool)
    requires
        times_are_unique(rows),
    ensures
        times_are_unique(rows.filter(keep)),
    decreases rows.len(),
{
    reveal(Seq::filter);
    if rows.len() > 0 {
        let rest = rows.drop_last();
        let n = rest.len() as int;
        assert forall|i: int, j: int|
            0 <= i < j < rest.len() && (#[trigger] rest[i]).hash == (
            #[trigger] rest[j]).hash implies rest[i].timestamp != rest[j].timestamp by {
            assert(rest[i] == rows[i] && rest[j] == rows[j]);
        }
        lemma_filter_keeps_unique(rest, keep);
        let before = rest.filter(keep);
        let now = rows.filter(keep);
        assert forall|i: int, j: int|
            0 <= i < j < now.len() && (#[trigger] now[i]).hash == (
            #[trigger] now[j]).hash implies now[i].timestamp != now[j].timestamp by {
            if j < before.len() {
                assert(now[i] == before[i] && now[j] == before[j]);
            } else {
                assert(now[i] == before[i]);
                lemma_filtered_is_among(rest, keep, i);
                let p = choose|p: int| 0 <= p < rest.len() && rest[p] == before[i];
                assert(rows[p] == before[i]);
                assert(now[j] == rows[n]);
            }
        }
    }
}

/// The rows of each series have distinct times and shared labels where those of
/// the chains have, and can be shifted where those can.
proof fn lemma_series_are_unambiguous<V>(chains: Seq<Seq<Row<V>>>, k: int, offset: int)
    requires
        all_hash_ordered(chains),
        times_are_unique(all_rows(chains)),
        series_share_labels(all_rows(chains)),
        all_shift(chains, offset),
        0 <= k < series_of(chains).len(),
    ensures
        times_are_unique(series_of(chains)[k]),
        forall|i: int|
            0 <= i < series_of(chains)[k].len() ==> (#[trigger] series_of(chains)[k][i]).cells
                == series_of(chains)[k][0].cells,
        can_be_shifted(series_of(chains)[k], offset),
{
    let rows = series_of(chains)[k];
    series_have_one_hash(chains, k);
    series_are_whole(chains, k);
    let own = |row: Row<V>| row.hash == rows[0].hash;
    lemma_all_rows_filter(chains, own);
    lemma_filter_keeps_unique(all_rows(chains), own);
    let all = all_rows(chains);
    assert forall|i: int| 0 <= i < rows.len() implies (#[trigger] rows[i]).cells == rows[0].cells
        && i64::MIN <= rows[i].timestamp + offset <= i64::MAX by {
        lemma_series_row_is_among(chains, k, i);
        lemma_series_row_is_among(chains, k, 0);
        let p = choose|p: int| 0 <= p < all.len() && all[p] == rows[i];
        let q = choose|q: int| 0 <= q < all.len() && all[q] == rows[0];
        assert(all[p].hash == all[q].hash);
        let (c, at) = lemma_row_stands_somewhere(chains, rows[i]);
        assert(can_be_shifted(chains[c], offset));
        assert(i64::MIN <= chains[c][at].timestamp + offset <= i64::MAX);
    }
}

proof fn lemma_map_permutes<T, U>(s: Seq<T>, t: Seq<T>, f: spec_fn(T) -> U)
    requires
        s.to_multiset() == t.to_multiset(),
    ensures
        s.map_values(f).to_multiset() == t.map_values(f).to_multiset(),
    decreases s.len(),
{
    to_multiset_len(s);
    to_multiset_len(t);
    if s.len() == 0 {
        assert(s =~= t);
    } else {
        let n = s.len() - 1;
        let x = s[n];
        assert(s.contains(x));
        to_multiset_contains(s, x);
        to_multiset_contains(t, x);
        let i = choose|i: int| 0 <= i < t.len() && t[i] == x;
        to_multiset_remove(s, n);
        to_multiset_remove(t, i);
        lemma_map_permutes(s.remove(n), t.remove(i), f);
        to_multiset_insert(s.remove(n).map_values(f), n, f(x));
        to_multiset_insert(t.remove(i).map_values(f), i, f(x));
        assert(s.map_values(f) =~= s.remove(n).map_values(f).insert(n, f(x)));
        assert(t.map_values(f) =~= t.remove(i).map_values(f).insert(i, f(x)));
    }
}

/// No two samples have the same time.
spec fn distinct_times<V>(samples: Seq<Sample<V>>) -> bool {
    forall|i: int, j: int|
        0 <= i < samples.len() && 0 <= j < samples.len() && (#[trigger] samples[i]).timestamp == (
        #[trigger] samples[j]).timestamp ==> i == j
}

proof fn lemma_distinct_times_permute<V>(s: Seq<Sample<V>>, t: Seq<Sample<V>>)
    requires
        s.to_multiset() == t.to_multiset(),
        distinct_times(s),
    ensures
        distinct_times(t),
{
    assert(s.no_duplicates());
    s.lemma_multiset_has_no_duplicates();
    t.lemma_multiset_has_no_duplicates_conv();
    assert forall|i: int, j: int|
        0 <= i < t.len() && 0 <= j < t.len() && (#[trigger] t[i]).timestamp == (
        #[trigger] t[j]).timestamp implies i == j by {
        assert(t.contains(t[i]) && t.contains(t[j]));
        to_multiset_contains(t, t[i]);
        to_multiset_contains(t, t[j]);
        to_multiset_contains(s, t[i]);
        to_multiset_contains(s, t[j]);
        let p = choose|p: int| 0 <= p < s.len() && s[p] == t[i];
        let q = choose|q: int| 0 <= q < s.len() && s[q] == t[j];
        assert(s[p].timestamp == s[q].timestamp);
    }
}

/// Samples with distinct times can be put in the order of their times in one
/// way only.
proof fn lemma_time_order_is_unique<V>(x: Seq<Sample<V>>, y: Seq<Sample<V>>)
    requires
        in_time_order(x),
        in_time_order(y),
        x.to_multiset() == y.to_multiset(),
        distinct_times(x),
    ensures
        x == y,
    decreases x.len(),
{
    to_multiset_len(x);
    to_multiset_len(y);
    if x.len() == 0 {
        assert(x =~= y);
    } else {
        assert(x.contains(x[0]) && y.contains(y[0]));
        to_multiset_contains(x, x[0]);
        to_multiset_contains(y, x[0]);
        to_multiset_contains(x, y[0]);
        to_multiset_contains(y, y[0]);
        let j = choose|j: int| 0 <= j < y.len() && y[j] == x[0];
        let i = choose|i: int| 0 <= i < x.len() && x[i] == y[0];
        assert(y[0].timestamp <= y[j].timestamp);
        assert(x[0].timestamp <= x[i].timestamp);
        assert(x[0].timestamp == x[i].timestamp);
        assert(x[0] == y[0]);
        let a = x.remove(0);
        let b = y.remove(0);
        to_multiset_remove(x, 0);
        to_multiset_remove(y, 0);
        assert forall|p: int, q: int| 0 <= p <= q < a.len() implies (#[trigger] a[p]).timestamp <= (
        #[trigger] a[q]).timestamp by {
            assert(a[p] == x[p + 1] && a[q] == x[q + 1]);
        }
        assert forall|p: int, q: int| 0 <= p <= q < b.len() implies (#[trigger] b[p]).timestamp <= (
        #[trigger] b[q]).timestamp by {
            assert(b[p] == y[p + 1] && b[q] == y[q + 1]);
        }
        assert forall|p: int, q: int|
            0 <= p < a.len() && 0 <= q < a.len() && (#[trigger] a[p]).timestamp == (
            #[trigger] a[q]).timestamp implies p == q by {
            assert(a[p] == x[p + 1] && a[q] == x[q + 1]);
        }
        lemma_time_order_is_unique(a, b);
        assert(x =~= a.insert(0, x[0]));
        assert(y =~= b.insert(0, y[0]));
    }
}

/// Two series of the same rows contribute the same.
proof fn lemma_contributions_agree<V, H: Fn(&Vec<&[u8]>) -> u64, N, F>(
    pa: FoldParams<H, N, F>,
    pb: FoldParams<H, N, F>,
    a: Seq<Row<V>>,
    b: Seq<Row<V>>,
    x: (u64, Contribution<V>),
    y: (u64, Contribution<V>),
)
    requires
        same_query(pa, pb),
        is_function(pa.hash),
        a.to_multiset() == b.to_multiset(),
        times_are_unique(a),
        forall|i: int| 0 <= i < a.len() ==> (#[trigger] a[i]).cells == a[0].cells,
        forall|i: int| 0 <= i < a.len() ==> (#[trigger] a[i]).hash == a[0].hash,
        can_be_shifted(a, pa.offset as int),
        contributes(pa, a, x.0, x.1),
        contributes(pb, b, y.0, y.1),
    ensures
        x == y,
{
    let offset = pa.offset as int;
    assert(b.contains(b[0]));
    to_multiset_contains(b, b[0]);
    to_multiset_contains(a, b[0]);
    let p = choose|p: int| 0 <= p < a.len() && a[p] == b[0];
    assert(a[p].cells == a[0].cells);
    assert(x.1.labels == y.1.labels);
    equal_labels_have_one_signature(pa.hash, x.1.labels, x.0, y.0);
    let shift = |row: Row<V>| Sample { timestamp: (row.timestamp + offset) as i64, value: row.value };
    lemma_map_permutes(a, b, shift);
    assert(shifted(a, offset) =~= a.map_values(shift));
    assert(shifted(b, offset) =~= b.map_values(shift));
    let moved = shifted(a, offset);
    assert forall|i: int, j: int|
        0 <= i < moved.len() && 0 <= j < moved.len() && (#[trigger] moved[i]).timestamp == (
        #[trigger] moved[j]).timestamp implies i == j by {
        assert(i64::MIN <= a[i].timestamp + offset <= i64::MAX);
        assert(i64::MIN <= a[j].timestamp + offset <= i64::MAX);
        assert(a[i].timestamp == a[j].timestamp);
        assert(a[i].hash == a[j].hash);
    }
    lemma_distinct_times_permute(moved, x.1.samples);
    lemma_time_order_is_unique(x.1.samples, y.1.samples);
}

/// Two folds of the same rows contribute the same series to the same groups,
/// however the rows are laid out: where the hasher is a function, no series has
/// two samples of one time, and the rows of a series share their labels.
pub proof fn contributions_do_not_depend_on_layout<V, H: Fn(&Vec<&[u8]>) -> u64, N, F>(
    pa: FoldParams<H, N, F>,
    pb: FoldParams<H, N, F>,
    a: Seq<Seq<Row<V>>>,
    b: Seq<Seq<Row<V>>>,
    x: Seq<(u64, Contribution<V>)>,
    y: Seq<(u64, Contribution<V>)>,
)
    requires
        same_query(pa, pb),
        is_function(pa.hash),
        all_hash_ordered(a),
        all_hash_ordered(b),
        same_rows(a, b),
        times_are_unique(all_rows(a)),
        series_share_labels(all_rows(a)),
        all_shift(a, pa.offset as int),
        all_contribute(pa, series_of(a), x),
        all_contribute(pb, series_of(b), y),
    ensures
        x == y,
{
    series_do_not_depend_on_layout(a, b);
    assert forall|k: int| 0 <= k < x.len() implies #[trigger] x[k] == y[k] by {
        lemma_series_are_unambiguous(a, k, pa.offset as int);
        series_have_one_hash(a, k);
        assert(series_of(a)[k].to_multiset() == series_of(b)[k].to_multiset());
        assert(contributes(pa, series_of(a)[k], x[k].0, x[k].1));
        assert(contributes(pb, series_of(b)[k], y[k].0, y[k].1));
        lemma_contributions_agree(pa, pb, series_of(a)[k], series_of(b)[k], x[k], y[k]);
    }
    assert(x =~= y);
}

/// There is one accumulator of given contributions.
pub proof fn lemma_folded_is_unique<V, A, N: Fn() -> A, F: Fn(A, &Vec<Sample<V>>) -> A>(
    new_acc: N,
    fold: F,
    contributions: Seq<Contribution<V>>,
    a: A,
    b: A,
)
    requires
        folds_are_functions(new_acc, fold),
        folded(new_acc, fold, contributions, a),
        folded(new_acc, fold, contributions, b),
    ensures
        a == b,
    decreases contributions.len(),
{
    if contributions.len() > 0 {
        let rest = contributions.drop_last();
        let (s, x) = choose|s: A, x: Vec<Sample<V>>|
            {
                &&& folded(new_acc, fold, rest, s)
                &&& x@ == contributions.last().samples
                &&& #[trigger] call_ensures(fold, (s, &x), a)
            };
        let (t, y) = choose|t: A, y: Vec<Sample<V>>|
            {
                &&& folded(new_acc, fold, rest, t)
                &&& y@ == contributions.last().samples
                &&& #[trigger] call_ensures(fold, (t, &y), b)
            };
        lemma_folded_is_unique(new_acc, fold, rest, s, t);
        assert(call_ensures(fold, (s, &x), a) && call_ensures(fold, (s, &y), b));
    }
}

/// The layout of a band's rows into chains and batches does not show in its
/// fold: not the order of the chains, not how a series is split over them, not
/// where batches end. Both folds have as many series and the same groups, with
/// the same labels, and with the same accumulators where folding is a function.
pub proof fn layout_does_not_show<
    V,
    A,
    H: Fn(&Vec<&[u8]>) -> u64,
    N: Fn() -> A,
    F: Fn(A, &Vec<Sample<V>>) -> A,
>(
    pa: FoldParams<H, N, F>,
    pb: FoldParams<H, N, F>,
    a: Seq<Seq<Row<V>>>,
    b: Seq<Seq<Row<V>>>,
    ga: Seq<(u64, Group<A>)>,
    gb: Seq<(u64, Group<A>)>,
)
    requires
        same_query(pa, pb),
        is_function(pa.hash),
        all_hash_ordered(a),
        all_hash_ordered(b),
        same_rows(a, b),
        times_are_unique(all_rows(a)),
        series_share_labels(all_rows(a)),
        all_shift(a, pa.offset as int),
        band_folded(pa, series_of(a), ga),
        band_folded(pb, series_of(b), gb),
    ensures
        series_of(a).len() == series_of(b).len(),
        sigs_of(ga) == sigs_of(gb),
        ga.len() == gb.len(),
        forall|i: int| 0 <= i < ga.len() ==> (#[trigger] ga[i]).1.labels == gb[i].1.labels,
        folds_are_functions(pa.new_acc, pa.fold) ==> ga == gb,
{
    let x = choose|x: Seq<(u64, Contribution<V>)>| #[trigger]
        all_contribute(pa, series_of(a), x) && groups_from(pa.new_acc, pa.fold, x, ga);
    let y = choose|y: Seq<(u64, Contribution<V>)>| #[trigger]
        all_contribute(pb, series_of(b), y) && groups_from(pb.new_acc, pb.fold, y, gb);
    series_do_not_depend_on_layout(a, b);
    contributions_do_not_depend_on_layout(pa, pb, a, b, x, y);
    assert(ga.len() == sigs_of(ga).len() && gb.len() == sigs_of(gb).len());
    assert forall|i: int| 0 <= i < ga.len() implies (#[trigger] ga[i]).0 == gb[i].0
        && ga[i].1.labels == gb[i].1.labels && (folds_are_functions(pa.new_acc, pa.fold)
        ==> ga[i].1.acc == gb[i].1.acc) by {
        assert(sigs_of(ga)[i] == ga[i].0);
        assert(sigs_of(gb)[i] == gb[i].0);
        let own = of_sig(x, ga[i].0);
        if folds_are_functions(pa.new_acc, pa.fold) {
            lemma_folded_is_unique(pa.new_acc, pa.fold, own, ga[i].1.acc, gb[i].1.acc);
        }
    }
    if folds_are_functions(pa.new_acc, pa.fold) {
        assert(ga =~= gb);
    }
}

} // verus!
