//! What holds of the result of a query, and of the results of two runs.
use vstd::prelude::*;

use crate::band_laws::{
    all_chains, all_chains_have_all_cells, all_chains_shift, bands_with_own_chains,
    each_has_all_cells, each_shifts, in_bands,
};
use crate::bands::{band_range, in_band};
use crate::batch::{Row, Sample};
use crate::columns::{
    are_group_columns, groups_by, unresolved_labels_group_like_none, ColumnNames, Schema,
};
use crate::fold::{
    all_contribute, all_shift, band_folded, contributes, has_all_cells, FoldParams,
};
use crate::group_key::{is_function, label_names, labels_are_in_column_order, labels_of};
use crate::groups::{
    folded, groups_merged, lemma_first_seen, merged, of_sig, sigs_of, Contribution, Group,
    GroupAccs,
};
use crate::layout_laws::{
    contributions_do_not_depend_on_layout, folds_are_functions, layout_does_not_show,
    lemma_all_rows_filter, lemma_filter_keeps_unique, lemma_filtered_is_among,
    lemma_folded_is_unique, lemma_row_stands_somewhere, lemma_same_filter,
    lemma_series_row_is_among, same_query, same_rows, same_work, series_share_labels,
    times_are_unique,
};
use crate::merge::{
    all_groups, drained, every_group_with_samples_gives_a_series, group_series,
    result_series_have_samples, Series,
};
use crate::merge_laws::{
    bands_give_the_same_groups, groups_have_distinct_labels, is_run, lemma_of_sig_is_among,
    merged_groups_keep_what_survives, merges_folds, same_groups, survives_merging,
};
use crate::series::series_of;
use crate::series_laws::{all_hash_ordered, all_rows};
use crate::text::{strictly_ascending, texts};

verus! {

/// Each series of a result comes of one of the groups.
proof fn lemma_series_is_of_group<V, A>(
    groups: Seq<(u64, Group<A>)>,
    outs: Seq<Vec<Sample<V>>>,
    i: int,
) -> (at: int)
    requires
        outs.len() == groups.len(),
        0 <= i < group_series(groups, outs).len(),
    ensures
        0 <= at < groups.len(),
        group_series(groups, outs)[i].labels == groups[at].1.labels,
    decreases groups.len(),
{
    let rest = group_series(groups.drop_last(), outs.drop_last());
    if i < rest.len() {
        lemma_series_is_of_group(groups.drop_last(), outs.drop_last(), i)
    } else {
        groups.len() - 1
    }
}

proof fn lemma_series_are_of_distinct_groups<V, A>(
    groups: Seq<(u64, Group<A>)>,
    outs: Seq<Vec<Sample<V>>>,
    i: int,
    j: int,
)
    requires
        outs.len() == groups.len(),
        forall|p: int, q: int|
            0 <= p < q < groups.len() ==> (#[trigger] groups[p]).1.labels != (
            #[trigger] groups[q]).1.labels,
        0 <= i < j < group_series(groups, outs).len(),
    ensures
        group_series(groups, outs)[i].labels != group_series(groups, outs)[j].labels,
    decreases groups.len(),
{
    let fewer = groups.drop_last();
    let rest = group_series(fewer, outs.drop_last());
    if j < rest.len() {
        assert forall|p: int, q: int| 0 <= p < q < fewer.len() implies (
        #[trigger] fewer[p]).1.labels != (#[trigger] fewer[q]).1.labels by {
            assert(fewer[p] == groups[p] && fewer[q] == groups[q]);
        }
        lemma_series_are_of_distinct_groups(fewer, outs.drop_last(), i, j);
    } else {
        let at = lemma_series_is_of_group(fewer, outs.drop_last(), i);
        assert(fewer[at] == groups[at]);
        assert(groups[at].1.labels != groups[groups.len() - 1].1.labels);
    }
}

/// No two series of a result carry the same labels, and none is without
/// samples, where the hasher is a function.
pub proof fn result_series_are_distinct<
    V,
    A,
    H: Fn(&Vec<&[u8]>) -> u64,
    N: Fn() -> A,
    F: Fn(A, &Vec<Sample<V>>) -> A,
    M: Fn(A, A) -> A,
>(
    params: FoldParams<H, N, F>,
    merge: M,
    bands: Seq<Seq<Seq<Row<V>>>>,
    folds: Seq<GroupAccs<A>>,
    groups: Seq<(u64, Group<A>)>,
    outs: Seq<Vec<Sample<V>>>,
)
    requires
        is_function(params.hash),
        is_run(params, merge, bands, folds, groups),
        outs.len() == groups.len(),
    ensures
        forall|i: int, j: int|
            0 <= i < j < group_series(groups, outs).len() ==> (#[trigger] group_series(
                groups,
                outs,
            )[i]).labels != (#[trigger] group_series(groups, outs)[j]).labels,
        forall|i: int|
            0 <= i < group_series(groups, outs).len() ==> (#[trigger] group_series(
                groups,
                outs,
            )[i]).samples.len() > 0,
{
    let contributions = bands_give_the_same_groups(params, merge, bands, folds, groups);
    let series = series_of(all_chains(bands));
    result_series_have_samples(groups, outs);
    assert forall|p: int, q: int| 0 <= p < q < groups.len() implies (#[trigger] groups[p]).1.labels
        != (#[trigger] groups[q]).1.labels by {
        if groups[p].1.labels == groups[q].1.labels {
            groups_have_distinct_labels(params, series, contributions, groups, p, q);
        }
    }
    assert forall|i: int, j: int| 0 <= i < j < group_series(groups, outs).len() implies (
    #[trigger] group_series(groups, outs)[i]).labels != (#[trigger] group_series(
        groups,
        outs,
    )[j]).labels by {
        lemma_series_are_of_distinct_groups(groups, outs, i, j);
    }
}

/// The labels of a group are those of the first row of some series.
proof fn lemma_group_has_labels_of_a_row<V, A, H: Fn(&Vec<&[u8]>) -> u64, N, F>(
    params: FoldParams<H, N, F>,
    chains: Seq<Seq<Row<V>>>,
    contributions: Seq<(u64, Contribution<V>)>,
    groups: Seq<(u64, Group<A>)>,
    i: int,
) -> (row: Row<V>)
    requires
        has_all_cells(chains, params.group_cols@.len()),
        all_contribute(params, series_of(chains), contributions),
        same_groups(contributions, groups),
        0 <= i < groups.len(),
    ensures
        row.cells.len() == params.group_cols@.len(),
        groups[i].1.labels == labels_of(row.cells, texts(params.group_cols@)),
{
    let at = lemma_of_sig_is_among(contributions, groups[i].0, 0);
    let series = series_of(chains);
    assert(contributes(params, series[at], contributions[at].0, contributions[at].1));
    let row = series[at][0];
    lemma_series_row_is_among(chains, at, 0);
    let (c, k) = lemma_row_stands_somewhere(chains, row);
    assert(chains[c][k].cells.len() == params.group_cols@.len());
    row
}

/// The label names of every series of a result are group columns, in ascending
/// order and without repetitions; none of them is the timestamp, hash or value
/// column.
pub proof fn result_labels_are_group_columns<
    V,
    A,
    H: Fn(&Vec<&[u8]>) -> u64,
    N: Fn() -> A,
    F: Fn(A, &Vec<Sample<V>>) -> A,
    M: Fn(A, A) -> A,
>(
    params: FoldParams<H, N, F>,
    asked: Seq<Seq<char>>,
    schema: Schema,
    func_name: Seq<char>,
    names: ColumnNames,
    merge: M,
    bands: Seq<Seq<Seq<Row<V>>>>,
    folds: Seq<GroupAccs<A>>,
    groups: Seq<(u64, Group<A>)>,
    outs: Seq<Vec<Sample<V>>>,
    i: int,
)
    requires
        are_group_columns(texts(params.group_cols@), asked, schema, func_name, names),
        is_run(params, merge, bands, folds, groups),
        each_has_all_cells(bands, params.group_cols@.len()),
        outs.len() == groups.len(),
        0 <= i < group_series(groups, outs).len(),
    ensures
        strictly_ascending(label_names(group_series(groups, outs)[i].labels)),
        forall|k: int|
            0 <= k < group_series(groups, outs)[i].labels.len() ==> {
                let name = (#[trigger] group_series(groups, outs)[i].labels[k]).0;
                &&& texts(params.group_cols@).contains(name)
                &&& name != names.timestamp@
                &&& name != names.hash@
                &&& name != names.value@
            },
{
    let cols = texts(params.group_cols@);
    let chains = all_chains(bands);
    let contributions = bands_give_the_same_groups(params, merge, bands, folds, groups);
    all_chains_have_all_cells(bands, params.group_cols@.len());
    let at = lemma_series_is_of_group(groups, outs, i);
    let row = lemma_group_has_labels_of_a_row(params, chains, contributions, groups, at);
    labels_are_in_column_order(row.cells, cols);
    let labels = labels_of(row.cells, cols);
    assert forall|k: int| 0 <= k < labels.len() implies {
        let name = (#[trigger] labels[k]).0;
        &&& cols.contains(name)
        &&& name != names.timestamp@
        &&& name != names.hash@
        &&& name != names.value@
    } by {
        let c = choose|c: int| 0 <= c < row.cells.len() && #[trigger] cols[c] == labels[k].0;
        assert(cols.contains(cols[c]));
    }
}

/// Without group columns all series fall into one group, which has no labels;
/// there is none where there are no series. A result then has one series
/// without labels, or none.
pub proof fn no_group_columns_give_one_group<
    V,
    A,
    H: Fn(&Vec<&[u8]>) -> u64,
    N: Fn() -> A,
    F: Fn(A, &Vec<Sample<V>>) -> A,
    M: Fn(A, A) -> A,
>(
    params: FoldParams<H, N, F>,
    merge: M,
    bands: Seq<Seq<Seq<Row<V>>>>,
    folds: Seq<GroupAccs<A>>,
    groups: Seq<(u64, Group<A>)>,
    outs: Seq<Vec<Sample<V>>>,
)
    requires
        params.group_cols@.len() == 0,
        is_function(params.hash),
        is_run(params, merge, bands, folds, groups),
        each_has_all_cells(bands, params.group_cols@.len()),
        outs.len() == groups.len(),
    ensures
        groups.len() == if series_of(all_chains(bands)).len() > 0 {
            1nat
        } else {
            0
        },
        forall|i: int| 0 <= i < groups.len() ==> (#[trigger] groups[i]).1.labels.len() == 0,
        group_series(groups, outs).len() <= 1,
        group_series(groups, outs).len() == if series_of(all_chains(bands)).len() > 0
            && outs[0]@.len() > 0 {
            1nat
        } else {
            0
        },
        series_of(all_chains(bands)).len() > 0 && outs[0]@.len() > 0 ==> group_series(
            groups,
            outs,
        )[0].samples == outs[0]@,
        forall|i: int|
            0 <= i < group_series(groups, outs).len() ==> (#[trigger] group_series(
                groups,
                outs,
            )[i]).labels.len() == 0,
{
    let chains = all_chains(bands);
    let contributions = bands_give_the_same_groups(params, merge, bands, folds, groups);
    all_chains_have_all_cells(bands, params.group_cols@.len());
    assert forall|i: int| 0 <= i < groups.len() implies (#[trigger] groups[i]).1.labels.len()
        == 0 by {
        let row = lemma_group_has_labels_of_a_row(params, chains, contributions, groups, i);
    }
    if groups.len() > 1 {
        assert(groups[0].1.labels =~= groups[1].1.labels);
        groups_have_distinct_labels(params, series_of(chains), contributions, groups, 0, 1);
    }
    lemma_first_seen(contributions);
    assert(groups.len() == sigs_of(groups).len());
    if contributions.len() > 0 {
        let sig = contributions[0].0;
        lemma_filed(contributions, 0);
        assert(sigs_of(groups).contains(sig));
    } else {
        if groups.len() > 0 {
            assert(of_sig(contributions, groups[0].0).len() > 0);
        }
    }
    result_series_have_samples(groups, outs);
    let which = every_group_with_samples_gives_a_series(groups, outs);
    if groups.len() > 0 && outs[0]@.len() > 0 {
        assert(which.contains(0));
    }
    if which.len() > 0 {
        assert(0 <= which[0] < groups.len());
    }
    assert forall|i: int| 0 <= i < group_series(groups, outs).len() implies (
    #[trigger] group_series(groups, outs)[i]).labels.len() == 0 by {
        let at = lemma_series_is_of_group(groups, outs, i);
        assert(groups[at].1.labels.len() == 0);
    }
}

/// An item is filed under its signature.
proof fn lemma_filed<T>(items: Seq<(u64, T)>, i: int)
    requires
        0 <= i < items.len(),
    ensures
        of_sig(items, items[i].0).len() > 0,
    decreases items.len(),
{
    if i < items.len() - 1 {
        lemma_filed(items.drop_last(), i);
    }
}

/// Two runs over the same rows: shared among bands in two ways, and in each band
/// laid out over chains in its own way. No series has two samples of one time,
/// the rows of a series share their labels, and no time overflows.
pub open spec fn are_runs_over_the_same_rows<
    V,
    A,
    H: Fn(&Vec<&[u8]>) -> u64,
    N: Fn() -> A,
    F: Fn(A, &Vec<Sample<V>>) -> A,
    M: Fn(A, A) -> A,
>(
    pa: FoldParams<H, N, F>,
    pb: FoldParams<H, N, F>,
    merge: M,
    a: Seq<Seq<Seq<Row<V>>>>,
    fa: Seq<GroupAccs<A>>,
    ga: Seq<(u64, Group<A>)>,
    b: Seq<Seq<Seq<Row<V>>>>,
    fb: Seq<GroupAccs<A>>,
    gb: Seq<(u64, Group<A>)>,
) -> bool {
    &&& is_function(pa.hash)
    &&& is_run(pa, merge, a, fa, ga)
    &&& is_run(pb, merge, b, fb, gb)
    &&& same_rows(all_chains(a), all_chains(b))
    &&& times_are_unique(all_rows(all_chains(a)))
    &&& series_share_labels(all_rows(all_chains(a)))
    &&& each_shifts(a, pa.offset as int)
}

/// Two runs of one query over the same rows.
pub open spec fn are_runs_of_one_query<
    V,
    A,
    H: Fn(&Vec<&[u8]>) -> u64,
    N: Fn() -> A,
    F: Fn(A, &Vec<Sample<V>>) -> A,
    M: Fn(A, A) -> A,
>(
    pa: FoldParams<H, N, F>,
    pb: FoldParams<H, N, F>,
    merge: M,
    a: Seq<Seq<Seq<Row<V>>>>,
    fa: Seq<GroupAccs<A>>,
    ga: Seq<(u64, Group<A>)>,
    b: Seq<Seq<Seq<Row<V>>>>,
    fb: Seq<GroupAccs<A>>,
    gb: Seq<(u64, Group<A>)>,
) -> bool {
    &&& same_query(pa, pb)
    &&& are_runs_over_the_same_rows(pa, pb, merge, a, fa, ga, b, fb, gb)
}

/// Two runs of one query over the same rows have the same groups with the same
/// labels, in the same order, however many bands each has and however the rows
/// are laid out. What survives merging holds in both runs of the accumulators
/// of a group and the same contributions.
pub proof fn runs_have_the_same_groups<
    V,
    A,
    H: Fn(&Vec<&[u8]>) -> u64,
    N: Fn() -> A,
    F: Fn(A, &Vec<Sample<V>>) -> A,
    M: Fn(A, A) -> A,
>(
    pa: FoldParams<H, N, F>,
    pb: FoldParams<H, N, F>,
    merge: M,
    holds: spec_fn(Seq<Contribution<V>>, A) -> bool,
    a: Seq<Seq<Seq<Row<V>>>>,
    fa: Seq<GroupAccs<A>>,
    ga: Seq<(u64, Group<A>)>,
    b: Seq<Seq<Seq<Row<V>>>>,
    fb: Seq<GroupAccs<A>>,
    gb: Seq<(u64, Group<A>)>,
) -> (contributions: Seq<(u64, Contribution<V>)>)
    requires
        are_runs_of_one_query(pa, pb, merge, a, fa, ga, b, fb, gb),
        survives_merging(pa.new_acc, pa.fold, merge, holds),
    ensures
        all_contribute(pa, series_of(all_chains(a)), contributions),
        sigs_of(ga) == sigs_of(gb),
        ga.len() == gb.len(),
        forall|i: int| 0 <= i < ga.len() ==> (#[trigger] ga[i]).1.labels == gb[i].1.labels,
        forall|i: int|
            0 <= i < ga.len() ==> {
                &&& holds(of_sig(contributions, (#[trigger] ga[i]).0), ga[i].1.acc)
                &&& holds(of_sig(contributions, ga[i].0), gb[i].1.acc)
            },
{
    let x = merged_groups_keep_what_survives(pa, merge, holds, a, fa, ga);
    let y = merged_groups_keep_what_survives(pb, merge, holds, b, fb, gb);
    bands_with_own_chains(a);
    bands_with_own_chains(b);
    all_chains_shift(a, pa.offset as int);
    contributions_do_not_depend_on_layout(pa, pb, all_chains(a), all_chains(b), x, y);
    assert(ga.len() == sigs_of(ga).len() && gb.len() == sigs_of(gb).len());
    assert forall|i: int| 0 <= i < ga.len() implies (#[trigger] ga[i]).0 == gb[i].0 by {
        assert(sigs_of(ga)[i] == sigs_of(gb)[i]);
    }
    x
}

/// Accumulators of which `holds` is true for the same contributions give samples
/// that are `alike`, and samples are not alike where only one list is empty.
pub open spec fn draws_alike<V, A, S: Fn(A) -> Vec<Sample<V>>>(
    into_samples: S,
    holds: spec_fn(Seq<Contribution<V>>, A) -> bool,
    alike: spec_fn(Seq<Sample<V>>, Seq<Sample<V>>) -> bool,
) -> bool {
    &&& forall|xs: Seq<Contribution<V>>, x: A, y: A, s: Vec<Sample<V>>, t: Vec<Sample<V>>|
        {
            &&& #[trigger] holds(xs, x)
            &&& #[trigger] holds(xs, y)
            &&& #[trigger] call_ensures(into_samples, (x,), s)
            &&& #[trigger] call_ensures(into_samples, (y,), t)
        } ==> alike(s@, t@)
    &&& forall|s: Seq<Sample<V>>, t: Seq<Sample<V>>| #[trigger]
        alike(s, t) ==> (s.len() == 0 <==> t.len() == 0)
}

/// The series have the same labels, one by one, and samples that are `alike`.
pub open spec fn alike_series<V>(
    a: Seq<Series<V>>,
    b: Seq<Series<V>>,
    alike: spec_fn(Seq<Sample<V>>, Seq<Sample<V>>) -> bool,
) -> bool {
    &&& a.len() == b.len()
    &&& forall|i: int|
        0 <= i < a.len() ==> (#[trigger] a[i]).labels == b[i].labels && alike(
            a[i].samples,
            b[i].samples,
        )
}

proof fn lemma_alike_series<V, A>(
    ga: Seq<(u64, Group<A>)>,
    oa: Seq<Vec<Sample<V>>>,
    gb: Seq<(u64, Group<A>)>,
    ob: Seq<Vec<Sample<V>>>,
    alike: spec_fn(Seq<Sample<V>>, Seq<Sample<V>>) -> bool,
)
    requires
        ga.len() == gb.len(),
        oa.len() == ga.len(),
        ob.len() == gb.len(),
        forall|i: int|
            0 <= i < ga.len() ==> (#[trigger] ga[i]).1.labels == gb[i].1.labels && alike(
                oa[i]@,
                ob[i]@,
            ),
        forall|s: Seq<Sample<V>>, t: Seq<Sample<V>>| #[trigger]
            alike(s, t) ==> (s.len() == 0 <==> t.len() == 0),
    ensures
        alike_series(group_series(ga, oa), group_series(gb, ob), alike),
    decreases ga.len(),
{
    if ga.len() > 0 {
        let n = ga.len() - 1;
        let fewer = ga.drop_last();
        assert forall|i: int| 0 <= i < fewer.len() implies (#[trigger] fewer[i]).1.labels
            == gb.drop_last()[i].1.labels && alike(oa.drop_last()[i]@, ob.drop_last()[i]@) by {
            assert(fewer[i] == ga[i]);
        }
        lemma_alike_series(fewer, oa.drop_last(), gb.drop_last(), ob.drop_last(), alike);
        assert(ga[n].1.labels == gb[n].1.labels && alike(oa[n]@, ob[n]@));
        let x = group_series(fewer, oa.drop_last());
        let s = group_series(ga, oa);
        let t = group_series(gb, ob);
        assert forall|i: int| 0 <= i < s.len() implies (#[trigger] s[i]).labels == t[i].labels
            && alike(s[i].samples, t[i].samples) by {
            if i < x.len() {
                assert(s[i] == x[i]);
                assert(t[i] == group_series(gb.drop_last(), ob.drop_last())[i]);
            }
        }
    }
}

/// The results of two runs of one query over the same rows have the same labels
/// in the same order, and samples that are alike, in whatever sense accumulators
/// of the same contributions give samples that are alike however these were
/// split and merged.
pub proof fn runs_have_alike_results<
    V,
    A,
    H: Fn(&Vec<&[u8]>) -> u64,
    N: Fn() -> A,
    F: Fn(A, &Vec<Sample<V>>) -> A,
    M: Fn(A, A) -> A,
    S: Fn(A) -> Vec<Sample<V>>,
>(
    pa: FoldParams<H, N, F>,
    pb: FoldParams<H, N, F>,
    merge: M,
    into_samples: S,
    holds: spec_fn(Seq<Contribution<V>>, A) -> bool,
    alike: spec_fn(Seq<Sample<V>>, Seq<Sample<V>>) -> bool,
    a: Seq<Seq<Seq<Row<V>>>>,
    fa: Seq<GroupAccs<A>>,
    ga: Seq<(u64, Group<A>)>,
    oa: Seq<Vec<Sample<V>>>,
    b: Seq<Seq<Seq<Row<V>>>>,
    fb: Seq<GroupAccs<A>>,
    gb: Seq<(u64, Group<A>)>,
    ob: Seq<Vec<Sample<V>>>,
)
    requires
        are_runs_of_one_query(pa, pb, merge, a, fa, ga, b, fb, gb),
        survives_merging(pa.new_acc, pa.fold, merge, holds),
        draws_alike(into_samples, holds, alike),
        drained(into_samples, ga, oa),
        drained(into_samples, gb, ob),
    ensures
        alike_series(group_series(ga, oa), group_series(gb, ob), alike),
{
    let xs = runs_have_the_same_groups(pa, pb, merge, holds, a, fa, ga, b, fb, gb);
    assert forall|i: int| 0 <= i < ga.len() implies (#[trigger] ga[i]).1.labels == gb[i].1.labels
        && alike(oa[i]@, ob[i]@) by {
        let own = of_sig(xs, ga[i].0);
        assert(holds(own, ga[i].1.acc) && holds(own, gb[i].1.acc));
        assert(call_ensures(into_samples, (ga[i].1.acc,), oa[i]));
        assert(call_ensures(into_samples, (gb[i].1.acc,), ob[i]));
    }
    lemma_alike_series(ga, oa, gb, ob, alike);
}

/// The times of samples.
pub open spec fn sample_times<V>(samples: Seq<Sample<V>>) -> Seq<i64> {
    samples.map_values(|s: Sample<V>| s.timestamp)
}

/// The results of two runs of one query over the same rows have the same labels,
/// and for each the same sample times, where the times that an accumulator gives
/// depend on what was folded into it, and not on how that was split and merged.
/// This leaves room for values that differ by rounding.
pub proof fn runs_have_the_same_times<
    V,
    A,
    H: Fn(&Vec<&[u8]>) -> u64,
    N: Fn() -> A,
    F: Fn(A, &Vec<Sample<V>>) -> A,
    M: Fn(A, A) -> A,
    S: Fn(A) -> Vec<Sample<V>>,
>(
    pa: FoldParams<H, N, F>,
    pb: FoldParams<H, N, F>,
    merge: M,
    into_samples: S,
    times: spec_fn(Seq<Contribution<V>>) -> Seq<i64>,
    a: Seq<Seq<Seq<Row<V>>>>,
    fa: Seq<GroupAccs<A>>,
    ga: Seq<(u64, Group<A>)>,
    oa: Seq<Vec<Sample<V>>>,
    b: Seq<Seq<Seq<Row<V>>>>,
    fb: Seq<GroupAccs<A>>,
    gb: Seq<(u64, Group<A>)>,
    ob: Seq<Vec<Sample<V>>>,
)
    requires
        are_runs_of_one_query(pa, pb, merge, a, fa, ga, b, fb, gb),
        survives_merging(
            pa.new_acc,
            pa.fold,
            merge,
            |xs: Seq<Contribution<V>>, acc: A| gives_times(into_samples, acc, times(xs)),
        ),
        drained(into_samples, ga, oa),
        drained(into_samples, gb, ob),
    ensures
        alike_series(
            group_series(ga, oa),
            group_series(gb, ob),
            |s: Seq<Sample<V>>, t: Seq<Sample<V>>| sample_times(s) == sample_times(t),
        ),
{
    let holds = |xs: Seq<Contribution<V>>, acc: A| gives_times(into_samples, acc, times(xs));
    let alike = |s: Seq<Sample<V>>, t: Seq<Sample<V>>| sample_times(s) == sample_times(t);
    assert forall|s: Seq<Sample<V>>, t: Seq<Sample<V>>| #[trigger] alike(s, t) implies (s.len() == 0
        <==> t.len() == 0) by {
        assert(sample_times(s).len() == s.len());
        assert(sample_times(t).len() == t.len());
    }
    runs_have_alike_results(
        pa,
        pb,
        merge,
        into_samples,
        holds,
        alike,
        a,
        fa,
        ga,
        oa,
        b,
        fb,
        gb,
        ob,
    );
}

/// Whatever samples the accumulator gives have these times.
pub open spec fn gives_times<V, A, S: Fn(A) -> Vec<Sample<V>>>(
    into_samples: S,
    acc: A,
    times: Seq<i64>,
) -> bool {
    forall|s: Vec<Sample<V>>| #[trigger]
        call_ensures(into_samples, (acc,), s) ==> sample_times(s@) == times
}

/// There is one list of samples that an accumulator gives.
pub open spec fn draws_are_functions<V, A, S: Fn(A) -> Vec<Sample<V>>>(into_samples: S) -> bool {
    forall|acc: A, s: Vec<Sample<V>>, t: Vec<Sample<V>>| #[trigger]
        call_ensures(into_samples, (acc,), s) && #[trigger] call_ensures(into_samples, (acc,), t)
            ==> s@ == t@
}

/// Where folding and draining are functions and merging two accumulators comes
/// to the same as folding on in one, two runs of one query over the same rows
/// have the same result.
pub proof fn runs_have_the_same_result<
    V,
    A,
    H: Fn(&Vec<&[u8]>) -> u64,
    N: Fn() -> A,
    F: Fn(A, &Vec<Sample<V>>) -> A,
    M: Fn(A, A) -> A,
    S: Fn(A) -> Vec<Sample<V>>,
>(
    pa: FoldParams<H, N, F>,
    pb: FoldParams<H, N, F>,
    merge: M,
    into_samples: S,
    a: Seq<Seq<Seq<Row<V>>>>,
    fa: Seq<GroupAccs<A>>,
    ga: Seq<(u64, Group<A>)>,
    oa: Seq<Vec<Sample<V>>>,
    b: Seq<Seq<Seq<Row<V>>>>,
    fb: Seq<GroupAccs<A>>,
    gb: Seq<(u64, Group<A>)>,
    ob: Seq<Vec<Sample<V>>>,
)
    requires
        are_runs_of_one_query(pa, pb, merge, a, fa, ga, b, fb, gb),
        merges_folds(pa.new_acc, pa.fold, merge),
        folds_are_functions(pa.new_acc, pa.fold),
        draws_are_functions(into_samples),
        drained(into_samples, ga, oa),
        drained(into_samples, gb, ob),
    ensures
        ga == gb,
        group_series(ga, oa) == group_series(gb, ob),
{
    let holds = |xs: Seq<Contribution<V>>, acc: A| folded(pa.new_acc, pa.fold, xs, acc);
    let alike = |s: Seq<Sample<V>>, t: Seq<Sample<V>>| s == t;
    let xs = runs_have_the_same_groups(pa, pb, merge, holds, a, fa, ga, b, fb, gb);
    assert forall|i: int| 0 <= i < ga.len() implies #[trigger] ga[i] == gb[i] by {
        assert(sigs_of(ga)[i] == sigs_of(gb)[i]);
        assert(ga[i].1.labels == gb[i].1.labels);
        let own = of_sig(xs, ga[i].0);
        assert(holds(own, ga[i].1.acc) && holds(own, gb[i].1.acc));
        lemma_folded_is_unique(pa.new_acc, pa.fold, own, ga[i].1.acc, gb[i].1.acc);
    }
    assert(ga =~= gb);
    assert forall|
        own: Seq<Contribution<V>>,
        x: A,
        y: A,
        s: Vec<Sample<V>>,
        t: Vec<Sample<V>>,
    |
        {
            &&& #[trigger] holds(own, x)
            &&& #[trigger] holds(own, y)
            &&& #[trigger] call_ensures(into_samples, (x,), s)
            &&& #[trigger] call_ensures(into_samples, (y,), t)
        } implies alike(s@, t@) by {
        lemma_folded_is_unique(pa.new_acc, pa.fold, own, x, y);
    }
    runs_have_alike_results(
        pa,
        pb,
        merge,
        into_samples,
        holds,
        alike,
        a,
        fa,
        ga,
        oa,
        b,
        fb,
        gb,
        ob,
    );
    assert(group_series(ga, oa) =~= group_series(gb, ob));
}

/// There is one result of merging two given accumulators.
pub open spec fn merge_is_function<A, M: Fn(A, A) -> A>(merge: M) -> bool {
    forall|a: A, b: A, x: A, y: A| #[trigger]
        call_ensures(merge, (a, b), x) && #[trigger] call_ensures(merge, (a, b), y) ==> x == y
}

proof fn lemma_merged_is_unique<A, M: Fn(A, A) -> A>(merge: M, groups: Seq<Group<A>>, x: A, y: A)
    requires
        merge_is_function(merge),
        merged(merge, groups, x),
        merged(merge, groups, y),
    ensures
        x == y,
    decreases groups.len(),
{
    if groups.len() > 1 {
        let rest = groups.drop_last();
        let s = choose|s: A|
            merged(merge, rest, s) && #[trigger] call_ensures(merge, (s, groups.last().acc), x);
        let t = choose|t: A|
            merged(merge, rest, t) && #[trigger] call_ensures(merge, (t, groups.last().acc), y);
        lemma_merged_is_unique(merge, rest, s, t);
        assert(call_ensures(merge, (s, groups.last().acc), x) && call_ensures(
            merge,
            (s, groups.last().acc),
            y,
        ));
    }
}

proof fn lemma_merge_is_unique<A, M: Fn(A, A) -> A>(
    merge: M,
    parts: Seq<(u64, Group<A>)>,
    ga: Seq<(u64, Group<A>)>,
    gb: Seq<(u64, Group<A>)>,
)
    requires
        merge_is_function(merge),
        groups_merged(merge, parts, ga),
        groups_merged(merge, parts, gb),
    ensures
        ga == gb,
{
    assert(ga.len() == sigs_of(ga).len() && gb.len() == sigs_of(gb).len());
    assert forall|i: int| 0 <= i < ga.len() implies #[trigger] ga[i] == gb[i] by {
        assert(sigs_of(ga)[i] == ga[i].0);
        assert(sigs_of(gb)[i] == gb[i].0);
        lemma_merged_is_unique(merge, of_sig(parts, ga[i].0), ga[i].1.acc, gb[i].1.acc);
    }
    assert(ga =~= gb);
}

proof fn lemma_same_tables<A>(a: Seq<GroupAccs<A>>, b: Seq<GroupAccs<A>>)
    requires
        a.len() == b.len(),
        forall|k: int| 0 <= k < a.len() ==> (#[trigger] a[k])@ == b[k]@,
    ensures
        all_groups(a) == all_groups(b),
    decreases a.len(),
{
    if a.len() > 0 {
        let x = a.drop_last();
        assert forall|k: int| 0 <= k < x.len() implies (#[trigger] x[k])@ == b.drop_last()[k]@ by {
            assert(x[k] == a[k]);
        }
        lemma_same_tables(x, b.drop_last());
        assert(a[a.len() - 1]@ == b[b.len() - 1]@);
    }
}

proof fn lemma_same_draws<V, A>(
    groups: Seq<(u64, Group<A>)>,
    a: Seq<Vec<Sample<V>>>,
    b: Seq<Vec<Sample<V>>>,
)
    requires
        a.len() == groups.len(),
        b.len() == groups.len(),
        forall|i: int| 0 <= i < groups.len() ==> (#[trigger] a[i])@ == b[i]@,
    ensures
        group_series(groups, a) == group_series(groups, b),
    decreases groups.len(),
{
    if groups.len() > 0 {
        let x = a.drop_last();
        assert forall|i: int| 0 <= i < x.len() implies (#[trigger] x[i])@ == b.drop_last()[i]@ by {
            assert(x[i] == a[i]);
        }
        lemma_same_draws(groups.drop_last(), x, b.drop_last());
        assert(a[a.len() - 1]@ == b[b.len() - 1]@);
    }
}

/// A band of two runs with as many bands has the same rows in both, and they
/// are as unambiguous as all rows are.
proof fn lemma_band_has_the_same_rows<V>(
    a: Seq<Seq<Seq<Row<V>>>>,
    b: Seq<Seq<Seq<Row<V>>>>,
    k: int,
)
    requires
        in_bands(a),
        in_bands(b),
        1 <= a.len() <= u64::MAX,
        a.len() == b.len(),
        same_rows(all_chains(a), all_chains(b)),
        times_are_unique(all_rows(all_chains(a))),
        series_share_labels(all_rows(all_chains(a))),
        0 <= k < a.len(),
    ensures
        same_rows(a[k], b[k]),
        times_are_unique(all_rows(a[k])),
        series_share_labels(all_rows(a[k])),
{
    let band = band_range(k, a.len() as int);
    let keep = |row: Row<V>| in_band(row.hash, band);
    let all = all_rows(all_chains(a));
    bands_with_own_chains(a);
    bands_with_own_chains(b);
    lemma_all_rows_filter(all_chains(a), keep);
    lemma_all_rows_filter(all_chains(b), keep);
    lemma_same_filter(all, all_rows(all_chains(b)), keep);
    assert(all_rows(a[k]) == all.filter(keep));
    assert(all_rows(b[k]) == all_rows(all_chains(b)).filter(keep));
    lemma_filter_keeps_unique(all, keep);
    let own = all_rows(a[k]);
    assert forall|i: int, j: int|
        0 <= i < own.len() && 0 <= j < own.len() && (#[trigger] own[i]).hash == (
        #[trigger] own[j]).hash implies own[i].cells == own[j].cells by {
        lemma_filtered_is_among(all, keep, i);
        lemma_filtered_is_among(all, keep, j);
        let p = choose|p: int| 0 <= p < all.len() && all[p] == own[i];
        let q = choose|q: int| 0 <= q < all.len() && all[q] == own[j];
        assert(all[p].cells == all[q].cells);
    }
}

/// Two runs of one query over the same rows, with as many bands, have the same
/// result where folding, merging and draining are functions: nothing else shows
/// of how the rows of a band are laid out over chains and batches.
pub proof fn runs_with_as_many_bands_have_the_same_result<
    V,
    A,
    H: Fn(&Vec<&[u8]>) -> u64,
    N: Fn() -> A,
    F: Fn(A, &Vec<Sample<V>>) -> A,
    M: Fn(A, A) -> A,
    S: Fn(A) -> Vec<Sample<V>>,
>(
    pa: FoldParams<H, N, F>,
    pb: FoldParams<H, N, F>,
    merge: M,
    into_samples: S,
    a: Seq<Seq<Seq<Row<V>>>>,
    fa: Seq<GroupAccs<A>>,
    ga: Seq<(u64, Group<A>)>,
    oa: Seq<Vec<Sample<V>>>,
    b: Seq<Seq<Seq<Row<V>>>>,
    fb: Seq<GroupAccs<A>>,
    gb: Seq<(u64, Group<A>)>,
    ob: Seq<Vec<Sample<V>>>,
)
    requires
        are_runs_of_one_query(pa, pb, merge, a, fa, ga, b, fb, gb),
        fa.len() == fb.len(),
        folds_are_functions(pa.new_acc, pa.fold),
        merge_is_function(merge),
        draws_are_functions(into_samples),
        drained(into_samples, ga, oa),
        drained(into_samples, gb, ob),
    ensures
        ga == gb,
        group_series(ga, oa) == group_series(gb, ob),
{
    assert forall|k: int| 0 <= k < fa.len() implies (#[trigger] fa[k])@ == fb[k]@ by {
        lemma_band_has_the_same_rows(a, b, k);
        assert(band_folded(pa, series_of(a[k]), fa[k]@));
        assert(band_folded(pb, series_of(b[k]), fb[k]@));
        assert(all_hash_ordered(a[k]) && all_hash_ordered(b[k]));
        assert(all_shift(a[k], pa.offset as int));
        layout_does_not_show(pa, pb, a[k], b[k], fa[k]@, fb[k]@);
    }
    lemma_same_tables(fa, fb);
    lemma_merge_is_unique(merge, all_groups(fa), ga, gb);
    assert forall|i: int| 0 <= i < ga.len() implies (#[trigger] oa[i])@ == ob[i]@ by {
        assert(call_ensures(into_samples, (ga[i].1.acc,), oa[i]));
        assert(call_ensures(into_samples, (gb[i].1.acc,), ob[i]));
    }
    lemma_same_draws(ga, oa, ob);
}

/// Labels that no column is read for group like no labels at all: a run that
/// groups by such labels has the result of a run without grouping, which is one
/// series without labels, or none.
pub proof fn absent_columns_group_like_none<
    V,
    A,
    H: Fn(&Vec<&[u8]>) -> u64,
    N: Fn() -> A,
    F: Fn(A, &Vec<Sample<V>>) -> A,
    M: Fn(A, A) -> A,
    S: Fn(A) -> Vec<Sample<V>>,
>(
    pa: FoldParams<H, N, F>,
    pb: FoldParams<H, N, F>,
    asked: Seq<Seq<char>>,
    schema: Schema,
    func_name: Seq<char>,
    names: ColumnNames,
    merge: M,
    into_samples: S,
    a: Seq<Seq<Seq<Row<V>>>>,
    fa: Seq<GroupAccs<A>>,
    ga: Seq<(u64, Group<A>)>,
    oa: Seq<Vec<Sample<V>>>,
    b: Seq<Seq<Seq<Row<V>>>>,
    fb: Seq<GroupAccs<A>>,
    gb: Seq<(u64, Group<A>)>,
    ob: Seq<Vec<Sample<V>>>,
)
    requires
        pa.group_cols@.len() == 0,
        are_group_columns(texts(pb.group_cols@), asked, schema, func_name, names),
        forall|t: Seq<char>| #[trigger]
            asked.contains(t) ==> !groups_by(t, schema, func_name, names),
        same_work(pa, pb),
        are_runs_over_the_same_rows(pa, pb, merge, a, fa, ga, b, fb, gb),
        each_has_all_cells(a, pa.group_cols@.len()),
        fa.len() == fb.len(),
        folds_are_functions(pa.new_acc, pa.fold),
        merge_is_function(merge),
        draws_are_functions(into_samples),
        drained(into_samples, ga, oa),
        drained(into_samples, gb, ob),
    ensures
        group_series(ga, oa) == group_series(gb, ob),
        group_series(ga, oa).len() <= 1,
        forall|i: int|
            0 <= i < group_series(ga, oa).len() ==> (#[trigger] group_series(
                ga,
                oa,
            )[i]).labels.len() == 0,
{
    unresolved_labels_group_like_none(asked, texts(pb.group_cols@), schema, func_name, names);
    assert(texts(pa.group_cols@) =~= texts(pb.group_cols@));
    runs_with_as_many_bands_have_the_same_result(
        pa,
        pb,
        merge,
        into_samples,
        a,
        fa,
        ga,
        oa,
        b,
        fb,
        gb,
        ob,
    );
    no_group_columns_give_one_group(pa, merge, a, fa, ga, oa);
}

} // verus!
