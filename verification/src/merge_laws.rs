//! What holds of a result that was put together from the groups of all bands.
use vstd::prelude::*;

use crate::band_laws::{all_chains, bands_with_own_chains, in_bands, joined_series};
use crate::batch::{Row, Sample};
use crate::fold::{all_contribute, band_folded, contributes, FoldParams};
use crate::group_key::{equal_labels_have_one_signature, is_function};
use crate::groups::{
    first_seen, folded, groups_from, groups_merged, lemma_alone, lemma_first_seen, merged, of_sig,
    sigs_of, Contribution, Group, GroupAccs,
};
use crate::merge::all_groups;
use crate::series::series_of;

verus! {

/// Merging the accumulators of two runs of contributions gives what folding all
/// of them into one accumulator gives.
pub open spec fn merges_folds<V, A, N: Fn() -> A, F: Fn(A, &Vec<Sample<V>>) -> A, M: Fn(A, A) -> A>(
    new_acc: N,
    fold: F,
    merge: M,
) -> bool {
    forall|
        xs: Seq<Contribution<V>>,
        ys: Seq<Contribution<V>>,
        a: A,
        b: A,
        acc: A,
    |
        {
            &&& xs.len() > 0
            &&& ys.len() > 0
            &&& #[trigger] folded(new_acc, fold, xs, a)
            &&& #[trigger] folded(new_acc, fold, ys, b)
            &&& #[trigger] call_ensures(merge, (a, b), acc)
        } ==> folded(new_acc, fold, xs + ys, acc)
}

/// `holds` is true of contributions and the accumulator that they were folded
/// into, and stays true when accumulators are merged.
pub open spec fn survives_merging<
    V,
    A,
    N: Fn() -> A,
    F: Fn(A, &Vec<Sample<V>>) -> A,
    M: Fn(A, A) -> A,
>(new_acc: N, fold: F, merge: M, holds: spec_fn(Seq<Contribution<V>>, A) -> bool) -> bool {
    &&& forall|xs: Seq<Contribution<V>>, acc: A|
        xs.len() > 0 && #[trigger] folded(new_acc, fold, xs, acc) ==> holds(xs, acc)
    &&& forall|
        xs: Seq<Contribution<V>>,
        ys: Seq<Contribution<V>>,
        a: A,
        b: A,
        acc: A,
    |
        {
            &&& xs.len() > 0
            &&& ys.len() > 0
            &&& #[trigger] holds(xs, a)
            &&& #[trigger] holds(ys, b)
            &&& #[trigger] call_ensures(merge, (a, b), acc)
        } ==> holds(xs + ys, acc)
}

/// A run of a query: each band folded the series of its own hash-ordered chains,
/// and the groups of all bands were merged.
pub open spec fn is_run<
    V,
    A,
    H: Fn(&Vec<&[u8]>) -> u64,
    N: Fn() -> A,
    F: Fn(A, &Vec<Sample<V>>) -> A,
    M: Fn(A, A) -> A,
>(
    params: FoldParams<H, N, F>,
    merge: M,
    bands: Seq<Seq<Seq<Row<V>>>>,
    folds: Seq<GroupAccs<A>>,
    groups: Seq<(u64, Group<A>)>,
) -> bool {
    &&& in_bands(bands)
    &&& 1 <= bands.len() <= u64::MAX
    &&& folds.len() == bands.len()
    &&& forall|k: int|
        0 <= k < folds.len() ==> band_folded(params, series_of(bands[k]), (#[trigger] folds[k])@)
    &&& groups_merged(merge, all_groups(folds), groups)
}

/// The table has one group for each signature that was contributed to, in the
/// order of first contributions, with the labels of the first contribution.
pub open spec fn same_groups<V, A>(
    contributions: Seq<(u64, Contribution<V>)>,
    groups: Seq<(u64, Group<A>)>,
) -> bool {
    &&& sigs_of(groups) == first_seen(contributions)
    &&& forall|i: int|
        0 <= i < groups.len() ==> {
            let (sig, group) = #[trigger] groups[i];
            &&& of_sig(contributions, sig).len() > 0
            &&& group.labels == of_sig(contributions, sig)[0].labels
        }
}

proof fn lemma_of_sig_add<T>(a: Seq<(u64, T)>, b: Seq<(u64, T)>, sig: u64)
    ensures
        of_sig(a + b, sig) == of_sig(a, sig) + of_sig(b, sig),
    decreases b.len(),
{
    if b.len() == 0 {
        assert(a + b =~= a);
        assert(of_sig(a, sig) + of_sig(b, sig) =~= of_sig(a, sig));
    } else {
        assert((a + b).drop_last() =~= a + b.drop_last());
        lemma_of_sig_add(a, b.drop_last(), sig);
        assert(of_sig(a + b, sig) =~= of_sig(a, sig) + of_sig(b, sig));
    }
}

/// The signatures seen, and those of `more` that are new.
spec fn with_new(seen: Seq<u64>, more: Seq<u64>) -> Seq<u64>
    decreases more.len(),
{
    if more.len() == 0 {
        seen
    } else {
        let rest = with_new(seen, more.drop_last());
        if rest.contains(more.last()) {
            rest
        } else {
            rest.push(more.last())
        }
    }
}

proof fn lemma_with_new<T>(a: Seq<(u64, T)>, b: Seq<(u64, T)>)
    ensures
        first_seen(a + b) == with_new(first_seen(a), first_seen(b)),
    decreases b.len(),
{
    if b.len() == 0 {
        assert(a + b =~= a);
    } else {
        let rest = b.drop_last();
        let sig = b.last().0;
        assert((a + b).drop_last() =~= a + rest);
        lemma_with_new(a, rest);
        if first_seen(rest).contains(sig) {
            lemma_first_seen(rest);
            lemma_first_seen(a + rest);
            lemma_of_sig_add(a, rest, sig);
            assert(first_seen(a + rest).contains(sig));
        } else {
            assert(first_seen(rest).push(sig).drop_last() =~= first_seen(rest));
        }
    }
}

/// A table without repeated signatures holds one group at most for each.
proof fn lemma_one_group<A>(groups: Seq<(u64, Group<A>)>, sig: u64)
    requires
        sigs_of(groups).no_duplicates(),
    ensures
        !sigs_of(groups).contains(sig) ==> of_sig(groups, sig).len() == 0,
        forall|i: int|
            0 <= i < groups.len() && (#[trigger] groups[i]).0 == sig ==> of_sig(groups, sig)
                == seq![groups[i].1],
    decreases groups.len(),
{
    if groups.len() > 0 {
        let rest = groups.drop_last();
        let n = groups.len() - 1;
        assert(sigs_of(rest) =~= sigs_of(groups).drop_last());
        lemma_one_group(rest, sig);
        assert(sigs_of(groups)[n] == groups.last().0);
        if sigs_of(rest).contains(sig) {
            let k = choose|k: int| 0 <= k < sigs_of(rest).len() && sigs_of(rest)[k] == sig;
            assert(sigs_of(groups)[k] == sig);
            assert(rest[k] == groups[k]);
        }
        assert forall|i: int| 0 <= i < groups.len() && (#[trigger] groups[i]).0 == sig implies of_sig(
            groups,
            sig,
        ) == seq![groups[i].1] by {
            assert(sigs_of(groups)[i] == sig);
            if i < n {
                assert(rest[i] == groups[i]);
            } else if sigs_of(rest).contains(sig) {
                let k = choose|k: int| 0 <= k < sigs_of(rest).len() && sigs_of(rest)[k] == sig;
                assert(sigs_of(groups)[k] == sigs_of(groups)[n]);
            }
        }
    }
}

/// What the parts hold of a signature stands for what the contributions hold.
spec fn stands_for<V, A, M: Fn(A, A) -> A>(
    merge: M,
    holds: spec_fn(Seq<Contribution<V>>, A) -> bool,
    contributions: Seq<Contribution<V>>,
    parts: Seq<Group<A>>,
) -> bool {
    &&& parts.len() > 0 <==> contributions.len() > 0
    &&& parts.len() > 0 ==> parts[0].labels == contributions[0].labels
    &&& forall|acc: A| #[trigger] merged(merge, parts, acc) ==> holds(contributions, acc)
}

/// One more band of contributions.
proof fn lemma_one_more_band<
    V,
    A,
    N: Fn() -> A,
    F: Fn(A, &Vec<Sample<V>>) -> A,
    M: Fn(A, A) -> A,
>(
    new_acc: N,
    fold: F,
    merge: M,
    holds: spec_fn(Seq<Contribution<V>>, A) -> bool,
    contributions: Seq<(u64, Contribution<V>)>,
    parts: Seq<(u64, Group<A>)>,
    more: Seq<(u64, Contribution<V>)>,
    table: Seq<(u64, Group<A>)>,
    sig: u64,
)
    requires
        survives_merging(new_acc, fold, merge, holds),
        stands_for(merge, holds, of_sig(contributions, sig), of_sig(parts, sig)),
        groups_from(new_acc, fold, more, table),
    ensures
        stands_for(merge, holds, of_sig(contributions + more, sig), of_sig(parts + table, sig)),
{
    let xs = of_sig(contributions, sig);
    let ys = of_sig(more, sig);
    let own = of_sig(parts, sig);
    let last = of_sig(table, sig);
    lemma_of_sig_add(contributions, more, sig);
    lemma_of_sig_add(parts, table, sig);
    lemma_first_seen(more);
    lemma_one_group(table, sig);
    if sigs_of(table).contains(sig) {
        let i = choose|i: int| 0 <= i < sigs_of(table).len() && sigs_of(table)[i] == sig;
        let group = table[i].1;
        assert(table[i] == (sig, group));
        assert(last == seq![group]);
        assert(folded(new_acc, fold, ys, group.acc));
        assert(holds(ys, group.acc));
        let all = own + last;
        assert forall|acc: A| #[trigger] merged(merge, all, acc) implies holds(xs + ys, acc) by {
            if own.len() == 0 {
                assert(xs + ys =~= ys);
                assert(all =~= last);
            } else {
                assert(all.drop_last() =~= own);
                let before = choose|before: A|
                    merged(merge, all.drop_last(), before) && #[trigger] call_ensures(
                        merge,
                        (before, all.last().acc),
                        acc,
                    );
                assert(merged(merge, own, before));
                assert(holds(xs, before));
            }
        }
    } else {
        assert(xs + ys =~= xs);
        assert(own + last =~= own);
    }
}

/// The contributions of the first `n` bands, band after band.
spec fn all_contributions<V>(bands: Seq<Seq<(u64, Contribution<V>)>>, n: int) -> Seq<
    (u64, Contribution<V>),
>
    decreases n,
{
    if n <= 0 {
        Seq::empty()
    } else {
        all_contributions(bands, n - 1) + bands[n - 1]
    }
}

proof fn lemma_first_bands_merge<
    V,
    A,
    N: Fn() -> A,
    F: Fn(A, &Vec<Sample<V>>) -> A,
    M: Fn(A, A) -> A,
>(
    new_acc: N,
    fold: F,
    merge: M,
    holds: spec_fn(Seq<Contribution<V>>, A) -> bool,
    bands: Seq<Seq<(u64, Contribution<V>)>>,
    folds: Seq<GroupAccs<A>>,
    n: int,
)
    requires
        survives_merging(new_acc, fold, merge, holds),
        0 <= n <= folds.len(),
        bands.len() == folds.len(),
        forall|k: int|
            0 <= k < folds.len() ==> groups_from(
                new_acc,
                fold,
                bands[k],
                (#[trigger] folds[k])@,
            ),
    ensures
        first_seen(all_groups(folds.take(n))) == first_seen(all_contributions(bands, n)),
        forall|sig: u64|
            stands_for(
                merge,
                holds,
                #[trigger] of_sig(all_contributions(bands, n), sig),
                of_sig(all_groups(folds.take(n)), sig),
            ),
    decreases n,
{
    if n == 0 {
        assert(first_seen(all_groups(folds.take(0))) =~= first_seen(all_contributions(bands, 0)));
        assert forall|acc: A| !(#[trigger] merged(merge, Seq::<Group<A>>::empty(), acc)) by {}
    } else {
        let parts = all_groups(folds.take(n - 1));
        let before = all_contributions(bands, n - 1);
        let table = folds[n - 1]@;
        let more = bands[n - 1];
        lemma_first_bands_merge(new_acc, fold, merge, holds, bands, folds, n - 1);
        assert(folds.take(n).drop_last() =~= folds.take(n - 1));
        assert(groups_from(new_acc, fold, more, folds[n - 1]@));
        lemma_with_new(parts, table);
        lemma_with_new(before, more);
        lemma_first_seen(more);
        lemma_alone(merge, table);
        assert forall|sig: u64|
            stands_for(
                merge,
                holds,
                #[trigger] of_sig(all_contributions(bands, n), sig),
                of_sig(all_groups(folds.take(n)), sig),
            ) by {
            assert(stands_for(merge, holds, of_sig(before, sig), of_sig(parts, sig)));
            lemma_one_more_band(new_acc, fold, merge, holds, before, parts, more, table, sig);
        }
    }
}

/// What the series of a band add to which groups.
spec fn contributions_of<
    V,
    A,
    H: Fn(&Vec<&[u8]>) -> u64,
    N: Fn() -> A,
    F: Fn(A, &Vec<Sample<V>>) -> A,
>(params: FoldParams<H, N, F>, series: Seq<Seq<Row<V>>>, groups: Seq<(u64, Group<A>)>) -> Seq<
    (u64, Contribution<V>),
> {
    choose|contributions: Seq<(u64, Contribution<V>)>| #[trigger]
        all_contribute(params, series, contributions) && groups_from(
            params.new_acc,
            params.fold,
            contributions,
            groups,
        )
}

proof fn lemma_joined_series_contribute<V, H: Fn(&Vec<&[u8]>) -> u64, N, F>(
    params: FoldParams<H, N, F>,
    bands: Seq<Seq<Seq<Row<V>>>>,
    lists: Seq<Seq<(u64, Contribution<V>)>>,
    n: int,
)
    requires
        0 <= n <= lists.len(),
        forall|k: int|
            0 <= k < lists.len() ==> all_contribute(
                params,
                series_of(bands[k]),
                #[trigger] lists[k],
            ),
    ensures
        all_contribute(params, joined_series(bands, n), all_contributions(lists, n)),
    decreases n,
{
    if n > 0 {
        lemma_joined_series_contribute(params, bands, lists, n - 1);
        let before = all_contributions(lists, n - 1);
        assert(all_contribute(params, series_of(bands[n - 1]), lists[n - 1]));
        let series = joined_series(bands, n);
        let all = all_contributions(lists, n);
        assert forall|k: int| 0 <= k < series.len() implies contributes(
            params,
            series[k],
            (#[trigger] all[k]).0,
            all[k].1,
        ) by {
            if k < before.len() {
                assert(all[k] == before[k]);
            } else {
                assert(all[k] == lists[n - 1][k - before.len()]);
            }
        }
    }
}

/// What the bands of a run contributed, band after band.
spec fn run_contributions<
    V,
    A,
    H: Fn(&Vec<&[u8]>) -> u64,
    N: Fn() -> A,
    F: Fn(A, &Vec<Sample<V>>) -> A,
>(params: FoldParams<H, N, F>, bands: Seq<Seq<Seq<Row<V>>>>, folds: Seq<GroupAccs<A>>) -> Seq<
    (u64, Contribution<V>),
> {
    let lists = Seq::new(
        folds.len(),
        |k: int| contributions_of(params, series_of(bands[k]), folds[k]@),
    );
    all_contributions(lists, folds.len() as int)
}

proof fn lemma_run<
    V,
    A,
    H: Fn(&Vec<&[u8]>) -> u64,
    N: Fn() -> A,
    F: Fn(A, &Vec<Sample<V>>) -> A,
    M: Fn(A, A) -> A,
>(
    params: FoldParams<H, N, F>,
    merge: M,
    holds: spec_fn(Seq<Contribution<V>>, A) -> bool,
    bands: Seq<Seq<Seq<Row<V>>>>,
    folds: Seq<GroupAccs<A>>,
    groups: Seq<(u64, Group<A>)>,
)
    requires
        is_run(params, merge, bands, folds, groups),
        survives_merging(params.new_acc, params.fold, merge, holds),
    ensures
        ({
            let contributions = run_contributions(params, bands, folds);
            &&& all_contribute(params, series_of(all_chains(bands)), contributions)
            &&& same_groups(contributions, groups)
            &&& forall|i: int|
                0 <= i < groups.len() ==> holds(
                    of_sig(contributions, (#[trigger] groups[i]).0),
                    groups[i].1.acc,
                )
        }),
{
    let count = folds.len() as int;
    let lists = Seq::new(
        folds.len(),
        |k: int| contributions_of(params, series_of(bands[k]), folds[k]@),
    );
    assert forall|k: int| 0 <= k < count implies groups_from(
        params.new_acc,
        params.fold,
        lists[k],
        (#[trigger] folds[k])@,
    ) && all_contribute(params, series_of(bands[k]), lists[k]) by {
        assert(band_folded(params, series_of(bands[k]), folds[k]@));
    }
    assert forall|k: int| 0 <= k < count implies all_contribute(
        params,
        series_of(bands[k]),
        #[trigger] lists[k],
    ) by {
        assert(groups_from(params.new_acc, params.fold, lists[k], folds[k]@));
    }
    let contributions = all_contributions(lists, count);
    assert(contributions == run_contributions(params, bands, folds));
    lemma_joined_series_contribute(params, bands, lists, count);
    bands_with_own_chains(bands);
    lemma_first_bands_merge(params.new_acc, params.fold, merge, holds, lists, folds, count);
    assert(folds.take(count) =~= folds);
    let parts = all_groups(folds);
    assert forall|i: int| 0 <= i < groups.len() implies {
        let (sig, group) = #[trigger] groups[i];
        &&& of_sig(contributions, sig).len() > 0
        &&& group.labels == of_sig(contributions, sig)[0].labels
        &&& holds(of_sig(contributions, sig), group.acc)
    } by {
        let sig = groups[i].0;
        assert(stands_for(merge, holds, of_sig(contributions, sig), of_sig(parts, sig)));
    }
}

/// However many bands share the work, merging their groups gives the groups of
/// all series of the chains of all bands: one group for each signature, in the
/// order in which the series come up, with the labels of its first series. What
/// holds of every accumulator of some contributions, and survives merging,
/// holds of each group and all its contributions.
pub proof fn merged_groups_keep_what_survives<
    V,
    A,
    H: Fn(&Vec<&[u8]>) -> u64,
    N: Fn() -> A,
    F: Fn(A, &Vec<Sample<V>>) -> A,
    M: Fn(A, A) -> A,
>(
    params: FoldParams<H, N, F>,
    merge: M,
    holds: spec_fn(Seq<Contribution<V>>, A) -> bool,
    bands: Seq<Seq<Seq<Row<V>>>>,
    folds: Seq<GroupAccs<A>>,
    groups: Seq<(u64, Group<A>)>,
) -> (contributions: Seq<(u64, Contribution<V>)>)
    requires
        is_run(params, merge, bands, folds, groups),
        survives_merging(params.new_acc, params.fold, merge, holds),
    ensures
        all_contribute(params, series_of(all_chains(bands)), contributions),
        same_groups(contributions, groups),
        forall|i: int|
            0 <= i < groups.len() ==> holds(
                of_sig(contributions, (#[trigger] groups[i]).0),
                groups[i].1.acc,
            ),
{
    lemma_run(params, merge, holds, bands, folds, groups);
    run_contributions(params, bands, folds)
}

/// However many bands share the work, merging their groups gives the groups of
/// all series of the chains of all bands: one group for each signature, in the
/// order in which the series come up, with the labels of its first series.
pub proof fn bands_give_the_same_groups<
    V,
    A,
    H: Fn(&Vec<&[u8]>) -> u64,
    N: Fn() -> A,
    F: Fn(A, &Vec<Sample<V>>) -> A,
    M: Fn(A, A) -> A,
>(
    params: FoldParams<H, N, F>,
    merge: M,
    bands: Seq<Seq<Seq<Row<V>>>>,
    folds: Seq<GroupAccs<A>>,
    groups: Seq<(u64, Group<A>)>,
) -> (contributions: Seq<(u64, Contribution<V>)>)
    requires
        is_run(params, merge, bands, folds, groups),
    ensures
        all_contribute(params, series_of(all_chains(bands)), contributions),
        same_groups(contributions, groups),
        merges_folds(params.new_acc, params.fold, merge) ==> groups_from(
            params.new_acc,
            params.fold,
            contributions,
            groups,
        ),
{
    let any = |xs: Seq<Contribution<V>>, acc: A| true;
    lemma_run(params, merge, any, bands, folds, groups);
    if merges_folds(params.new_acc, params.fold, merge) {
        let is_fold = |xs: Seq<Contribution<V>>, acc: A|
            folded(params.new_acc, params.fold, xs, acc);
        lemma_run(params, merge, is_fold, bands, folds, groups);
    }
    run_contributions(params, bands, folds)
}

/// Where merging two accumulators comes to the same as folding on in one, the
/// number of bands does not matter: merging the groups of all bands gives what
/// one band gives that folds all chains by itself.
pub proof fn bands_merge_to_one_fold<
    V,
    A,
    H: Fn(&Vec<&[u8]>) -> u64,
    N: Fn() -> A,
    F: Fn(A, &Vec<Sample<V>>) -> A,
    M: Fn(A, A) -> A,
>(
    params: FoldParams<H, N, F>,
    merge: M,
    bands: Seq<Seq<Seq<Row<V>>>>,
    folds: Seq<GroupAccs<A>>,
    groups: Seq<(u64, Group<A>)>,
)
    requires
        is_run(params, merge, bands, folds, groups),
        merges_folds(params.new_acc, params.fold, merge),
    ensures
        band_folded(params, series_of(all_chains(bands)), groups),
{
    let contributions = bands_give_the_same_groups(params, merge, bands, folds, groups);
    assert(all_contribute(params, series_of(all_chains(bands)), contributions));
}

/// An item filed under a signature is one of the items.
pub proof fn lemma_of_sig_is_among<T>(items: Seq<(u64, T)>, sig: u64, k: int) -> (at: int)
    requires
        0 <= k < of_sig(items, sig).len(),
    ensures
        0 <= at < items.len(),
        items[at] == (sig, of_sig(items, sig)[k]),
    decreases items.len(),
{
    let rest = items.drop_last();
    if k < of_sig(rest, sig).len() {
        lemma_of_sig_is_among(rest, sig, k)
    } else {
        items.len() - 1
    }
}

/// Series with equal labels fall into one group, so that no two groups have the
/// same labels, where the hasher is a function.
pub proof fn groups_have_distinct_labels<V, A, H: Fn(&Vec<&[u8]>) -> u64, N, F>(
    params: FoldParams<H, N, F>,
    series: Seq<Seq<Row<V>>>,
    contributions: Seq<(u64, Contribution<V>)>,
    groups: Seq<(u64, Group<A>)>,
    i: int,
    j: int,
)
    requires
        is_function(params.hash),
        all_contribute(params, series, contributions),
        same_groups(contributions, groups),
        0 <= i < groups.len(),
        0 <= j < groups.len(),
        groups[i].1.labels == groups[j].1.labels,
    ensures
        i == j,
{
    let a = lemma_of_sig_is_among(contributions, groups[i].0, 0);
    let b = lemma_of_sig_is_among(contributions, groups[j].0, 0);
    assert(contributes(params, series[a], contributions[a].0, contributions[a].1));
    assert(contributes(params, series[b], contributions[b].0, contributions[b].1));
    equal_labels_have_one_signature(
        params.hash,
        groups[i].1.labels,
        groups[i].0,
        groups[j].0,
    );
    lemma_first_seen(contributions);
    assert(sigs_of(groups)[i] == sigs_of(groups)[j]);
}

/// The contributions with these labels, in order.
pub open spec fn of_labels<V>(
    contributions: Seq<(u64, Contribution<V>)>,
    labels: Seq<(Seq<char>, Seq<char>)>,
) -> Seq<Contribution<V>>
    decreases contributions.len(),
{
    if contributions.len() == 0 {
        Seq::empty()
    } else {
        let rest = of_labels(contributions.drop_last(), labels);
        if contributions.last().1.labels == labels {
            rest.push(contributions.last().1)
        } else {
            rest
        }
    }
}

/// The hasher tells these contributions apart: those of one signature have the
/// same labels.
pub open spec fn no_collision<V>(contributions: Seq<(u64, Contribution<V>)>) -> bool {
    forall|i: int, j: int|
        0 <= i < contributions.len() && 0 <= j < contributions.len() && (
        #[trigger] contributions[i]).0 == (#[trigger] contributions[j]).0
            ==> contributions[i].1.labels == contributions[j].1.labels
}

proof fn lemma_sig_is_labels<V>(
    contributions: Seq<(u64, Contribution<V>)>,
    sig: u64,
    labels: Seq<(Seq<char>, Seq<char>)>,
)
    requires
        forall|i: int|
            0 <= i < contributions.len() ==> ((#[trigger] contributions[i]).0 == sig <==> contributions[i].1.labels
                == labels),
    ensures
        of_sig(contributions, sig) == of_labels(contributions, labels),
    decreases contributions.len(),
{
    if contributions.len() > 0 {
        let rest = contributions.drop_last();
        assert forall|i: int| 0 <= i < rest.len() implies ((#[trigger] rest[i]).0 == sig
            <==> rest[i].1.labels == labels) by {
            assert(rest[i] == contributions[i]);
        }
        lemma_sig_is_labels(rest, sig, labels);
        assert(contributions[contributions.len() - 1].0 == sig <==> contributions.last().1.labels
            == labels);
    }
}

/// Grouping by signature is grouping by labels, where the hasher is a function
/// and tells the labels at hand apart: what is folded into a group is just what
/// the series with its labels contribute.
pub proof fn groups_are_by_labels<V, A, H: Fn(&Vec<&[u8]>) -> u64, N, F>(
    params: FoldParams<H, N, F>,
    series: Seq<Seq<Row<V>>>,
    contributions: Seq<(u64, Contribution<V>)>,
    groups: Seq<(u64, Group<A>)>,
    i: int,
)
    requires
        is_function(params.hash),
        no_collision(contributions),
        all_contribute(params, series, contributions),
        same_groups(contributions, groups),
        0 <= i < groups.len(),
    ensures
        of_sig(contributions, groups[i].0) == of_labels(contributions, groups[i].1.labels),
{
    let sig = groups[i].0;
    let labels = groups[i].1.labels;
    let first = lemma_of_sig_is_among(contributions, sig, 0);
    assert(contributes(params, series[first], contributions[first].0, contributions[first].1));
    assert forall|k: int| 0 <= k < contributions.len() implies ((#[trigger] contributions[k]).0
        == sig <==> contributions[k].1.labels == labels) by {
        assert(contributes(params, series[k], contributions[k].0, contributions[k].1));
        if contributions[k].1.labels == labels {
            equal_labels_have_one_signature(params.hash, labels, contributions[k].0, sig);
        }
        if contributions[k].0 == sig {
            assert(contributions[k].0 == contributions[first].0);
        }
    }
    lemma_sig_is_labels(contributions, sig, labels);
}

} // verus!
