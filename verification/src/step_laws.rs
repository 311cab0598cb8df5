//! A fold and a merge, call by call.
use vstd::prelude::*;

use crate::batch::{Row, Sample};
use crate::cursor::shifted;
use crate::fold::{all_contribute, band_folded, contributes, series_folded, FoldParams};
use crate::group_key::{hashes_to, labels_of, signature_writes};
use crate::groups::{
    a_series_goes_into_one_group, each_contribution_is_folded_once, each_group_is_merged_once,
    first_seen, folded, groups_from, groups_merged, lemma_first_seen, merged, of_sig,
    signatures_are_seen_in_order, sigs_of, table_folded, Contribution, Group,
};
use crate::text::texts;

verus! {

/// How a group came about: the series that were folded into it, given by their
/// places; the samples of each as they were handed to the fold; and the
/// accumulators from the new one to the last.
pub struct FoldSteps<V, A> {
    pub series: Seq<int>,
    pub runs: Seq<Vec<Sample<V>>>,
    pub accs: Seq<A>,
}

/// How a group was merged: the parts that were merged, given by their places,
/// and the accumulators from that of the first part to the last.
pub struct MergeSteps<A> {
    pub parts: Seq<int>,
    pub accs: Seq<A>,
}

/// The places of the items filed under a signature.
spec fn places<T>(items: Seq<(u64, T)>, sig: u64) -> Seq<int>
    decreases items.len(),
{
    if items.len() == 0 {
        Seq::empty()
    } else {
        let rest = places(items.drop_last(), sig);
        if items.last().0 == sig {
            rest.push(items.len() - 1)
        } else {
            rest
        }
    }
}

proof fn lemma_places<T>(items: Seq<(u64, T)>, sig: u64)
    ensures
        places(items, sig).len() == of_sig(items, sig).len(),
        forall|k: int|
            0 <= k < places(items, sig).len() ==> 0 <= #[trigger] places(items, sig)[k]
                < items.len() && items[places(items, sig)[k]] == (sig, of_sig(items, sig)[k]),
        forall|k: int, l: int|
            0 <= k < l < places(items, sig).len() ==> #[trigger] places(items, sig)[k]
                < #[trigger] places(items, sig)[l],
        forall|i: int|
            0 <= i < items.len() && (#[trigger] items[i]).0 == sig ==> places(items, sig).contains(
                i,
            ),
    decreases items.len(),
{
    if items.len() > 0 {
        let rest = items.drop_last();
        let n = items.len() - 1;
        let before = places(rest, sig);
        let now = places(items, sig);
        lemma_places(rest, sig);
        assert forall|k: int| 0 <= k < now.len() implies 0 <= #[trigger] now[k] < items.len()
            && items[now[k]] == (sig, of_sig(items, sig)[k]) by {
            if k < before.len() {
                assert(now[k] == before[k]);
                assert(rest[before[k]] == items[before[k]]);
            }
        }
        assert forall|k: int, l: int| 0 <= k < l < now.len() implies #[trigger] now[k]
            < #[trigger] now[l] by {
            assert(now[k] == before[k]);
            if l < before.len() {
                assert(now[l] == before[l]);
            }
        }
        assert forall|i: int| 0 <= i < items.len() && (#[trigger] items[i]).0 == sig implies
            now.contains(i) by {
            if i < n {
                assert(rest[i].0 == sig);
                let k = choose|k: int| 0 <= k < before.len() && before[k] == i;
                assert(now[k] == i);
            } else {
                assert(now[before.len() as int] == i);
            }
        }
    }
}

/// Which places a table holds: each once, and all of them; and the groups stand
/// in the order of their first places.
proof fn lemma_places_are_shared_out<T, A>(items: Seq<(u64, T)>, groups: Seq<(u64, Group<A>)>)
    requires
        sigs_of(groups) == first_seen(items),
    ensures
        forall|g: int|
            0 <= g < groups.len() ==> places(items, (#[trigger] groups[g]).0).len() > 0,
        forall|i: int|
            #![trigger items[i]]
            0 <= i < items.len() ==> exists|g: int|
                0 <= g < groups.len() && (#[trigger] groups[g]).0 == items[i].0 && places(
                    items,
                    groups[g].0,
                ).contains(i),
        forall|g: int, h: int, k: int, l: int|
            #![trigger places(items, groups[g].0)[k], places(items, groups[h].0)[l]]
            {
                &&& 0 <= g < groups.len()
                &&& 0 <= h < groups.len()
                &&& 0 <= k < places(items, groups[g].0).len()
                &&& 0 <= l < places(items, groups[h].0).len()
                &&& places(items, groups[g].0)[k] == places(items, groups[h].0)[l]
            } ==> g == h && k == l,
        forall|g: int, h: int|
            0 <= g < h < groups.len() ==> places(items, (#[trigger] groups[g]).0)[0] < places(
                items,
                (#[trigger] groups[h]).0,
            )[0],
{
    let sigs = sigs_of(groups);
    lemma_first_seen(items);
    signatures_are_seen_in_order(items);
    assert forall|g: int| 0 <= g < groups.len() implies sigs[g] == (#[trigger] groups[g]).0 by {}
    assert forall|g: int| 0 <= g < groups.len() implies places(
        items,
        (#[trigger] groups[g]).0,
    ).len() > 0 by {
        lemma_places(items, groups[g].0);
        assert(sigs.contains(sigs[g]));
    }
    assert forall|i: int|
        #![trigger items[i]]
        0 <= i < items.len() implies exists|g: int|
        0 <= g < groups.len() && (#[trigger] groups[g]).0 == items[i].0 && places(
            items,
            groups[g].0,
        ).contains(i) by {
        let sig = items[i].0;
        lemma_places(items, sig);
        assert(first_seen(items).contains(sig));
        let g = choose|g: int| 0 <= g < sigs.len() && sigs[g] == sig;
        assert(groups[g].0 == sig);
    }
    assert forall|g: int, h: int, k: int, l: int|
        #![trigger places(items, groups[g].0)[k], places(items, groups[h].0)[l]]
        {
            &&& 0 <= g < groups.len()
            &&& 0 <= h < groups.len()
            &&& 0 <= k < places(items, groups[g].0).len()
            &&& 0 <= l < places(items, groups[h].0).len()
            &&& places(items, groups[g].0)[k] == places(items, groups[h].0)[l]
        } implies g == h && k == l by {
        lemma_places(items, groups[g].0);
        lemma_places(items, groups[h].0);
        assert(items[places(items, groups[g].0)[k]].0 == groups[g].0);
        assert(items[places(items, groups[h].0)[l]].0 == groups[h].0);
        assert(sigs[g] == sigs[h]);
        assert(g == h);
        if k < l {
            assert(places(items, groups[g].0)[k] < places(items, groups[g].0)[l]);
        }
        if l < k {
            assert(places(items, groups[g].0)[l] < places(items, groups[g].0)[k]);
        }
    }
    assert forall|g: int, h: int| 0 <= g < h < groups.len() implies places(
        items,
        (#[trigger] groups[g]).0,
    )[0] < places(items, (#[trigger] groups[h]).0)[0] by {
        let a = groups[g].0;
        let b = groups[h].0;
        lemma_places(items, a);
        lemma_places(items, b);
        assert(first_seen(items)[g] == a && first_seen(items)[h] == b);
        let i = choose|i: int|
            {
                &&& 0 <= i < items.len()
                &&& (#[trigger] items[i]).0 == first_seen(items)[g]
                &&& forall|j: int|
                    0 <= j <= i ==> (#[trigger] items[j]).0 != first_seen(items)[h]
            };
        let k = choose|k: int| 0 <= k < places(items, a).len() && places(items, a)[k] == i;
        assert(places(items, a)[0] <= i);
        let first = places(items, b)[0];
        assert(items[first].0 == b);
        assert(first > i);
    }
}

/// The steps by which the contributions at these places were folded.
spec fn are_fold_steps<V, A, N: Fn() -> A, F: Fn(A, &Vec<Sample<V>>) -> A>(
    new_acc: N,
    fold: F,
    contributions: Seq<(u64, Contribution<V>)>,
    sig: u64,
    acc: A,
    steps: FoldSteps<V, A>,
) -> bool {
    &&& steps.series == places(contributions, sig)
    &&& steps.runs.len() == steps.series.len()
    &&& steps.accs.len() == steps.series.len() + 1
    &&& call_ensures(new_acc, (), steps.accs[0])
    &&& steps.accs[steps.series.len() as int] == acc
    &&& forall|k: int|
        #![trigger steps.runs[k]]
        0 <= k < steps.series.len() ==> steps.runs[k]@ == of_sig(contributions, sig)[k].samples
            && call_ensures(fold, (steps.accs[k], &steps.runs[k]), steps.accs[k + 1])
}

/// Every series is folded once, and with all its samples. For each group there
/// are a new accumulator and one call of the fold for each of its series, in
/// order, which leads from the accumulator before to the one after, up to that of
/// the group. A call is handed the samples of all rows of the series, with their
/// times shifted and in the order of their times, however many there are. Each
/// series is folded into one group: into that of the signature of its first
/// row's labels. A group has the labels of its first series, and groups stand in
/// the order of these.
pub proof fn every_series_is_folded_once<
    V,
    A,
    H: Fn(&Vec<&[u8]>) -> u64,
    N: Fn() -> A,
    F: Fn(A, &Vec<Sample<V>>) -> A,
>(params: FoldParams<H, N, F>, series: Seq<Seq<Row<V>>>, groups: Seq<(u64, Group<A>)>) -> (steps:
    Seq<FoldSteps<V, A>>)
    requires
        band_folded(params, series, groups),
    ensures
        steps.len() == groups.len(),
        forall|g: int|
            0 <= g < groups.len() ==> {
                let s = #[trigger] steps[g];
                &&& s.series.len() > 0
                &&& s.runs.len() == s.series.len()
                &&& s.accs.len() == s.series.len() + 1
                &&& call_ensures(params.new_acc, (), s.accs[0])
                &&& s.accs[s.series.len() as int] == groups[g].1.acc
                &&& groups[g].1.labels == labels_of(
                    series[s.series[0]][0].cells,
                    texts(params.group_cols@),
                )
            },
        forall|g: int, k: int|
            #![trigger steps[g].runs[k]]
            0 <= g < groups.len() && 0 <= k < steps[g].series.len() ==> {
                let s = steps[g];
                let rows = series[s.series[k]];
                &&& call_ensures(params.fold, (s.accs[k], &s.runs[k]), s.accs[k + 1])
                &&& 0 <= s.series[k] < series.len()
                &&& s.runs[k]@.len() == rows.len()
                &&& s.runs[k]@.to_multiset() == rows.map_values(
                    |row: Row<V>|
                        Sample {
                            timestamp: (row.timestamp + params.offset) as i64,
                            value: row.value,
                        },
                ).to_multiset()
                &&& forall|p: int, q: int|
                    0 <= p <= q < s.runs[k]@.len() ==> (#[trigger] s.runs[k]@[p]).timestamp <= (
                    #[trigger] s.runs[k]@[q]).timestamp
                &&& hashes_to(
                    params.hash,
                    signature_writes(labels_of(rows[0].cells, texts(params.group_cols@))),
                    groups[g].0,
                )
            },
        forall|g: int, k: int, l: int|
            #![trigger steps[g].series[k], steps[g].series[l]]
            0 <= g < groups.len() && 0 <= k < l < steps[g].series.len() ==> steps[g].series[k]
                < steps[g].series[l],
        forall|i: int|
            #![trigger series[i]]
            0 <= i < series.len() ==> series[i].len() > 0 && exists|g: int|
                0 <= g < groups.len() && (#[trigger] steps[g]).series.contains(i),
        forall|g: int, h: int, k: int, l: int|
            #![trigger steps[g].series[k], steps[h].series[l]]
            {
                &&& 0 <= g < groups.len()
                &&& 0 <= h < groups.len()
                &&& 0 <= k < steps[g].series.len()
                &&& 0 <= l < steps[h].series.len()
                &&& steps[g].series[k] == steps[h].series[l]
            } ==> g == h && k == l,
        forall|g: int, h: int|
            0 <= g < h < groups.len() ==> (#[trigger] steps[g]).series[0] < (
            #[trigger] steps[h]).series[0],
{
    let contributions = choose|contributions: Seq<(u64, Contribution<V>)>| #[trigger]
        all_contribute(params, series, contributions) && groups_from(
            params.new_acc,
            params.fold,
            contributions,
            groups,
        );
    lemma_places_are_shared_out(contributions, groups);
    let steps = Seq::new(
        groups.len(),
        |g: int|
            choose|s: FoldSteps<V, A>|
                are_fold_steps(
                    params.new_acc,
                    params.fold,
                    contributions,
                    groups[g].0,
                    groups[g].1.acc,
                    s,
                ),
    );
    assert forall|g: int| 0 <= g < groups.len() implies are_fold_steps(
        params.new_acc,
        params.fold,
        contributions,
        groups[g].0,
        groups[g].1.acc,
        #[trigger] steps[g],
    ) by {
        let sig = groups[g].0;
        let own = of_sig(contributions, sig);
        assert(folded(params.new_acc, params.fold, own, groups[g].1.acc));
        let (accs, runs) = each_contribution_is_folded_once(
            params.new_acc,
            params.fold,
            own,
            groups[g].1.acc,
        );
        lemma_places(contributions, sig);
        let s = FoldSteps { series: places(contributions, sig), runs, accs };
        assert(are_fold_steps(
            params.new_acc,
            params.fold,
            contributions,
            sig,
            groups[g].1.acc,
            s,
        ));
    }
    assert forall|g: int| 0 <= g < groups.len() implies {
        let s = #[trigger] steps[g];
        &&& s.series.len() > 0
        &&& s.runs.len() == s.series.len()
        &&& s.accs.len() == s.series.len() + 1
        &&& call_ensures(params.new_acc, (), s.accs[0])
        &&& s.accs[s.series.len() as int] == groups[g].1.acc
        &&& groups[g].1.labels == labels_of(
            series[s.series[0]][0].cells,
            texts(params.group_cols@),
        )
    } by {
        let s = steps[g];
        lemma_places(contributions, groups[g].0);
        let at = s.series[0];
        assert(contributions[at] == (groups[g].0, of_sig(contributions, groups[g].0)[0]));
        assert(contributes(params, series[at], contributions[at].0, contributions[at].1));
    }
    let sample = |row: Row<V>|
        Sample { timestamp: (row.timestamp + params.offset) as i64, value: row.value };
    assert forall|g: int, k: int|
        #![trigger steps[g].runs[k]]
        0 <= g < groups.len() && 0 <= k < steps[g].series.len() implies {
        let s = steps[g];
        let rows = series[s.series[k]];
        &&& call_ensures(params.fold, (s.accs[k], &s.runs[k]), s.accs[k + 1])
        &&& 0 <= s.series[k] < series.len()
        &&& s.runs[k]@.len() == rows.len()
        &&& s.runs[k]@.to_multiset() == rows.map_values(sample).to_multiset()
        &&& forall|p: int, q: int|
            0 <= p <= q < s.runs[k]@.len() ==> (#[trigger] s.runs[k]@[p]).timestamp <= (
            #[trigger] s.runs[k]@[q]).timestamp
        &&& hashes_to(
            params.hash,
            signature_writes(labels_of(rows[0].cells, texts(params.group_cols@))),
            groups[g].0,
        )
    } by {
        let s = steps[g];
        lemma_places(contributions, groups[g].0);
        let at = s.series[k];
        let rows = series[at];
        assert(contributions[at] == (groups[g].0, of_sig(contributions, groups[g].0)[k]));
        assert(contributes(params, rows, contributions[at].0, contributions[at].1));
        assert(shifted(rows, params.offset as int) =~= rows.map_values(sample));
        vstd::seq_lib::to_multiset_len(s.runs[k]@);
        vstd::seq_lib::to_multiset_len(rows.map_values(sample));
    }
    assert forall|g: int, k: int, l: int|
        #![trigger steps[g].series[k], steps[g].series[l]]
        0 <= g < groups.len() && 0 <= k < l < steps[g].series.len() implies steps[g].series[k]
        < steps[g].series[l] by {
        lemma_places(contributions, groups[g].0);
        assert(steps[g].series == places(contributions, groups[g].0));
    }
    assert forall|i: int|
        #![trigger series[i]]
        0 <= i < series.len() implies series[i].len() > 0 && exists|g: int|
        0 <= g < groups.len() && (#[trigger] steps[g]).series.contains(i) by {
        assert(contributes(params, series[i], contributions[i].0, contributions[i].1));
        let g = choose|g: int|
            0 <= g < groups.len() && (#[trigger] groups[g]).0 == contributions[i].0 && places(
                contributions,
                groups[g].0,
            ).contains(i);
        assert(steps[g].series.contains(i));
    }
    assert forall|g: int, h: int, k: int, l: int|
        #![trigger steps[g].series[k], steps[h].series[l]]
        {
            &&& 0 <= g < groups.len()
            &&& 0 <= h < groups.len()
            &&& 0 <= k < steps[g].series.len()
            &&& 0 <= l < steps[h].series.len()
            &&& steps[g].series[k] == steps[h].series[l]
        } implies g == h && k == l by {
        assert(places(contributions, groups[g].0)[k] == places(contributions, groups[h].0)[l]);
    }
    assert forall|g: int, h: int| 0 <= g < h < groups.len() implies (
    #[trigger] steps[g]).series[0] < (#[trigger] steps[h]).series[0] by {
        assert(places(contributions, groups[g].0)[0] < places(contributions, groups[h].0)[0]);
    }
    steps
}

/// Where the fold appends the samples that it is handed to a log, the log of a
/// group ends as a list with one entry for each of its series, in order, which
/// has as many samples as the series has rows. Each series is in the log of one
/// group, and all groups together have as many entries as there are series.
pub proof fn logs_hold_every_series<
    V,
    A,
    H: Fn(&Vec<&[u8]>) -> u64,
    N: Fn() -> A,
    F: Fn(A, &Vec<Sample<V>>) -> A,
>(
    params: FoldParams<H, N, F>,
    log: spec_fn(A) -> Seq<Seq<Sample<V>>>,
    series: Seq<Seq<Row<V>>>,
    groups: Seq<(u64, Group<A>)>,
) -> (members: Seq<Seq<int>>)
    requires
        band_folded(params, series, groups),
        forall|acc: A| #[trigger] call_ensures(params.new_acc, (), acc) ==> log(acc).len() == 0,
        forall|before: A, run: Vec<Sample<V>>, after: A| #[trigger]
            call_ensures(params.fold, (before, &run), after) ==> log(after) == log(before).push(
                run@,
            ),
    ensures
        members.len() == groups.len(),
        forall|g: int|
            0 <= g < groups.len() ==> log((#[trigger] groups[g]).1.acc).len() == members[g].len(),
        forall|g: int, k: int|
            #![trigger members[g][k]]
            0 <= g < groups.len() && 0 <= k < members[g].len() ==> 0 <= members[g][k] < series.len()
                && log(groups[g].1.acc)[k].len() == series[members[g][k]].len(),
        forall|i: int|
            #![trigger series[i]]
            0 <= i < series.len() ==> series[i].len() > 0 && exists|g: int|
                0 <= g < groups.len() && (#[trigger] members[g]).contains(i),
        forall|g: int, h: int, k: int, l: int|
            #![trigger members[g][k], members[h][l]]
            {
                &&& 0 <= g < groups.len()
                &&& 0 <= h < groups.len()
                &&& 0 <= k < members[g].len()
                &&& 0 <= l < members[h].len()
                &&& members[g][k] == members[h][l]
            } ==> g == h && k == l,
{
    let steps = every_series_is_folded_once(params, series, groups);
    let members = Seq::new(groups.len(), |g: int| steps[g].series);
    assert forall|g: int| 0 <= g < groups.len() implies {
        &&& log((#[trigger] groups[g]).1.acc).len() == members[g].len()
        &&& forall|k: int|
            0 <= k < members[g].len() ==> (#[trigger] log(groups[g].1.acc)[k])
                == steps[g].runs[k]@
    } by {
        let s = steps[g];
        assert forall|k: int| 0 <= k < s.runs.len() implies call_ensures(
            params.fold,
            (s.accs[k], &#[trigger] s.runs[k]),
            s.accs[k + 1],
        ) by {
            assert(steps[g].runs[k] == s.runs[k]);
        }
        lemma_log(params.fold, log, s.accs, s.runs, s.runs.len() as int);
    }
    assert forall|g: int, k: int|
        #![trigger members[g][k]]
        0 <= g < groups.len() && 0 <= k < members[g].len() implies 0 <= members[g][k] < series.len()
        && log(groups[g].1.acc)[k].len() == series[members[g][k]].len() by {
        let acc = groups[g].1.acc;
        assert(log(acc)[k] == steps[g].runs[k]@);
        assert(steps[g].runs[k]@.len() == series[steps[g].series[k]].len());
    }
    assert forall|i: int|
        #![trigger series[i]]
        0 <= i < series.len() implies series[i].len() > 0 && exists|g: int|
        0 <= g < groups.len() && (#[trigger] members[g]).contains(i) by {
        assert(series[i].len() > 0);
        let g = choose|g: int|
            0 <= g < groups.len() && (#[trigger] steps[g]).series.contains(i);
        assert(members[g].contains(i));
    }
    assert forall|g: int, h: int, k: int, l: int|
        #![trigger members[g][k], members[h][l]]
        {
            &&& 0 <= g < groups.len()
            &&& 0 <= h < groups.len()
            &&& 0 <= k < members[g].len()
            &&& 0 <= l < members[h].len()
            &&& members[g][k] == members[h][l]
        } implies g == h && k == l by {
        assert(steps[g].series[k] == steps[h].series[l]);
    }
    members
}

proof fn lemma_log<V, A, F: Fn(A, &Vec<Sample<V>>) -> A>(
    fold: F,
    log: spec_fn(A) -> Seq<Seq<Sample<V>>>,
    accs: Seq<A>,
    runs: Seq<Vec<Sample<V>>>,
    n: int,
)
    requires
        0 <= n <= runs.len(),
        accs.len() == runs.len() + 1,
        log(accs[0]).len() == 0,
        forall|k: int|
            0 <= k < runs.len() ==> call_ensures(
                fold,
                (accs[k], &#[trigger] runs[k]),
                accs[k + 1],
            ),
        forall|before: A, run: Vec<Sample<V>>, after: A| #[trigger]
            call_ensures(fold, (before, &run), after) ==> log(after) == log(before).push(run@),
    ensures
        log(accs[n]).len() == n,
        forall|k: int| 0 <= k < n ==> (#[trigger] log(accs[n])[k]) == runs[k]@,
    decreases n,
{
    if n > 0 {
        lemma_log(fold, log, accs, runs, n - 1);
        assert(call_ensures(fold, (accs[n - 1], &runs[n - 1]), accs[n - 1 + 1]));
    }
}

/// Folding one more series calls the fold once, with the samples of all its
/// rows, shifted and in the order of their times, however many there are. It
/// goes on from the accumulator of the group of the series' signature, or from a
/// new one where there is no such group; that group alone changes, or is added
/// at the end with the labels of the series' first row.
pub proof fn one_more_series_is_folded<
    V,
    A,
    H: Fn(&Vec<&[u8]>) -> u64,
    N: Fn() -> A,
    F: Fn(A, &Vec<Sample<V>>) -> A,
>(
    params: FoldParams<H, N, F>,
    before: Seq<(u64, Group<A>)>,
    rows: Seq<Row<V>>,
    after: Seq<(u64, Group<A>)>,
) -> (step: (u64, int, A, Vec<Sample<V>>, A))
    requires
        series_folded(params, before, rows, after),
    ensures
        ({
            let (sig, p, start, run, acc) = step;
            let labels = labels_of(rows[0].cells, texts(params.group_cols@));
            &&& rows.len() > 0
            &&& hashes_to(params.hash, signature_writes(labels), sig)
            &&& run@.len() == rows.len()
            &&& run@.to_multiset() == rows.map_values(
                |row: Row<V>|
                    Sample {
                        timestamp: (row.timestamp + params.offset) as i64,
                        value: row.value,
                    },
            ).to_multiset()
            &&& forall|i: int, j: int|
                0 <= i <= j < run@.len() ==> (#[trigger] run@[i]).timestamp <= (
                #[trigger] run@[j]).timestamp
            &&& call_ensures(params.fold, (start, &run), acc)
            &&& if exists|q: int| 0 <= q < before.len() && (#[trigger] before[q]).0 == sig {
                &&& 0 <= p < before.len()
                &&& before[p].0 == sig
                &&& start == before[p].1.acc
                &&& after.len() == before.len()
                &&& after[p].0 == sig
                &&& after[p].1.labels == before[p].1.labels
                &&& after[p].1.acc == acc
                &&& forall|q: int|
                    0 <= q < before.len() && q != p ==> #[trigger] after[q] == before[q]
            } else {
                &&& call_ensures(params.new_acc, (), start)
                &&& after == before.push((sig, Group { labels, acc }))
            }
        }),
{
    let (sig, c) = choose|sig: u64, c: Contribution<V>| #[trigger]
        contributes(params, rows, sig, c) && table_folded(
            params.new_acc,
            params.fold,
            before,
            sig,
            c.labels,
            c.samples,
            after,
        );
    let (p, start, run, acc) = a_series_goes_into_one_group(
        params.new_acc,
        params.fold,
        before,
        sig,
        c.labels,
        c.samples,
        after,
    );
    let sample = |row: Row<V>|
        Sample { timestamp: (row.timestamp + params.offset) as i64, value: row.value };
    assert(shifted(rows, params.offset as int) =~= rows.map_values(sample));
    vstd::seq_lib::to_multiset_len(run@);
    vstd::seq_lib::to_multiset_len(rows.map_values(sample));
    (sig, p, start, run, acc)
}

spec fn are_merge_steps<A, M: Fn(A, A) -> A>(
    merge: M,
    parts: Seq<(u64, Group<A>)>,
    sig: u64,
    acc: A,
    steps: MergeSteps<A>,
) -> bool {
    &&& steps.parts == places(parts, sig)
    &&& steps.accs.len() == steps.parts.len()
    &&& steps.accs[0] == of_sig(parts, sig)[0].acc
    &&& steps.accs[steps.parts.len() - 1] == acc
    &&& forall|k: int|
        0 < k < steps.parts.len() ==> call_ensures(
            merge,
            (steps.accs[k - 1], (#[trigger] of_sig(parts, sig)[k]).acc),
            steps.accs[k],
        )
}

/// Every part is merged once. For each group there is one call of the merge for
/// each of its parts after the first, in order, which leads from the accumulator
/// of the first part to that of the group. Each part is merged into one group,
/// that of its signature. A group has the labels of its first part, and groups
/// stand in the order of these.
pub proof fn every_part_is_merged_once<A, M: Fn(A, A) -> A>(
    merge: M,
    parts: Seq<(u64, Group<A>)>,
    groups: Seq<(u64, Group<A>)>,
) -> (steps: Seq<MergeSteps<A>>)
    requires
        groups_merged(merge, parts, groups),
    ensures
        steps.len() == groups.len(),
        forall|g: int|
            0 <= g < groups.len() ==> {
                let s = #[trigger] steps[g];
                &&& s.parts.len() > 0
                &&& s.accs.len() == s.parts.len()
                &&& s.accs[0] == parts[s.parts[0]].1.acc
                &&& s.accs[s.parts.len() - 1] == groups[g].1.acc
                &&& groups[g].1.labels == parts[s.parts[0]].1.labels
            },
        forall|g: int, k: int|
            #![trigger steps[g].parts[k]]
            0 <= g < groups.len() && 0 <= k < steps[g].parts.len() ==> 0 <= steps[g].parts[k]
                < parts.len() && parts[steps[g].parts[k]].0 == groups[g].0,
        forall|g: int, k: int|
            #![trigger steps[g].parts[k]]
            0 <= g < groups.len() && 0 < k < steps[g].parts.len() ==> call_ensures(
                merge,
                (steps[g].accs[k - 1], parts[steps[g].parts[k]].1.acc),
                steps[g].accs[k],
            ),
        forall|g: int, k: int, l: int|
            #![trigger steps[g].parts[k], steps[g].parts[l]]
            0 <= g < groups.len() && 0 <= k < l < steps[g].parts.len() ==> steps[g].parts[k]
                < steps[g].parts[l],
        forall|i: int|
            #![trigger parts[i]]
            0 <= i < parts.len() ==> groups.map_values(|g: (u64, Group<A>)| g.0).contains(
                parts[i].0,
            ) && exists|g: int|
                0 <= g < groups.len() && (#[trigger] steps[g]).parts.contains(i),
        forall|g: int, h: int, k: int, l: int|
            #![trigger steps[g].parts[k], steps[h].parts[l]]
            {
                &&& 0 <= g < groups.len()
                &&& 0 <= h < groups.len()
                &&& 0 <= k < steps[g].parts.len()
                &&& 0 <= l < steps[h].parts.len()
                &&& steps[g].parts[k] == steps[h].parts[l]
            } ==> g == h && k == l,
        forall|g: int, h: int|
            0 <= g < h < groups.len() ==> (#[trigger] steps[g]).parts[0] < (
            #[trigger] steps[h]).parts[0],
{
    lemma_places_are_shared_out(parts, groups);
    let steps = Seq::new(
        groups.len(),
        |g: int|
            choose|s: MergeSteps<A>|
                are_merge_steps(merge, parts, groups[g].0, groups[g].1.acc, s),
    );
    assert forall|g: int| 0 <= g < groups.len() implies are_merge_steps(
        merge,
        parts,
        groups[g].0,
        groups[g].1.acc,
        #[trigger] steps[g],
    ) by {
        let sig = groups[g].0;
        assert(merged(merge, of_sig(parts, sig), groups[g].1.acc));
        let accs = each_group_is_merged_once(merge, of_sig(parts, sig), groups[g].1.acc);
        lemma_places(parts, sig);
        let s = MergeSteps { parts: places(parts, sig), accs };
        assert(are_merge_steps(merge, parts, sig, groups[g].1.acc, s));
    }
    assert forall|g: int| 0 <= g < groups.len() implies {
        let s = #[trigger] steps[g];
        &&& s.parts.len() > 0
        &&& s.accs.len() == s.parts.len()
        &&& s.accs[0] == parts[s.parts[0]].1.acc
        &&& s.accs[s.parts.len() - 1] == groups[g].1.acc
        &&& groups[g].1.labels == parts[s.parts[0]].1.labels
    } by {
        lemma_places(parts, groups[g].0);
        let at = steps[g].parts[0];
        assert(parts[at] == (groups[g].0, of_sig(parts, groups[g].0)[0]));
    }
    assert forall|g: int, k: int|
        #![trigger steps[g].parts[k]]
        0 <= g < groups.len() && 0 <= k < steps[g].parts.len() implies 0 <= steps[g].parts[k]
        < parts.len() && parts[steps[g].parts[k]].0 == groups[g].0 by {
        lemma_places(parts, groups[g].0);
        assert(steps[g].parts == places(parts, groups[g].0));
    }
    assert forall|g: int, k: int|
        #![trigger steps[g].parts[k]]
        0 <= g < groups.len() && 0 < k < steps[g].parts.len() implies call_ensures(
        merge,
        (steps[g].accs[k - 1], parts[steps[g].parts[k]].1.acc),
        steps[g].accs[k],
    ) by {
        lemma_places(parts, groups[g].0);
        let s = steps[g];
        let at = s.parts[k];
        assert(places(parts, groups[g].0)[k] == at);
        assert(parts[at] == (groups[g].0, of_sig(parts, groups[g].0)[k]));
        assert(call_ensures(
            merge,
            (s.accs[k - 1], of_sig(parts, groups[g].0)[k].acc),
            s.accs[k],
        ));
    }
    assert forall|g: int, k: int, l: int|
        #![trigger steps[g].parts[k], steps[g].parts[l]]
        0 <= g < groups.len() && 0 <= k < l < steps[g].parts.len() implies steps[g].parts[k]
        < steps[g].parts[l] by {
        lemma_places(parts, groups[g].0);
        assert(steps[g].parts == places(parts, groups[g].0));
    }
    assert forall|i: int|
        #![trigger parts[i]]
        0 <= i < parts.len() implies groups.map_values(|g: (u64, Group<A>)| g.0).contains(
        parts[i].0,
    ) && exists|g: int| 0 <= g < groups.len() && (#[trigger] steps[g]).parts.contains(i) by {
        let g = choose|g: int|
            0 <= g < groups.len() && (#[trigger] groups[g]).0 == parts[i].0 && places(
                parts,
                groups[g].0,
            ).contains(i);
        assert(steps[g].parts.contains(i));
        assert(groups.map_values(|g: (u64, Group<A>)| g.0)[g] == parts[i].0);
    }
    assert forall|g: int, h: int, k: int, l: int|
        #![trigger steps[g].parts[k], steps[h].parts[l]]
        {
            &&& 0 <= g < groups.len()
            &&& 0 <= h < groups.len()
            &&& 0 <= k < steps[g].parts.len()
            &&& 0 <= l < steps[h].parts.len()
            &&& steps[g].parts[k] == steps[h].parts[l]
        } implies g == h && k == l by {
        assert(places(parts, groups[g].0)[k] == places(parts, groups[h].0)[l]);
    }
    assert forall|g: int, h: int| 0 <= g < h < groups.len() implies (
    #[trigger] steps[g]).parts[0] < (#[trigger] steps[h]).parts[0] by {
        assert(places(parts, groups[g].0)[0] < places(parts, groups[h].0)[0]);
    }
    steps
}

} // verus!
