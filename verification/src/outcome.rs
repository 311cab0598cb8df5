//! How the bands of a query ended, and what the query gives then.
use vstd::prelude::*;

use crate::batch::Sample;
use crate::groups::{merges_all, Group, GroupAccs};
use crate::merge::{drains_all, is_plain, merge_folds, merge_result, Value};

verus! {

/// How the tasks of all bands ended: each with a result of its own, in band
/// order; or one of them did not run to its end; or time ran out first.
pub enum BandsOutcome<T, E> {
    Joined(Vec<Result<T, E>>),
    JoinFailed(String),
    TimedOut,
}

/// Why a query has no result.
#[derive(Debug, PartialEq, Eq)]
pub enum BandsError<E> {
    /// A band failed.
    Band(E),
    /// The task of a band did not run to its end.
    Join(String),
    /// Time ran out.
    Timeout,
}

/// The results of all bands in band order, where all have one. Otherwise the
/// error of the first band that failed, or that a task was lost, or that time
/// ran out.
pub fn settle_bands<T, E>(outcome: BandsOutcome<T, E>) -> (settled: Result<Vec<T>, BandsError<E>>)
    ensures
        match (outcome, settled) {
            (BandsOutcome::Joined(results), Ok(folds)) => {
                &&& folds@.len() == results@.len()
                &&& forall|i: int|
                    0 <= i < results@.len() ==> #[trigger] results@[i] == Ok::<T, E>(folds@[i])
            },
            (BandsOutcome::Joined(results), Err(error)) => exists|i: int|
                {
                    &&& 0 <= i < results@.len()
                    &&& #[trigger] results@[i] is Err
                    &&& error == BandsError::Band(results@[i]->Err_0)
                    &&& forall|k: int| 0 <= k < i ==> #[trigger] results@[k] is Ok
                },
            (BandsOutcome::JoinFailed(why), Err(error)) => error == BandsError::<E>::Join(why),
            (BandsOutcome::TimedOut, Err(error)) => error is Timeout,
            _ => false,
        },
{
    match outcome {
        BandsOutcome::TimedOut => Err(BandsError::Timeout),
        BandsOutcome::JoinFailed(why) => Err(BandsError::Join(why)),
        BandsOutcome::Joined(results) => {
            let ghost all = results@;
            let mut folds: Vec<T> = Vec::new();
            for result in it: results
                invariant
                    it.seq() == all,
                    all == results@,
                    outcome == BandsOutcome::Joined(results),
                    folds@.len() == it.index(),
                    forall|i: int|
                        0 <= i < it.index() ==> #[trigger] all[i] == Ok::<T, E>(folds@[i]),
            {
                assert(result == all[it.index() as int]);
                match result {
                    Ok(fold) => {
                        folds.push(fold);
                    },
                    Err(e) => {
                        return Err(BandsError::Band(e));
                    },
                }
            }
            Ok(folds)
        },
    }
}

/// What a query that ran out of time is answered.
pub fn timeout_message() -> (text: String)
    ensures
        text@ == "[PromQL] streaming fused agg timeout"@,
{
    "[PromQL] streaming fused agg timeout".to_owned()
}

/// How many series were folded in all bands together.
pub open spec fn total_series<A>(folds: Seq<(GroupAccs<A>, usize)>) -> int
    decreases folds.len(),
{
    if folds.len() == 0 {
        0
    } else {
        total_series(folds.drop_last()) + folds.last().1
    }
}

/// The groups of the bands.
pub open spec fn band_groups<A>(folds: Seq<(GroupAccs<A>, usize)>) -> Seq<GroupAccs<A>> {
    folds.map_values(|f: (GroupAccs<A>, usize)| f.0)
}

/// What a query gives: its value, how many series were folded, and how many
/// series the value has.
pub struct QueryOutcome<V> {
    pub value: Value<V>,
    pub folded_series: usize,
    pub result_series: usize,
}

proof fn lemma_total_grows<A>(folds: Seq<(GroupAccs<A>, usize)>, n: int)
    requires
        0 <= n <= folds.len(),
    ensures
        total_series(folds.take(n)) <= total_series(folds),
    decreases folds.len(),
{
    if n < folds.len() {
        lemma_total_grows(folds.drop_last(), n);
        assert(folds.drop_last().take(n) =~= folds.take(n));
    } else {
        assert(folds.take(n) =~= folds);
    }
}

/// Merges the groups of all bands, and counts the series that went in and came
/// out.
pub fn finish_query<V, A, M: Fn(A, A) -> A, S: Fn(A) -> Vec<Sample<V>>>(
    folds: Vec<(GroupAccs<A>, usize)>,
    merge: &M,
    into_samples: &S,
) -> (outcome: QueryOutcome<V>)
    requires
        forall|i: int| 0 <= i < folds@.len() ==> (#[trigger] folds@[i]).0.wf(),
        total_series(folds@) <= usize::MAX,
        merges_all(*merge),
        drains_all(*into_samples),
    ensures
        exists|groups: Seq<(u64, Group<A>)>, outs: Seq<Vec<Sample<V>>>| #[trigger]
            merge_result(
                *merge,
                *into_samples,
                band_groups(folds@),
                groups,
                outs,
                outcome.value.series(),
            ),
        outcome.value is Empty <==> outcome.value.series().len() == 0,
        outcome.value matches Value::Matrix(matrix) ==> is_plain(matrix@),
        outcome.folded_series == total_series(folds@),
        outcome.result_series == outcome.value.series().len(),
{
    let ghost bands = folds@;
    let mut groups: Vec<GroupAccs<A>> = Vec::with_capacity(folds.len());
    let mut folded_series: usize = 0;
    for fold in it: folds
        invariant
            it.seq() == bands,
            total_series(bands) <= usize::MAX,
            forall|i: int| 0 <= i < bands.len() ==> (#[trigger] bands[i]).0.wf(),
            groups@ == band_groups(bands.take(it.index() as int)),
            folded_series == total_series(bands.take(it.index() as int)),
    {
        let ghost i = it.index() as int;
        let ghost before = groups@;
        proof {
            assert(fold == bands[i]);
            assert(bands.take(i + 1).drop_last() =~= bands.take(i));
            lemma_total_grows(bands, i + 1);
        }
        let (own, series) = fold;
        groups.push(own);
        folded_series = folded_series + series;
        assert(groups@ =~= band_groups(bands.take(i + 1)));
    }
    assert(bands.take(bands.len() as int) =~= bands);
    let value: Value<V> = merge_folds(groups, merge, into_samples);
    let result_series: usize = value.len();
    QueryOutcome { value, folded_series, result_series }
}

/// The series of all bands are counted: those of two lists of bands add up, and
/// one band counts what it folded.
pub proof fn series_of_all_bands_add_up<A>(
    a: Seq<(GroupAccs<A>, usize)>,
    b: Seq<(GroupAccs<A>, usize)>,
    one: (GroupAccs<A>, usize),
)
    ensures
        total_series(a + b) == total_series(a) + total_series(b),
        total_series(seq![one]) == one.1,
        total_series(Seq::<(GroupAccs<A>, usize)>::empty()) == 0,
    decreases b.len(),
{
    assert(seq![one].drop_last() =~= Seq::<(GroupAccs<A>, usize)>::empty());
    assert(total_series(Seq::<(GroupAccs<A>, usize)>::empty()) == 0);
    assert(seq![one].last() == one);
    if b.len() == 0 {
        assert(a + b =~= a);
    } else {
        assert((a + b).drop_last() =~= a + b.drop_last());
        series_of_all_bands_add_up(a, b.drop_last(), one);
    }
}

/// The groups of the bands are taken over one by one.
pub proof fn groups_of_bands_are_taken_one_by_one<A>(folds: Seq<(GroupAccs<A>, usize)>)
    ensures
        band_groups(folds).len() == folds.len(),
        forall|k: int| 0 <= k < folds.len() ==> #[trigger] band_groups(folds)[k] == folds[k].0,
{
}

} // verus!
