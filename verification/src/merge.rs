//! The result of a query, put together from the groups of all bands.
use vstd::prelude::*;

use crate::batch::Sample;
use crate::group_key::{label_texts, Label};
use crate::groups::{
    entry_views, groups_merged, lemma_absorb, lemma_alone, lemma_table_is_distinct, merges_all,
    Group, GroupAccs, GroupEntry,
};

verus! {

/// A sample that stands for others, with labels of its own.
#[derive(Debug, PartialEq)]
pub struct Exemplar<V> {
    pub labels: Vec<Label>,
    pub sample: Sample<V>,
}

/// The window that the samples of a series were loaded for, in microseconds.
#[derive(Debug, PartialEq, Eq)]
pub struct TimeWindow {
    pub range: i64,
}

/// One series of a result. An aggregation has no exemplars, and is not bound to
/// a window.
#[derive(Debug, PartialEq)]
pub struct RangeValue<V> {
    pub labels: Vec<Label>,
    pub samples: Vec<Sample<V>>,
    pub exemplars: Option<Vec<Exemplar<V>>>,
    pub time_window: Option<TimeWindow>,
}

/// The result of a query: nothing, or some series.
#[derive(Debug, PartialEq)]
pub enum Value<V> {
    Empty,
    Matrix(Vec<RangeValue<V>>),
}

/// What a series of a result holds.
pub struct Series<V> {
    pub labels: Seq<(Seq<char>, Seq<char>)>,
    pub samples: Seq<Sample<V>>,
}

/// What the series of a matrix hold.
pub open spec fn matrix_series<V>(matrix: Seq<RangeValue<V>>) -> Seq<Series<V>> {
    matrix.map_values(
        |r: RangeValue<V>| Series { labels: label_texts(r.labels@), samples: r.samples@ },
    )
}

/// No series of the matrix has exemplars or a window.
pub open spec fn is_plain<V>(matrix: Seq<RangeValue<V>>) -> bool {
    forall|i: int|
        0 <= i < matrix.len() ==> (#[trigger] matrix[i]).exemplars is None
            && matrix[i].time_window is None
}

impl<V> Value<V> {
    /// The series of the result.
    pub open spec fn series(&self) -> Seq<Series<V>> {
        match self {
            Value::Empty => Seq::empty(),
            Value::Matrix(matrix) => matrix_series(matrix@),
        }
    }

    /// How many series the result has.
    pub fn len(&self) -> (n: usize)
        ensures
            n == self.series().len(),
    {
        match self {
            Value::Empty => 0,
            Value::Matrix(matrix) => matrix.len(),
        }
    }
}

/// The groups of all bands, in band order.
pub open spec fn all_groups<A>(folds: Seq<GroupAccs<A>>) -> Seq<(u64, Group<A>)>
    decreases folds.len(),
{
    if folds.len() == 0 {
        Seq::empty()
    } else {
        all_groups(folds.drop_last()) + folds.last()@
    }
}

/// `outs` are the samples that the accumulators of the groups gave.
pub open spec fn drained<V, A, S: Fn(A) -> Vec<Sample<V>>>(
    into_samples: S,
    groups: Seq<(u64, Group<A>)>,
    outs: Seq<Vec<Sample<V>>>,
) -> bool {
    &&& outs.len() == groups.len()
    &&& forall|i: int|
        0 <= i < groups.len() ==> call_ensures(
            into_samples,
            ((#[trigger] groups[i]).1.acc,),
            outs[i],
        )
}

/// The series that come of the groups; a group without samples gives none.
pub open spec fn group_series<V, A>(
    groups: Seq<(u64, Group<A>)>,
    outs: Seq<Vec<Sample<V>>>,
) -> Seq<Series<V>>
    decreases groups.len(),
{
    if groups.len() == 0 {
        Seq::empty()
    } else {
        let rest = group_series(groups.drop_last(), outs.drop_last());
        if outs.last()@.len() == 0 {
            rest
        } else {
            rest.push(Series { labels: groups.last().1.labels, samples: outs.last()@ })
        }
    }
}

/// All accumulators give samples.
pub open spec fn drains_all<V, A, S: Fn(A) -> Vec<Sample<V>>>(into_samples: S) -> bool {
    forall|acc: A| #[trigger] call_requires(into_samples, (acc,))
}

/// The folds may be merged to these groups, and these give that result.
pub open spec fn merge_result<V, A, M: Fn(A, A) -> A, S: Fn(A) -> Vec<Sample<V>>>(
    merge: M,
    into_samples: S,
    folds: Seq<GroupAccs<A>>,
    groups: Seq<(u64, Group<A>)>,
    outs: Seq<Vec<Sample<V>>>,
    series: Seq<Series<V>>,
) -> bool {
    &&& groups_merged(merge, all_groups(folds), groups)
    &&& drained(into_samples, groups, outs)
    &&& series == group_series(groups, outs)
}

/// Merges the groups of one band into a table that holds those of the bands
/// before it.
fn merge_band<A, M: Fn(A, A) -> A>(
    table: &mut GroupAccs<A>,
    fold: GroupAccs<A>,
    merge: &M,
    Ghost(parts): Ghost<Seq<(u64, Group<A>)>>,
)
    requires
        old(table).wf(),
        fold.wf(),
        merges_all(*merge),
        groups_merged(*merge, parts, old(table)@),
    ensures
        final(table).wf(),
        groups_merged(*merge, parts + fold@, final(table)@),
{
    let ghost groups = fold@;
    let entries: Vec<GroupEntry<A>> = fold.into_entries();
    let ghost all = entries@;
    assert(parts + groups.take(0) =~= parts);
    for entry in it: entries
        invariant
            it.seq() == all,
            entry_views(all) == groups,
            table.wf(),
            merges_all(*merge),
            groups_merged(*merge, parts + groups.take(it.index() as int), table@),
    {
        let ghost before = table@;
        let ghost i = it.index() as int;
        assert(entry@ == groups[i]);
        table.absorb(entry, merge);
        proof {
            lemma_absorb(*merge, parts + groups.take(i), before, groups[i], table@);
            assert((parts + groups.take(i)).push(groups[i]) =~= parts + groups.take(i + 1));
        }
    }
    assert(groups.take(groups.len() as int) =~= groups);
}

/// Merges the band-local groups in band order and materializes the result;
/// groups whose accumulator produced no samples are dropped like the
/// materializing path drops no-output series.
pub fn merge_folds<V, A, M: Fn(A, A) -> A, S: Fn(A) -> Vec<Sample<V>>>(
    folds: Vec<GroupAccs<A>>,
    merge: &M,
    into_samples: &S,
) -> (value: Value<V>)
    requires
        forall|i: int| 0 <= i < folds@.len() ==> (#[trigger] folds@[i]).wf(),
        merges_all(*merge),
        drains_all(*into_samples),
    ensures
        exists|groups: Seq<(u64, Group<A>)>, outs: Seq<Vec<Sample<V>>>| #[trigger]
            merge_result(*merge, *into_samples, folds@, groups, outs, value.series()),
        value is Empty <==> value.series().len() == 0,
        value matches Value::Matrix(matrix) ==> is_plain(matrix@),
{
    let ghost bands = folds@;
    let mut merged: GroupAccs<A> = GroupAccs::new();
    let mut first: bool = true;
    proof {
        lemma_alone(*merge, merged@);
    }
    for fold in it: folds
        invariant
            it.seq() == bands,
            forall|i: int| 0 <= i < bands.len() ==> (#[trigger] bands[i]).wf(),
            merges_all(*merge),
            merged.wf(),
            first ==> it.index() == 0,
            groups_merged(*merge, all_groups(bands.take(it.index() as int)), merged@),
    {
        let ghost i = it.index() as int;
        proof {
            assert(fold == bands[i]);
            assert(bands.take(i + 1).drop_last() =~= bands.take(i));
            if first {
                lemma_table_is_distinct(fold);
                lemma_alone(*merge, fold@);
                assert(all_groups(bands.take(0)) + fold@ =~= fold@);
            }
        }
        if first {
            merged = fold;
            first = false;
        } else {
            merge_band(&mut merged, fold, merge, Ghost(all_groups(bands.take(i))));
        }
    }
    assert(bands.take(bands.len() as int) =~= bands);
    let ghost groups = merged@;
    let entries: Vec<GroupEntry<A>> = merged.into_entries();
    let ghost all = entries@;
    let mut results: Vec<RangeValue<V>> = Vec::new();
    let ghost mut outs: Seq<Vec<Sample<V>>> = Seq::empty();
    assert(matrix_series(results@) =~= Seq::empty());
    for entry in it: entries
        invariant
            it.seq() == all,
            entry_views(all) == groups,
            drains_all(*into_samples),
            drained(*into_samples, groups.take(it.index() as int), outs),
            matrix_series(results@) == group_series(groups.take(it.index() as int), outs),
            is_plain(results@),
    {
        let ghost i = it.index() as int;
        let ghost before = outs;
        let ghost series = matrix_series(results@);
        assert(entry@ == groups[i]);
        let samples: Vec<Sample<V>> = into_samples(entry.acc);
        proof {
            outs = outs.push(samples);
            let now = groups.take(i + 1);
            assert(now.drop_last() =~= groups.take(i));
            assert(outs.drop_last() =~= before);
            assert forall|k: int| 0 <= k < now.len() implies call_ensures(
                *into_samples,
                ((#[trigger] now[k]).1.acc,),
                outs[k],
            ) by {
                if k < i {
                    assert(groups.take(i)[k] == now[k]);
                }
            }
        }
        if !samples.is_empty() {
            results.push(
                RangeValue { labels: entry.labels, samples, exemplars: None, time_window: None },
            );
            assert(matrix_series(results@) =~= series.push(
                Series { labels: groups[i].1.labels, samples: samples@ },
            ));
        }
    }
    assert(groups.take(groups.len() as int) =~= groups);
    let value: Value<V> = if results.is_empty() {
        Value::Empty
    } else {
        Value::Matrix(results)
    };
    proof {
        assert(value.series() =~= matrix_series(results@));
        assert(merge_result(*merge, *into_samples, bands, groups, outs, value.series()));
    }
    value
}

/// No series of a result is without samples, and there are no more of them than
/// groups.
pub proof fn result_series_have_samples<V, A>(
    groups: Seq<(u64, Group<A>)>,
    outs: Seq<Vec<Sample<V>>>,
)
    requires
        outs.len() == groups.len(),
    ensures
        group_series(groups, outs).len() <= groups.len(),
        forall|i: int|
            0 <= i < group_series(groups, outs).len() ==> (#[trigger] group_series(
                groups,
                outs,
            )[i]).samples.len() > 0,
    decreases groups.len(),
{
    if groups.len() > 0 {
        let rest = group_series(groups.drop_last(), outs.drop_last());
        result_series_have_samples(groups.drop_last(), outs.drop_last());
        assert forall|i: int| 0 <= i < group_series(groups, outs).len() implies (
        #[trigger] group_series(groups, outs)[i]).samples.len() > 0 by {
            if i < rest.len() {
                assert(rest[i].samples.len() > 0);
            }
        }
    }
}

proof fn lemma_all_groups_add<A>(a: Seq<GroupAccs<A>>, b: Seq<GroupAccs<A>>)
    ensures
        all_groups(a + b) == all_groups(a) + all_groups(b),
    decreases b.len(),
{
    if b.len() == 0 {
        assert(a + b =~= a);
        assert(all_groups(a) + all_groups(b) =~= all_groups(a));
    } else {
        assert((a + b).drop_last() =~= a + b.drop_last());
        lemma_all_groups_add(a, b.drop_last());
        assert(all_groups(a + b) =~= all_groups(a) + all_groups(b));
    }
}

/// A band without series changes nothing: with an empty table put in at any
/// place, also at the front, the folds have the same groups, and so the same
/// results.
pub proof fn empty_bands_change_nothing<V, A, M: Fn(A, A) -> A, S: Fn(A) -> Vec<Sample<V>>>(
    merge: M,
    into_samples: S,
    folds: Seq<GroupAccs<A>>,
    at: int,
    table: GroupAccs<A>,
    groups: Seq<(u64, Group<A>)>,
    outs: Seq<Vec<Sample<V>>>,
    series: Seq<Series<V>>,
)
    requires
        0 <= at <= folds.len(),
        table@.len() == 0,
    ensures
        all_groups(folds.insert(at, table)) == all_groups(folds),
        merge_result(merge, into_samples, folds.insert(at, table), groups, outs, series)
            <==> merge_result(merge, into_samples, folds, groups, outs, series),
{
    let front = folds.take(at);
    let back = folds.skip(at);
    let one = seq![table];
    assert(folds =~= front + back);
    assert(folds.insert(at, table) =~= (front + one) + back);
    lemma_all_groups_add(front, back);
    lemma_all_groups_add(front, one);
    lemma_all_groups_add(front + one, back);
    assert(one.drop_last() =~= Seq::<GroupAccs<A>>::empty());
    assert(all_groups(one.drop_last()) =~= Seq::<(u64, Group<A>)>::empty());
    assert(all_groups(one) =~= Seq::<(u64, Group<A>)>::empty());
    assert(all_groups(front) + all_groups(one) =~= all_groups(front));
}

/// Every group that has samples gives a series, whatever its labels and however
/// many samples it has, and no other group gives one: the series are, in order,
/// those of the groups with samples, each with the labels of its group and the
/// samples that its accumulator gave.
pub proof fn every_group_with_samples_gives_a_series<V, A>(
    groups: Seq<(u64, Group<A>)>,
    outs: Seq<Vec<Sample<V>>>,
) -> (at: Seq<int>)
    requires
        outs.len() == groups.len(),
    ensures
        at.len() == group_series(groups, outs).len(),
        forall|i: int|
            0 <= i < at.len() ==> 0 <= #[trigger] at[i] < groups.len() && outs[at[i]]@.len() > 0
                && group_series(groups, outs)[i].labels == groups[at[i]].1.labels && group_series(
                groups,
                outs,
            )[i].samples == outs[at[i]]@,
        forall|i: int, j: int| 0 <= i < j < at.len() ==> #[trigger] at[i] < #[trigger] at[j],
        forall|g: int|
            0 <= g < groups.len() && (#[trigger] outs[g])@.len() > 0 ==> at.contains(g),
        group_series(groups, outs).len() == outs.filter(
            |out: Vec<Sample<V>>| out@.len() > 0,
        ).len(),
    decreases groups.len(),
{
    reveal(Seq::filter);
    if groups.len() == 0 {
        Seq::empty()
    } else {
        let n = groups.len() - 1;
        let fewer = groups.drop_last();
        let less = outs.drop_last();
        let before = every_group_with_samples_gives_a_series(fewer, less);
        let rest = group_series(fewer, less);
        let now = group_series(groups, outs);
        let at = if outs.last()@.len() > 0 {
            before.push(n)
        } else {
            before
        };
        assert forall|i: int| 0 <= i < at.len() implies 0 <= #[trigger] at[i] < groups.len()
            && outs[at[i]]@.len() > 0 && now[i].labels == groups[at[i]].1.labels && now[i].samples
            == outs[at[i]]@ by {
            if i < before.len() {
                assert(at[i] == before[i]);
                assert(now[i] == rest[i]);
                assert(fewer[before[i]] == groups[before[i]]);
                assert(less[before[i]] == outs[before[i]]);
            }
        }
        assert forall|i: int, j: int| 0 <= i < j < at.len() implies #[trigger] at[i]
            < #[trigger] at[j] by {
            assert(at[i] == before[i]);
            if j < before.len() {
                assert(at[j] == before[j]);
            }
        }
        assert forall|g: int| 0 <= g < groups.len() && (#[trigger] outs[g])@.len() > 0 implies
            at.contains(g) by {
            if g < n {
                assert(less[g]@.len() > 0);
                let i = choose|i: int| 0 <= i < before.len() && before[i] == g;
                assert(at[i] == g);
            } else {
                assert(at[before.len() as int] == g);
            }
        }
        at
    }
}

/// The groups of all bands are those of the bands, one band after another.
pub proof fn groups_of_all_bands_are_joined<A>(folds: Seq<GroupAccs<A>>)
    ensures
        all_groups(folds) == Seq::new(folds.len(), |k: int| folds[k]@).flatten(),
    decreases folds.len(),
{
    let tables = Seq::new(folds.len(), |k: int| folds[k]@);
    if folds.len() > 0 {
        let rest = folds.drop_last();
        groups_of_all_bands_are_joined(rest);
        let fewer = Seq::new(rest.len(), |k: int| rest[k]@);
        assert(tables =~= fewer.push(folds.last()@));
        fewer.lemma_flatten_push(folds.last()@);
    }
}

/// A merge result is what its three parts say: the groups of all bands are
/// merged, each accumulator gives its samples, and the series come of these.
pub proof fn results_are_merged_then_drained<
    V,
    A,
    M: Fn(A, A) -> A,
    S: Fn(A) -> Vec<Sample<V>>,
>(
    merge: M,
    into_samples: S,
    folds: Seq<GroupAccs<A>>,
    groups: Seq<(u64, Group<A>)>,
    outs: Seq<Vec<Sample<V>>>,
    series: Seq<Series<V>>,
)
    requires
        merge_result(merge, into_samples, folds, groups, outs, series),
    ensures
        groups_merged(merge, all_groups(folds), groups),
        outs.len() == groups.len(),
        forall|g: int|
            0 <= g < groups.len() ==> call_ensures(
                into_samples,
                ((#[trigger] groups[g]).1.acc,),
                outs[g],
            ),
        series == group_series(groups, outs),
{
}

/// The series of a value are those of its matrix, one by one: all of them, with
/// their labels and samples as they are. An empty value has none.
pub proof fn series_of_a_value_are_those_of_its_matrix<V>(value: Value<V>)
    ensures
        value is Empty ==> value.series().len() == 0,
        value matches Value::Matrix(matrix) ==> {
            &&& value.series().len() == matrix@.len()
            &&& forall|i: int|
                0 <= i < matrix@.len() ==> (#[trigger] value.series()[i]).labels == label_texts(
                    matrix@[i].labels@,
                ) && value.series()[i].samples == matrix@[i].samples@
            &&& is_plain(matrix@) <==> forall|i: int|
                0 <= i < matrix@.len() ==> (#[trigger] matrix@[i]).exemplars is None
                    && matrix@[i].time_window is None
        },
{
}

/// All that is asked of the function that drains accumulators is that it can be
/// called.
pub proof fn drains_need_only_be_callable<V, A, S: Fn(A) -> Vec<Sample<V>>>(into_samples: S)
    requires
        forall|acc: A| #[trigger] call_requires(into_samples, (acc,)),
    ensures
        drains_all(into_samples),
{
}

} // verus!
