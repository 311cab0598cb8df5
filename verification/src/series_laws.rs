//! What holds of the series of hash-ordered chains.
use vstd::prelude::*;
use vstd::seq_lib::{lemma_multiset_commutative, to_multiset_contains};

use crate::bands::{band_range, band_start, hash_span, in_band, lemma_band_is_range};
use crate::batch::Row;
use crate::series::{
    behind, behind_run, gather, lemma_behind_is_shorter, lemma_min_head, lemma_run_len,
    lemma_run_len_is, min_head, run_len, run_of, series_of, total_rows,
};

verus! {

/// The rows of a chain are in the order of their hashes, so that those of one
/// series sit in a single run.
pub open spec fn hash_ordered_rows<V>(rows: Seq<Row<V>>) -> bool {
    forall|i: int, j: int|
        0 <= i <= j < rows.len() ==> (#[trigger] rows[i]).hash <= (#[trigger] rows[j]).hash
}

/// All chains are in hash order.
pub open spec fn all_hash_ordered<V>(chains: Seq<Seq<Row<V>>>) -> bool {
    forall|i: int| 0 <= i < chains.len() ==> hash_ordered_rows(#[trigger] chains[i])
}

/// All rows, list after list.
pub open spec fn all_rows<V>(lists: Seq<Seq<Row<V>>>) -> Seq<Row<V>>
    decreases lists.len(),
{
    if lists.len() == 0 {
        Seq::empty()
    } else {
        all_rows(lists.drop_last()) + lists.last()
    }
}

/// The chains with only those rows that satisfy `keep`.
pub open spec fn kept<V>(
    chains: Seq<Seq<Row<V>>>,
    keep: spec_fn(Row<V>) -> bool,
) -> Seq<Seq<Row<V>>> {
    chains.map_values(|rows: Seq<Row<V>>| rows.filter(keep))
}

/// All rows with that hash, chain after chain.
pub open spec fn rows_with<V>(chains: Seq<Seq<Row<V>>>, hash: u64) -> Seq<Row<V>> {
    all_rows(kept(chains, |row: Row<V>| row.hash == hash))
}

/// What a band reads of the chains.
pub open spec fn band_chains<V>(chains: Seq<Seq<Row<V>>>, band: (u64, u64)) -> Seq<Seq<Row<V>>> {
    kept(chains, |row: Row<V>| in_band(row.hash, band))
}

/// A filter that all items pass keeps the list.
pub proof fn lemma_filter_all<T>(s: Seq<T>, keep: spec_fn(T) -> bool)
    requires
        forall|i: int| 0 <= i < s.len() ==> keep(#[trigger] s[i]),
    ensures
        s.filter(keep) == s,
    decreases s.len(),
{
    reveal(Seq::filter);
    if s.len() > 0 {
        let rest = s.drop_last();
        assert forall|i: int| 0 <= i < rest.len() implies keep(#[trigger] rest[i]) by {
            assert(rest[i] == s[i]);
        }
        lemma_filter_all(rest, keep);
        assert(keep(s[s.len() - 1]));
        assert(rest.push(s.last()) =~= s);
    }
}

/// A filter that no item passes leaves nothing.
pub proof fn lemma_filter_none<T>(s: Seq<T>, keep: spec_fn(T) -> bool)
    requires
        forall|i: int| 0 <= i < s.len() ==> !keep(#[trigger] s[i]),
    ensures
        s.filter(keep) == Seq::<T>::empty(),
    decreases s.len(),
{
    reveal(Seq::filter);
    if s.len() > 0 {
        let rest = s.drop_last();
        assert forall|i: int| 0 <= i < rest.len() implies !keep(#[trigger] rest[i]) by {
            assert(rest[i] == s[i]);
        }
        lemma_filter_none(rest, keep);
        assert(!keep(s[s.len() - 1]));
    } else {
        assert(s =~= Seq::<T>::empty());
    }
}

proof fn lemma_filter_same<T>(s: Seq<T>, a: spec_fn(T) -> bool, b: spec_fn(T) -> bool)
    requires
        forall|i: int| 0 <= i < s.len() ==> a(#[trigger] s[i]) == b(s[i]),
    ensures
        s.filter(a) == s.filter(b),
    decreases s.len(),
{
    reveal(Seq::filter);
    if s.len() > 0 {
        let rest = s.drop_last();
        assert forall|i: int| 0 <= i < rest.len() implies a(#[trigger] rest[i]) == b(rest[i]) by {
            assert(rest[i] == s[i]);
        }
        lemma_filter_same(rest, a, b);
        assert(a(s[s.len() - 1]) == b(s[s.len() - 1]));
    }
}

proof fn lemma_filter_twice<T>(s: Seq<T>, a: spec_fn(T) -> bool, b: spec_fn(T) -> bool)
    ensures
        s.filter(a).filter(b) == s.filter(|x: T| a(x) && b(x)),
    decreases s.len(),
{
    reveal(Seq::filter);
    let both = |x: T| a(x) && b(x);
    if s.len() > 0 {
        let rest = s.drop_last();
        lemma_filter_twice(rest, a, b);
        if a(s.last()) {
            let first = rest.filter(a).push(s.last());
            assert(first.drop_last() =~= rest.filter(a));
        }
    }
}

/// A filtered list is drawn from the list, in order.
proof fn lemma_filter_keeps_order<V>(rows: Seq<Row<V>>, keep: spec_fn(Row<V>) -> bool, low: u64)
    requires
        hash_ordered_rows(rows),
        forall|i: int| 0 <= i < rows.len() ==> low <= (#[trigger] rows[i]).hash,
    ensures
        hash_ordered_rows(rows.filter(keep)),
        forall|i: int| 0 <= i < rows.filter(keep).len() ==> low <= (#[trigger] rows.filter(
            keep,
        )[i]).hash,
        rows.len() > 0 ==> forall|i: int|
            0 <= i < rows.filter(keep).len() ==> (#[trigger] rows.filter(keep)[i]).hash
                <= rows.last().hash,
    decreases rows.len(),
{
    reveal(Seq::filter);
    if rows.len() > 0 {
        let rest = rows.drop_last();
        assert forall|i: int, j: int| 0 <= i <= j < rest.len() implies (#[trigger] rest[i]).hash
            <= (#[trigger] rest[j]).hash by {
            assert(rest[i] == rows[i]);
            assert(rest[j] == rows[j]);
        }
        assert forall|i: int| 0 <= i < rest.len() implies low <= (#[trigger] rest[i]).hash by {
            assert(rest[i] == rows[i]);
        }
        lemma_filter_keeps_order(rest, keep, low);
        let last = rows.last();
        assert(low <= rows[rows.len() - 1].hash);
        if rest.len() > 0 {
            assert(rows[rows.len() - 2].hash <= rows[rows.len() - 1].hash);
            assert(rest.last() == rows[rows.len() - 2]);
        }
    }
}

/// In an ordered chain whose rows begin with `hash` or later, the rows behind
/// its leading run of `hash` all come later.
proof fn lemma_behind_comes_later<V>(rows: Seq<Row<V>>, hash: u64)
    requires
        hash_ordered_rows(rows),
        rows.len() > 0 ==> hash <= rows[0].hash,
    ensures
        hash_ordered_rows(behind_run(rows, hash)),
        rows == run_of(rows, hash) + behind_run(rows, hash),
        forall|i: int|
            0 <= i < run_of(rows, hash).len() ==> (#[trigger] run_of(rows, hash)[i]).hash == hash,
        forall|i: int|
            0 <= i < behind_run(rows, hash).len() ==> hash < (#[trigger] behind_run(
                rows,
                hash,
            )[i]).hash,
{
    lemma_run_len(rows, hash);
    let n = run_len(rows, hash) as int;
    let later = behind_run(rows, hash);
    assert(rows =~= rows.take(n) + rows.skip(n));
    assert forall|i: int| 0 <= i < n implies (#[trigger] run_of(rows, hash)[i]).hash == hash by {
        assert(rows[i].hash == hash);
    }
    assert forall|i: int| 0 <= i < later.len() implies hash < (#[trigger] later[i]).hash by {
        assert(rows[n].hash <= rows[n + i].hash);
        assert(rows[0].hash <= rows[n].hash);
    }
    assert forall|i: int, j: int| 0 <= i <= j < later.len() implies (#[trigger] later[i]).hash <= (
    #[trigger] later[j]).hash by {
        assert(rows[n + i].hash <= rows[n + j].hash);
    }
}

/// Behind the series of the smallest head the chains are still in order, and
/// what is left of them comes later.
pub proof fn lemma_rest_comes_later<V>(chains: Seq<Seq<Row<V>>>, hash: u64)
    requires
        all_hash_ordered(chains),
        min_head(chains) == Some(hash),
    ensures
        all_hash_ordered(behind(chains, hash)),
        total_rows(behind(chains, hash)) < total_rows(chains),
        min_head(behind(chains, hash)) matches Some(next) ==> hash < next,
{
    lemma_min_head(chains);
    lemma_behind_is_shorter(chains, hash);
    let rest = behind(chains, hash);
    assert forall|i: int| 0 <= i < rest.len() implies hash_ordered_rows(#[trigger] rest[i]) by {
        assert(hash_ordered_rows(chains[i]));
        lemma_behind_comes_later(chains[i], hash);
    }
    lemma_min_head(rest);
    if min_head(rest) is Some {
        let i = choose|i: int|
            0 <= i < rest.len() && (#[trigger] rest[i]).len() > 0 && rest[i][0].hash == min_head(
                rest,
            )->0;
        assert(hash_ordered_rows(chains[i]));
        lemma_behind_comes_later(chains[i], hash);
        assert(rest[i] == behind_run(chains[i], hash));
    }
}

/// What is gathered for a hash has that hash, and is not empty where a chain
/// begins with it.
proof fn lemma_gathered<V>(chains: Seq<Seq<Row<V>>>, hash: u64)
    ensures
        forall|k: int|
            0 <= k < gather(chains, hash).len() ==> (#[trigger] gather(chains, hash)[k]).hash
                == hash,
        (exists|i: int|
            0 <= i < chains.len() && (#[trigger] chains[i]).len() > 0 && chains[i][0].hash == hash)
            ==> gather(chains, hash).len() > 0,
    decreases chains.len(),
{
    if chains.len() > 0 {
        let rest = chains.drop_last();
        lemma_gathered(rest, hash);
        lemma_run_len(chains.last(), hash);
        let run = run_of(chains.last(), hash);
        assert forall|k: int| 0 <= k < gather(chains, hash).len() implies (#[trigger] gather(
            chains,
            hash,
        )[k]).hash == hash by {
            let n = gather(rest, hash).len();
            if k < n {
                assert(gather(chains, hash)[k] == gather(rest, hash)[k]);
            } else {
                assert(gather(chains, hash)[k] == chains.last()[k - n]);
            }
        }
        if exists|i: int|
            0 <= i < chains.len() && (#[trigger] chains[i]).len() > 0 && chains[i][0].hash
                == hash {
            let i = choose|i: int|
                0 <= i < chains.len() && (#[trigger] chains[i]).len() > 0 && chains[i][0].hash
                    == hash;
            if i < rest.len() {
                assert(rest[i] == chains[i]);
            } else {
                assert(chains[i] == chains.last());
            }
        }
    }
}

/// No series is empty, and all rows of a series have the same hash, whatever
/// the chains hold.
pub proof fn series_have_one_hash<V>(chains: Seq<Seq<Row<V>>>, k: int)
    requires
        0 <= k < series_of(chains).len(),
    ensures
        series_of(chains)[k].len() > 0,
        forall|i: int|
            0 <= i < series_of(chains)[k].len() ==> (#[trigger] series_of(chains)[k][i]).hash
                == series_of(chains)[k][0].hash,
    decreases total_rows(chains),
{
    let hash = min_head(chains)->0;
    lemma_min_head(chains);
    lemma_behind_is_shorter(chains, hash);
    lemma_gathered(chains, hash);
    if k > 0 {
        series_have_one_hash(behind(chains, hash), k - 1);
    } else {
        assert(series_of(chains)[0] == gather(chains, hash));
    }
}

proof fn lemma_series_come_later<V>(chains: Seq<Seq<Row<V>>>, low: u64, k: int)
    requires
        all_hash_ordered(chains),
        min_head(chains) matches Some(hash) ==> low <= hash,
        0 <= k < series_of(chains).len(),
    ensures
        series_of(chains)[k].len() > 0,
        low <= series_of(chains)[k][0].hash,
    decreases total_rows(chains),
{
    let hash = min_head(chains)->0;
    lemma_min_head(chains);
    lemma_gathered(chains, hash);
    lemma_rest_comes_later(chains, hash);
    if k > 0 {
        lemma_series_come_later(behind(chains, hash), hash, k - 1);
    } else {
        assert(series_of(chains)[0] == gather(chains, hash));
        assert(gather(chains, hash)[0].hash == hash);
    }
}

/// Hash-ordered chains give their series in strictly ascending order of hashes:
/// each series is folded once.
pub proof fn series_ascend<V>(chains: Seq<Seq<Row<V>>>, a: int, b: int)
    requires
        all_hash_ordered(chains),
        0 <= a < b < series_of(chains).len(),
    ensures
        series_of(chains)[a].len() > 0,
        series_of(chains)[b].len() > 0,
        series_of(chains)[a][0].hash < series_of(chains)[b][0].hash,
    decreases total_rows(chains),
{
    let hash = min_head(chains)->0;
    let rest = behind(chains, hash);
    lemma_min_head(chains);
    lemma_rest_comes_later(chains, hash);
    if a > 0 {
        series_ascend(rest, a - 1, b - 1);
    } else {
        lemma_gathered(chains, hash);
        assert(series_of(chains)[0] == gather(chains, hash));
        assert(gather(chains, hash)[0].hash == hash);
        assert(series_of(rest).len() > 0);
        let next = min_head(rest)->0;
        lemma_series_come_later(rest, next, b - 1);
    }
}

/// The rows of two lists of chains, one after the other.
pub proof fn lemma_all_rows_add<V>(a: Seq<Seq<Row<V>>>, b: Seq<Seq<Row<V>>>)
    ensures
        all_rows(a + b) == all_rows(a) + all_rows(b),
    decreases b.len(),
{
    if b.len() == 0 {
        assert(a + b =~= a);
        assert(all_rows(a) + all_rows(b) =~= all_rows(a));
    } else {
        let rest = b.drop_last();
        lemma_all_rows_add(a, rest);
        assert((a + b).drop_last() =~= a + rest);
        assert(all_rows(a + b) =~= all_rows(a) + all_rows(b));
    }
}

/// The rows of the chains are those gathered for a hash and those left behind.
pub proof fn lemma_taken_and_left<V>(chains: Seq<Seq<Row<V>>>, hash: u64)
    ensures
        all_rows(chains).to_multiset() == gather(chains, hash).to_multiset().add(
            all_rows(behind(chains, hash)).to_multiset(),
        ),
    decreases chains.len(),
{
    if chains.len() == 0 {
        lemma_multiset_commutative(gather(chains, hash), all_rows(behind(chains, hash)));
        assert(gather(chains, hash) + all_rows(behind(chains, hash)) =~= all_rows(chains));
    } else {
        let rest = chains.drop_last();
        let last = chains.last();
        lemma_taken_and_left(rest, hash);
        lemma_run_len(last, hash);
        assert(behind(chains, hash).drop_last() =~= behind(rest, hash));
        assert(behind(chains, hash).last() == behind_run(last, hash));
        assert(last =~= run_of(last, hash) + behind_run(last, hash));
        lemma_multiset_commutative(all_rows(rest), last);
        lemma_multiset_commutative(run_of(last, hash), behind_run(last, hash));
        lemma_multiset_commutative(gather(rest, hash), run_of(last, hash));
        lemma_multiset_commutative(all_rows(behind(rest, hash)), behind_run(last, hash));
        assert(all_rows(chains).to_multiset() =~= gather(chains, hash).to_multiset().add(
            all_rows(behind(chains, hash)).to_multiset(),
        ));
    }
}

/// Every row of the chains is folded, and none twice: the series hold just the
/// rows of the chains, whatever the order of these.
pub proof fn each_row_is_folded_once<V>(chains: Seq<Seq<Row<V>>>)
    ensures
        all_rows(series_of(chains)).to_multiset() == all_rows(chains).to_multiset(),
    decreases total_rows(chains),
{
    lemma_min_head(chains);
    match min_head(chains) {
        None => {
            lemma_all_empty(chains);
        },
        Some(hash) => {
            let rest = behind(chains, hash);
            let first = seq![gather(chains, hash)];
            lemma_behind_is_shorter(chains, hash);
            each_row_is_folded_once(rest);
            lemma_taken_and_left(chains, hash);
            lemma_all_rows_add(first, series_of(rest));
            assert(first.drop_last() =~= Seq::empty());
            assert(all_rows(first.drop_last()) =~= Seq::empty());
            assert(all_rows(first) =~= gather(chains, hash));
            lemma_multiset_commutative(gather(chains, hash), all_rows(series_of(rest)));
        },
    }
}

/// Chains without rows have no rows.
pub proof fn lemma_all_empty<V>(chains: Seq<Seq<Row<V>>>)
    requires
        forall|i: int| 0 <= i < chains.len() ==> (#[trigger] chains[i]).len() == 0,
    ensures
        all_rows(chains) == Seq::<Row<V>>::empty(),
    decreases chains.len(),
{
    if chains.len() > 0 {
        let rest = chains.drop_last();
        assert forall|i: int| 0 <= i < rest.len() implies (#[trigger] rest[i]).len() == 0 by {
            assert(rest[i] == chains[i]);
        }
        lemma_all_empty(rest);
        assert(chains[chains.len() - 1].len() == 0);
        assert(all_rows(chains) =~= Seq::<Row<V>>::empty());
    }
}

/// In ordered chains that begin with `hash` or later, gathering `hash` gives
/// all its rows, and leaves those of all other hashes.
pub proof fn lemma_gathers_all<V>(chains: Seq<Seq<Row<V>>>, hash: u64, other: u64)
    requires
        all_hash_ordered(chains),
        forall|i: int|
            0 <= i < chains.len() && (#[trigger] chains[i]).len() > 0 ==> hash <= chains[i][0].hash,
    ensures
        gather(chains, hash) == rows_with(chains, hash),
        other != hash ==> rows_with(behind(chains, hash), other) == rows_with(chains, other),
    decreases chains.len(),
{
    let own = |row: Row<V>| row.hash == hash;
    let others = |row: Row<V>| row.hash == other;
    if chains.len() == 0 {
        assert(kept(chains, own) =~= Seq::empty());
        assert(kept(behind(chains, hash), others) =~= kept(chains, others));
    } else {
        let rest = chains.drop_last();
        let last = chains.last();
        assert(chains[chains.len() - 1] == last);
        assert forall|i: int| 0 <= i < rest.len() implies hash_ordered_rows(#[trigger] rest[i]) by {
            assert(rest[i] == chains[i]);
        }
        assert forall|i: int| 0 <= i < rest.len() && (#[trigger] rest[i]).len() > 0 implies hash
            <= rest[i][0].hash by {
            assert(rest[i] == chains[i]);
        }
        lemma_gathers_all(rest, hash, other);
        lemma_behind_comes_later(last, hash);
        let run = run_of(last, hash);
        let left = behind_run(last, hash);
        Seq::filter_distributes_over_add(run, left, own);
        lemma_filter_all(run, own);
        lemma_filter_none(left, own);
        assert(last.filter(own) =~= run);
        assert(kept(chains, own).drop_last() =~= kept(rest, own));
        assert(kept(chains, own).last() == last.filter(own));
        if other != hash {
            Seq::filter_distributes_over_add(run, left, others);
            lemma_filter_none(run, others);
            assert(last.filter(others) =~= left.filter(others));
            assert(kept(chains, others).drop_last() =~= kept(rest, others));
            let after = behind(chains, hash);
            assert(after.drop_last() =~= behind(rest, hash));
            assert(kept(after, others).drop_last() =~= kept(behind(rest, hash), others));
            assert(kept(after, others).last() == left.filter(others));
        }
    }
}

/// Hash-ordered chains give each series whole: its rows are all the rows of the
/// chains with its hash, chain after chain.
pub proof fn series_are_whole<V>(chains: Seq<Seq<Row<V>>>, k: int)
    requires
        all_hash_ordered(chains),
        0 <= k < series_of(chains).len(),
    ensures
        series_of(chains)[k] == rows_with(chains, series_of(chains)[k][0].hash),
    decreases total_rows(chains),
{
    let hash = min_head(chains)->0;
    let rest = behind(chains, hash);
    lemma_min_head(chains);
    lemma_rest_comes_later(chains, hash);
    if k == 0 {
        lemma_gathered(chains, hash);
        assert(series_of(chains)[0] == gather(chains, hash));
        assert(gather(chains, hash)[0].hash == hash);
        lemma_gathers_all(chains, hash, hash);
    } else {
        series_are_whole(rest, k - 1);
        lemma_series_come_later(rest, min_head(rest)->0, k - 1);
        let other = series_of(chains)[k][0].hash;
        assert(other != hash);
        lemma_gathers_all(chains, hash, other);
    }
}

/// What a bound on hashes does to one ordered chain.
proof fn lemma_split_chain<V>(rows: Seq<Row<V>>, hash: u64, bound: int)
    requires
        hash_ordered_rows(rows),
        rows.len() > 0 ==> hash <= rows[0].hash,
        hash < bound,
    ensures
        run_of(rows.filter(|row: Row<V>| row.hash < bound), hash) == run_of(rows, hash),
        behind_run(rows.filter(|row: Row<V>| row.hash < bound), hash) == behind_run(
            rows,
            hash,
        ).filter(|row: Row<V>| row.hash < bound),
        behind_run(rows, hash).filter(|row: Row<V>| row.hash >= bound) == rows.filter(
            |row: Row<V>| row.hash >= bound,
        ),
{
    let low = |row: Row<V>| row.hash < bound;
    let high = |row: Row<V>| row.hash >= bound;
    let run = run_of(rows, hash);
    let left = behind_run(rows, hash);
    lemma_behind_comes_later(rows, hash);
    Seq::filter_distributes_over_add(run, left, low);
    Seq::filter_distributes_over_add(run, left, high);
    lemma_filter_all(run, low);
    lemma_filter_none(run, high);
    lemma_filter_from(left, low, hash);
    let cut = rows.filter(low);
    assert(cut =~= run + left.filter(low));
    assert forall|i: int| 0 <= i < run.len() implies (#[trigger] cut[i]).hash == hash by {
        assert(cut[i] == run[i]);
    }
    if run.len() < cut.len() {
        assert(cut[run.len() as int] == left.filter(low)[0]);
    }
    lemma_run_len_is(cut, hash, run.len() as int);
    assert(cut.take(run.len() as int) =~= run);
    assert(cut.skip(run.len() as int) =~= left.filter(low));
    assert(Seq::<Row<V>>::empty() + left.filter(high) =~= left.filter(high));
}

proof fn lemma_filter_from<V>(rows: Seq<Row<V>>, keep: spec_fn(Row<V>) -> bool, hash: u64)
    requires
        forall|i: int| 0 <= i < rows.len() ==> hash < (#[trigger] rows[i]).hash,
    ensures
        forall|i: int| 0 <= i < rows.filter(keep).len() ==> hash < (#[trigger] rows.filter(
            keep,
        )[i]).hash,
    decreases rows.len(),
{
    reveal(Seq::filter);
    if rows.len() > 0 {
        let rest = rows.drop_last();
        assert forall|i: int| 0 <= i < rest.len() implies hash < (#[trigger] rest[i]).hash by {
            assert(rest[i] == rows[i]);
        }
        lemma_filter_from(rest, keep, hash);
        assert(hash < rows[rows.len() - 1].hash);
        let before = rest.filter(keep);
        assert(rows.filter(keep) == if keep(rows.last()) {
            before.push(rows.last())
        } else {
            before
        });
        assert forall|i: int| 0 <= i < rows.filter(keep).len() implies hash < (
        #[trigger] rows.filter(keep)[i]).hash by {
            if i < before.len() {
                assert(hash < before[i].hash);
            }
        }
    }
}

proof fn lemma_same_runs<V>(a: Seq<Seq<Row<V>>>, b: Seq<Seq<Row<V>>>, hash: u64)
    requires
        a.len() == b.len(),
        forall|i: int|
            0 <= i < a.len() ==> run_of(#[trigger] a[i], hash) == run_of(b[i], hash),
    ensures
        gather(a, hash) == gather(b, hash),
    decreases a.len(),
{
    if a.len() > 0 {
        let x = a.drop_last();
        let y = b.drop_last();
        assert forall|i: int| 0 <= i < x.len() implies run_of(#[trigger] x[i], hash) == run_of(
            y[i],
            hash,
        ) by {
            assert(x[i] == a[i]);
        }
        lemma_same_runs(x, y, hash);
        assert(a[a.len() - 1] == a.last());
    }
}

/// Hash-ordered chains may be split at a bound on hashes: the series below it
/// come first, then those from it on.
pub proof fn series_split_at_a_bound<V>(chains: Seq<Seq<Row<V>>>, bound: int)
    requires
        all_hash_ordered(chains),
    ensures
        series_of(chains) == series_of(kept(chains, |row: Row<V>| row.hash < bound)) + series_of(
            kept(chains, |row: Row<V>| row.hash >= bound),
        ),
    decreases total_rows(chains),
{
    let low = |row: Row<V>| row.hash < bound;
    let high = |row: Row<V>| row.hash >= bound;
    let below = kept(chains, low);
    let above = kept(chains, high);
    lemma_min_head(chains);
    lemma_min_head(below);
    if min_head(chains) is None || min_head(chains)->0 >= bound {
        assert forall|i: int|
            #![trigger below[i]]
            #![trigger above[i]]
            0 <= i < chains.len() implies below[i].len() == 0 && above[i] == chains[i] by {
            assert(hash_ordered_rows(chains[i]));
            assert forall|k: int| 0 <= k < chains[i].len() implies !low(#[trigger] chains[i][k])
                && high(chains[i][k]) by {
                assert(chains[i][0].hash <= chains[i][k].hash);
            }
            lemma_filter_none(chains[i], low);
            lemma_filter_all(chains[i], high);
        }
        assert(above =~= chains);
        if min_head(below) is Some {
            let i = choose|i: int|
                0 <= i < below.len() && (#[trigger] below[i]).len() > 0 && below[i][0].hash
                    == min_head(below)->0;
            assert(below[i].len() == 0);
        }
        assert(series_of(below) + series_of(above) =~= series_of(chains));
    } else {
        let hash = min_head(chains)->0;
        let rest = behind(chains, hash);
        lemma_rest_comes_later(chains, hash);
        series_split_at_a_bound(rest, bound);
        assert forall|i: int|
            #![trigger below[i]]
            #![trigger above[i]]
            0 <= i < chains.len() implies run_of(below[i], hash) == run_of(chains[i], hash)
            && behind_run(below[i], hash) == kept(rest, low)[i] && kept(rest, high)[i]
            == above[i] by {
            assert(hash_ordered_rows(chains[i]));
            lemma_split_chain(chains[i], hash, bound);
        }
        assert(behind(below, hash) =~= kept(rest, low));
        assert(kept(rest, high) =~= above);
        lemma_same_runs(below, chains, hash);
        // the smallest head of the chains is also that of the rows below the bound
        let first = choose|i: int|
            0 <= i < chains.len() && (#[trigger] chains[i]).len() > 0 && chains[i][0].hash == hash;
        lemma_run_len(chains[first], hash);
        lemma_run_len(below[first], hash);
        assert(run_of(below[first], hash).len() == run_of(chains[first], hash).len());
        assert(below[first].len() > 0 && below[first][0].hash == hash);
        assert forall|i: int| 0 <= i < below.len() && (#[trigger] below[i]).len() > 0 implies hash
            <= below[i][0].hash by {
            assert(hash_ordered_rows(chains[i]));
            assert forall|k: int| 0 <= k < chains[i].len() implies hash <= (
            #[trigger] chains[i][k]).hash by {
                assert(chains[i][0].hash <= chains[i][k].hash);
            }
            lemma_filter_keeps_order(chains[i], low, hash);
        }
        let least = choose|i: int|
            0 <= i < below.len() && (#[trigger] below[i]).len() > 0 && below[i][0].hash
                == min_head(below)->0;
        assert(min_head(below) == Some(hash));
        let g = seq![gather(chains, hash)];
        assert((g + series_of(kept(rest, low))) + series_of(above) =~= g + (series_of(
            kept(rest, low),
        ) + series_of(above)));
    }
}

/// The series of the first `n` bands, band after band.
pub open spec fn series_of_bands<V>(chains: Seq<Seq<Row<V>>>, count: int, n: int) -> Seq<
    Seq<Row<V>>,
>
    decreases n,
{
    if n <= 0 {
        Seq::empty()
    } else {
        series_of_bands(chains, count, n - 1) + series_of(
            band_chains(chains, band_range(n - 1, count)),
        )
    }
}

proof fn lemma_first_bands<V>(chains: Seq<Seq<Row<V>>>, count: int, n: int)
    requires
        all_hash_ordered(chains),
        1 <= count <= u64::MAX,
        0 <= n <= count,
    ensures
        series_of(kept(chains, |row: Row<V>| row.hash < band_start(n, count))) == series_of_bands(
            chains,
            count,
            n,
        ),
    decreases n,
{
    let end = band_start(n, count);
    let low = |row: Row<V>| row.hash < end;
    let below = kept(chains, low);
    if n == 0 {
        assert(end == 0) by {
            assert(hash_span() * 0 == 0);
        }
        lemma_min_head(below);
        if min_head(below) is Some {
            let i = choose|i: int|
                0 <= i < below.len() && (#[trigger] below[i]).len() > 0 && below[i][0].hash
                    == min_head(below)->0;
            lemma_filter_none(chains[i], low);
        }
    } else {
        let start = band_start(n - 1, count);
        let band = band_range(n - 1, count);
        lemma_band_bounds(count, n - 1);
        lemma_first_bands(chains, count, n - 1);
        assert forall|i: int| 0 <= i < below.len() implies hash_ordered_rows(
            #[trigger] below[i],
        ) by {
            assert(hash_ordered_rows(chains[i]));
            lemma_filter_keeps_order(chains[i], low, 0);
        }
        series_split_at_a_bound(below, start);
        let under = |row: Row<V>| row.hash < start;
        let from = |row: Row<V>| row.hash >= start;
        let inside = |row: Row<V>| in_band(row.hash, band);
        assert forall|i: int|
            #![trigger kept(below, under)[i]]
            #![trigger kept(below, from)[i]]
            0 <= i < chains.len() implies kept(below, under)[i] == kept(chains, under)[i]
            && kept(below, from)[i] == band_chains(chains, band)[i] by {
            let rows = chains[i];
            lemma_filter_twice(rows, low, under);
            lemma_filter_twice(rows, low, from);
            lemma_filter_same(rows, |r: Row<V>| low(r) && under(r), under);
            lemma_filter_same(rows, |r: Row<V>| low(r) && from(r), inside);
        }
        assert(kept(below, under) =~= kept(chains, under));
        assert(kept(below, from) =~= band_chains(chains, band));
    }
}

proof fn lemma_band_bounds(count: int, band: int)
    requires
        1 <= count <= u64::MAX,
        0 <= band < count,
    ensures
        band_start(band, count) <= band_start(band + 1, count),
        forall|hash: u64|
            #[trigger] in_band(hash, band_range(band, count)) <==> band_start(band, count) <= hash
                < band_start(band + 1, count),
{
    lemma_band_is_range(band, count);
}

/// Folding hash-ordered chains band by band folds the same series in the same
/// order as folding them at once.
pub proof fn bands_fold_the_same_series<V>(chains: Seq<Seq<Row<V>>>, count: int)
    requires
        all_hash_ordered(chains),
        1 <= count <= u64::MAX,
    ensures
        series_of(chains) == series_of_bands(chains, count, count),
{
    let end = band_start(count, count);
    let low = |row: Row<V>| row.hash < end;
    assert(end == hash_span()) by {
        assert(hash_span() * count == count * hash_span()) by (nonlinear_arith);
        vstd::arithmetic::div_mod::lemma_div_multiples_vanish(hash_span(), count);
    }
    lemma_first_bands(chains, count, count);
    assert forall|i: int| 0 <= i < chains.len() implies #[trigger] kept(chains, low)[i]
        == chains[i] by {
        lemma_filter_all(chains[i], low);
    }
    assert(kept(chains, low) =~= chains);
}

/// Every list of rows is its leading run of a hash, then the rest: the run holds
/// rows of that hash only, and the rest does not begin with one.
pub proof fn runs_are_leading_rows<V>(rows: Seq<Row<V>>, hash: u64)
    ensures
        rows == run_of(rows, hash) + behind_run(rows, hash),
        run_of(rows, hash).len() == run_len(rows, hash),
        forall|i: int|
            0 <= i < run_of(rows, hash).len() ==> (#[trigger] run_of(rows, hash)[i]).hash == hash,
        behind_run(rows, hash).len() > 0 ==> behind_run(rows, hash)[0].hash != hash,
{
    lemma_run_len(rows, hash);
    let n = run_len(rows, hash) as int;
    assert(rows =~= rows.take(n) + rows.skip(n));
}

/// What is gathered for a hash are the leading runs of all chains, one after
/// another; what is left are the rests of all chains, each in its place.
pub proof fn gathered_rows_are_the_leading_runs<V>(chains: Seq<Seq<Row<V>>>, hash: u64)
    ensures
        gather(chains, hash) == Seq::new(
            chains.len(),
            |i: int| run_of(chains[i], hash),
        ).flatten(),
        behind(chains, hash).len() == chains.len(),
        forall|i: int|
            0 <= i < chains.len() ==> #[trigger] behind(chains, hash)[i] == behind_run(
                chains[i],
                hash,
            ),
    decreases chains.len(),
{
    let runs = Seq::new(chains.len(), |i: int| run_of(chains[i], hash));
    if chains.len() > 0 {
        let rest = chains.drop_last();
        gathered_rows_are_the_leading_runs(rest, hash);
        let fewer = Seq::new(rest.len(), |i: int| run_of(rest[i], hash));
        assert(runs =~= fewer.push(run_of(chains.last(), hash)));
        fewer.lemma_flatten_push(run_of(chains.last(), hash));
    }
}

/// All rows of some lists are the lists, one after another.
pub proof fn all_rows_are_the_lists_joined<V>(lists: Seq<Seq<Row<V>>>)
    ensures
        all_rows(lists) == lists.flatten(),
    decreases lists.len(),
{
    if lists.len() > 0 {
        all_rows_are_the_lists_joined(lists.drop_last());
        lists.drop_last().lemma_flatten_push(lists.last());
        assert(lists =~= lists.drop_last().push(lists.last()));
    }
}

/// What is kept of some chains are the rows of each that satisfy the condition.
pub proof fn kept_rows_satisfy_the_condition<V>(
    chains: Seq<Seq<Row<V>>>,
    keep: spec_fn(Row<V>) -> bool,
)
    ensures
        kept(chains, keep).len() == chains.len(),
        forall|i: int| 0 <= i < chains.len() ==> #[trigger] kept(chains, keep)[i]
            == chains[i].filter(keep),
{
}

/// Chains without rows have no series. Otherwise the series of the smallest
/// hash at the head of a chain comes first, and then those of what is left.
pub proof fn the_smallest_head_comes_first<V>(chains: Seq<Seq<Row<V>>>)
    ensures
        (forall|i: int| 0 <= i < chains.len() ==> (#[trigger] chains[i]).len() == 0)
            ==> series_of(chains).len() == 0,
        forall|hash: u64|
            #![trigger gather(chains, hash)]
            (exists|i: int|
                0 <= i < chains.len() && (#[trigger] chains[i]).len() > 0 && chains[i][0].hash
                    == hash) && (forall|i: int|
                0 <= i < chains.len() && (#[trigger] chains[i]).len() > 0 ==> hash
                    <= chains[i][0].hash) ==> series_of(chains) == seq![gather(chains, hash)]
                + series_of(behind(chains, hash)),
{
    lemma_min_head(chains);
    if min_head(chains) is Some {
        let h = min_head(chains)->0;
        let i = choose|i: int|
            0 <= i < chains.len() && (#[trigger] chains[i]).len() > 0 && chains[i][0].hash == h;
        assert(chains[i].len() > 0);
        assert forall|hash: u64|
            #![trigger gather(chains, hash)]
            (exists|i: int|
                0 <= i < chains.len() && (#[trigger] chains[i]).len() > 0 && chains[i][0].hash
                    == hash) && (forall|i: int|
                0 <= i < chains.len() && (#[trigger] chains[i]).len() > 0 ==> hash
                    <= chains[i][0].hash) implies series_of(chains) == seq![gather(chains, hash)]
            + series_of(behind(chains, hash)) by {
            let k = choose|k: int|
                0 <= k < chains.len() && (#[trigger] chains[k]).len() > 0 && chains[k][0].hash
                    == hash;
            assert(h <= chains[k][0].hash);
            assert(hash <= chains[i][0].hash);
            assert(hash == h);
        }
    }
}

/// Where each chain is in the order of its hashes, its series are these: one for
/// each hash that some row has, in ascending order of hashes, made of all rows
/// with that hash, chain after chain. So every row is in a series, and in one
/// only.
pub proof fn ordered_chains_are_split_by_hash<V>(chains: Seq<Seq<Row<V>>>)
    requires
        forall|i: int, p: int, q: int|
            0 <= i < chains.len() && 0 <= p <= q < chains[i].len() ==> (
            #[trigger] chains[i][p]).hash <= (#[trigger] chains[i][q]).hash,
    ensures
        series_of(chains).flatten().to_multiset() == chains.flatten().to_multiset(),
        forall|k: int|
            #![trigger series_of(chains)[k]]
            0 <= k < series_of(chains).len() ==> series_of(chains)[k].len() > 0 && series_of(
                chains,
            )[k] == chains.flatten().filter(
                |row: Row<V>| row.hash == series_of(chains)[k][0].hash,
            ),
        forall|k: int, l: int|
            0 <= k < l < series_of(chains).len() ==> (#[trigger] series_of(chains)[k])[0].hash < (
            #[trigger] series_of(chains)[l])[0].hash,
        forall|i: int, p: int|
            #![trigger chains[i][p]]
            0 <= i < chains.len() && 0 <= p < chains[i].len() ==> exists|k: int|
                0 <= k < series_of(chains).len() && (#[trigger] series_of(chains)[k]).contains(
                    chains[i][p],
                ),
{
    assert forall|i: int| 0 <= i < chains.len() implies hash_ordered_rows(#[trigger] chains[i]) by {
        assert forall|p: int, q: int| 0 <= p <= q < chains[i].len() implies (
        #[trigger] chains[i][p]).hash <= (#[trigger] chains[i][q]).hash by {}
    }
    all_rows_are_the_lists_joined(chains);
    all_rows_are_the_lists_joined(series_of(chains));
    each_row_is_folded_once(chains);
    assert forall|k: int|
        #![trigger series_of(chains)[k]]
        0 <= k < series_of(chains).len() implies series_of(chains)[k].len() > 0 && series_of(
        chains,
    )[k] == chains.flatten().filter(
        |row: Row<V>| row.hash == series_of(chains)[k][0].hash,
    ) by {
        let own = |row: Row<V>| row.hash == series_of(chains)[k][0].hash;
        series_have_one_hash(chains, k);
        series_are_whole(chains, k);
        lemma_all_rows_of_kept(chains, own);
    }
    assert forall|k: int, l: int| 0 <= k < l < series_of(chains).len() implies (
    #[trigger] series_of(chains)[k])[0].hash < (#[trigger] series_of(chains)[l])[0].hash by {
        series_ascend(chains, k, l);
    }
    assert forall|i: int, p: int|
        #![trigger chains[i][p]]
        0 <= i < chains.len() && 0 <= p < chains[i].len() implies exists|k: int|
        0 <= k < series_of(chains).len() && (#[trigger] series_of(chains)[k]).contains(
            chains[i][p],
        ) by {
        let row = chains[i][p];
        lemma_item_is_joined(chains, i, p);
        to_multiset_contains(chains.flatten(), row);
        to_multiset_contains(series_of(chains).flatten(), row);
        let k = lemma_joined_item_stands_in(series_of(chains), row);
        assert(series_of(chains)[k].contains(row));
    }
}

/// The rows that are kept of the chains are those kept of all rows.
pub proof fn lemma_all_rows_of_kept<V>(chains: Seq<Seq<Row<V>>>, keep: spec_fn(Row<V>) -> bool)
    ensures
        all_rows(kept(chains, keep)) == all_rows(chains).filter(keep),
    decreases chains.len(),
{
    if chains.len() == 0 {
        reveal(Seq::filter);
        assert(all_rows(kept(chains, keep)) =~= all_rows(chains).filter(keep));
    } else {
        let rest = chains.drop_last();
        lemma_all_rows_of_kept(rest, keep);
        assert(kept(chains, keep).drop_last() =~= kept(rest, keep));
        Seq::filter_distributes_over_add(all_rows(rest), chains.last(), keep);
    }
}

proof fn lemma_item_is_joined<T>(lists: Seq<Seq<T>>, i: int, p: int)
    requires
        0 <= i < lists.len(),
        0 <= p < lists[i].len(),
    ensures
        lists.flatten().contains(lists[i][p]),
    decreases lists.len(),
{
    let rest = lists.drop_last();
    rest.lemma_flatten_push(lists.last());
    assert(lists =~= rest.push(lists.last()));
    if i < rest.len() {
        lemma_item_is_joined(rest, i, p);
        let at = choose|at: int|
            0 <= at < rest.flatten().len() && rest.flatten()[at] == rest[i][p];
        assert(lists.flatten()[at] == lists[i][p]);
    } else {
        assert(lists.flatten()[rest.flatten().len() + p] == lists[i][p]);
    }
}

proof fn lemma_joined_item_stands_in<T>(lists: Seq<Seq<T>>, item: T) -> (k: int)
    requires
        lists.flatten().contains(item),
    ensures
        0 <= k < lists.len(),
        lists[k].contains(item),
    decreases lists.len(),
{
    let rest = lists.drop_last();
    let at = choose|at: int| 0 <= at < lists.flatten().len() && lists.flatten()[at] == item;
    if lists.len() > 0 {
        rest.lemma_flatten_push(lists.last());
        assert(lists =~= rest.push(lists.last()));
    }
    let n = rest.flatten().len();
    if at < n {
        assert(rest.flatten()[at] == item);
        let k = lemma_joined_item_stands_in(rest, item);
        assert(rest[k] == lists[k]);
        k
    } else {
        assert(lists.last()[at - n] == item);
        lists.len() - 1
    }
}

} // verus!
