//! How the rows of hash-ordered chains make up series.
//!
//! A chain is a sequence of rows. Several chains are merged one series at a
//! time: the smallest hash at the head of any chain is next, and its series is
//! made of the leading runs of that hash, chain by chain.
use vstd::prelude::*;

use crate::batch::Row;

verus! {

/// The length of the leading run of rows with that hash.
pub open spec fn run_len<V>(rows: Seq<Row<V>>, hash: u64) -> nat
    decreases rows.len(),
{
    if rows.len() > 0 && rows[0].hash == hash {
        1 + run_len(rows.drop_first(), hash)
    } else {
        0
    }
}

/// The leading run of rows with that hash.
pub open spec fn run_of<V>(rows: Seq<Row<V>>, hash: u64) -> Seq<Row<V>> {
    rows.take(run_len(rows, hash) as int)
}

/// The rows behind the leading run of that hash.
pub open spec fn behind_run<V>(rows: Seq<Row<V>>, hash: u64) -> Seq<Row<V>> {
    rows.skip(run_len(rows, hash) as int)
}

/// The smallest hash at the head of a chain, if any chain has rows.
pub open spec fn min_head<V>(chains: Seq<Seq<Row<V>>>) -> Option<u64>
    decreases chains.len(),
{
    if chains.len() == 0 {
        None
    } else {
        let rest = min_head(chains.drop_last());
        if chains.last().len() == 0 {
            rest
        } else {
            let head = chains.last()[0].hash;
            match rest {
                Some(hash) => if hash <= head {
                    Some(hash)
                } else {
                    Some(head)
                },
                None => Some(head),
            }
        }
    }
}

/// The leading runs of that hash, chain after chain.
pub open spec fn gather<V>(chains: Seq<Seq<Row<V>>>, hash: u64) -> Seq<Row<V>>
    decreases chains.len(),
{
    if chains.len() == 0 {
        Seq::empty()
    } else {
        gather(chains.drop_last(), hash) + run_of(chains.last(), hash)
    }
}

/// What the chains still hold behind the leading runs of that hash.
pub open spec fn behind<V>(chains: Seq<Seq<Row<V>>>, hash: u64) -> Seq<Seq<Row<V>>> {
    chains.map_values(|rows: Seq<Row<V>>| behind_run(rows, hash))
}

/// How many rows the chains hold.
pub open spec fn total_rows<V>(chains: Seq<Seq<Row<V>>>) -> nat
    decreases chains.len(),
{
    if chains.len() == 0 {
        0
    } else {
        total_rows(chains.drop_last()) + chains.last().len()
    }
}

/// The series of the chains in the order in which they are folded; each is
/// given by its rows, chain after chain.
pub open spec fn series_of<V>(chains: Seq<Seq<Row<V>>>) -> Seq<Seq<Row<V>>>
    decreases total_rows(chains),
{
    match min_head(chains) {
        None => Seq::empty(),
        Some(hash) => {
            proof {
                lemma_min_head(chains);
                lemma_behind_is_shorter(chains, hash);
            }
            seq![gather(chains, hash)] + series_of(behind(chains, hash))
        },
    }
}

/// `hash` ends at `n`: `n` is the length of the leading run.
pub proof fn lemma_run_len_is<V>(rows: Seq<Row<V>>, hash: u64, n: int)
    requires
        0 <= n <= rows.len(),
        forall|i: int| 0 <= i < n ==> (#[trigger] rows[i]).hash == hash,
        n < rows.len() ==> rows[n].hash != hash,
    ensures
        run_len(rows, hash) == n,
    decreases rows.len(),
{
    if n > 0 {
        let rest = rows.drop_first();
        assert forall|i: int| 0 <= i < n - 1 implies (#[trigger] rest[i]).hash == hash by {
            assert(rest[i] == rows[i + 1]);
        }
        lemma_run_len_is(rest, hash, n - 1);
        assert(rows[0].hash == hash);
    }
}

/// What `run_len` is.
pub proof fn lemma_run_len<V>(rows: Seq<Row<V>>, hash: u64)
    ensures
        run_len(rows, hash) <= rows.len(),
        forall|i: int|
            0 <= i < run_len(rows, hash) ==> (#[trigger] rows[i]).hash == hash,
        run_len(rows, hash) < rows.len() ==> rows[run_len(rows, hash) as int].hash != hash,
    decreases rows.len(),
{
    if rows.len() > 0 && rows[0].hash == hash {
        let rest = rows.drop_first();
        lemma_run_len(rest, hash);
        assert forall|i: int| 0 <= i < run_len(rows, hash) implies (#[trigger] rows[i]).hash
            == hash by {
            if i > 0 {
                assert(rest[i - 1] == rows[i]);
            }
        }
    }
}

/// What `min_head` is.
pub proof fn lemma_min_head<V>(chains: Seq<Seq<Row<V>>>)
    ensures
        match min_head(chains) {
            Some(hash) => {
                &&& exists|i: int|
                    0 <= i < chains.len() && (#[trigger] chains[i]).len() > 0 && chains[i][0].hash
                        == hash
                &&& forall|i: int|
                    0 <= i < chains.len() && (#[trigger] chains[i]).len() > 0 ==> hash
                        <= chains[i][0].hash
            },
            None => forall|i: int| 0 <= i < chains.len() ==> (#[trigger] chains[i]).len() == 0,
        },
    decreases chains.len(),
{
    if chains.len() > 0 {
        let rest = chains.drop_last();
        lemma_min_head(rest);
        assert forall|i: int| 0 <= i < chains.len() - 1 implies #[trigger] chains[i]
            == rest[i] by {}
        if min_head(rest) is Some {
            let i = choose|i: int|
                0 <= i < rest.len() && (#[trigger] rest[i]).len() > 0 && rest[i][0].hash
                    == min_head(rest)->0;
            assert(chains[i] == rest[i]);
        }
        assert(chains[chains.len() - 1] == chains.last());
    }
}

proof fn lemma_total_of_parts<V>(longer: Seq<Seq<Row<V>>>, shorter: Seq<Seq<Row<V>>>)
    requires
        longer.len() == shorter.len(),
        forall|i: int| 0 <= i < longer.len() ==> (#[trigger] shorter[i]).len() <= longer[i].len(),
    ensures
        total_rows(shorter) <= total_rows(longer),
        (exists|i: int| 0 <= i < longer.len() && (#[trigger] shorter[i]).len() < longer[i].len())
            ==> total_rows(shorter) < total_rows(longer),
    decreases longer.len(),
{
    if longer.len() > 0 {
        let a = longer.drop_last();
        let b = shorter.drop_last();
        assert forall|i: int| 0 <= i < a.len() implies (#[trigger] b[i]).len() <= a[i].len() by {
            assert(shorter[i].len() <= longer[i].len());
        }
        lemma_total_of_parts(a, b);
        let n = longer.len() - 1;
        assert(shorter[n].len() <= longer[n].len());
        if exists|i: int| 0 <= i < longer.len() && (#[trigger] shorter[i]).len() < longer[i].len() {
            let i = choose|i: int|
                0 <= i < longer.len() && (#[trigger] shorter[i]).len() < longer[i].len();
            if i < n {
                assert(b[i].len() < a[i].len());
            }
        }
    }
}

/// Taking the runs of a hash off leaves fewer rows, if some chain begins with it.
pub proof fn lemma_behind_is_shorter<V>(chains: Seq<Seq<Row<V>>>, hash: u64)
    requires
        exists|i: int|
            0 <= i < chains.len() && (#[trigger] chains[i]).len() > 0 && chains[i][0].hash == hash,
    ensures
        total_rows(behind(chains, hash)) < total_rows(chains),
{
    let after = behind(chains, hash);
    assert forall|i: int| 0 <= i < chains.len() implies (#[trigger] after[i]).len()
        <= chains[i].len() by {
        lemma_run_len(chains[i], hash);
    }
    let i = choose|i: int|
        0 <= i < chains.len() && (#[trigger] chains[i]).len() > 0 && chains[i][0].hash == hash;
    lemma_run_len(chains[i], hash);
    assert(after[i].len() < chains[i].len());
    lemma_total_of_parts(chains, after);
}

/// The chains with `more` appended, chain by chain.
pub open spec fn extended<V>(chains: Seq<Seq<Row<V>>>, more: Seq<Seq<Row<V>>>) -> Seq<Seq<Row<V>>> {
    Seq::new(chains.len(), |i: int| chains[i] + more[i])
}

/// `more` may still arrive: nothing more arrives on a chain that has ended.
pub open spec fn may_follow<V>(more: Seq<Seq<Row<V>>>, ended: Seq<bool>) -> bool {
    &&& more.len() == ended.len()
    &&& forall|i: int| 0 <= i < more.len() && ended[i] ==> (#[trigger] more[i]).len() == 0
}

/// The series that are still to be folded where the chains hold `chains`, and
/// `open` is the hash of a series under way and its rows so far.
pub open spec fn still_to_fold<V>(
    open: Option<(u64, Seq<Row<V>>)>,
    chains: Seq<Seq<Row<V>>>,
) -> Seq<Seq<Row<V>>> {
    match open {
        None => series_of(chains),
        Some((hash, rows)) => seq![rows + gather(chains, hash)] + series_of(behind(chains, hash)),
    }
}

/// The books of a merge are in order: whatever still arrives, the series of all
/// that was ever delivered are those done, then those still to be folded.
pub open spec fn accounts_for<V>(
    delivered: Seq<Seq<Row<V>>>,
    ended: Seq<bool>,
    done: Seq<Seq<Row<V>>>,
    open: Option<(u64, Seq<Row<V>>)>,
    pending: Seq<Seq<Row<V>>>,
) -> bool {
    forall|more: Seq<Seq<Row<V>>>| #[trigger]
        may_follow(more, ended) ==> series_of(extended(delivered, more)) == done + still_to_fold(
            open,
            extended(pending, more),
        )
}

/// It is known where the leading run of `hash` in this chain ends, and that it
/// is empty.
pub open spec fn is_past<V>(rows: Seq<Row<V>>, ended: bool, hash: u64) -> bool {
    if rows.len() > 0 {
        rows[0].hash != hash
    } else {
        ended
    }
}

proof fn lemma_extended_min_head<V>(chains: Seq<Seq<Row<V>>>, more: Seq<Seq<Row<V>>>)
    requires
        chains.len() == more.len(),
        forall|i: int|
            0 <= i < chains.len() && (#[trigger] chains[i]).len() == 0 ==> more[i].len() == 0,
    ensures
        min_head(extended(chains, more)) == min_head(chains),
    decreases chains.len(),
{
    if chains.len() > 0 {
        let a = chains.drop_last();
        let b = more.drop_last();
        assert forall|i: int| 0 <= i < a.len() && (#[trigger] a[i]).len() == 0 implies b[i].len()
            == 0 by {
            assert(chains[i].len() == 0);
        }
        lemma_extended_min_head(a, b);
        assert(extended(chains, more).drop_last() =~= extended(a, b));
        assert(chains[chains.len() - 1] == chains.last());
        assert(extended(chains, more).last() == chains.last() + more.last());
    }
}

proof fn lemma_run_of_rest<V>(rows: Seq<Row<V>>, hash: u64, n: int)
    requires
        0 <= n <= run_len(rows, hash),
    ensures
        run_of(rows, hash) == rows.take(n) + run_of(rows.skip(n), hash),
        behind_run(rows, hash) == behind_run(rows.skip(n), hash),
{
    let len = run_len(rows, hash) as int;
    lemma_run_len(rows, hash);
    assert forall|i: int| 0 <= i < len - n implies (#[trigger] rows.skip(n)[i]).hash == hash by {
        assert(rows[i + n].hash == hash);
    }
    lemma_run_len_is(rows.skip(n), hash, len - n);
    assert(rows.take(len) =~= rows.take(n) + rows.skip(n).take(len - n));
    assert(rows.skip(len) =~= rows.skip(n).skip(len - n));
}

/// Where no chain begins with a hash, nothing is gathered for it.
pub proof fn lemma_no_runs<V>(chains: Seq<Seq<Row<V>>>, hash: u64)
    requires
        forall|i: int| 0 <= i < chains.len() ==> run_len(#[trigger] chains[i], hash) == 0,
    ensures
        gather(chains, hash) == Seq::<Row<V>>::empty(),
        behind(chains, hash) == chains,
    decreases chains.len(),
{
    assert forall|i: int| 0 <= i < chains.len() implies behind(chains, hash)[i]
        == #[trigger] chains[i] by {
        assert(chains[i].skip(0) =~= chains[i]);
    }
    assert(behind(chains, hash) =~= chains);
    if chains.len() > 0 {
        let rest = chains.drop_last();
        assert forall|i: int| 0 <= i < rest.len() implies run_len(#[trigger] rest[i], hash)
            == 0 by {
            assert(rest[i] == chains[i]);
        }
        lemma_no_runs(rest, hash);
        assert(chains[chains.len() - 1] == chains.last());
        assert(gather(chains, hash) =~= Seq::<Row<V>>::empty());
    }
}

/// Part of a chain's leading run may be taken off first, if no chain before it
/// has rows of that hash at its head.
proof fn lemma_take_part<V>(chains: Seq<Seq<Row<V>>>, hash: u64, c: int, n: int)
    requires
        0 <= c < chains.len(),
        0 <= n <= run_len(chains[c], hash),
        forall|i: int| 0 <= i < c ==> run_len(#[trigger] chains[i], hash) == 0,
    ensures
        gather(chains, hash) == chains[c].take(n) + gather(
            chains.update(c, chains[c].skip(n)),
            hash,
        ),
        behind(chains, hash) == behind(chains.update(c, chains[c].skip(n)), hash),
    decreases chains.len(),
{
    let rest = chains.drop_last();
    let cut = chains.update(c, chains[c].skip(n));
    lemma_run_of_rest(chains[c], hash, n);
    if c == chains.len() - 1 {
        assert forall|i: int| 0 <= i < rest.len() implies run_len(#[trigger] rest[i], hash)
            == 0 by {
            assert(rest[i] == chains[i]);
        }
        lemma_no_runs(rest, hash);
        assert(cut.drop_last() =~= rest);
    } else {
        assert forall|i: int| 0 <= i < c implies run_len(#[trigger] rest[i], hash) == 0 by {
            assert(rest[i] == chains[i]);
        }
        lemma_take_part(rest, hash, c, n);
        assert(cut.drop_last() =~= rest.update(c, rest[c].skip(n)));
    }
    assert(gather(chains, hash) =~= chains[c].take(n) + gather(cut, hash));
    assert(behind(chains, hash) =~= behind(cut, hash));
}

/// Nothing delivered, nothing done.
pub proof fn lemma_account_empty<V>(chains: Seq<Seq<Row<V>>>, ended: Seq<bool>)
    ensures
        accounts_for(chains, ended, Seq::empty(), None, chains),
{
    assert forall|more: Seq<Seq<Row<V>>>| #[trigger] may_follow(more, ended) implies series_of(
        extended(chains, more),
    ) == Seq::<Seq<Row<V>>>::empty() + still_to_fold(None, extended(chains, more)) by {
        let s = series_of(extended(chains, more));
        assert(Seq::<Seq<Row<V>>>::empty() + s =~= s);
    }
}

/// Rows arrive on chain `c`.
pub proof fn lemma_account_delivery<V>(
    delivered: Seq<Seq<Row<V>>>,
    ended: Seq<bool>,
    done: Seq<Seq<Row<V>>>,
    open: Option<(u64, Seq<Row<V>>)>,
    pending: Seq<Seq<Row<V>>>,
    c: int,
    rows: Seq<Row<V>>,
)
    requires
        accounts_for(delivered, ended, done, open, pending),
        0 <= c < ended.len(),
        delivered.len() == ended.len(),
        pending.len() == ended.len(),
        !ended[c],
    ensures
        accounts_for(
            delivered.update(c, delivered[c] + rows),
            ended,
            done,
            open,
            pending.update(c, pending[c] + rows),
        ),
{
    let delivered2 = delivered.update(c, delivered[c] + rows);
    let pending2 = pending.update(c, pending[c] + rows);
    assert forall|more: Seq<Seq<Row<V>>>| #[trigger] may_follow(more, ended) implies series_of(
        extended(delivered2, more),
    ) == done + still_to_fold(open, extended(pending2, more)) by {
        let all = more.update(c, rows + more[c]);
        assert forall|i: int| 0 <= i < all.len() && ended[i] implies (#[trigger] all[i]).len()
            == 0 by {
            assert(more[i].len() == 0);
        }
        assert(may_follow(all, ended));
        assert forall|i: int| 0 <= i < delivered.len() implies #[trigger] extended(
            delivered2,
            more,
        )[i] == extended(delivered, all)[i] by {
            if i == c {
                assert((delivered[c] + rows) + more[c] =~= delivered[c] + (rows + more[c]));
            }
        }
        assert(extended(delivered2, more) =~= extended(delivered, all));
        assert forall|i: int| 0 <= i < pending.len() implies #[trigger] extended(
            pending2,
            more,
        )[i] == extended(pending, all)[i] by {
            if i == c {
                assert((pending[c] + rows) + more[c] =~= pending[c] + (rows + more[c]));
            }
        }
        assert(extended(pending2, more) =~= extended(pending, all));
    }
}

/// Chain `c` ends.
pub proof fn lemma_account_end<V>(
    delivered: Seq<Seq<Row<V>>>,
    ended: Seq<bool>,
    done: Seq<Seq<Row<V>>>,
    open: Option<(u64, Seq<Row<V>>)>,
    pending: Seq<Seq<Row<V>>>,
    c: int,
)
    requires
        accounts_for(delivered, ended, done, open, pending),
        0 <= c < ended.len(),
    ensures
        accounts_for(delivered, ended.update(c, true), done, open, pending),
{
    let ended2 = ended.update(c, true);
    assert forall|more: Seq<Seq<Row<V>>>| #[trigger] may_follow(more, ended2) implies series_of(
        extended(delivered, more),
    ) == done + still_to_fold(open, extended(pending, more)) by {
        assert forall|i: int| 0 <= i < more.len() && ended[i] implies (#[trigger] more[i]).len()
            == 0 by {
            assert(ended2[i]);
        }
        assert(may_follow(more, ended));
    }
}

/// The next series is opened, once the head of every chain is known.
pub proof fn lemma_account_open<V>(
    delivered: Seq<Seq<Row<V>>>,
    ended: Seq<bool>,
    done: Seq<Seq<Row<V>>>,
    pending: Seq<Seq<Row<V>>>,
    hash: u64,
)
    requires
        accounts_for(delivered, ended, done, None, pending),
        pending.len() == ended.len(),
        forall|i: int| 0 <= i < pending.len() ==> (#[trigger] pending[i]).len() > 0 || ended[i],
        min_head(pending) == Some(hash),
    ensures
        accounts_for(delivered, ended, done, Some((hash, Seq::empty())), pending),
{
    assert forall|more: Seq<Seq<Row<V>>>| #[trigger] may_follow(more, ended) implies series_of(
        extended(delivered, more),
    ) == done + still_to_fold(Some((hash, Seq::empty())), extended(pending, more)) by {
        assert forall|i: int|
            0 <= i < pending.len() && (#[trigger] pending[i]).len() == 0 implies more[i].len()
            == 0 by {
            assert(ended[i]);
        }
        lemma_extended_min_head(pending, more);
        let chains = extended(pending, more);
        assert(Seq::<Row<V>>::empty() + gather(chains, hash) =~= gather(chains, hash));
    }
}

proof fn lemma_past_has_no_run<V>(rows: Seq<Row<V>>, more: Seq<Row<V>>, ended: bool, hash: u64)
    requires
        is_past(rows, ended, hash),
        ended ==> more.len() == 0,
    ensures
        run_len(rows + more, hash) == 0,
{
    if rows.len() > 0 {
        assert((rows + more)[0] == rows[0]);
    }
}

/// `n` rows of the series under way are taken off chain `c`, once all chains
/// before it are past that series.
pub proof fn lemma_account_take<V>(
    delivered: Seq<Seq<Row<V>>>,
    ended: Seq<bool>,
    done: Seq<Seq<Row<V>>>,
    hash: u64,
    rows: Seq<Row<V>>,
    pending: Seq<Seq<Row<V>>>,
    c: int,
    n: int,
)
    requires
        accounts_for(delivered, ended, done, Some((hash, rows)), pending),
        pending.len() == ended.len(),
        0 <= c < pending.len(),
        0 <= n <= pending[c].len(),
        forall|i: int| 0 <= i < n ==> (#[trigger] pending[c][i]).hash == hash,
        forall|i: int| 0 <= i < c ==> is_past(#[trigger] pending[i], ended[i], hash),
    ensures
        accounts_for(
            delivered,
            ended,
            done,
            Some((hash, rows + pending[c].take(n))),
            pending.update(c, pending[c].skip(n)),
        ),
{
    let pending2 = pending.update(c, pending[c].skip(n));
    let rows2 = rows + pending[c].take(n);
    assert forall|more: Seq<Seq<Row<V>>>| #[trigger] may_follow(more, ended) implies series_of(
        extended(delivered, more),
    ) == done + still_to_fold(Some((hash, rows2)), extended(pending2, more)) by {
        let chains = extended(pending, more);
        assert forall|i: int| 0 <= i < c implies run_len(#[trigger] chains[i], hash) == 0 by {
            assert(ended[i] ==> more[i].len() == 0);
            lemma_past_has_no_run(pending[i], more[i], ended[i], hash);
        }
        lemma_run_len(chains[c], hash);
        if run_len(chains[c], hash) < n {
            let k = run_len(chains[c], hash) as int;
            assert(chains[c][k] == pending[c][k]);
        }
        lemma_take_part(chains, hash, c, n);
        assert(chains[c].take(n) =~= pending[c].take(n));
        assert forall|i: int| 0 <= i < chains.len() implies #[trigger] extended(pending2, more)[i]
            == chains.update(c, chains[c].skip(n))[i] by {
            if i == c {
                assert(pending[c].skip(n) + more[c] =~= (pending[c] + more[c]).skip(n));
            }
        }
        assert(extended(pending2, more) =~= chains.update(c, chains[c].skip(n)));
        let rest = gather(extended(pending2, more), hash);
        assert(rows + (pending[c].take(n) + rest) =~= rows2 + rest);
    }
}

/// The series under way is complete, once all chains are past it.
pub proof fn lemma_account_close<V>(
    delivered: Seq<Seq<Row<V>>>,
    ended: Seq<bool>,
    done: Seq<Seq<Row<V>>>,
    hash: u64,
    rows: Seq<Row<V>>,
    pending: Seq<Seq<Row<V>>>,
)
    requires
        accounts_for(delivered, ended, done, Some((hash, rows)), pending),
        pending.len() == ended.len(),
        forall|i: int| 0 <= i < pending.len() ==> is_past(#[trigger] pending[i], ended[i], hash),
    ensures
        accounts_for(delivered, ended, done.push(rows), None, pending),
{
    assert forall|more: Seq<Seq<Row<V>>>| #[trigger] may_follow(more, ended) implies series_of(
        extended(delivered, more),
    ) == done.push(rows) + still_to_fold(None, extended(pending, more)) by {
        let chains = extended(pending, more);
        assert forall|i: int| 0 <= i < chains.len() implies run_len(#[trigger] chains[i], hash)
            == 0 by {
            assert(ended[i] ==> more[i].len() == 0);
            assert(is_past(pending[i], ended[i], hash));
            lemma_past_has_no_run(pending[i], more[i], ended[i], hash);
        }
        lemma_no_runs(chains, hash);
        assert(rows + Seq::<Row<V>>::empty() =~= rows);
        assert(done + (seq![rows] + series_of(chains)) =~= done.push(rows) + series_of(chains));
    }
}

/// All chains have ended and are used up: the series done are all there are.
pub proof fn lemma_account_finish<V>(
    delivered: Seq<Seq<Row<V>>>,
    ended: Seq<bool>,
    done: Seq<Seq<Row<V>>>,
    pending: Seq<Seq<Row<V>>>,
)
    requires
        accounts_for(delivered, ended, done, None, pending),
        delivered.len() == ended.len(),
        pending.len() == ended.len(),
        forall|i: int| 0 <= i < pending.len() ==> (#[trigger] pending[i]).len() == 0,
    ensures
        series_of(delivered) == done,
{
    let more = Seq::new(ended.len(), |i: int| Seq::<Row<V>>::empty());
    assert(may_follow(more, ended));
    assert forall|i: int| 0 <= i < delivered.len() implies #[trigger] extended(delivered, more)[i]
        == delivered[i] by {
        assert(delivered[i] + Seq::<Row<V>>::empty() =~= delivered[i]);
    }
    assert(extended(delivered, more) =~= delivered);
    let chains = extended(pending, more);
    lemma_min_head(chains);
    if min_head(chains) is Some {
        let i = choose|i: int|
            0 <= i < chains.len() && (#[trigger] chains[i]).len() > 0 && chains[i][0].hash
                == min_head(chains)->0;
        assert(pending[i].len() == 0);
    }
    assert(done + Seq::<Seq<Row<V>>>::empty() =~= done);
}

} // verus!
