//! The fold of one hash band: its chains are merged one series at a time, and
//! each series is folded into the accumulator of its group and dropped.
//!
//! The fold does not read the chains itself. It says which chain it needs a
//! batch of, and is given that batch.
use vstd::prelude::*;

use crate::batch::{Row, Sample, SeriesBatch};
use crate::cursor::{can_be_shifted, shifted, ChainCursor};
use crate::group_key::{
    all_text, hashes_all, hashes_to, label_texts, labels_of, names_first_other,
    signature_writes, Label, NotText,
};
use crate::groups::{
    folds_all, group_key_at, groups_from, lemma_contribute, makes_accs, sigs_of, table_folded,
    Contribution, Group, GroupAccs,
};
use crate::series::{
    accounts_for, behind, behind_run, gather, is_past, lemma_account_close,
    lemma_account_delivery, lemma_account_empty, lemma_account_end, lemma_account_finish,
    lemma_account_open, lemma_account_take, lemma_min_head, lemma_no_runs, lemma_run_len,
    lemma_run_len_is, min_head, run_len, run_of, series_of,
};
use crate::text::texts;

verus! {

/// What all bands of a query share: the group columns, the shift of all
/// timestamps, the hasher of group signatures, how an accumulator is made, and
/// how the samples of a series are folded into it.
pub struct FoldParams<H, N, F> {
    pub group_cols: Vec<String>,
    pub offset: i64,
    pub hash: H,
    pub new_acc: N,
    pub fold: F,
}

/// What a band's fold did, or needs next.
#[derive(Clone, Copy, PartialEq, Eq, Structural, Debug)]
pub enum FoldStep {
    /// The next batch of that chain is needed.
    NeedBatch(usize),
    /// One series was folded.
    Folded,
    /// All chains have ended, and all series were folded.
    Finished,
}

/// The samples are in the order of their times.
pub open spec fn in_time_order<V>(samples: Seq<Sample<V>>) -> bool {
    forall|i: int, j: int|
        0 <= i <= j < samples.len() ==> (#[trigger] samples[i]).timestamp <= (
        #[trigger] samples[j]).timestamp
}

/// `slice::sort_unstable_by_key` on the timestamps: afterwards the same samples
/// are in the order of their times. The order of samples with equal times is
/// left open.
#[verifier::external_body]
fn sort_by_time<V>(samples: &mut Vec<Sample<V>>)
    ensures
        final(samples)@.to_multiset() == old(samples)@.to_multiset(),
        in_time_order(final(samples)@),
{
    samples.sort_unstable_by_key(|sample| sample.timestamp);
}

/// What a series with these rows adds to which group: the labels and the
/// signature are those of its first row, and its samples are put in the order
/// of their times.
pub open spec fn contributes<V, H: Fn(&Vec<&[u8]>) -> u64, N, F>(
    params: FoldParams<H, N, F>,
    rows: Seq<Row<V>>,
    sig: u64,
    contribution: Contribution<V>,
) -> bool {
    &&& rows.len() > 0
    &&& contribution.labels == labels_of(rows[0].cells, texts(params.group_cols@))
    &&& hashes_to(params.hash, signature_writes(contribution.labels), sig)
    &&& contribution.samples.to_multiset() == shifted(rows, params.offset as int).to_multiset()
    &&& in_time_order(contribution.samples)
}

/// Each of these series, in order, makes one of these contributions.
pub open spec fn all_contribute<V, H: Fn(&Vec<&[u8]>) -> u64, N, F>(
    params: FoldParams<H, N, F>,
    series: Seq<Seq<Row<V>>>,
    contributions: Seq<(u64, Contribution<V>)>,
) -> bool {
    &&& contributions.len() == series.len()
    &&& forall|k: int|
        0 <= k < series.len() ==> contributes(
            params,
            series[k],
            (#[trigger] contributions[k]).0,
            contributions[k].1,
        )
}

/// These groups come of folding these series, in order.
pub open spec fn band_folded<
    V,
    A,
    H: Fn(&Vec<&[u8]>) -> u64,
    N: Fn() -> A,
    F: Fn(A, &Vec<Sample<V>>) -> A,
>(params: FoldParams<H, N, F>, series: Seq<Seq<Row<V>>>, groups: Seq<(u64, Group<A>)>) -> bool {
    exists|contributions: Seq<(u64, Contribution<V>)>| #[trigger]
        all_contribute(params, series, contributions) && groups_from(
            params.new_acc,
            params.fold,
            contributions,
            groups,
        )
}

/// One more series was folded into the groups.
pub open spec fn series_folded<
    V,
    A,
    H: Fn(&Vec<&[u8]>) -> u64,
    N: Fn() -> A,
    F: Fn(A, &Vec<Sample<V>>) -> A,
>(
    params: FoldParams<H, N, F>,
    before: Seq<(u64, Group<A>)>,
    rows: Seq<Row<V>>,
    after: Seq<(u64, Group<A>)>,
) -> bool {
    exists|sig: u64, contribution: Contribution<V>| #[trigger]
        contributes(params, rows, sig, contribution) && table_folded(
            params.new_acc,
            params.fold,
            before,
            sig,
            contribution.labels,
            contribution.samples,
            after,
        )
}

/// The first row that is gathered stands at the head of the first chain that
/// begins with that hash.
pub proof fn lemma_first_gathered<V>(chains: Seq<Seq<Row<V>>>, hash: u64, c: int)
    requires
        0 <= c < chains.len(),
        chains[c].len() > 0,
        chains[c][0].hash == hash,
        forall|i: int|
            0 <= i < c && (#[trigger] chains[i]).len() > 0 ==> chains[i][0].hash != hash,
    ensures
        gather(chains, hash).len() > 0,
        gather(chains, hash)[0] == chains[c][0],
    decreases chains.len(),
{
    let rest = chains.drop_last();
    if c == chains.len() - 1 {
        assert forall|i: int| 0 <= i < rest.len() implies run_len(#[trigger] rest[i], hash)
            == 0 by {
            assert(rest[i] == chains[i]);
            lemma_run_len_is(rest[i], hash, 0);
        }
        lemma_no_runs(rest, hash);
        lemma_run_len(chains[c], hash);
        assert(gather(chains, hash) =~= run_of(chains[c], hash));
    } else {
        assert forall|i: int| 0 <= i < c && (#[trigger] rest[i]).len() > 0 implies rest[i][0].hash
            != hash by {
            assert(rest[i] == chains[i]);
        }
        lemma_first_gathered(rest, hash, c);
    }
}

/// Every row of the chains has a cell for each of `group_cols` group columns.
pub open spec fn has_all_cells<V>(chains: Seq<Seq<Row<V>>>, group_cols: nat) -> bool {
    forall|i: int, k: int|
        0 <= i < chains.len() && 0 <= k < chains[i].len() ==> (#[trigger] chains[i][k]).cells.len()
            == group_cols
}

/// The times of all rows of the chains can be shifted by `offset`.
pub open spec fn all_shift<V>(chains: Seq<Seq<Row<V>>>, offset: int) -> bool {
    forall|i: int| 0 <= i < chains.len() ==> can_be_shifted(#[trigger] chains[i], offset)
}

/// The hasher, the maker and the fold can be called on whatever comes up.
pub open spec fn usable<
    V,
    A,
    H: Fn(&Vec<&[u8]>) -> u64,
    N: Fn() -> A,
    F: Fn(A, &Vec<Sample<V>>) -> A,
>(params: FoldParams<H, N, F>) -> bool {
    &&& hashes_all(params.hash)
    &&& makes_accs(params.new_acc)
    &&& folds_all(params.fold)
}

/// A series under way: its hash and its group.
struct OpenSeries {
    hash: u64,
    sig: u64,
    labels: Option<Vec<Label>>,
}

/// What has passed through a fold.
struct Books<V> {
    /// All rows that were delivered, chain by chain.
    delivered: Seq<Seq<Row<V>>>,
    /// The series that were folded.
    done: Seq<Seq<Row<V>>>,
    /// What they added to which group.
    contributions: Seq<(u64, Contribution<V>)>,
    /// The rows of the series under way, and its first row.
    rows: Seq<Row<V>>,
    key: Row<V>,
}

/// The chains when the leading runs of a hash were taken off the first `n`.
pub open spec fn behind_first<V>(chains: Seq<Seq<Row<V>>>, hash: u64, n: int) -> Seq<Seq<Row<V>>> {
    Seq::new(
        chains.len(),
        |i: int|
            if i < n {
                behind_run(chains[i], hash)
            } else {
                chains[i]
            },
    )
}

/// The leading run of that hash may go on in the next batch of the chain.
pub open spec fn may_go_on<V>(rows: Seq<Row<V>>, ended: bool, hash: u64) -> bool {
    !ended && run_len(rows, hash) == rows.len()
}

/// A run may go on just where the chain has not ended and all its rows at hand
/// have that hash.
pub proof fn lemma_may_go_on<V>(rows: Seq<Row<V>>, ended: bool, hash: u64)
    ensures
        may_go_on(rows, ended, hash) <==> !ended && (forall|k: int|
            0 <= k < rows.len() ==> (#[trigger] rows[k]).hash == hash),
{
    lemma_run_len(rows, hash);
    if forall|k: int| 0 <= k < rows.len() ==> (#[trigger] rows[k]).hash == hash {
        lemma_run_len_is(rows, hash, rows.len() as int);
    }
}

/// The runs are taken off the first chains, and the others stay as they are.
pub proof fn runs_are_taken_off_the_first_chains<V>(
    chains: Seq<Seq<Row<V>>>,
    hash: u64,
    n: int,
)
    ensures
        behind_first(chains, hash, n).len() == chains.len(),
        forall|i: int|
            0 <= i < chains.len() && i < n ==> #[trigger] behind_first(chains, hash, n)[i]
                == behind_run(chains[i], hash),
        forall|i: int|
            0 <= i < chains.len() && i >= n ==> #[trigger] behind_first(chains, hash, n)[i]
                == chains[i],
{
}

/// All that is asked of the functions that are handed in is that they can be
/// called.
pub proof fn folds_need_only_callable_functions<
    V,
    A,
    H: Fn(&Vec<&[u8]>) -> u64,
    N: Fn() -> A,
    F: Fn(A, &Vec<Sample<V>>) -> A,
>(params: FoldParams<H, N, F>)
    requires
        forall|parts: Vec<&[u8]>| #[trigger] call_requires(params.hash, (&parts,)),
        call_requires(params.new_acc, ()),
        forall|acc: A, samples: Vec<Sample<V>>| #[trigger]
            call_requires(params.fold, (acc, &samples)),
    ensures
        usable(params),
{
}

/// Samples are in the order of their times just where none is later than one
/// that follows it.
pub proof fn time_order_is_pairwise<V>(samples: Seq<Sample<V>>)
    ensures
        in_time_order(samples) <==> forall|i: int, j: int|
            0 <= i <= j < samples.len() ==> (#[trigger] samples[i]).timestamp <= (
            #[trigger] samples[j]).timestamp,
{
}

/// What holds of the rows of all chains holds of each row, and what holds of
/// each holds of all.
pub proof fn rows_fit_one_by_one<V>(chains: Seq<Seq<Row<V>>>, group_cols: nat, offset: int)
    ensures
        has_all_cells(chains, group_cols) <==> forall|i: int, k: int|
            0 <= i < chains.len() && 0 <= k < chains[i].len() ==> (
            #[trigger] chains[i][k]).cells.len() == group_cols,
        all_shift(chains, offset) <==> forall|i: int, k: int|
            0 <= i < chains.len() && 0 <= k < chains[i].len() ==> i64::MIN <= (
            #[trigger] chains[i][k]).timestamp + offset <= i64::MAX,
{
    if forall|i: int, k: int|
        0 <= i < chains.len() && 0 <= k < chains[i].len() ==> i64::MIN <= (
        #[trigger] chains[i][k]).timestamp + offset <= i64::MAX {
        assert forall|i: int| 0 <= i < chains.len() implies can_be_shifted(
            #[trigger] chains[i],
            offset,
        ) by {
            assert forall|k: int| 0 <= k < chains[i].len() implies i64::MIN <= (
            #[trigger] chains[i][k]).timestamp + offset <= i64::MAX by {}
        }
    }
    if all_shift(chains, offset) {
        assert forall|i: int, k: int|
            0 <= i < chains.len() && 0 <= k < chains[i].len() implies i64::MIN <= (
        #[trigger] chains[i][k]).timestamp + offset <= i64::MAX by {
            assert(can_be_shifted(chains[i], offset));
        }
    }
}

/// The fold of one band. `chain` is the chain that is being read for the series
/// under way.
pub struct BandFold<'p, V, A, H, N, F> {
    params: &'p FoldParams<H, N, F>,
    cursors: Vec<ChainCursor<V>>,
    open: Option<OpenSeries>,
    chain: usize,
    samples: Vec<Sample<V>>,
    groups: GroupAccs<A>,
    series_count: usize,
    books: Ghost<Books<V>>,
}

impl<
    'p,
    V: Copy,
    A,
    H: Fn(&Vec<&[u8]>) -> u64,
    N: Fn() -> A,
    F: Fn(A, &Vec<Sample<V>>) -> A,
> BandFold<'p, V, A, H, N, F> {
    /// What the bands share.
    pub closed spec fn params(&self) -> FoldParams<H, N, F> {
        *self.params
    }

    /// How many chains are merged.
    pub closed spec fn chains(&self) -> int {
        self.cursors@.len() as int
    }

    /// The rows at hand, chain by chain.
    pub closed spec fn pending(&self) -> Seq<Seq<Row<V>>> {
        self.cursors@.map_values(|c: ChainCursor<V>| c.pending())
    }

    /// Which chains have ended.
    pub closed spec fn ended(&self) -> Seq<bool> {
        self.cursors@.map_values(|c: ChainCursor<V>| c.ended())
    }

    /// All rows that were ever delivered, chain by chain.
    pub closed spec fn delivered(&self) -> Seq<Seq<Row<V>>> {
        self.books@.delivered
    }

    /// The series that were folded, in order.
    pub closed spec fn series(&self) -> Seq<Seq<Row<V>>> {
        self.books@.done
    }

    /// The series under way, if there is one: its hash, and its rows so far.
    pub closed spec fn under_way(&self) -> Option<(u64, Seq<Row<V>>)> {
        match self.open {
            Some(o) => Some((o.hash, self.books@.rows)),
            None => None,
        }
    }

    /// The samples that are held in memory.
    pub closed spec fn held(&self) -> Seq<Sample<V>> {
        self.samples@
    }

    /// The groups so far.
    pub closed spec fn groups(&self) -> Seq<(u64, Group<A>)> {
        self.groups@
    }

    /// Chain `i` has no rows at hand, and may go on.
    pub open spec fn waits(&self, i: int) -> bool {
        self.pending()[i].len() == 0 && !self.ended()[i]
    }

    /// Some chain has no rows at hand, and may go on.
    pub open spec fn some_chain_waits(&self) -> bool {
        exists|i: int| 0 <= i < self.chains() && #[trigger] self.waits(i)
    }

    /// The hash of the series under way, or else of the next one.
    pub open spec fn next_hash(&self) -> Option<u64> {
        match self.under_way() {
            Some((hash, _)) => Some(hash),
            None => min_head(self.pending()),
        }
    }

    /// Before more is folded the next batch of chain `i` must be seen: between
    /// two series because the head of the chain is not known, within a series
    /// because its run may go on.
    pub open spec fn blocked_by(&self, i: int) -> bool {
        &&& 0 <= i < self.chains()
        &&& !self.ended()[i]
        &&& if self.under_way() is None && self.some_chain_waits() {
            self.pending()[i].len() == 0
        } else {
            match self.next_hash() {
                Some(hash) => may_go_on(self.pending()[i], self.ended()[i], hash),
                None => false,
            }
        }
    }

    /// The next series cannot be opened: its first row has a group column that
    /// holds no text.
    pub open spec fn key_fails(&self) -> bool {
        &&& self.under_way() is None
        &&& !self.some_chain_waits()
        &&& match min_head(self.pending()) {
            Some(hash) => !all_text(gather(self.pending(), hash)[0].cells),
            None => false,
        }
    }

    /// All chains have ended, and all their rows were folded.
    pub open spec fn is_finished(&self) -> bool {
        &&& self.under_way() is None
        &&& forall|i: int|
            0 <= i < self.chains() ==> (#[trigger] self.pending()[i]).len() == 0
                && self.ended()[i]
    }

    /// All but the series under way.
    spec fn settled_wf(&self) -> bool {
        let books = self.books@;
        &&& usable(*self.params)
        &&& books.delivered.len() == self.cursors@.len()
        &&& has_all_cells(books.delivered, self.params.group_cols@.len())
        &&& all_shift(books.delivered, self.params.offset as int)
        &&& forall|i: int|
            0 <= i < self.cursors@.len() ==> {
                &&& (#[trigger] self.cursors@[i]).wf()
                &&& self.cursors@[i].fits(
                    self.params.group_cols@.len() as int,
                    self.params.offset as int,
                )
            }
        &&& accounts_for(
            books.delivered,
            self.ended(),
            books.done,
            self.under_way(),
            self.pending(),
        )
        &&& self.groups.wf()
        &&& all_contribute(*self.params, books.done, books.contributions)
        &&& groups_from(
            self.params.new_acc,
            self.params.fold,
            books.contributions,
            self.groups@,
        )
        &&& self.series_count == books.done.len()
    }

    /// The series under way, of which chain `c` is to be read next. It may have
    /// been opened just now.
    spec fn reads(&self, c: int) -> bool {
        let books = self.books@;
        let own = labels_of(books.key.cells, texts(self.params.group_cols@));
        let o = self.open->0;
        &&& self.samples@ == shifted(books.rows, self.params.offset as int)
        &&& forall|i: int|
            0 <= i < c ==> is_past(#[trigger] self.pending()[i], self.ended()[i], o.hash)
        &&& forall|i: int|
            c < i < self.cursors@.len() ==> (#[trigger] self.pending()[i]).len() > 0
                || self.ended()[i]
        &&& if books.rows.len() > 0 {
            books.rows[0] == books.key
        } else {
            &&& c < self.cursors@.len()
            &&& self.pending()[c].len() > 0
            &&& self.pending()[c][0] == books.key
            &&& books.key.hash == o.hash
        }
        &&& hashes_to(self.params.hash, signature_writes(own), o.sig)
        &&& match o.labels {
            Some(l) => label_texts(l@) == own,
            None => sigs_of(self.groups@).contains(o.sig),
        }
    }

    /// The series under way, if there is one.
    spec fn open_wf(&self) -> bool {
        if self.open is Some {
            self.chain < self.cursors@.len() && self.reads(self.chain as int)
        } else {
            self.samples@.len() == 0 && self.books@.rows.len() == 0
        }
    }

    /// The fold is in order.
    pub closed spec fn wf(&self) -> bool {
        &&& self.settled_wf()
        &&& self.open_wf()
        &&& self.open is Some ==> self.books@.rows.len() > 0
    }

    /// Every row that was delivered has a cell for each group column, and its
    /// time can be shifted.
    pub proof fn delivered_rows_fit(&self)
        requires
            self.wf(),
        ensures
            self.delivered().len() == self.chains(),
            has_all_cells(self.delivered(), self.params().group_cols@.len()),
            all_shift(self.delivered(), self.params().offset as int),
    {
    }

    /// A chain waits where no rows of it are at hand and it has not ended. The
    /// fold is finished where no series is under way, no rows are at hand, and
    /// all chains have ended.
    pub proof fn chains_wait_until_they_end(&self)
        ensures
            forall|i: int| #[trigger]
                self.waits(i) <==> self.pending()[i].len() == 0 && !self.ended()[i],
            self.some_chain_waits() <==> exists|i: int|
                {
                    &&& 0 <= i < self.chains()
                    &&& (#[trigger] self.pending()[i]).len() == 0
                    &&& !self.ended()[i]
                },
            self.is_finished() <==> {
                &&& self.under_way() is None
                &&& forall|i: int|
                    0 <= i < self.chains() ==> (#[trigger] self.pending()[i]).len() == 0
                        && self.ended()[i]
            },
    {
        if exists|i: int|
            {
                &&& 0 <= i < self.chains()
                &&& (#[trigger] self.pending()[i]).len() == 0
                &&& !self.ended()[i]
            } {
            let i = choose|i: int|
                {
                    &&& 0 <= i < self.chains()
                    &&& (#[trigger] self.pending()[i]).len() == 0
                    &&& !self.ended()[i]
                };
            assert(self.waits(i));
        }
    }

    /// The next hash is that of the series under way; where there is none, it is
    /// the smallest hash at the head of a chain, if any chain has rows at hand.
    pub proof fn the_next_hash_is_the_smallest(&self)
        ensures
            self.under_way() matches Some((hash, _)) ==> self.next_hash() == Some(hash),
            self.under_way() is None ==> match self.next_hash() {
                Some(hash) => {
                    &&& exists|i: int|
                        {
                            &&& 0 <= i < self.pending().len()
                            &&& (#[trigger] self.pending()[i]).len() > 0
                            &&& self.pending()[i][0].hash == hash
                        }
                    &&& forall|i: int|
                        0 <= i < self.pending().len() && (#[trigger] self.pending()[i]).len() > 0
                            ==> hash <= self.pending()[i][0].hash
                },
                None => forall|i: int|
                    0 <= i < self.pending().len() ==> (#[trigger] self.pending()[i]).len() == 0,
            },
    {
        lemma_min_head(self.pending());
    }

    /// Between two series the next batch is needed of every chain that waits.
    /// Where none waits, and within a series, it is needed of every chain that
    /// has not ended and all whose rows at hand belong to the series: to the one
    /// under way, or else to that of the smallest hash at the head of a chain.
    pub proof fn batches_are_needed_where_a_run_may_go_on(&self, i: int, hash: u64)
        requires
            0 <= i < self.chains(),
        ensures
            self.pending().len() == self.chains(),
            self.ended().len() == self.chains(),
            self.under_way() is None && self.some_chain_waits() ==> (self.blocked_by(i)
                <==> self.pending()[i].len() == 0 && !self.ended()[i]),
            self.under_way() matches Some((h, _)) ==> (self.blocked_by(i) <==> !self.ended()[i] && (
            forall|k: int|
                0 <= k < self.pending()[i].len() ==> (#[trigger] self.pending()[i][k]).hash == h)),
            self.under_way() is None && !self.some_chain_waits() && (exists|c: int|
                {
                    &&& 0 <= c < self.chains()
                    &&& (#[trigger] self.pending()[c]).len() > 0
                    &&& self.pending()[c][0].hash == hash
                }) && (forall|c: int|
                0 <= c < self.chains() && (#[trigger] self.pending()[c]).len() > 0 ==> hash
                    <= self.pending()[c][0].hash) ==> (self.blocked_by(i) <==> !self.ended()[i] && (
            forall|k: int|
                0 <= k < self.pending()[i].len() ==> (#[trigger] self.pending()[i][k]).hash
                    == hash)),
            self.under_way() is None && !self.some_chain_waits() && (forall|c: int|
                0 <= c < self.chains() ==> (#[trigger] self.pending()[c]).len() == 0)
                ==> !self.blocked_by(i),
    {
        let chains = self.pending();
        lemma_min_head(chains);
        if self.under_way() is Some {
            lemma_may_go_on(chains[i], self.ended()[i], (self.under_way()->0).0);
        }
        if min_head(chains) is Some {
            lemma_may_go_on(chains[i], self.ended()[i], min_head(chains)->0);
            let d = choose|d: int|
                0 <= d < chains.len() && (#[trigger] chains[d]).len() > 0 && chains[d][0].hash
                    == min_head(chains)->0;
            assert(chains[d].len() > 0);
        }
    }

    /// A series cannot be opened just where no other is under way, no chain
    /// waits, and the row that it begins with holds no text in some group column:
    /// the row at the head of the first chain that begins with the smallest
    /// hash.
    pub proof fn a_series_fails_by_its_first_row(&self, hash: u64, c: int)
        ensures
            self.under_way() is Some || self.some_chain_waits() ==> !self.key_fails(),
            (forall|i: int| 0 <= i < self.pending().len() ==> (#[trigger] self.pending()[i]).len()
                == 0) ==> !self.key_fails(),
            self.under_way() is None && !self.some_chain_waits() && 0 <= c < self.pending().len()
                && self.pending()[c].len() > 0 && self.pending()[c][0].hash == hash && (forall|
                i: int,
            |
                0 <= i < self.pending().len() && (#[trigger] self.pending()[i]).len() > 0 ==> hash
                    <= self.pending()[i][0].hash) && (forall|i: int|
                0 <= i < c && (#[trigger] self.pending()[i]).len() > 0 ==> self.pending()[i][0].hash
                    != hash) ==> (self.key_fails() <==> exists|k: int|
                0 <= k < self.pending()[c][0].cells.len() && (
                #[trigger] self.pending()[c][0].cells[k]) is Other),
    {
        let chains = self.pending();
        lemma_min_head(chains);
        if 0 <= c < chains.len() && chains[c].len() > 0 && chains[c][0].hash == hash && (forall|
            i: int,
        |
            0 <= i < chains.len() && (#[trigger] chains[i]).len() > 0 ==> hash
                <= chains[i][0].hash) && (forall|i: int|
            0 <= i < c && (#[trigger] chains[i]).len() > 0 ==> chains[i][0].hash != hash) {
            lemma_first_gathered(chains, hash, c);
            let d = choose|d: int|
                0 <= d < chains.len() && (#[trigger] chains[d]).len() > 0 && chains[d][0].hash
                    == min_head(chains)->0;
            assert(chains[d].len() > 0);
            assert(min_head(chains) == Some(hash));
        }
    }

    /// The sample matrix is never held: the samples that are held are those of
    /// the one series under way, and between two series there are none.
    pub proof fn holds_one_series_at_most(&self)
        requires
            self.wf(),
        ensures
            self.held() == match self.under_way() {
                Some((_, rows)) => shifted(rows, self.params().offset as int),
                None => Seq::<Sample<V>>::empty(),
            },
    {
        if self.open is None {
            assert(self.held() =~= Seq::<Sample<V>>::empty());
        }
    }

    /// The fold of a band with that many chains, before any batch.
    pub fn new(params: &'p FoldParams<H, N, F>, chains: usize) -> (band: Self)
        requires
            usable(*params),
        ensures
            band.wf(),
            band.params() == *params,
            band.chains() == chains,
            band.pending() == Seq::new(chains as nat, |i: int| Seq::<Row<V>>::empty()),
            band.ended() == Seq::new(chains as nat, |i: int| false),
            band.delivered() == Seq::new(chains as nat, |i: int| Seq::<Row<V>>::empty()),
            band.series() == Seq::<Seq<Row<V>>>::empty(),
            band.under_way() is None,
            band.groups() == Seq::<(u64, Group<A>)>::empty(),
    {
        let mut cursors: Vec<ChainCursor<V>> = Vec::with_capacity(chains);
        let mut i: usize = 0;
        while i < chains
            invariant
                i <= chains,
                cursors@.len() == i,
                forall|k: int|
                    0 <= k < i ==> {
                        let c = #[trigger] cursors@[k];
                        &&& c.wf()
                        &&& c.fits(params.group_cols@.len() as int, params.offset as int)
                        &&& c.pending() == Seq::<Row<V>>::empty()
                        &&& !c.ended()
                    },
            decreases chains - i,
        {
            cursors.push(ChainCursor::start());
            i += 1;
        }
        let ghost nothing = Seq::new(chains as nat, |i: int| Seq::<Row<V>>::empty());
        let band = BandFold {
            params,
            cursors,
            open: None,
            chain: 0,
            samples: Vec::new(),
            groups: GroupAccs::new(),
            series_count: 0,
            books: Ghost(
                Books {
                    delivered: nothing,
                    done: Seq::empty(),
                    contributions: Seq::empty(),
                    rows: Seq::empty(),
                    key: arbitrary(),
                },
            ),
        };
        proof {
            assert(band.pending() =~= nothing);
            assert(band.ended() =~= Seq::new(chains as nat, |i: int| false));
            lemma_account_empty(nothing, band.ended());
            assert(sigs_of(band.groups@) =~= Seq::<u64>::empty());
        }
        band
    }

    /// Takes the next batch of a chain that waits, or none where the chain has
    /// ended.
    pub fn next_batch(&mut self, chain: usize, batch: Option<SeriesBatch<V>>)
        requires
            old(self).wf(),
            chain < old(self).chains(),
            old(self).waits(chain as int),
            batch matches Some(b) ==> {
                &&& b.wf()
                &&& b.labels@.len() == old(self).params().group_cols@.len()
                &&& b.shifts_by(old(self).params().offset as int)
            },
        ensures
            final(self).wf(),
            final(self).params() == old(self).params(),
            final(self).chains() == old(self).chains(),
            final(self).series() == old(self).series(),
            final(self).under_way() == old(self).under_way(),
            final(self).groups() == old(self).groups(),
            match batch {
                Some(b) => {
                    &&& final(self).pending() == old(self).pending().update(
                        chain as int,
                        b.rows(),
                    )
                    &&& final(self).ended() == old(self).ended()
                    &&& final(self).delivered() == old(self).delivered().update(
                        chain as int,
                        old(self).delivered()[chain as int] + b.rows(),
                    )
                },
                None => {
                    &&& final(self).pending() == old(self).pending()
                    &&& final(self).ended() == old(self).ended().update(chain as int, true)
                    &&& final(self).delivered() == old(self).delivered()
                },
            },
    {
        let ghost c = chain as int;
        let ghost pending = self.pending();
        let ghost ended = self.ended();
        let ghost books = self.books@;
        let ghost rows = if batch is Some {
            batch->0.rows()
        } else {
            Seq::empty()
        };
        let ghost over = batch is None;
        self.cursors[chain].next_batch(batch);
        proof {
            let delivered = books.delivered.update(c, books.delivered[c] + rows);
            lemma_account_delivery(
                books.delivered,
                ended,
                books.done,
                self.under_way(),
                pending,
                c,
                rows,
            );
            assert(pending[c] + rows =~= rows);
            assert forall|i: int, k: int|
                0 <= i < delivered.len() && 0 <= k < delivered[i].len() implies (
            #[trigger] delivered[i][k]).cells.len() == self.params.group_cols@.len() by {
                let had = books.delivered[i];
                if k < had.len() {
                    assert(delivered[i][k] == had[k]);
                } else {
                    assert(delivered[i][k] == rows[k - had.len()]);
                }
            }
            assert forall|i: int| 0 <= i < delivered.len() implies can_be_shifted(
                #[trigger] delivered[i],
                self.params.offset as int,
            ) by {
                let had = books.delivered[i];
                assert(can_be_shifted(had, self.params.offset as int));
                assert forall|k: int| 0 <= k < delivered[i].len() implies i64::MIN <= (
                #[trigger] delivered[i][k]).timestamp + self.params.offset <= i64::MAX by {
                    if k < had.len() {
                        assert(delivered[i][k] == had[k]);
                    } else {
                        assert(delivered[i][k] == rows[k - had.len()]);
                        assert(i64::MIN <= batch->0.times@[k - had.len()] + self.params.offset
                            <= i64::MAX);
                    }
                }
            }
            assert(self.pending() =~= pending.update(c, pending[c] + rows));
            if over {
                assert(books.delivered[c] + rows =~= books.delivered[c]);
                assert(delivered =~= books.delivered);
                assert(pending.update(c, pending[c] + rows) =~= pending);
                lemma_account_end(
                    delivered,
                    ended,
                    books.done,
                    self.under_way(),
                    self.pending(),
                    c,
                );
                assert(self.ended() =~= ended.update(c, true));
            } else {
                assert(self.ended() =~= ended);
            }
            self.books@ = Books { delivered, ..books };
        }
    }

    fn first_waiting(&self) -> (chain: Option<usize>)
        requires
            self.settled_wf(),
        ensures
            match chain {
                Some(c) => {
                    &&& c < self.chains()
                    &&& self.waits(c as int)
                    &&& forall|i: int| 0 <= i < c ==> !(#[trigger] self.waits(i))
                },
                None => !self.some_chain_waits(),
            },
    {
        let mut c: usize = 0;
        while c < self.cursors.len()
            invariant
                self.settled_wf(),
                c <= self.cursors@.len(),
                forall|i: int| 0 <= i < c ==> !(#[trigger] self.waits(i)),
            decreases self.cursors@.len() - c,
        {
            let waiting: bool = self.cursors[c].is_waiting();
            assert(waiting == self.waits(c as int));
            if waiting {
                return Some(c);
            }
            c += 1;
        }
        None
    }

    fn first_min_head(&self) -> (head: Option<(u64, usize)>)
        requires
            self.settled_wf(),
        ensures
            match head {
                Some((hash, c)) => {
                    &&& min_head(self.pending()) == Some(hash)
                    &&& c < self.chains()
                    &&& self.pending()[c as int].len() > 0
                    &&& self.pending()[c as int][0].hash == hash
                    &&& forall|i: int|
                        0 <= i < c && (#[trigger] self.pending()[i]).len() > 0
                            ==> self.pending()[i][0].hash != hash
                },
                None => min_head(self.pending()) is None,
            },
    {
        let mut found: Option<(u64, usize)> = None;
        let mut c: usize = 0;
        while c < self.cursors.len()
            invariant
                self.settled_wf(),
                c <= self.cursors@.len(),
                match found {
                    Some((hash, at)) => {
                        &&& at < c
                        &&& self.pending()[at as int].len() > 0
                        &&& self.pending()[at as int][0].hash == hash
                        &&& forall|i: int|
                            0 <= i < c && (#[trigger] self.pending()[i]).len() > 0 ==> hash
                                <= self.pending()[i][0].hash
                        &&& forall|i: int|
                            0 <= i < at && (#[trigger] self.pending()[i]).len() > 0
                                ==> self.pending()[i][0].hash != hash
                    },
                    None => forall|i: int|
                        0 <= i < c ==> (#[trigger] self.pending()[i]).len() == 0,
                },
            decreases self.cursors@.len() - c,
        {
            let head: Option<u64> = self.cursors[c].head_hash();
            assert(self.pending()[c as int] == self.cursors@[c as int].pending());
            if let Some(hash) = head {
                let smaller: bool = match found {
                    Some((best, _)) => hash < best,
                    None => true,
                };
                if smaller {
                    found = Some((hash, c));
                }
            }
            c += 1;
        }
        proof {
            lemma_min_head(self.pending());
            if min_head(self.pending()) is Some {
                let i = choose|i: int|
                    0 <= i < self.pending().len() && (#[trigger] self.pending()[i]).len() > 0
                        && self.pending()[i][0].hash == min_head(self.pending())->0;
                assert(self.pending()[i].len() > 0);
            }
        }
        found
    }

    /// Reads the series under way as far as its rows are at hand. Gives the
    /// chain whose next batch is needed to go on.
    fn gather_runs(&mut self) -> (blocker: Option<usize>)
        requires
            old(self).settled_wf(),
            old(self).open_wf(),
            old(self).open is Some,
        ensures
            final(self).settled_wf(),
            final(self).params == old(self).params,
            final(self).open == old(self).open,
            final(self).groups == old(self).groups,
            final(self).series_count == old(self).series_count,
            final(self).ended() == old(self).ended(),
            final(self).books@.rows.len() > 0,
            final(self).books@ == (Books { rows: final(self).books@.rows, ..old(self).books@ }),
            ({
                let hash = old(self).open->0.hash;
                let chains = old(self).pending();
                match blocker {
                    Some(c) => {
                        &&& final(self).open_wf()
                        &&& c < chains.len()
                        &&& may_go_on(chains[c as int], old(self).ended()[c as int], hash)
                        &&& forall|i: int|
                            0 <= i < c ==> !may_go_on(
                                #[trigger] chains[i],
                                old(self).ended()[i],
                                hash,
                            )
                        &&& final(self).pending() == behind_first(chains, hash, c + 1)
                        &&& final(self).books@.rows == old(self).books@.rows + gather(
                            chains.take(c + 1),
                            hash,
                        )
                    },
                    None => {
                        &&& final(self).reads(chains.len() as int)
                        &&& forall|i: int|
                            0 <= i < chains.len() ==> !may_go_on(
                                #[trigger] chains[i],
                                old(self).ended()[i],
                                hash,
                            )
                        &&& final(self).pending() == behind(chains, hash)
                        &&& final(self).books@.rows == old(self).books@.rows + gather(chains, hash)
                    },
                }
            }),
    {
        let ghost chains = self.pending();
        let ghost ended = self.ended();
        let ghost rows = self.books@.rows;
        let hash: u64 = match &self.open {
            Some(o) => o.hash,
            None => 0,
        };
        let offset: i64 = self.params.offset;
        let count: usize = self.cursors.len();
        let mut c: usize = self.chain;
        proof {
            let first = c as int;
            assert forall|i: int| 0 <= i < first implies run_len(#[trigger] chains[i], hash) == 0
                && !may_go_on(chains[i], ended[i], hash) by {
                lemma_run_len_is(chains[i], hash, 0);
            }
            assert forall|i: int| 0 <= i < first implies run_len(
                #[trigger] chains.take(first)[i],
                hash,
            ) == 0 by {
                assert(chains.take(first)[i] == chains[i]);
            }
            lemma_no_runs(chains.take(first), hash);
            assert(rows + gather(chains.take(first), hash) =~= rows);
            assert forall|i: int| 0 <= i < chains.len() implies behind_first(chains, hash, first)[i]
                == #[trigger] chains[i] by {
                if i < first {
                    assert(chains[i].skip(0) =~= chains[i]);
                }
            }
            assert(behind_first(chains, hash, first) =~= chains);
        }
        while c < count
            invariant
                old(self).chain <= c <= count,
                count == chains.len(),
                count == self.cursors@.len(),
                chains == old(self).pending(),
                ended == old(self).ended(),
                rows == old(self).books@.rows,
                hash == old(self).open->0.hash,
                old(self).open is Some,
                old(self).chain < count,
                offset == self.params.offset,
                self.settled_wf(),
                self.params == old(self).params,
                self.open == old(self).open,
                self.groups == old(self).groups,
                self.series_count == old(self).series_count,
                self.books@ == (Books { rows: self.books@.rows, ..old(self).books@ }),
                self.reads(c as int),
                c > old(self).chain ==> {
                    &&& self.books@.rows.len() > 0
                    &&& c < count ==> self.pending()[c as int].len() > 0 || ended[c as int]
                },
                self.ended() == ended,
                self.pending() == behind_first(chains, hash, c as int),
                self.books@.rows == rows + gather(chains.take(c as int), hash),
                forall|i: int| 0 <= i < c ==> !may_go_on(#[trigger] chains[i], ended[i], hash),
            decreases count - c,
        {
            let ghost at = c as int;
            let ghost before = self.pending();
            let ghost books = self.books@;
            let ghost samples = self.samples@;
            let ghost n = run_len(before[at], hash) as int;
            assert(before[at] == self.cursors@[at].pending());
            assert(before[at] == chains[at]);
            proof {
                self.cursors@[at].lemma_fits(self.params.group_cols@.len() as int, offset as int);
                lemma_run_len(before[at], hash);
                assert forall|i: int| 0 <= i < run_of(before[at], hash).len() implies i64::MIN <= (
                #[trigger] run_of(before[at], hash)[i]).timestamp + offset <= i64::MAX by {
                    assert(run_of(before[at], hash)[i] == before[at][i]);
                }
                assert(can_be_shifted(run_of(before[at], hash), offset as int));
            }
            self.cursors[c].consume_run(hash, offset, &mut self.samples);
            proof {
                lemma_run_len(before[at], hash);
                lemma_account_take(
                    books.delivered,
                    ended,
                    books.done,
                    hash,
                    books.rows,
                    before,
                    at,
                    n,
                );
                let taken = before[at].take(n);
                self.books@ = Books { rows: books.rows + taken, ..books };
                assert(self.pending() =~= before.update(at, before[at].skip(n)));
                assert(self.ended() =~= ended);
                assert(self.pending() =~= behind_first(chains, hash, at + 1));
                assert(chains.take(at + 1).drop_last() =~= chains.take(at));
                assert(self.books@.rows =~= rows + gather(chains.take(at + 1), hash));
                assert(self.samples@ =~= shifted(self.books@.rows, offset as int));
                if books.rows.len() == 0 {
                    assert(n > 0);
                    assert(self.books@.rows[0] == before[at][0]);
                } else {
                    assert(self.books@.rows[0] == books.rows[0]);
                }
            }
            if self.cursors[c].is_waiting() {
                self.chain = c;
                assert(self.pending()[at] == self.cursors@[at].pending());
                return Some(c);
            }
            proof {
                assert(self.pending()[at] == self.cursors@[at].pending());
                if self.pending()[at].len() > 0 {
                    assert(self.pending()[at][0] == before[at][n]);
                }
                assert(is_past(self.pending()[at], ended[at], hash));
                assert(!may_go_on(chains[at], ended[at], hash));
            }
            c += 1;
        }
        proof {
            assert(behind_first(chains, hash, count as int) =~= behind(chains, hash));
            assert(chains.take(count as int) =~= chains);
        }
        None
    }

    /// Opens the series of the smallest head hash, whose first row stands at
    /// the head of `chain`.
    fn open_series(&mut self, hash: u64, chain: usize) -> (opened: Result<(), NotText>)
        requires
            old(self).wf(),
            old(self).open is None,
            !old(self).some_chain_waits(),
            min_head(old(self).pending()) == Some(hash),
            chain < old(self).chains(),
            old(self).pending()[chain as int].len() > 0,
            old(self).pending()[chain as int][0].hash == hash,
            forall|i: int|
                0 <= i < chain && (#[trigger] old(self).pending()[i]).len() > 0 ==> old(
                    self,
                ).pending()[i][0].hash != hash,
        ensures
            match opened {
                Ok(()) => {
                    &&& all_text(old(self).pending()[chain as int][0].cells)
                    &&& final(self).settled_wf()
                    &&& final(self).open_wf()
                    &&& final(self).params == old(self).params
                    &&& final(self).groups == old(self).groups
                    &&& final(self).series_count == old(self).series_count
                    &&& final(self).pending() == old(self).pending()
                    &&& final(self).ended() == old(self).ended()
                    &&& final(self).open matches Some(o)
                    &&& o.hash == hash
                    &&& final(self).books@ == (Books {
                        key: final(self).books@.key,
                        ..old(self).books@
                    })
                },
                Err(e) => {
                    &&& *final(self) == *old(self)
                    &&& names_first_other(
                        old(self).pending()[chain as int][0].cells,
                        old(self).params().group_cols@,
                        e,
                    )
                },
            },
    {
        let ghost pending = self.pending();
        let ghost at = chain as int;
        let ghost key = pending[at][0];
        assert(pending[at] == self.cursors@[at].pending());
        if let Some((batch, row)) = self.cursors[chain].head() {
            let group: (u64, Option<Vec<Label>>) = match group_key_at(
                batch,
                row,
                &self.params.group_cols,
                &self.groups,
                &self.params.hash,
            ) {
                Ok(group) => group,
                Err(e) => {
                    return Err(e);
                },
            };
            let (sig, labels) = group;
            self.open = Some(OpenSeries { hash, sig, labels });
            self.chain = chain;
            proof {
                let books = self.books@;
                self.books@ = Books { key, ..books };
                assert forall|i: int| 0 <= i < pending.len() implies (#[trigger] pending[i]).len()
                    > 0 || self.ended()[i] by {
                    assert(!old(self).waits(i));
                }
                lemma_account_open(books.delivered, self.ended(), books.done, pending, hash);
                assert(books.rows =~= Seq::empty());
                assert(self.samples@ =~= shifted(books.rows, self.params.offset as int));
                assert forall|i: int| 0 <= i < at implies is_past(
                    #[trigger] self.pending()[i],
                    self.ended()[i],
                    hash,
                ) by {
                    assert(!old(self).waits(i));
                    assert(old(self).pending()[i] == self.pending()[i]);
                }
            }
        }
        Ok(())
    }

    /// Folds the series under way into its group, once all chains are past it.
    fn close_series(&mut self)
        requires
            old(self).settled_wf(),
            old(self).open is Some,
            old(self).reads(old(self).chains()),
            old(self).books@.rows.len() > 0,
            old(self).series_count < usize::MAX,
        ensures
            final(self).wf(),
            final(self).params == old(self).params,
            final(self).open is None,
            final(self).pending() == old(self).pending(),
            final(self).ended() == old(self).ended(),
            final(self).delivered() == old(self).delivered(),
            final(self).series() == old(self).series().push(old(self).books@.rows),
            series_folded(
                old(self).params(),
                old(self).groups(),
                old(self).books@.rows,
                final(self).groups(),
            ),
    {
        let ghost books = self.books@;
        let ghost groups = self.groups@;
        let params = self.params;
        sort_by_time(&mut self.samples);
        let ghost contribution = Contribution {
            labels: labels_of(books.key.cells, texts(params.group_cols@)),
            samples: self.samples@,
        };
        let open: Option<OpenSeries> = self.open.take();
        if let Some(o) = open {
            let ghost given = if o.labels is Some {
                label_texts(o.labels->0@)
            } else {
                Seq::empty()
            };
            self.groups.fold_series(
                o.sig,
                o.labels,
                &self.samples,
                &params.new_acc,
                &params.fold,
            );
            self.samples.clear();
            self.series_count += 1;
            proof {
                assert(contributes(*params, books.rows, o.sig, contribution));
                lemma_contribute(
                    params.new_acc,
                    params.fold,
                    books.contributions,
                    groups,
                    o.sig,
                    given,
                    contribution,
                    self.groups@,
                );
                assert(table_folded(
                    params.new_acc,
                    params.fold,
                    groups,
                    o.sig,
                    contribution.labels,
                    contribution.samples,
                    self.groups@,
                ));
                lemma_account_close(
                    books.delivered,
                    self.ended(),
                    books.done,
                    o.hash,
                    books.rows,
                    self.pending(),
                );
                let contributions = books.contributions.push((o.sig, contribution));
                let done = books.done.push(books.rows);
                assert forall|k: int| 0 <= k < done.len() implies contributes(
                    *params,
                    done[k],
                    (#[trigger] contributions[k]).0,
                    contributions[k].1,
                ) by {
                    if k < books.done.len() {
                        assert(contributions[k] == books.contributions[k]);
                    }
                }
                self.books@ = Books { done, contributions, rows: Seq::empty(), ..books };
            }
        }
    }

    /// Goes on until one series is folded, or the next batch of a chain is
    /// needed, or all is done. Fails where the next series has a group column
    /// that holds no text; nothing is changed then.
    pub fn step(&mut self) -> (step: Result<FoldStep, NotText>)
        requires
            old(self).wf(),
            old(self).series().len() < usize::MAX,
        ensures
            final(self).wf(),
            final(self).params() == old(self).params(),
            final(self).chains() == old(self).chains(),
            final(self).delivered() == old(self).delivered(),
            final(self).ended() == old(self).ended(),
            step is Err <==> old(self).key_fails(),
            ({
                let rows = match old(self).under_way() {
                    Some((_, rows)) => rows,
                    None => Seq::empty(),
                };
                let chains = old(self).pending();
                match step {
                    Ok(FoldStep::NeedBatch(i)) => {
                        &&& old(self).blocked_by(i as int)
                        &&& forall|j: int| 0 <= j < i ==> !(#[trigger] old(self).blocked_by(j))
                        &&& final(self).waits(i as int)
                        &&& final(self).series() == old(self).series()
                        &&& final(self).groups() == old(self).groups()
                        &&& if old(self).under_way() is None && old(self).some_chain_waits() {
                            &&& final(self).pending() == chains
                            &&& final(self).under_way() is None
                        } else {
                            let hash = old(self).next_hash()->0;
                            &&& final(self).pending() == behind_first(chains, hash, i + 1)
                            &&& final(self).under_way() == Some(
                                (hash, rows + gather(chains.take(i + 1), hash)),
                            )
                        }
                    },
                    Ok(FoldStep::Folded) => {
                        let hash = old(self).next_hash()->0;
                        let folded_rows = rows + gather(chains, hash);
                        &&& old(self).next_hash() is Some
                        &&& forall|j: int| !(#[trigger] old(self).blocked_by(j))
                        &&& final(self).pending() == behind(chains, hash)
                        &&& final(self).under_way() is None
                        &&& final(self).series() == old(self).series().push(folded_rows)
                        &&& series_folded(
                            old(self).params(),
                            old(self).groups(),
                            folded_rows,
                            final(self).groups(),
                        )
                    },
                    Ok(FoldStep::Finished) => {
                        &&& *final(self) == *old(self)
                        &&& old(self).is_finished()
                    },
                    Err(e) => {
                        &&& *final(self) == *old(self)
                        &&& names_first_other(
                            gather(chains, min_head(chains)->0)[0].cells,
                            old(self).params().group_cols@,
                            e,
                        )
                    },
                }
            }),
    {
        let ghost chains = self.pending();
        if self.open.is_none() {
            if let Some(c) = self.first_waiting() {
                proof {
                    assert forall|j: int| 0 <= j < c implies !(#[trigger] old(self).blocked_by(
                        j,
                    )) by {
                        assert(!old(self).waits(j));
                    }
                }
                return Ok(FoldStep::NeedBatch(c));
            }
            let next: Option<(u64, usize)> = self.first_min_head();
            match next {
                None => {
                    proof {
                        lemma_min_head(self.pending());
                        assert forall|i: int| 0 <= i < self.chains() implies (
                        #[trigger] self.pending()[i]).len() == 0 && self.ended()[i] by {
                            assert(!self.waits(i));
                        }
                    }
                    return Ok(FoldStep::Finished);
                },
                Some((hash, chain)) => {
                    proof {
                        lemma_first_gathered(chains, hash, chain as int);
                    }
                    match self.open_series(hash, chain) {
                        Ok(()) => {},
                        Err(e) => {
                            return Err(e);
                        },
                    }
                },
            }
        }
        let ghost hash = self.open->0.hash;
        assert(old(self).next_hash() == Some(hash));
        match self.gather_runs() {
            Some(c) => {
                proof {
                    assert forall|j: int| 0 <= j < c implies !(#[trigger] old(self).blocked_by(
                        j,
                    )) by {
                        assert(!may_go_on(chains[j], old(self).ended()[j], hash));
                    }
                }
                Ok(FoldStep::NeedBatch(c))
            },
            None => {
                proof {
                    assert forall|j: int| !(#[trigger] old(self).blocked_by(j)) by {
                        if 0 <= j < chains.len() {
                            assert(!may_go_on(chains[j], old(self).ended()[j], hash));
                        }
                    }
                }
                self.close_series();
                Ok(FoldStep::Folded)
            },
        }
    }

    /// The groups of the band and how many series were folded into them, once
    /// the fold is finished. They are those of all rows that were delivered,
    /// however these were cut into batches.
    pub fn finish(self) -> (folded: (GroupAccs<A>, usize))
        requires
            self.wf(),
            self.is_finished(),
        ensures
            folded.0.wf(),
            folded.0@ == self.groups(),
            band_folded(self.params(), series_of(self.delivered()), folded.0@),
            folded.1 == series_of(self.delivered()).len(),
            has_all_cells(self.delivered(), self.params().group_cols@.len()),
            all_shift(self.delivered(), self.params().offset as int),
    {
        proof {
            lemma_account_finish(
                self.books@.delivered,
                self.ended(),
                self.books@.done,
                self.pending(),
            );
        }
        (self.groups, self.series_count)
    }

    /// How many series were folded.
    pub fn series_count(&self) -> (n: usize)
        requires
            self.wf(),
        ensures
            n == self.series().len(),
    {
        self.series_count
    }
}

} // verus!
