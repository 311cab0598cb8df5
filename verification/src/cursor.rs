//! The read position in one hash-ordered chain of record batches.
use vstd::prelude::*;

use crate::batch::{batch_run_len, Row, Sample, SeriesBatch};
use crate::series::{behind_run, lemma_run_len, lemma_run_len_is, run_len, run_of};

verus! {

/// The samples of some rows, their times shifted by `offset`.
pub open spec fn shifted<V>(rows: Seq<Row<V>>, offset: int) -> Seq<Sample<V>> {
    rows.map_values(
        |row: Row<V>| Sample { timestamp: (row.timestamp + offset) as i64, value: row.value },
    )
}

/// The times of these rows can be shifted by `offset` without leaving the range
/// of timestamps.
pub open spec fn can_be_shifted<V>(rows: Seq<Row<V>>, offset: int) -> bool {
    forall|i: int|
        0 <= i < rows.len() ==> i64::MIN <= (#[trigger] rows[i]).timestamp + offset <= i64::MAX
}

/// One hash-ordered input of a band's merge (a chain of non-overlapping
/// files). All samples of one series sit in a single run per chain.
///
/// The cursor holds the batch it reads, if it has one that is not used up. It
/// waits for the next batch until it is told that the chain has ended.
pub struct ChainCursor<V> {
    batch: Option<SeriesBatch<V>>,
    row: usize,
    ended: bool,
}

impl<V> ChainCursor<V> {
    /// The columns of the batch at hand fit together, and it has rows left.
    pub closed spec fn wf(&self) -> bool {
        match self.batch {
            Some(batch) => !self.ended && batch.wf() && self.row < batch.hashes@.len(),
            None => true,
        }
    }

    /// The batch at hand has `group_cols` label columns, and its times can be
    /// shifted by `offset`.
    pub closed spec fn fits(&self, group_cols: int, offset: int) -> bool {
        match self.batch {
            Some(batch) => batch.labels@.len() == group_cols && batch.shifts_by(offset),
            None => true,
        }
    }

    /// The rows at hand that were not consumed yet.
    pub closed spec fn pending(&self) -> Seq<Row<V>> {
        match self.batch {
            Some(batch) => batch.rows().skip(self.row as int),
            None => Seq::empty(),
        }
    }

    /// The chain has no further batches.
    pub closed spec fn ended(&self) -> bool {
        self.ended
    }

    /// The cursor has no rows at hand and does not know whether more will come.
    pub open spec fn waits(&self) -> bool {
        self.pending().len() == 0 && !self.ended()
    }

    /// A cursor waits just where it has no rows at hand and its chain has not
    /// ended.
    pub proof fn cursors_wait_until_they_end(&self)
        ensures
            self.waits() <==> self.pending().len() == 0 && !self.ended(),
    {
    }

    /// Where the batch at hand fits, all rows at hand can be shifted.
    pub proof fn lemma_fits(&self, group_cols: int, offset: int)
        requires
            self.wf(),
            self.fits(group_cols, offset),
        ensures
            can_be_shifted(self.pending(), offset),
    {
        if self.batch is Some {
            let batch = self.batch->0;
            assert forall|i: int| 0 <= i < self.pending().len() implies i64::MIN <= (
            #[trigger] self.pending()[i]).timestamp + offset <= i64::MAX by {
                assert(self.pending()[i] == batch.row(self.row + i));
                assert(i64::MIN <= batch.times@[self.row + i] + offset <= i64::MAX);
            }
        }
    }

    /// A cursor at the start of a chain, waiting for its first batch.
    pub fn start() -> (cursor: Self)
        ensures
            cursor.wf(),
            forall|group_cols: int, offset: int| #[trigger] cursor.fits(group_cols, offset),
            cursor.pending() == Seq::<Row<V>>::empty(),
            !cursor.ended(),
    {
        ChainCursor { batch: None, row: 0, ended: false }
    }

    /// Takes what the stream gave: the next batch, or none where the chain has
    /// ended. An empty batch leaves the cursor waiting.
    pub fn next_batch(&mut self, batch: Option<SeriesBatch<V>>)
        requires
            old(self).waits(),
            batch matches Some(b) ==> b.wf(),
        ensures
            final(self).wf(),
            forall|group_cols: int, offset: int|
                (batch matches Some(b) ==> b.labels@.len() == group_cols && b.shifts_by(offset))
                    ==> #[trigger] final(self).fits(group_cols, offset),
            match batch {
                Some(b) => final(self).pending() == b.rows() && !final(self).ended(),
                None => final(self).pending() == Seq::<Row<V>>::empty() && final(self).ended(),
            },
    {
        self.row = 0;
        match batch {
            Some(b) => {
                assert(b.rows().skip(0) =~= b.rows());
                if b.hashes.len() == 0 {
                    assert(b.rows() =~= Seq::empty());
                    self.batch = None;
                } else {
                    self.batch = Some(b);
                }
            },
            None => {
                self.batch = None;
                self.ended = true;
            },
        }
    }

    /// The hash of the next row, if there is a row at hand.
    pub fn head_hash(&self) -> (hash: Option<u64>)
        requires
            self.wf(),
        ensures
            hash == if self.pending().len() > 0 {
                Some(self.pending()[0].hash)
            } else {
                None
            },
    {
        match &self.batch {
            Some(batch) => Some(batch.hashes[self.row]),
            None => None,
        }
    }

    /// The batch that holds the next row, and where the row stands in it.
    pub fn head(&self) -> (head: Option<(&SeriesBatch<V>, usize)>)
        requires
            self.wf(),
        ensures
            match head {
                Some((batch, row)) => {
                    &&& batch.wf()
                    &&& row < batch.hashes@.len()
                    &&& self.pending().len() > 0
                    &&& self.pending()[0] == batch.row(row as int)
                    &&& forall|group_cols: int, offset: int| #[trigger]
                        self.fits(group_cols, offset) ==> batch.labels@.len() == group_cols
                },
                None => self.pending().len() == 0,
            },
    {
        match &self.batch {
            Some(batch) => Some((batch, self.row)),
            None => None,
        }
    }

    /// Whether the cursor has no rows at hand and does not know whether more
    /// will come.
    pub fn is_waiting(&self) -> (r: bool)
        requires
            self.wf(),
        ensures
            r == self.waits(),
    {
        self.batch.is_none() && !self.ended
    }

    /// Appends this chain's samples of series `hash`, as far as they are at
    /// hand. Where that uses up the batch the cursor waits for the next one, in
    /// which the run may go on.
    pub fn consume_run(&mut self, hash: u64, offset: i64, samples: &mut Vec<Sample<V>>) where
        V: Copy,

        requires
            old(self).wf(),
            can_be_shifted(run_of(old(self).pending(), hash), offset as int),
        ensures
            final(self).wf(),
            forall|group_cols: int, other: int|
                old(self).fits(group_cols, other) ==> #[trigger] final(self).fits(
                    group_cols,
                    other,
                ),
            final(self).pending() == behind_run(old(self).pending(), hash),
            final(self).ended() == old(self).ended(),
            final(samples)@ == old(samples)@ + shifted(
                run_of(old(self).pending(), hash),
                offset as int,
            ),
            run_len(old(self).pending(), hash) == 0 ==> *final(self) == *old(self),
    {
        let ghost rows = self.pending();
        let ghost before = samples@;
        let mut used_up: bool = false;
        if let Some(batch) = &self.batch {
            let first: usize = self.row;
            let count: usize = batch.hashes.len();
            if batch.hashes[first] != hash {
                proof {
                    lemma_run_len_is(rows, hash, 0);
                    assert(rows.skip(0) =~= rows);
                    assert(samples@ =~= before + shifted(rows.take(0), offset as int));
                }
                return;
            }
            let len: usize = batch_run_len(&batch.hashes, first);
            proof {
                assert forall|i: int| 0 <= i < len implies (#[trigger] rows[i]).hash == hash by {
                    assert(rows[i] == batch.row(first + i));
                    assert(batch.hashes@[first + i] == batch.hashes@[first as int]);
                }
                lemma_run_len_is(rows, hash, len as int);
            }
            let mut k: usize = 0;
            while k < len
                invariant
                    k <= len,
                    first + len <= count,
                    count == batch.hashes@.len(),
                    batch.times@.len() == batch.hashes@.len(),
                    batch.values@.len() == batch.hashes@.len(),
                    can_be_shifted(rows.take(len as int), offset as int),
                    rows == batch.rows().skip(first as int),
                    samples@ == before + shifted(rows.take(k as int), offset as int),
                decreases len - k,
            {
                let i: usize = first + k;
                assert(rows.take(len as int)[k as int] == batch.row(i as int));
                samples.push(Sample { timestamp: batch.times[i] + offset, value: batch.values[i] });
                proof {
                    assert(rows[k as int] == batch.row(i as int));
                    assert(samples@ =~= before + shifted(rows.take(k + 1), offset as int));
                }
                k += 1;
            }
            self.row = first + len;
            used_up = first + len == count;
            assert(rows.skip(len as int) =~= batch.rows().skip(first + len));
        } else {
            proof {
                lemma_run_len_is(rows, hash, 0);
                assert(rows.skip(0) =~= rows);
                assert(samples@ =~= before + shifted(rows.take(0), offset as int));
            }
        }
        if used_up {
            self.batch = None;
            assert(behind_run(rows, hash) =~= Seq::empty());
        }
    }
}

/// A run is read once: behind it no further row of its hash stands at the head,
/// so that reading it again takes nothing and leaves all rows where they are.
pub proof fn second_read_takes_nothing<V>(rows: Seq<Row<V>>, hash: u64)
    ensures
        behind_run(rows, hash).len() > 0 ==> behind_run(rows, hash)[0].hash != hash,
        run_len(behind_run(rows, hash), hash) == 0,
        run_of(behind_run(rows, hash), hash) == Seq::<Row<V>>::empty(),
        behind_run(behind_run(rows, hash), hash) == behind_run(rows, hash),
        forall|offset: int| #[trigger]
            can_be_shifted(run_of(behind_run(rows, hash), hash), offset) && shifted(
                run_of(behind_run(rows, hash), hash),
                offset,
            ) == Seq::<Sample<V>>::empty(),
{
    lemma_run_len(rows, hash);
    let rest = behind_run(rows, hash);
    lemma_run_len_is(rest, hash, 0);
    assert(rest.take(0) =~= Seq::empty());
    assert(rest.skip(0) =~= rest);
    assert forall|offset: int| #[trigger]
        can_be_shifted(run_of(rest, hash), offset) && shifted(run_of(rest, hash), offset)
            == Seq::<Sample<V>>::empty() by {
        assert(shifted(run_of(rest, hash), offset) =~= Seq::<Sample<V>>::empty());
    }
}

/// Shifting keeps every row's value and adds the offset to its time, whatever
/// these are, and nothing is left out.
pub proof fn shifted_samples_are_the_rows<V>(rows: Seq<Row<V>>, offset: int)
    ensures
        shifted(rows, offset).len() == rows.len(),
        forall|i: int|
            0 <= i < rows.len() ==> (#[trigger] shifted(rows, offset)[i]).value == rows[i].value,
        forall|i: int|
            0 <= i < rows.len() && i64::MIN <= rows[i].timestamp + offset <= i64::MAX ==> (
            #[trigger] shifted(rows, offset)[i]).timestamp == rows[i].timestamp + offset,
        can_be_shifted(rows, offset) <==> forall|i: int|
            0 <= i < rows.len() ==> i64::MIN <= (#[trigger] rows[i]).timestamp + offset <= i64::MAX,
{
}

} // verus!
