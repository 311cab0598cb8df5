//! Samples and the record batches they arrive in.
use vstd::prelude::*;

verus! {

/// One sample of a series: when, and what.
#[derive(Debug, PartialEq)]
pub struct Sample<V> {
    pub timestamp: i64,
    pub value: V,
}

/// A label column of a batch. `Other` stands for a column that holds no text;
/// in a text column an entry is `None` where the label is absent.
pub enum LabelColumn {
    Text(Vec<Option<String>>),
    Other,
}

/// A record batch of samples: row `i` has the series hash `hashes[i]`, the time
/// `times[i]`, the value `values[i]`, and in each group column its label.
pub struct SeriesBatch<V> {
    pub hashes: Vec<u64>,
    pub times: Vec<i64>,
    pub values: Vec<V>,
    pub labels: Vec<LabelColumn>,
}

/// What a row holds in a label column.
pub enum Cell {
    Other,
    Null,
    Text(Seq<char>),
}

/// One row of a batch. `cells` has one entry for each group column.
pub struct Row<V> {
    pub hash: u64,
    pub timestamp: i64,
    pub value: V,
    pub cells: Seq<Cell>,
}

impl LabelColumn {
    /// What the column holds at `row`.
    pub open spec fn cell(&self, row: int) -> Cell {
        match self {
            LabelColumn::Other => Cell::Other,
            LabelColumn::Text(values) => match values@[row] {
                None => Cell::Null,
                Some(text) => Cell::Text(text@),
            },
        }
    }

    /// The column has an entry for each of `rows` rows.
    pub open spec fn spans(&self, rows: int) -> bool {
        match self {
            LabelColumn::Other => true,
            LabelColumn::Text(values) => values@.len() == rows,
        }
    }
}

impl<V> SeriesBatch<V> {
    /// All columns have the same number of rows.
    pub open spec fn wf(&self) -> bool {
        &&& self.times@.len() == self.hashes@.len()
        &&& self.values@.len() == self.hashes@.len()
        &&& forall|c: int|
            0 <= c < self.labels@.len() ==> (#[trigger] self.labels@[c]).spans(
                self.hashes@.len() as int,
            )
    }

    /// The row at `i`.
    pub open spec fn row(&self, i: int) -> Row<V> {
        Row {
            hash: self.hashes@[i],
            timestamp: self.times@[i],
            value: self.values@[i],
            cells: Seq::new(self.labels@.len(), |c: int| self.labels@[c].cell(i)),
        }
    }

    /// All rows, in order.
    pub open spec fn rows(&self) -> Seq<Row<V>> {
        Seq::new(self.hashes@.len(), |i: int| self.row(i))
    }

    /// Every time of the batch can be shifted by `offset`.
    pub open spec fn shifts_by(&self, offset: int) -> bool {
        forall|i: int|
            0 <= i < self.times@.len() ==> i64::MIN <= #[trigger] self.times@[i] + offset
                <= i64::MAX
    }

    /// A batch is in order just where its columns are of one length.
    pub proof fn columns_of_one_length(&self)
        ensures
            self.wf() <==> {
                &&& self.times@.len() == self.hashes@.len()
                &&& self.values@.len() == self.hashes@.len()
                &&& forall|c: int|
                    0 <= c < self.labels@.len() && (#[trigger] self.labels@[c]) is Text
                        ==> self.labels@[c]->Text_0@.len() == self.hashes@.len()
            },
            forall|offset: int| #[trigger]
                self.shifts_by(offset) <==> forall|i: int|
                    0 <= i < self.times@.len() ==> i64::MIN <= #[trigger] self.times@[i] + offset
                        <= i64::MAX,
    {
        if forall|c: int|
            0 <= c < self.labels@.len() && (#[trigger] self.labels@[c]) is Text
                ==> self.labels@[c]->Text_0@.len() == self.hashes@.len() {
            assert forall|c: int| 0 <= c < self.labels@.len() implies (
            #[trigger] self.labels@[c]).spans(self.hashes@.len() as int) by {
                if self.labels@[c] is Text {
                    assert(self.labels@[c]->Text_0@.len() == self.hashes@.len());
                }
            }
        }
        if self.wf() {
            assert forall|c: int|
                0 <= c < self.labels@.len() && (#[trigger] self.labels@[c]) is Text implies
                self.labels@[c]->Text_0@.len() == self.hashes@.len() by {
                assert(self.labels@[c].spans(self.hashes@.len() as int));
            }
        }
    }

    /// The rows of a batch are as many as its hashes. Each has the hash, time and
    /// value that stand in its place, and in each label column the text that
    /// stands there, whatever it is; a cell is null just where no text stands in
    /// a text column.
    pub proof fn rows_are_read_off_the_columns(&self)
        ensures
            self.rows().len() == self.hashes@.len(),
            forall|i: int| 0 <= i < self.hashes@.len() ==> #[trigger] self.rows()[i] == self.row(i),
            forall|i: int|
                {
                    let row = #[trigger] self.row(i);
                    &&& row.hash == self.hashes@[i]
                    &&& row.timestamp == self.times@[i]
                    &&& row.value == self.values@[i]
                    &&& row.cells.len() == self.labels@.len()
                },
            forall|i: int, c: int|
                #![trigger self.row(i).cells[c]]
                0 <= c < self.labels@.len() ==> {
                    let cell = self.row(i).cells[c];
                    &&& self.labels@[c] is Other ==> cell is Other
                    &&& self.labels@[c] is Text && self.labels@[c]->Text_0@[i] is None
                        ==> cell is Null
                    &&& self.labels@[c] is Text && self.labels@[c]->Text_0@[i] is Some ==> cell
                        == Cell::Text(self.labels@[c]->Text_0@[i]->0@)
                },
    {
    }

    /// Whether all columns have the same number of rows.
    pub fn is_wf(&self) -> (r: bool)
        ensures
            r == self.wf(),
            r <==> {
                &&& self.times@.len() == self.hashes@.len()
                &&& self.values@.len() == self.hashes@.len()
                &&& forall|c: int|
                    0 <= c < self.labels@.len() && (#[trigger] self.labels@[c]) is Text
                        ==> self.labels@[c]->Text_0@.len() == self.hashes@.len()
            },
    {
        proof {
            self.columns_of_one_length();
        }
        if self.times.len() != self.hashes.len() || self.values.len() != self.hashes.len() {
            return false;
        }
        let mut c: usize = 0;
        while c < self.labels.len()
            invariant
                c <= self.labels@.len(),
                forall|k: int|
                    0 <= k < c ==> (#[trigger] self.labels@[k]).spans(self.hashes@.len() as int),
            decreases self.labels@.len() - c,
        {
            let spans: bool = match &self.labels[c] {
                LabelColumn::Other => true,
                LabelColumn::Text(values) => values.len() == self.hashes.len(),
            };
            if !spans {
                assert(!self.labels@[c as int].spans(self.hashes@.len() as int));
                return false;
            }
            c += 1;
        }
        true
    }

    /// Whether every time of the batch can be shifted by `offset` without
    /// leaving the range of timestamps.
    pub fn can_shift(&self, offset: i64) -> (r: bool)
        ensures
            r == self.shifts_by(offset as int),
            r <==> forall|i: int|
                0 <= i < self.times@.len() ==> i64::MIN <= #[trigger] self.times@[i] + offset
                    <= i64::MAX,
    {
        let mut i: usize = 0;
        while i < self.times.len()
            invariant
                i <= self.times@.len(),
                forall|k: int|
                    0 <= k < i ==> i64::MIN <= #[trigger] self.times@[k] + offset <= i64::MAX,
            decreases self.times@.len() - i,
        {
            if self.times[i].checked_add(offset).is_none() {
                assert(!(i64::MIN <= self.times@[i as int] + offset <= i64::MAX));
                return false;
            }
            i += 1;
        }
        true
    }
}

/// How many rows from `row` on have the same hash as `row`, without a break.
pub fn batch_run_len(hashes: &Vec<u64>, row: usize) -> (len: usize)
    requires
        row < hashes@.len(),
    ensures
        1 <= len <= hashes@.len() - row,
        forall|i: int| row <= i < row + len ==> #[trigger] hashes@[i] == hashes@[row as int],
        row + len < hashes@.len() ==> hashes@[row + len] != hashes@[row as int],
{
    let hash: u64 = hashes[row];
    let count: usize = hashes.len();
    let mut end: usize = row + 1;
    while end < count && hashes[end] == hash
        invariant
            row < end <= count,
            count == hashes@.len(),
            hash == hashes@[row as int],
            forall|i: int| row <= i < end ==> #[trigger] hashes@[i] == hash,
        decreases hashes@.len() - end,
    {
        end += 1;
    }
    end - row
}

} // verus!
