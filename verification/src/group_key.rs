//! The group that a series belongs to: its labels in the group columns, and
//! their signature.
use vstd::prelude::*;
use vstd::string::StringExecFns;
use vstd::utf8::encode_utf8;

use crate::batch::{Cell, LabelColumn};
use crate::text::{
    lemma_encoding_is_injective, strictly_ascending, text_before, texts,
};

verus! {

/// A label: its name and its value.
#[derive(Debug, PartialEq, Eq)]
pub struct Label {
    pub name: String,
    pub value: String,
}

/// A label column of a batch holds no text.
#[derive(Debug, PartialEq, Eq)]
pub struct NotText {
    pub column: String,
}

/// Names and values of labels.
pub open spec fn label_texts(labels: Seq<Label>) -> Seq<(Seq<char>, Seq<char>)> {
    labels.map_values(|l: Label| (l.name@, l.value@))
}

/// All group columns hold text, or nothing.
pub open spec fn all_text(cells: Seq<Cell>) -> bool {
    forall|c: int| 0 <= c < cells.len() ==> !(#[trigger] cells[c] is Other)
}

/// `error` names the first group column in which the row holds no text.
pub open spec fn names_first_other(
    cells: Seq<Cell>,
    group_cols: Seq<String>,
    error: NotText,
) -> bool {
    exists|c: int|
        {
            &&& 0 <= c < cells.len()
            &&& #[trigger] cells[c] is Other
            &&& all_text(cells.take(c))
            &&& error.column@ == group_cols[c]@
        }
}

/// The labels of a row, in the order of the group columns. A label that is
/// absent in the row is left out.
pub open spec fn labels_of(cells: Seq<Cell>, names: Seq<Seq<char>>) -> Seq<(Seq<char>, Seq<char>)>
    decreases cells.len(),
{
    if cells.len() == 0 {
        Seq::empty()
    } else {
        let rest = labels_of(cells.drop_last(), names);
        match cells.last() {
            Cell::Text(value) => rest.push((names[cells.len() - 1], value)),
            _ => rest,
        }
    }
}

/// What is written into the hasher for some labels: each name, then its value.
pub open spec fn signature_writes(labels: Seq<(Seq<char>, Seq<char>)>) -> Seq<Seq<u8>>
    decreases labels.len(),
{
    if labels.len() == 0 {
        Seq::empty()
    } else {
        signature_writes(labels.drop_last()).push(encode_utf8(labels.last().0)).push(
            encode_utf8(labels.last().1),
        )
    }
}

/// The parts of a signature that the hasher is given.
pub open spec fn part_bytes(parts: Seq<&[u8]>) -> Seq<Seq<u8>> {
    parts.map_values(|p: &[u8]| p@)
}

/// `hash` may be called on all parts.
pub open spec fn hashes_all<H: Fn(&Vec<&[u8]>) -> u64>(hash: H) -> bool {
    forall|parts: Vec<&[u8]>| #[trigger] call_requires(hash, (&parts,))
}

/// `sig` is what the hasher gives after these writes.
pub open spec fn hashes_to<H: Fn(&Vec<&[u8]>) -> u64>(
    hash: H,
    writes: Seq<Seq<u8>>,
    sig: u64,
) -> bool {
    exists|parts: Vec<&[u8]>|
        part_bytes(parts@) == writes && #[trigger] call_ensures(hash, (&parts,), sig)
}

/// `hash` is a function of the bytes that it is given.
pub open spec fn is_function<H: Fn(&Vec<&[u8]>) -> u64>(hash: H) -> bool {
    forall|x: Vec<&[u8]>, y: Vec<&[u8]>, a: u64, b: u64|
        {
            &&& part_bytes(x@) == part_bytes(y@)
            &&& #[trigger] call_ensures(hash, (&x,), a)
            &&& #[trigger] call_ensures(hash, (&y,), b)
        } ==> a == b
}

/// What the columns hold at `row`.
pub open spec fn cells_at(cols: Seq<LabelColumn>, row: int) -> Seq<Cell> {
    Seq::new(cols.len(), |c: int| cols[c].cell(row))
}

/// Every text column reaches as far as `row`.
pub open spec fn reach(cols: Seq<LabelColumn>, row: int) -> bool {
    forall|c: int|
        0 <= c < cols.len() ==> (#[trigger] cols[c] matches LabelColumn::Text(values) ==> row
            < values@.len())
}

impl LabelColumn {
    /// The label at `row`, unless it is absent there.
    pub fn value(&self, row: usize) -> (value: Option<&String>)
        requires
            *self matches LabelColumn::Text(values) ==> row < values@.len(),
        ensures
            match value {
                Some(text) => self.cell(row as int) == Cell::Text(text@),
                None => !(self.cell(row as int) is Text),
            },
            match (*self, value) {
                (LabelColumn::Text(values), Some(text)) => values@[row as int] is Some
                    && values@[row as int]->0@ == text@,
                (LabelColumn::Text(values), None) => values@[row as int] is None,
                (LabelColumn::Other, value) => value is None,
            },
    {
        match self {
            LabelColumn::Text(values) => match &values[row] {
                Some(text) => Some(text),
                None => None,
            },
            LabelColumn::Other => None,
        }
    }
}

/// The signature of the labels at `row`: `hash` of each label's name and value,
/// in the order of the group columns.
pub fn group_signature<H: Fn(&Vec<&[u8]>) -> u64>(
    cols: &Vec<LabelColumn>,
    names: &Vec<String>,
    row: usize,
    hash: &H,
) -> (sig: u64)
    requires
        cols@.len() == names@.len(),
        reach(cols@, row as int),
        hashes_all(*hash),
    ensures
        hashes_to(
            *hash,
            signature_writes(labels_of(cells_at(cols@, row as int), texts(names@))),
            sig,
        ),
{
    let ghost cells = cells_at(cols@, row as int);
    let mut parts: Vec<&[u8]> = Vec::new();
    let mut c: usize = 0;
    assert(part_bytes(parts@) =~= Seq::empty());
    while c < cols.len()
        invariant
            c <= cols@.len(),
            cols@.len() == names@.len(),
            reach(cols@, row as int),
            cells == cells_at(cols@, row as int),
            part_bytes(parts@) == signature_writes(
                labels_of(cells.take(c as int), texts(names@)),
            ),
        decreases cols@.len() - c,
    {
        let ghost written = part_bytes(parts@);
        let ghost labels = labels_of(cells.take(c as int), texts(names@));
        proof {
            assert(cells.take(c + 1).drop_last() =~= cells.take(c as int));
            assert(cells.take(c + 1).last() == cols@[c as int].cell(row as int));
        }
        if let Some(value) = cols[c].value(row) {
            parts.push(names[c].as_str().as_bytes());
            parts.push(value.as_str().as_bytes());
            proof {
                let label = (names@[c as int]@, value@);
                assert(labels.push(label).drop_last() =~= labels);
                assert(part_bytes(parts@) =~= written.push(encode_utf8(label.0)).push(
                    encode_utf8(label.1),
                ));
            }
        }
        c += 1;
    }
    assert(cells.take(cells.len() as int) =~= cells);
    let sig: u64 = hash(&parts);
    sig
}

/// The labels at `row`, in the order of the group columns; absent ones are left
/// out.
pub fn materialize_labels(cols: &Vec<LabelColumn>, names: &Vec<String>, row: usize) -> (labels: Vec<
    Label,
>)
    requires
        cols@.len() == names@.len(),
        reach(cols@, row as int),
    ensures
        label_texts(labels@) == labels_of(cells_at(cols@, row as int), texts(names@)),
{
    let ghost cells = cells_at(cols@, row as int);
    let mut labels: Vec<Label> = Vec::new();
    let mut c: usize = 0;
    assert(label_texts(labels@) =~= Seq::empty());
    while c < cols.len()
        invariant
            c <= cols@.len(),
            cols@.len() == names@.len(),
            reach(cols@, row as int),
            cells == cells_at(cols@, row as int),
            label_texts(labels@) == labels_of(cells.take(c as int), texts(names@)),
        decreases cols@.len() - c,
    {
        let ghost before = label_texts(labels@);
        proof {
            assert(cells.take(c + 1).drop_last() =~= cells.take(c as int));
            assert(cells.take(c + 1).last() == cols@[c as int].cell(row as int));
        }
        if let Some(value) = cols[c].value(row) {
            labels.push(Label { name: names[c].clone(), value: value.clone() });
            assert(label_texts(labels@) =~= before.push((names@[c as int]@, value@)));
        }
        c += 1;
    }
    assert(cells.take(cells.len() as int) =~= cells);
    labels
}

impl NotText {
    /// What went wrong, in words.
    pub fn message(&self) -> (text: String)
        ensures
            text@ == "label column "@ + self.column@ + " is not Utf8 or Utf8View"@,
    {
        let mut text: String = "label column ".to_owned();
        text.append(self.column.as_str());
        text.append(" is not Utf8 or Utf8View");
        text
    }
}

/// Rows whose labels differ differ in what is written into the hasher, so two
/// groups can share a signature only where the hasher gives one number for two
/// different inputs.
pub proof fn signature_writes_are_injective(
    a: Seq<(Seq<char>, Seq<char>)>,
    b: Seq<(Seq<char>, Seq<char>)>,
)
    requires
        signature_writes(a) == signature_writes(b),
    ensures
        a == b,
    decreases a.len(),
{
    let x = signature_writes(a);
    let y = signature_writes(b);
    if a.len() == 0 || b.len() == 0 {
        lemma_writes_len(a);
        lemma_writes_len(b);
        assert(a =~= b);
    } else {
        lemma_writes_len(a);
        lemma_writes_len(b);
        let n = x.len() as int;
        assert(x[n - 2] == encode_utf8(a.last().0));
        assert(y[n - 2] == encode_utf8(b.last().0));
        assert(x[n - 1] == encode_utf8(a.last().1));
        assert(y[n - 1] == encode_utf8(b.last().1));
        lemma_encoding_is_injective(a.last().0, b.last().0);
        lemma_encoding_is_injective(a.last().1, b.last().1);
        assert(signature_writes(a.drop_last()) =~= x.take(n - 2));
        assert(signature_writes(b.drop_last()) =~= y.take(n - 2));
        signature_writes_are_injective(a.drop_last(), b.drop_last());
        assert(a =~= a.drop_last().push(a.last()));
        assert(b =~= b.drop_last().push(b.last()));
    }
}

/// Rows with equal labels have one signature, in whatever batch and at whatever
/// row they stand, where the hasher is a function of what is written into it.
pub proof fn equal_labels_have_one_signature<H: Fn(&Vec<&[u8]>) -> u64>(
    hash: H,
    labels: Seq<(Seq<char>, Seq<char>)>,
    a: u64,
    b: u64,
)
    requires
        is_function(hash),
        hashes_to(hash, signature_writes(labels), a),
        hashes_to(hash, signature_writes(labels), b),
    ensures
        a == b,
{
    let writes = signature_writes(labels);
    let x = choose|x: Vec<&[u8]>|
        part_bytes(x@) == writes && #[trigger] call_ensures(hash, (&x,), a);
    let y = choose|y: Vec<&[u8]>|
        part_bytes(y@) == writes && #[trigger] call_ensures(hash, (&y,), b);
    assert(call_ensures(hash, (&x,), a) && call_ensures(hash, (&y,), b));
}

proof fn lemma_labels_of_prefix(cells: Seq<Cell>, a: Seq<Seq<char>>, b: Seq<Seq<char>>)
    requires
        forall|c: int| 0 <= c < cells.len() ==> a[c] == b[c],
    ensures
        labels_of(cells, a) == labels_of(cells, b),
    decreases cells.len(),
{
    if cells.len() > 0 {
        lemma_labels_of_prefix(cells.drop_last(), a, b);
    }
}

/// A group column that is null in a row adds nothing to its labels: they are
/// what they would be without that column.
pub proof fn null_columns_add_nothing(
    cells: Seq<Cell>,
    names: Seq<Seq<char>>,
    at: int,
    name: Seq<char>,
)
    requires
        cells.len() <= names.len(),
        0 <= at <= cells.len(),
    ensures
        labels_of(cells.insert(at, Cell::Null), names.insert(at, name)) == labels_of(cells, names),
    decreases cells.len(),
{
    let more = cells.insert(at, Cell::Null);
    let more_names = names.insert(at, name);
    if at == cells.len() {
        assert(more.drop_last() =~= cells);
        lemma_labels_of_prefix(cells, more_names, names);
    } else {
        assert(more.drop_last() =~= cells.drop_last().insert(at, Cell::Null));
        null_columns_add_nothing(cells.drop_last(), names, at, name);
        assert(more.last() == cells.last());
        assert(more_names[more.len() - 1] == names[cells.len() - 1]);
    }
}

/// A row that is null in all group columns has no labels.
pub proof fn null_rows_have_no_labels(cells: Seq<Cell>, names: Seq<Seq<char>>)
    requires
        forall|c: int| 0 <= c < cells.len() ==> #[trigger] cells[c] is Null,
    ensures
        labels_of(cells, names) == Seq::<(Seq<char>, Seq<char>)>::empty(),
    decreases cells.len(),
{
    if cells.len() > 0 {
        let rest = cells.drop_last();
        assert forall|c: int| 0 <= c < rest.len() implies #[trigger] rest[c] is Null by {
            assert(rest[c] == cells[c]);
        }
        null_rows_have_no_labels(rest, names);
        assert(cells[cells.len() - 1] is Null);
    }
}

/// The names of labels.
pub open spec fn label_names(labels: Seq<(Seq<char>, Seq<char>)>) -> Seq<Seq<char>> {
    labels.map_values(|l: (Seq<char>, Seq<char>)| l.0)
}

/// Labels come in a stable order: where the group columns are in ascending
/// order without repetitions, so are the names of the labels of every row, and
/// each of them is a group column.
pub proof fn labels_are_in_column_order(cells: Seq<Cell>, names: Seq<Seq<char>>)
    requires
        strictly_ascending(names),
        cells.len() <= names.len(),
    ensures
        strictly_ascending(label_names(labels_of(cells, names))),
        forall|i: int|
            0 <= i < labels_of(cells, names).len() ==> exists|c: int|
                0 <= c < cells.len() && #[trigger] names[c] == (#[trigger] labels_of(
                    cells,
                    names,
                )[i]).0,
    decreases cells.len(),
{
    if cells.len() > 0 {
        let n = cells.len() - 1;
        let rest = labels_of(cells.drop_last(), names);
        let labels = labels_of(cells, names);
        labels_are_in_column_order(cells.drop_last(), names);
        assert forall|i: int| 0 <= i < labels.len() implies exists|c: int|
            0 <= c < cells.len() && #[trigger] names[c] == (#[trigger] labels[i]).0 by {
            if i < rest.len() {
                let c = choose|c: int| 0 <= c < n && #[trigger] names[c] == rest[i].0;
                assert(names[c] == labels[i].0);
            } else {
                assert(names[n] == labels[i].0);
            }
        }
        assert forall|i: int, j: int| 0 <= i < j < labels.len() implies text_before(
            #[trigger] label_names(labels)[i],
            #[trigger] label_names(labels)[j],
        ) by {
            assert(rest[i] == labels[i]);
            if j < rest.len() {
                assert(text_before(label_names(rest)[i], label_names(rest)[j]));
            } else {
                let c = choose|c: int| 0 <= c < n && #[trigger] names[c] == rest[i].0;
                assert(text_before(names[c], names[n]));
            }
        }
    }
}

proof fn lemma_writes_len(labels: Seq<(Seq<char>, Seq<char>)>)
    ensures
        signature_writes(labels).len() == 2 * labels.len(),
    decreases labels.len(),
{
    if labels.len() > 0 {
        lemma_writes_len(labels.drop_last());
    }
}

/// The labels of a row are the cells that hold text, all of them and whatever
/// the text is, in the order of the columns: each has the name of its column and
/// the text of its cell.
pub proof fn labels_are_the_cells_with_text(cells: Seq<Cell>, names: Seq<Seq<char>>) -> (at: Seq<
    int,
>)
    ensures
        at.len() == labels_of(cells, names).len(),
        forall|i: int|
            0 <= i < at.len() ==> 0 <= #[trigger] at[i] < cells.len() && labels_of(cells, names)[i].0
                == names[at[i]] && cells[at[i]] == Cell::Text(labels_of(cells, names)[i].1),
        forall|i: int, j: int| 0 <= i < j < at.len() ==> #[trigger] at[i] < #[trigger] at[j],
        forall|c: int|
            0 <= c < cells.len() && (#[trigger] cells[c]) is Text ==> at.contains(c),
    decreases cells.len(),
{
    if cells.len() == 0 {
        Seq::empty()
    } else {
        let n = cells.len() - 1;
        let rest = cells.drop_last();
        let before = labels_are_the_cells_with_text(rest, names);
        let labels = labels_of(cells, names);
        let at = if cells.last() is Text {
            before.push(n)
        } else {
            before
        };
        assert forall|i: int| 0 <= i < at.len() implies 0 <= #[trigger] at[i] < cells.len()
            && labels[i].0 == names[at[i]] && cells[at[i]] == Cell::Text(labels[i].1) by {
            if i < before.len() {
                assert(at[i] == before[i]);
                assert(labels[i] == labels_of(rest, names)[i]);
                assert(rest[before[i]] == cells[before[i]]);
            }
        }
        assert forall|i: int, j: int| 0 <= i < j < at.len() implies #[trigger] at[i]
            < #[trigger] at[j] by {
            assert(at[i] == before[i]);
            if j < before.len() {
                assert(at[j] == before[j]);
            }
        }
        assert forall|c: int| 0 <= c < cells.len() && (#[trigger] cells[c]) is Text implies
            at.contains(c) by {
            if c < n {
                assert(rest[c] is Text);
                let i = choose|i: int| 0 <= i < before.len() && before[i] == c;
                assert(at[i] == c);
            } else {
                assert(at[before.len() as int] == c);
            }
        }
        at
    }
}

/// A row has as many labels as it has cells with text.
pub proof fn labels_are_as_many_as_text_cells(cells: Seq<Cell>, names: Seq<Seq<char>>)
    ensures
        labels_of(cells, names).len() == cells.filter(|cell: Cell| cell is Text).len(),
    decreases cells.len(),
{
    reveal(Seq::filter);
    if cells.len() > 0 {
        labels_are_as_many_as_text_cells(cells.drop_last(), names);
    }
}

/// Where the columns have distinct names, two rows whose cells hold text or
/// nothing have the same labels just where they have the same cells.
pub proof fn rows_with_the_same_labels_have_the_same_cells(
    a: Seq<Cell>,
    b: Seq<Cell>,
    names: Seq<Seq<char>>,
)
    requires
        a.len() == names.len(),
        b.len() == names.len(),
        forall|c: int| 0 <= c < a.len() ==> !(#[trigger] a[c] is Other),
        forall|c: int| 0 <= c < b.len() ==> !(#[trigger] b[c] is Other),
        names.no_duplicates(),
    ensures
        labels_of(a, names) == labels_of(b, names) <==> a == b,
{
    if labels_of(a, names) == labels_of(b, names) {
        let p = labels_are_the_cells_with_text(a, names);
        let q = labels_are_the_cells_with_text(b, names);
        assert forall|i: int| 0 <= i < p.len() implies #[trigger] p[i] == q[i] by {
            assert(0 <= q[i] < b.len());
            assert(names[p[i]] == names[q[i]]);
        }
        assert forall|c: int| 0 <= c < a.len() implies #[trigger] a[c] == b[c] by {
            if a[c] is Text {
                let i = choose|i: int| 0 <= i < p.len() && p[i] == c;
                assert(q[i] == c);
            }
            if b[c] is Text {
                let i = choose|i: int| 0 <= i < q.len() && q[i] == c;
                assert(p[i] == c);
            }
        }
        assert(a =~= b);
    }
}

/// For each label the bytes of its name and then those of its value are
/// written, whatever they are, and nothing else.
pub proof fn names_and_values_are_written(labels: Seq<(Seq<char>, Seq<char>)>)
    ensures
        signature_writes(labels).len() == 2 * labels.len(),
        forall|i: int|
            #![trigger labels[i]]
            0 <= i < labels.len() ==> signature_writes(labels)[2 * i] == encode_utf8(labels[i].0)
                && signature_writes(labels)[2 * i + 1] == encode_utf8(labels[i].1),
    decreases labels.len(),
{
    lemma_writes_len(labels);
    if labels.len() > 0 {
        let rest = labels.drop_last();
        names_and_values_are_written(rest);
        assert forall|i: int|
            #![trigger labels[i]]
            0 <= i < labels.len() implies signature_writes(labels)[2 * i] == encode_utf8(
            labels[i].0,
        ) && signature_writes(labels)[2 * i + 1] == encode_utf8(labels[i].1) by {
            if i < rest.len() {
                assert(rest[i] == labels[i]);
            }
        }
    }
}

/// A signature is what the hasher gave for just the bytes written.
pub proof fn signatures_are_given_by_the_hasher<H: Fn(&Vec<&[u8]>) -> u64>(
    hash: H,
    writes: Seq<Seq<u8>>,
    sig: u64,
) -> (parts: Vec<&'static [u8]>)
    requires
        hashes_to(hash, writes, sig),
    ensures
        parts@.len() == writes.len(),
        forall|i: int| 0 <= i < writes.len() ==> (#[trigger] parts@[i])@ == writes[i],
        call_ensures(hash, (&parts,), sig),
{
    let parts = choose|parts: Vec<&[u8]>|
        part_bytes(parts@) == writes && #[trigger] call_ensures(hash, (&parts,), sig);
    assert forall|i: int| 0 <= i < writes.len() implies (#[trigger] parts@[i])@ == writes[i] by {
        assert(part_bytes(parts@)[i] == writes[i]);
    }
    parts
}

/// The first group column without text is named, and none is named where all
/// hold text or nothing.
pub proof fn the_first_column_without_text_is_named(
    cells: Seq<Cell>,
    group_cols: Seq<String>,
    error: NotText,
)
    ensures
        names_first_other(cells, group_cols, error) <==> exists|c: int|
            {
                &&& 0 <= c < cells.len()
                &&& #[trigger] cells[c] is Other
                &&& forall|k: int| 0 <= k < c ==> !(#[trigger] cells[k] is Other)
                &&& error.column@ == group_cols[c]@
            },
        all_text(cells) <==> forall|c: int|
            0 <= c < cells.len() ==> !(#[trigger] cells[c] is Other),
{
    if names_first_other(cells, group_cols, error) {
        let c = choose|c: int|
            {
                &&& 0 <= c < cells.len()
                &&& #[trigger] cells[c] is Other
                &&& all_text(cells.take(c))
                &&& error.column@ == group_cols[c]@
            };
        assert forall|k: int| 0 <= k < c implies !(#[trigger] cells[k] is Other) by {
            assert(!(cells.take(c)[k] is Other));
        }
    }
    if exists|c: int|
        {
            &&& 0 <= c < cells.len()
            &&& #[trigger] cells[c] is Other
            &&& forall|k: int| 0 <= k < c ==> !(#[trigger] cells[k] is Other)
            &&& error.column@ == group_cols[c]@
        } {
        let c = choose|c: int|
            {
                &&& 0 <= c < cells.len()
                &&& #[trigger] cells[c] is Other
                &&& forall|k: int| 0 <= k < c ==> !(#[trigger] cells[k] is Other)
                &&& error.column@ == group_cols[c]@
            };
        assert(all_text(cells.take(c)));
    }
}

/// Labels, names and parts are taken over one by one, and the cells of a row are
/// what the columns hold there.
pub proof fn views_are_taken_one_by_one(
    labels: Seq<Label>,
    parts: Seq<&[u8]>,
    cols: Seq<LabelColumn>,
    row: int,
)
    ensures
        label_texts(labels).len() == labels.len(),
        forall|i: int|
            0 <= i < labels.len() ==> #[trigger] label_texts(labels)[i] == (
                labels[i].name@,
                labels[i].value@,
            ),
        part_bytes(parts).len() == parts.len(),
        forall|i: int| 0 <= i < parts.len() ==> #[trigger] part_bytes(parts)[i] == parts[i]@,
        cells_at(cols, row).len() == cols.len(),
        forall|c: int|
            #![trigger cells_at(cols, row)[c]]
            0 <= c < cols.len() ==> {
                let cell = cells_at(cols, row)[c];
                &&& cols[c] is Other ==> cell is Other
                &&& cols[c] is Text && cols[c]->Text_0@[row] is None ==> cell is Null
                &&& cols[c] is Text && cols[c]->Text_0@[row] is Some ==> cell == Cell::Text(
                    cols[c]->Text_0@[row]->0@,
                )
            },
        reach(cols, row) <==> forall|c: int|
            0 <= c < cols.len() && (#[trigger] cols[c]) is Text ==> row < cols[c]->Text_0@.len(),
{
    if forall|c: int|
        0 <= c < cols.len() && (#[trigger] cols[c]) is Text ==> row < cols[c]->Text_0@.len() {
        assert forall|c: int| 0 <= c < cols.len() implies (#[trigger] cols[c] matches
            LabelColumn::Text(values) ==> row < values@.len()) by {
            if cols[c] is Text {
                assert(row < cols[c]->Text_0@.len());
            }
        }
    }
    if reach(cols, row) {
        assert forall|c: int| 0 <= c < cols.len() && (#[trigger] cols[c]) is Text implies row
            < cols[c]->Text_0@.len() by {}
    }
}

} // verus!
