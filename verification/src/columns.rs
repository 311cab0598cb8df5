//! Which columns a query groups by and scans, and whether it can stream at all.
use vstd::prelude::*;
use vstd::string::StringExecFns;

use crate::text::{
    contains_text, insert_ascending, lemma_text_before_asymmetric, same_text, strictly_ascending,
    text_before, texts,
};

verus! {

/// The grouping clause of an aggregation: `by (...)` or `without (...)`.
pub enum LabelModifier {
    Include(Vec<String>),
    Exclude(Vec<String>),
}

/// What the decision to stream needs to know of a column's type.
#[derive(Clone, Copy, PartialEq, Eq, Structural, Debug)]
pub enum ColumnType {
    UInt64,
    Other,
}

/// One column of a table.
pub struct Field {
    pub name: String,
    pub column_type: ColumnType,
}

/// The columns of a table, in order.
pub struct Schema {
    pub fields: Vec<Field>,
}

/// The column and function names that have a meaning of their own, and the
/// suffix under which the hash-ordered table of a metric is registered.
pub struct ColumnNames {
    pub timestamp: String,
    pub hash: String,
    pub value: String,
    pub exemplars: String,
    pub metric_name: String,
    pub sorted_table_suffix: String,
    pub keep_metric_name_funcs: Vec<String>,
}

/// What to scan: the hash-ordered table, the columns to group by, and all
/// columns to read.
pub struct ScanPlan {
    pub sorted_table: String,
    pub group_cols: Vec<String>,
    pub columns: Vec<String>,
}

impl Schema {
    /// The names of the columns.
    pub open spec fn names(&self) -> Seq<Seq<char>> {
        self.fields@.map_values(|f: Field| f.name@)
    }

    /// `i` is the position of the first column of that name.
    pub open spec fn is_first(&self, name: Seq<char>, i: int) -> bool {
        &&& 0 <= i < self.names().len()
        &&& self.names()[i] == name
        &&& forall|k: int| 0 <= k < i ==> #[trigger] self.names()[k] != name
    }

    /// The first column of that name, if there is one.
    pub fn field_with_name(&self, name: &str) -> (field: Option<&Field>)
        ensures
            match field {
                Some(f) => exists|i: int| #[trigger] self.is_first(name@, i) && *f == self.fields@[i],
                None => !self.names().contains(name@),
            },
            match field {
                Some(f) => exists|i: int|
                    {
                        &&& 0 <= i < self.fields@.len()
                        &&& *f == #[trigger] self.fields@[i]
                        &&& f.name@ == name@
                        &&& forall|k: int|
                            0 <= k < i ==> (#[trigger] self.fields@[k]).name@ != name@
                    },
                None => forall|i: int|
                    0 <= i < self.fields@.len() ==> (#[trigger] self.fields@[i]).name@ != name@,
            },
    {
        let mut i: usize = 0;
        while i < self.fields.len()
            invariant
                i <= self.fields@.len(),
                forall|k: int| 0 <= k < i ==> #[trigger] self.names()[k] != name@,
            decreases self.fields@.len() - i,
        {
            if same_text(self.fields[i].name.as_str(), name) {
                assert(self.is_first(name@, i as int));
                assert forall|k: int| 0 <= k < i implies (#[trigger] self.fields@[k]).name@
                    != name@ by {
                    assert(self.names()[k] != name@);
                }
                return Some(&self.fields[i]);
            }
            i += 1;
        }
        assert forall|k: int| 0 <= k < self.fields@.len() implies (#[trigger] self.fields@[k]).name@
            != name@ by {
            assert(self.names()[k] != name@);
        }
        None
    }

    /// The hash column, where there is one, does not hold 64-bit hashes.
    pub open spec fn has_other_hash(&self, hash: Seq<char>) -> bool {
        exists|i: int|
            #[trigger] self.is_first(hash, i) && self.fields@[i].column_type != ColumnType::UInt64
    }
}

/// Whether a label asked for in `by (...)` is read from a column: it names a
/// column of the table that is none of the bookkeeping columns, nor the metric
/// name where the range function strips it.
pub open spec fn groups_by(
    name: Seq<char>,
    schema: Schema,
    func_name: Seq<char>,
    names: ColumnNames,
) -> bool {
    &&& name != names.timestamp@
    &&& name != names.hash@
    &&& name != names.value@
    &&& name != names.exemplars@
    &&& name == names.metric_name@ ==> texts(names.keep_metric_name_funcs@).contains(func_name)
    &&& schema.names().contains(name)
}

/// `cols` are the group columns for the labels asked for.
pub open spec fn are_group_columns(
    cols: Seq<Seq<char>>,
    asked: Seq<Seq<char>>,
    schema: Schema,
    func_name: Seq<char>,
    names: ColumnNames,
) -> bool {
    &&& strictly_ascending(cols)
    &&& forall|t: Seq<char>| #[trigger]
        cols.contains(t) <==> asked.contains(t) && groups_by(t, schema, func_name, names)
}

fn is_grouped_by(name: &String, schema: &Schema, func_name: &str, names: &ColumnNames) -> (r: bool)
    ensures
        r == groups_by(name@, *schema, func_name@, *names),
{
    if same_text(name.as_str(), names.timestamp.as_str()) || same_text(
        name.as_str(),
        names.hash.as_str(),
    ) || same_text(name.as_str(), names.value.as_str()) || same_text(
        name.as_str(),
        names.exemplars.as_str(),
    ) {
        return false;
    }
    // range functions strip the metric name before aggregation
    if same_text(name.as_str(), names.metric_name.as_str()) && !contains_text(
        &names.keep_metric_name_funcs,
        func_name,
    ) {
        return false;
    }
    match schema.field_with_name(name.as_str()) {
        Some(_) => true,
        None => false,
    }
}

/// Columns the aggregation groups by, sorted for a stable label order.
/// `None` when the grouping cannot be resolved to a column set (`without`).
pub fn group_label_columns(
    modifier: &Option<LabelModifier>,
    schema: &Schema,
    func_name: &str,
    names: &ColumnNames,
) -> (cols: Option<Vec<String>>)
    ensures
        match (*modifier, cols) {
            (None, Some(c)) => c@.len() == 0,
            (Some(LabelModifier::Include(asked)), Some(c)) => {
                &&& are_group_columns(texts(c@), texts(asked@), *schema, func_name@, *names)
                &&& forall|t: Seq<char>| #[trigger]
                    texts(c@).contains(t) <==> {
                        &&& texts(asked@).contains(t)
                        &&& t != names.timestamp@
                        &&& t != names.hash@
                        &&& t != names.value@
                        &&& t != names.exemplars@
                        &&& t != names.metric_name@ || texts(
                            names.keep_metric_name_funcs@,
                        ).contains(func_name@)
                        &&& exists|i: int|
                            0 <= i < schema.fields@.len() && (
                            #[trigger] schema.fields@[i]).name@ == t
                    }
            },
            (Some(LabelModifier::Exclude(_)), None) => true,
            _ => false,
        },
{
    let asked: &Vec<String> = match modifier {
        None => {
            return Some(Vec::new());
        },
        Some(LabelModifier::Include(labels)) => labels,
        Some(LabelModifier::Exclude(_)) => {
            return None;
        },
    };
    let mut cols: Vec<String> = Vec::new();
    let mut i: usize = 0;
    while i < asked.len()
        invariant
            i <= asked@.len(),
            strictly_ascending(texts(cols@)),
            forall|t: Seq<char>| #[trigger]
                texts(cols@).contains(t) <==> texts(asked@).take(i as int).contains(t) && groups_by(
                    t,
                    *schema,
                    func_name@,
                    *names,
                ),
        decreases asked@.len() - i,
    {
        let ghost before = texts(cols@);
        let ghost seen = texts(asked@).take(i as int);
        let ghost now = texts(asked@).take(i + 1);
        proof {
            assert(now =~= seen.push(asked@[i as int]@));
            assert forall|t: Seq<char>| #[trigger]
                now.contains(t) <==> seen.contains(t) || t == asked@[i as int]@ by {
                if seen.contains(t) {
                    let k = choose|k: int| 0 <= k < seen.len() && seen[k] == t;
                    assert(now[k] == t);
                }
                assert(now[i as int] == asked@[i as int]@);
            }
        }
        if is_grouped_by(&asked[i], schema, func_name, names) {
            insert_ascending(&mut cols, &asked[i]);
        }
        i += 1;
    }
    proof {
        assert(texts(asked@).take(asked@.len() as int) =~= texts(asked@));
        group_columns_are_those_asked_for(
            texts(asked@),
            texts(cols@),
            *schema,
            func_name@,
            *names,
        );
    }
    Some(cols)
}

/// Decides whether a query may take the streaming plan, and what it then scans.
/// `None` where the hashes are not 64-bit integers or the grouping is a
/// `without`; the caller then falls back to the materializing path.
pub fn scan_plan(
    table_name: &str,
    schema: &Schema,
    modifier: &Option<LabelModifier>,
    func_name: &str,
    names: &ColumnNames,
) -> (plan: Option<ScanPlan>)
    ensures
        plan is None <==> schema.has_other_hash(names.hash@) || *modifier matches Some(
            LabelModifier::Exclude(_),
        ),
        plan is None <==> (*modifier matches Some(LabelModifier::Exclude(_))) || exists|i: int|
            {
                &&& 0 <= i < schema.fields@.len()
                &&& (#[trigger] schema.fields@[i]).name@ == names.hash@
                &&& schema.fields@[i].column_type != ColumnType::UInt64
                &&& forall|k: int|
                    0 <= k < i ==> (#[trigger] schema.fields@[k]).name@ != names.hash@
            },
        plan matches Some(p) ==> {
            &&& p.sorted_table@ == table_name@ + names.sorted_table_suffix@
            &&& *modifier is None ==> p.group_cols@.len() == 0
            &&& *modifier matches Some(LabelModifier::Include(asked)) ==> are_group_columns(
                texts(p.group_cols@),
                texts(asked@),
                *schema,
                func_name@,
                *names,
            )
            &&& texts(p.columns@) == seq![names.timestamp@, names.hash@, names.value@] + texts(
                p.group_cols@,
            )
        },
{
    proof {
        other_hashes_are_in_the_first_hash_column(*schema, names.hash@);
    }
    if let Some(field) = schema.field_with_name(names.hash.as_str()) {
        match field.column_type {
            ColumnType::UInt64 => {},
            ColumnType::Other => {
                return None;
            },
        }
    }
    assert(!schema.has_other_hash(names.hash@));
    let group_cols: Vec<String> = match group_label_columns(modifier, schema, func_name, names) {
        Some(cols) => cols,
        None => {
            return None;
        },
    };
    let mut sorted_table: String = table_name.to_owned();
    sorted_table.append(names.sorted_table_suffix.as_str());
    let mut columns: Vec<String> = Vec::new();
    columns.push(names.timestamp.clone());
    columns.push(names.hash.clone());
    columns.push(names.value.clone());
    let ghost fixed = columns@;
    let mut i: usize = 0;
    while i < group_cols.len()
        invariant
            i <= group_cols@.len(),
            columns@ == fixed + group_cols@.take(i as int),
        decreases group_cols@.len() - i,
    {
        columns.push(group_cols[i].clone());
        assert(group_cols@.take(i + 1) =~= group_cols@.take(i as int).push(group_cols@[i as int]));
        i += 1;
    }
    proof {
        assert(group_cols@.take(group_cols@.len() as int) =~= group_cols@);
        assert(texts(columns@) =~= seq![names.timestamp@, names.hash@, names.value@] + texts(
            group_cols@,
        ));
    }
    Some(ScanPlan { sorted_table, group_cols, columns })
}

/// Two ascending lists without repetitions that hold the same strings are the
/// same list.
pub proof fn ascending_list_is_unique(a: Seq<Seq<char>>, b: Seq<Seq<char>>)
    requires
        strictly_ascending(a),
        strictly_ascending(b),
        forall|t: Seq<char>| #[trigger] a.contains(t) <==> b.contains(t),
    ensures
        a == b,
    decreases a.len(),
{
    if a.len() == 0 {
        if b.len() > 0 {
            assert(b.contains(b[0]));
            assert(a.contains(b[0]));
        }
        assert(a =~= b);
    } else {
        let last = a.last();
        assert(a.contains(last));
        assert(b.len() > 0);
        let top = b.last();
        assert(b.contains(top));
        assert(a.contains(top));
        let i = choose|i: int| 0 <= i < b.len() && b[i] == last;
        let j = choose|j: int| 0 <= j < a.len() && a[j] == top;
        if last != top {
            assert(text_before(b[i], b[b.len() - 1]));
            assert(text_before(a[j], a[a.len() - 1]));
            lemma_text_before_asymmetric(last, top);
        }
        let x = a.drop_last();
        let y = b.drop_last();
        assert forall|t: Seq<char>| #[trigger] x.contains(t) <==> y.contains(t) by {
            if x.contains(t) {
                let k = choose|k: int| 0 <= k < x.len() && x[k] == t;
                assert(text_before(a[k], a[a.len() - 1]));
                lemma_text_before_asymmetric(t, last);
                assert(a.contains(t));
                let m = choose|m: int| 0 <= m < b.len() && b[m] == t;
                assert(y[m] == t);
            }
            if y.contains(t) {
                let k = choose|k: int| 0 <= k < y.len() && y[k] == t;
                assert(text_before(b[k], b[b.len() - 1]));
                lemma_text_before_asymmetric(t, top);
                assert(b.contains(t));
                assert(a.contains(t));
                let m = choose|m: int| 0 <= m < a.len() && a[m] == t;
                assert(x[m] == t);
            }
        }
        ascending_list_is_unique(x, y);
        assert(a =~= x.push(last));
        assert(b =~= y.push(top));
    }
}

/// The group columns do not depend on the order in which `by (...)` names its
/// labels, nor on how often it names one.
pub proof fn group_columns_ignore_order_and_repetition(
    asked: Seq<Seq<char>>,
    other: Seq<Seq<char>>,
    cols: Seq<Seq<char>>,
    other_cols: Seq<Seq<char>>,
    schema: Schema,
    func_name: Seq<char>,
    names: ColumnNames,
)
    requires
        asked.to_set() == other.to_set(),
        are_group_columns(cols, asked, schema, func_name, names),
        are_group_columns(other_cols, other, schema, func_name, names),
    ensures
        cols == other_cols,
{
    assert forall|t: Seq<char>| #[trigger] cols.contains(t) <==> other_cols.contains(t) by {
        assert(asked.contains(t) <==> asked.to_set().contains(t));
        assert(other.contains(t) <==> other.to_set().contains(t));
    }
    ascending_list_is_unique(cols, other_cols);
}

/// Labels that no column is read for group like no `by (...)` at all: there are
/// no group columns.
pub proof fn unresolved_labels_group_like_none(
    asked: Seq<Seq<char>>,
    cols: Seq<Seq<char>>,
    schema: Schema,
    func_name: Seq<char>,
    names: ColumnNames,
)
    requires
        are_group_columns(cols, asked, schema, func_name, names),
        forall|t: Seq<char>| #[trigger]
            asked.contains(t) ==> !groups_by(t, schema, func_name, names),
    ensures
        cols == Seq::<Seq<char>>::empty(),
{
    if cols.len() > 0 {
        assert(cols.contains(cols[0]));
    }
    assert(cols =~= Seq::<Seq<char>>::empty());
}

/// A column is grouped by just where it is asked for, is a column of the table,
/// and is neither the timestamp, hash, value or exemplars column nor the metric
/// name, whatever else it is called; the metric name is grouped by just where
/// the range function keeps it.
pub proof fn group_columns_are_those_asked_for(
    asked: Seq<Seq<char>>,
    cols: Seq<Seq<char>>,
    schema: Schema,
    func_name: Seq<char>,
    names: ColumnNames,
)
    requires
        are_group_columns(cols, asked, schema, func_name, names),
    ensures
        forall|t: Seq<char>| #[trigger]
            cols.contains(t) <==> {
                &&& asked.contains(t)
                &&& t != names.timestamp@
                &&& t != names.hash@
                &&& t != names.value@
                &&& t != names.exemplars@
                &&& t != names.metric_name@ || texts(names.keep_metric_name_funcs@).contains(
                    func_name,
                )
                &&& exists|i: int|
                    0 <= i < schema.fields@.len() && (#[trigger] schema.fields@[i]).name@ == t
            },
        forall|i: int, j: int|
            0 <= i < j < cols.len() ==> text_before(#[trigger] cols[i], #[trigger] cols[j]),
        cols.no_duplicates(),
{
    assert forall|t: Seq<char>| #[trigger] schema.names().contains(t) <==> exists|i: int|
        0 <= i < schema.fields@.len() && (#[trigger] schema.fields@[i]).name@ == t by {
        if schema.names().contains(t) {
            let i = choose|i: int| 0 <= i < schema.names().len() && schema.names()[i] == t;
            assert(schema.fields@[i].name@ == t);
        }
        if exists|i: int|
            0 <= i < schema.fields@.len() && (#[trigger] schema.fields@[i]).name@ == t {
            let i = choose|i: int|
                0 <= i < schema.fields@.len() && (#[trigger] schema.fields@[i]).name@ == t;
            assert(schema.names()[i] == t);
        }
    }
    assert forall|t: Seq<char>| #[trigger] cols.contains(t) <==> {
        &&& asked.contains(t)
        &&& t != names.timestamp@
        &&& t != names.hash@
        &&& t != names.value@
        &&& t != names.exemplars@
        &&& t != names.metric_name@ || texts(names.keep_metric_name_funcs@).contains(func_name)
        &&& exists|i: int|
            0 <= i < schema.fields@.len() && (#[trigger] schema.fields@[i]).name@ == t
    } by {
        assert(schema.names().contains(t) <==> exists|i: int|
            0 <= i < schema.fields@.len() && (#[trigger] schema.fields@[i]).name@ == t);
    }
    assert forall|i: int, j: int| 0 <= i < cols.len() && 0 <= j < cols.len() && i != j implies cols[i]
        != cols[j] by {
        if i < j {
            lemma_text_before_asymmetric(cols[i], cols[j]);
        } else {
            lemma_text_before_asymmetric(cols[j], cols[i]);
        }
    }
}

/// A table has other hashes just where the first column of that name does not
/// hold 64-bit integers.
pub proof fn other_hashes_are_in_the_first_hash_column(schema: Schema, hash: Seq<char>)
    ensures
        schema.has_other_hash(hash) <==> exists|i: int|
            {
                &&& 0 <= i < schema.fields@.len()
                &&& (#[trigger] schema.fields@[i]).name@ == hash
                &&& schema.fields@[i].column_type != ColumnType::UInt64
                &&& forall|k: int| 0 <= k < i ==> (#[trigger] schema.fields@[k]).name@ != hash
            },
{
    if schema.has_other_hash(hash) {
        let i = choose|i: int|
            #[trigger] schema.is_first(hash, i) && schema.fields@[i].column_type
                != ColumnType::UInt64;
        column_names_are_those_of_the_fields(schema, hash, i);
    } else {
        assert forall|i: int|
            {
                &&& 0 <= i < schema.fields@.len()
                &&& (#[trigger] schema.fields@[i]).name@ == hash
                &&& forall|k: int| 0 <= k < i ==> (#[trigger] schema.fields@[k]).name@ != hash
            } implies schema.fields@[i].column_type == ColumnType::UInt64 by {
            column_names_are_those_of_the_fields(schema, hash, i);
            assert(schema.is_first(hash, i));
        }
    }
}

/// The names of a table's columns, and the first of a name.
pub proof fn column_names_are_those_of_the_fields(schema: Schema, name: Seq<char>, i: int)
    ensures
        schema.names().len() == schema.fields@.len(),
        forall|k: int|
            0 <= k < schema.fields@.len() ==> #[trigger] schema.names()[k]
                == schema.fields@[k].name@,
        schema.is_first(name, i) <==> {
            &&& 0 <= i < schema.fields@.len()
            &&& schema.fields@[i].name@ == name
            &&& forall|k: int| 0 <= k < i ==> (#[trigger] schema.fields@[k]).name@ != name
        },
{
    if schema.is_first(name, i) {
        assert forall|k: int| 0 <= k < i implies (#[trigger] schema.fields@[k]).name@ != name by {
            assert(schema.names()[k] != name);
        }
    }
}

} // verus!
