use promql_streaming::columns::{
    group_label_columns, scan_plan, ColumnNames, ColumnType, Field, LabelModifier, Schema,
};

const TIMESTAMP: &str = "_timestamp";
const HASH: &str = "__hash__";
const VALUE: &str = "value";
const NAME: &str = "__name__";

fn texts(list: &[&str]) -> Vec<String> {
    list.iter().map(|text| text.to_string()).collect()
}

fn names() -> ColumnNames {
    ColumnNames {
        timestamp: TIMESTAMP.to_string(),
        hash: HASH.to_string(),
        value: VALUE.to_string(),
        exemplars: "exemplars".to_string(),
        metric_name: NAME.to_string(),
        sorted_table_suffix: "_sorted".to_string(),
        keep_metric_name_funcs: texts(&["last_over_time"]),
    }
}

fn field(name: &str, column_type: ColumnType) -> Field {
    Field { name: name.to_string(), column_type }
}

fn schema() -> Schema {
    Schema {
        fields: vec![
            field(TIMESTAMP, ColumnType::Other),
            field(HASH, ColumnType::UInt64),
            field(VALUE, ColumnType::Other),
            field("instance", ColumnType::Other),
            field("path", ColumnType::Other),
        ],
    }
}

fn by(labels: &[&str]) -> Option<LabelModifier> {
    Some(LabelModifier::Include(texts(labels)))
}

#[test]
fn test_group_label_columns_resolution() {
    let schema = schema();
    let names = names();
    assert_eq!(group_label_columns(&None, &schema, "rate", &names), Some(vec![]));
    assert_eq!(
        group_label_columns(&by(&["path", "instance", "path"]), &schema, "rate", &names),
        Some(vec!["instance".to_string(), "path".to_string()])
    );
    // absent columns group like an absent label: no column to read
    assert_eq!(
        group_label_columns(&by(&["nope", HASH, VALUE]), &schema, "rate", &names),
        Some(vec![])
    );
    // rate strips the metric name; last_over_time keeps it (not in schema here)
    assert_eq!(
        group_label_columns(&by(&[NAME]), &schema, "rate", &names),
        Some(vec![])
    );
    let without = Some(LabelModifier::Exclude(vec!["instance".to_string()]));
    assert_eq!(group_label_columns(&without, &schema, "rate", &names), None);
}

#[test]
fn the_metric_name_is_kept_for_some_functions() {
    let mut schema = schema();
    schema.fields.push(field(NAME, ColumnType::Other));
    let names = names();
    assert_eq!(
        group_label_columns(&by(&["path", NAME]), &schema, "last_over_time", &names),
        Some(texts(&[NAME, "path"]))
    );
    assert_eq!(
        group_label_columns(&by(&["path", NAME]), &schema, "rate", &names),
        Some(texts(&["path"]))
    );
}

#[test]
fn bookkeeping_columns_are_never_grouped_by() {
    let mut schema = schema();
    schema.fields.push(field("exemplars", ColumnType::Other));
    assert_eq!(
        group_label_columns(
            &by(&["exemplars", TIMESTAMP, HASH, VALUE, "path"]),
            &schema,
            "rate",
            &names()
        ),
        Some(texts(&["path"]))
    );
}

#[test]
fn group_columns_come_in_byte_order() {
    let columns = ["b", "B", "ab", "a", "\u{e9}", "z", "a_"];
    let schema = Schema {
        fields: columns
            .iter()
            .map(|name| field(name, ColumnType::Other))
            .collect(),
    };
    let mut expected = texts(&columns);
    expected.sort();
    let mut reversed = columns;
    reversed.reverse();
    assert_eq!(
        group_label_columns(&by(&columns), &schema, "rate", &names()),
        Some(expected.clone())
    );
    assert_eq!(
        group_label_columns(&by(&reversed), &schema, "rate", &names()),
        Some(expected)
    );
}

#[test]
fn a_scan_reads_the_fixed_columns_and_the_group_columns() {
    let plan = scan_plan("m", &schema(), &by(&["path", "instance"]), "rate", &names()).unwrap();
    assert_eq!(plan.sorted_table, "m_sorted");
    assert_eq!(plan.group_cols, texts(&["instance", "path"]));
    assert_eq!(
        plan.columns,
        texts(&[TIMESTAMP, HASH, VALUE, "instance", "path"])
    );
    let plan = scan_plan("m", &schema(), &None, "rate", &names()).unwrap();
    assert_eq!(plan.columns, texts(&[TIMESTAMP, HASH, VALUE]));
}

#[test]
fn other_hashes_and_without_rule_the_scan_out() {
    let mut schema = schema();
    let without = Some(LabelModifier::Exclude(texts(&["path"])));
    assert!(scan_plan("m", &schema, &without, "rate", &names()).is_none());
    schema.fields[1].column_type = ColumnType::Other;
    assert!(scan_plan("m", &schema, &by(&["path"]), "rate", &names()).is_none());
    assert!(scan_plan("m", &schema, &None, "rate", &names()).is_none());
}

#[test]
fn a_missing_hash_column_does_not_rule_the_scan_out() {
    let schema = Schema { fields: vec![field("path", ColumnType::Other)] };
    assert!(scan_plan("m", &schema, &by(&["path"]), "rate", &names()).is_some());
}

#[test]
fn the_first_of_two_equal_columns_counts() {
    let schema = Schema {
        fields: vec![field(HASH, ColumnType::UInt64), field(HASH, ColumnType::Other)],
    };
    assert_eq!(
        schema.field_with_name(HASH).unwrap().column_type,
        ColumnType::UInt64
    );
    assert!(schema.field_with_name("path").is_none());
    assert!(scan_plan("m", &schema, &None, "rate", &names()).is_some());
}

#[test]
fn labels_without_a_column_group_like_no_labels() {
    let none = scan_plan("m", &schema(), &None, "rate", &names()).unwrap();
    let nope = scan_plan("m", &schema(), &by(&["nope", HASH]), "rate", &names()).unwrap();
    assert_eq!(none.group_cols, nope.group_cols);
    assert_eq!(none.columns, nope.columns);
    assert_eq!(none.sorted_table, nope.sorted_table);
}
