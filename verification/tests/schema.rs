use mvcc::{Column, DataType, Error, Row, Table, Value};

fn column(name: &str, data_type: DataType, primary_key: bool) -> Column {
    Column { name: name.to_string(), data_type, nullable: false, default: None, primary_key }
}

fn internal(text: &str) -> Error {
    Error::InternalError(text.to_string())
}

#[test]
fn a_value_has_the_type_of_its_kind() {
    assert_eq!(Value::Null.data_type(), None);
    assert_eq!(Value::Boolean(true).data_type(), Some(DataType::Boolean));
    assert_eq!(Value::Integer(-3).data_type(), Some(DataType::Integer));
    assert_eq!(Value::Float(1.5f64.to_bits()).data_type(), Some(DataType::Float));
    assert_eq!(Value::String("s".to_string()).data_type(), Some(DataType::String));
}

#[test]
fn a_table_keeps_its_name_and_columns() {
    let columns = vec![
        column("a", DataType::String, false),
        column("id", DataType::Integer, true),
        column("b", DataType::Float, false),
    ];
    let table = Table::new("users", columns).unwrap();
    assert_eq!(table.name, "users");
    assert_eq!(table.columns.len(), 3);
    assert_eq!(table.columns[1], column("id", DataType::Integer, true));
    assert_eq!(table.primary_key_index(), 1);
}

#[test]
fn a_table_needs_a_column() {
    assert_eq!(Table::new("t", Vec::new()).err(), Some(internal("Table t has no columns")));
}

#[test]
fn a_table_needs_one_primary_key() {
    let none = vec![column("a", DataType::Integer, false), column("b", DataType::Integer, false)];
    assert_eq!(Table::new("t", none).err(), Some(internal("Table t has no primary key")));
    let two = vec![
        column("a", DataType::Integer, true),
        column("b", DataType::Integer, false),
        column("c", DataType::Integer, true),
    ];
    assert_eq!(Table::new("t", two).err(), Some(internal("Table t has more than one primary key")));
}

#[test]
fn a_primary_key_is_never_null() {
    let mut key = column("id", DataType::Integer, true);
    key.nullable = true;
    assert_eq!(
        Table::new("t", vec![column("a", DataType::Boolean, false), key]).err(),
        Some(internal("Primary key id cannot be nullable"))
    );
}

#[test]
fn a_default_is_of_its_columns_type() {
    let mut good = column("n", DataType::Integer, false);
    good.default = Some(Value::Integer(0));
    let mut bad = column("s", DataType::String, false);
    bad.default = Some(Value::Integer(0));
    let mut null = column("z", DataType::Boolean, false);
    null.nullable = true;
    null.default = Some(Value::Null);
    let key = column("id", DataType::Integer, true);

    let table = Table::new("t", vec![column("id", DataType::Integer, true), good]).unwrap();
    assert_eq!(table.columns[1].default, Some(Value::Integer(0)));
    assert_eq!(
        Table::new("t", vec![bad, null, key]).err(),
        Some(internal("Default value does not match column s's data type"))
    );
    let mut null = column("z", DataType::Boolean, false);
    null.default = Some(Value::Null);
    assert_eq!(
        Table::new("t", vec![column("id", DataType::Integer, true), null]).err(),
        Some(internal("Default value does not match column z's data type"))
    );
}

#[test]
fn the_first_broken_rule_is_named() {
    let mut key = column("id", DataType::Integer, true);
    key.nullable = true;
    key.default = Some(Value::Boolean(true));
    assert_eq!(
        Table::new("t", vec![key]).err(),
        Some(internal("Primary key id cannot be nullable"))
    );
    let mut bad = column("s", DataType::String, false);
    bad.default = Some(Value::Integer(0));
    assert_eq!(Table::new("t", vec![bad]).err(), Some(internal("Table t has no primary key")));
}

#[test]
fn the_primary_key_of_a_row_is_found() {
    let table = Table::new(
        "t",
        vec![column("a", DataType::String, false), column("id", DataType::Integer, true)],
    )
    .unwrap();
    let row: Row = vec![Value::String("x".to_string()), Value::Integer(7)];
    assert_eq!(table.get_primary_key(&row), &Value::Integer(7));
}

#[test]
fn a_column_is_found_by_its_name() {
    let table = Table::new(
        "t",
        vec![
            column("a", DataType::String, false),
            column("id", DataType::Integer, true),
            column("a", DataType::Float, false),
        ],
    )
    .unwrap();
    assert_eq!(table.get_col_idx("id"), Some(1));
    assert_eq!(table.get_col_idx("a"), Some(2));
    assert_eq!(table.get_col_idx("b"), None);
    assert_eq!(table.get_col_idx(""), None);
}

#[test]
fn the_primary_key_is_the_column_that_is_marked() {
    let table = Table::new(
        "t",
        vec![
            column("a", DataType::String, false),
            column("b", DataType::Boolean, false),
            column("id", DataType::Integer, true),
        ],
    )
    .unwrap();
    assert_eq!(table.primary_key_index(), 2);
    assert!(table.columns[table.primary_key_index()].primary_key);
    let table = Table::new("t", vec![column("id", DataType::Integer, true)]).unwrap();
    assert_eq!(table.primary_key_index(), 0);
}
