use tomllib::ast::structs::{WSSep, WSKeySep, Table, TableType};
use tomllib::ast::values::{Value, ArrayType};
use tomllib::state::{ParseState, ParseError};
use tomllib::types::Children;

fn header(array: bool, keys: &[&str]) -> TableType {
    let subs: Vec<WSKeySep> = keys[1..].iter().map(|k| WSKeySep::new_str(WSSep::new_str("", ""), k)).collect();
    let t = Table::new_str(WSSep::new_str("", ""), keys[0], subs);
    if array { TableType::Array(t) } else { TableType::Standard(t) }
}

#[test]
fn a_standard_table_is_defined_once() {
    let mut st = ParseState::new();
    st.std_table_event(header(false, &["a"]), "a".into(), "$Root$".into(), true, false, "".into(), 1);
    assert!(st.errors.is_empty());
    assert!(!st.array_error);
    assert_eq!(st.tables.len(), 1);
    assert_eq!(st.tables_index, vec![0]);
    assert!(matches!(st.map.get("a").unwrap().value, Some(Value::Table)));

    st.std_table_event(header(false, &["a"]), "a".into(), "$Root$".into(), true, false, "".into(), 2);
    assert_eq!(st.errors.len(), 1);
    assert!(matches!(&st.errors[0], ParseError::InvalidTable(k, 2) if k == "a"));
    assert!(st.array_error);
}

#[test]
fn an_invalid_key_path_is_reported() {
    let mut st = ParseState::new();
    st.std_table_event(header(false, &["x"]), "x".into(), "$Root$".into(), false, false, "".into(), 7);
    assert!(matches!(&st.errors[0], ParseError::InvalidTable(k, 7) if k == "x"));
    assert!(st.map.get("x").is_none());
}

#[test]
fn mixed_arrays_are_reported_once_per_key() {
    let mut st = ParseState::new();
    st.array_open();
    st.array_value_event(ArrayType::Integer, "k".into(), 1);
    assert!(st.errors.is_empty());
    st.array_value_event(ArrayType::String, "k".into(), 1);
    assert_eq!(st.errors.len(), 1);
    assert!(matches!(&st.errors[0], ParseError::MixedArray(k, 1) if k == "k"));
    st.array_value_event(ArrayType::Integer, "k".into(), 2);
    assert_eq!(st.errors.len(), 1);
    st.array_close();
    assert!(st.last_array_type.is_empty());
}

#[test]
fn nested_arrays_keep_the_outer_kind() {
    let mut st = ParseState::new();
    st.array_open();
    st.array_value_event(ArrayType::Array, "a".into(), 1);
    st.array_open();
    st.array_value_event(ArrayType::Integer, "a.0".into(), 1);
    st.array_close();
    assert_eq!(st.last_array_type, vec![ArrayType::Array]);
    st.array_close();
    assert!(st.last_array_type.is_empty());
}

#[test]
fn arrays_of_tables_count_their_tables() {
    let mut st = ParseState::new();
    st.array_table_event(header(true, &["fruit"]), "".into(), false, "".into(), true, "fruit.0".into(),
        "fruit".into(), 1);
    assert!(st.errors.is_empty());
    assert!(matches!(st.map.get("fruit").unwrap().subkeys, Children::Count(1)));
    assert!(st.map.get("fruit.0").is_some());
    assert_eq!(st.tables_index, vec![0]);

    st.array_table_event(header(true, &["fruit"]), "fruit".into(), false, "".into(), true, "fruit.1".into(),
        "fruit".into(), 5);
    assert!(matches!(st.map.get("fruit").unwrap().subkeys, Children::Count(2)));
    assert_eq!(st.tables_index, vec![1]);
    assert_eq!(st.tables.len(), 1);

    st.array_table_event(header(true, &["fruit"]), "fruit".into(), false, "".into(), false, "fruit.2".into(),
        "fruit".into(), 9);
    assert!(matches!(&st.errors[0], ParseError::InvalidTable(k, 9) if k == "fruit.2"));
}
