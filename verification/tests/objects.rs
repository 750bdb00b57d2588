use tomllib::ast::structs::{WSSep, WSKeySep, Table, TableType};
use tomllib::ast::values::{Value, ArrayType, Array, InlineTable};
use tomllib::ast::document::HashValue;
use tomllib::objects::{TOMLParser, KeyMap, map_val_to_array_type, mixed_array_report,
    ArrayHeaderStep};
use tomllib::types::{Children, StrType};

fn table(keys: &[&str]) -> Table {
    let rest: Vec<WSKeySep> = keys[1..].iter().map(|k| WSKeySep::new_str(WSSep::new_str("", ""), k)).collect();
    Table::new_str(WSSep::new_str("", ""), keys[0], rest)
}

fn subkeys(map: &KeyMap, key: &str) -> Vec<String> {
    match &map.get(key).unwrap().subkeys {
        Children::Keys(k) => k.clone(),
        Children::Count(_) => panic!("not a set of keys"),
    }
}

fn count(map: &KeyMap, key: &str) -> usize {
    match &map.get(key).unwrap().subkeys {
        Children::Count(c) => *c,
        Children::Keys(_) => panic!("not a count"),
    }
}

#[test]
fn insert_adds_once() {
    let mut v = vec![String::from("a")];
    assert!(TOMLParser::insert(&mut v, String::from("b")));
    assert!(!TOMLParser::insert(&mut v, String::from("a")));
    assert!(!TOMLParser::insert(&mut v, String::from("b")));
    assert_eq!(v, vec!["a", "b"]);
    assert!(TOMLParser::contains(&v, "b"));
    assert!(!TOMLParser::contains(&v, "c"));
}

#[test]
fn top_of_the_stack() {
    let mut tables = vec![];
    assert!(!TOMLParser::is_top_std_table(&tables));
    assert!(!TOMLParser::equal_key_length(&TableType::Standard(table(&["a"])), &tables));
    tables.push(TableType::Array(table(&["a", "b"])));
    assert!(!TOMLParser::is_top_std_table(&tables));
    assert!(TOMLParser::equal_key_length(&TableType::Standard(table(&["x", "y"])), &tables));
    assert!(!TOMLParser::equal_key_length(&TableType::Standard(table(&["x"])), &tables));
    tables.push(TableType::Standard(table(&["c"])));
    assert!(TOMLParser::is_top_std_table(&tables));
}

#[test]
fn array_types() {
    assert_eq!(map_val_to_array_type(&Value::Integer(String::from("1"))), ArrayType::Integer);
    assert_eq!(map_val_to_array_type(&Value::Float(String::from("1.0"))), ArrayType::Float);
    assert_eq!(map_val_to_array_type(&Value::Boolean(true)), ArrayType::Boolean);
    assert_eq!(map_val_to_array_type(&Value::String(String::new(), StrType::Basic)), ArrayType::String);
    assert_eq!(map_val_to_array_type(&Value::Array(Array::new(vec![], vec![], vec![]))), ArrayType::Array);
    assert_eq!(map_val_to_array_type(&Value::InlineTable(InlineTable::new(vec![], WSSep::new_str("", "")))),
        ArrayType::InlineTable);
}

#[test]
fn key_map_insert_and_get() {
    let mut m = KeyMap::new();
    assert_eq!(m.len(), 0);
    m.insert(String::from("a"), HashValue::none_keys());
    m.insert(String::from("b"), HashValue::one_count());
    assert!(m.contains_key("a"));
    assert!(!m.contains_key("c"));
    assert_eq!(m.len(), 2);
    m.insert(String::from("a"), HashValue::new_keys(Value::Boolean(true)));
    assert_eq!(m.len(), 2);
    assert!(*m.get("a").unwrap() == HashValue::new_keys(Value::Boolean(true)));
    assert!(m.insert_subkey("a", String::from("x")));
    assert!(!m.insert_subkey("a", String::from("x")));
    assert_eq!(subkeys(&m, "a"), vec!["x"]);
    m.increment_count("b");
    assert_eq!(count(&m, "b"), 2);
}

#[test]
fn implicit_tables_from_the_root() {
    let mut m = KeyMap::new();
    m.insert(String::from("$Root$"), HashValue::none_keys());
    let t = TableType::Standard(table(&["a", "b", "c"]));
    TOMLParser::add_implicit_tables(&mut m, &vec![], &t, true, String::new());
    assert_eq!(subkeys(&m, "$Root$"), vec!["a"]);
    assert_eq!(subkeys(&m, "a"), vec!["b"]);
    assert!(m.contains_key("a.b"));
    assert_eq!(subkeys(&m, "a.b"), vec!["c"]);
    assert!(!m.contains_key("a.b.c"));
    assert_eq!(m.len(), 3);
}

#[test]
fn implicit_tables_not_valid_changes_nothing() {
    let mut m = KeyMap::new();
    m.insert(String::from("$Root$"), HashValue::none_keys());
    let t = TableType::Standard(table(&["a", "b"]));
    TOMLParser::add_implicit_tables(&mut m, &vec![], &t, false, String::new());
    assert_eq!(m.len(), 1);
    assert_eq!(subkeys(&m, "$Root$"), Vec::<String>::new());
}

#[test]
fn implicit_tables_below_an_array_of_tables() {
    let mut m = KeyMap::new();
    m.insert(String::from("fruit"), HashValue::one_count());
    let tables = vec![TableType::Array(table(&["fruit"]))];
    let t = TableType::Array(table(&["fruit", "variety"]));
    TOMLParser::add_implicit_tables(&mut m, &tables, &t, true, String::from("fruit"));
    assert_eq!(count(&m, "fruit"), 2);
    assert_eq!(m.len(), 1);
}

#[test]
fn implicit_tables_existing_subkey_adds_no_entry() {
    let mut m = KeyMap::new();
    m.insert(String::from("$Root$"), HashValue::one_keys(String::from("a")));
    let t = TableType::Standard(table(&["a", "b", "c"]));
    TOMLParser::add_implicit_tables(&mut m, &vec![], &t, true, String::new());
    assert_eq!(subkeys(&m, "$Root$"), vec!["a"]);
    assert!(!m.contains_key("a"));
    assert_eq!(m.len(), 1);
}

#[test]
fn array_table_index_moves_on() {
    let mut m = KeyMap::new();
    m.insert(String::from("fruit"), HashValue::one_count());
    m.insert(String::from("owner"), HashValue::none_keys());
    let mut idx = vec![0usize, 3];
    TOMLParser::increment_array_table_index(&mut m, &mut idx, "fruit");
    assert_eq!(count(&m, "fruit"), 2);
    assert_eq!(idx, vec![0, 4]);
    TOMLParser::increment_array_table_index(&mut m, &mut idx, "owner");
    assert_eq!(subkeys(&m, "owner"), Vec::<String>::new());
    TOMLParser::increment_array_table_index(&mut m, &mut idx, "absent");
    assert_eq!(idx, vec![0, 6]);
}

#[test]
fn table_set_refuses_a_second_definition() {
    let mut m = KeyMap::new();
    m.insert(String::from("$Root$"), HashValue::none_keys());
    assert!(TOMLParser::add_to_table_set(&mut m, "owner", "$Root$"));
    assert!(!TOMLParser::add_to_table_set(&mut m, "owner", "$Root$"));
    assert!(TOMLParser::add_to_table_set(&mut m, "database", "$Root$"));
    assert_eq!(subkeys(&m, "$Root$"), vec!["owner", "database"]);
    assert!(TOMLParser::add_to_table_set(&mut m, "x", "absent"));
    m.insert(String::from("fruit"), HashValue::one_count());
    assert!(TOMLParser::add_to_table_set(&mut m, "x", "fruit"));
    assert_eq!(count(&m, "fruit"), 1);
}

#[test]
fn new_parser_state_is_empty() {
    let p = TOMLParser::new();
    assert_eq!(p.map.len(), 0);
    assert!(p.last_array_tables.is_empty());
    assert!(p.last_array_tables_index.is_empty());
}

fn header(array: bool, keys: &[&str]) -> TableType {
    let subs: Vec<WSKeySep> = keys[1..].iter().map(|k| WSKeySep::new_str(WSSep::new_str("", ""), k)).collect();
    let t = Table::new_str(WSSep::new_str("", ""), keys[0], subs);
    if array { TableType::Array(t) } else { TableType::Standard(t) }
}

#[test]
fn standard_header_stack_steps() {
    let mut tables = vec![header(false, &["a"])];
    let mut index = vec![0usize];
    assert!(!TOMLParser::std_table_stack(&mut tables, &mut index, &header(false, &["a", "b"])));
    assert!(tables.is_empty());
    assert!(index.is_empty());

    let mut tables = vec![header(true, &["a"]), header(true, &["a", "b"])];
    let mut index = vec![0usize, 1];
    assert!(TOMLParser::std_table_stack(&mut tables, &mut index, &header(false, &["a"])));
    assert_eq!(tables.len(), 1);
    assert_eq!(index, vec![0]);

    let mut tables = vec![header(true, &["x"]), header(true, &["x", "y", "z"])];
    let mut index = vec![3usize, 4];
    assert!(!TOMLParser::std_table_stack(&mut tables, &mut index, &header(false, &["x", "y", "z", "w"])));
    assert_eq!(tables.len(), 2);
    assert_eq!(index, vec![3, 4]);
}

#[test]
fn mixed_arrays_are_reported_once() {
    assert!(!mixed_array_report(ArrayType::Unset, ArrayType::Integer, None, "a"));
    assert!(!mixed_array_report(ArrayType::Integer, ArrayType::Integer, None, "a"));
    assert!(mixed_array_report(ArrayType::Integer, ArrayType::String, None, "a"));
    assert!(!mixed_array_report(ArrayType::Integer, ArrayType::String, Some(None), "a"));
    assert!(!mixed_array_report(ArrayType::Integer, ArrayType::String, Some(Some("a")), "a.b"));
    assert!(mixed_array_report(ArrayType::Integer, ArrayType::String, Some(Some("c")), "a.b"));
}

#[test]
fn array_header_stack_steps() {
    let mut tables: Vec<TableType> = vec![];
    let mut index: Vec<usize> = vec![];
    assert_eq!(TOMLParser::array_table_stack(&mut tables, &mut index, &header(true, &["a"])), ArrayHeaderStep::Push);

    let mut tables = vec![header(true, &["a"])];
    let mut index = vec![0usize];
    assert_eq!(TOMLParser::array_table_stack(&mut tables, &mut index, &header(true, &["a"])), ArrayHeaderStep::Increment);
    assert_eq!(tables.len(), 1);
    assert_eq!(TOMLParser::array_table_stack(&mut tables, &mut index, &header(true, &["a", "b"])), ArrayHeaderStep::Push);

    let mut tables = vec![header(true, &["a"]), header(true, &["a", "b"]), header(false, &["a", "b", "c"])];
    let mut index = vec![1usize, 2, 0];
    assert_eq!(TOMLParser::array_table_stack(&mut tables, &mut index, &header(true, &["a"])), ArrayHeaderStep::Increment);
    assert_eq!(tables.len(), 1);
    assert_eq!(index, vec![1]);

    let mut tables = vec![header(true, &["a"])];
    let mut index = vec![0usize];
    assert_eq!(TOMLParser::array_table_stack(&mut tables, &mut index, &header(true, &["z"])),
        ArrayHeaderStep::PushAndCheckParent);
    assert!(tables.is_empty());
    assert!(index.is_empty());
}
