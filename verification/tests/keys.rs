use tomllib::ast::structs::{WSSep, WSKeySep, Table, TableType};
use tomllib::ast::keys::{format_keys, format_tt_keys, get_last_keys, starts_with};

fn table(keys: &[&str]) -> Table {
    let rest: Vec<WSKeySep> = keys[1..].iter().map(|k| WSKeySep::new_str(WSSep::new_str(" ", " "), k)).collect();
    Table::new_str(WSSep::new_str(" ", " "), keys[0], rest)
}

#[test]
fn format_keys_joins_with_dots() {
    assert_eq!(format_keys(&table(&["a", "b", "c"])), "a.b.c");
    assert_eq!(format_keys(&table(&["only"])), "only");
    assert_eq!(format_keys(&Table { keys: vec![] }), "");
    assert_eq!(format_tt_keys(&TableType::Array(table(&["fruit", "variety"]))), "fruit.variety");
    assert_eq!(format_tt_keys(&TableType::Standard(table(&["x"]))), "x");
}

#[test]
fn last_keys_of_a_table() {
    let t = table(&["a", "b", "c"]);
    assert_eq!(get_last_keys(None, &t), vec!["$Root$", "a", "b", "c"]);
    assert_eq!(get_last_keys(Some(&table(&["a"])), &t), vec!["b", "c"]);
    assert_eq!(get_last_keys(Some(&table(&["a", "b", "c"])), &t), Vec::<String>::new());
    assert_eq!(get_last_keys(Some(&table(&["a", "b", "c", "d"])), &t), Vec::<String>::new());
}

#[test]
fn subtables() {
    let fruit = TableType::Array(table(&["fruit"]));
    let variety = TableType::Array(table(&["fruit", "variety"]));
    let other = TableType::Standard(table(&["owner"]));
    assert!(variety.is_subtable_of(&fruit));
    assert!(!fruit.is_subtable_of(&variety));
    assert!(fruit.is_subtable_of(&fruit));
    assert!(!other.is_subtable_of(&fruit));
    // The dotted names are compared as text.
    let fruits = TableType::Standard(table(&["fruits"]));
    assert!(fruits.is_subtable_of(&fruit));
}

#[test]
fn prefixes() {
    assert!(starts_with("abc", ""));
    assert!(starts_with("abc", "ab"));
    assert!(!starts_with("ab", "abc"));
    assert!(starts_with("δáƨ", "δá"));
}
