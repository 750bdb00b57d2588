use tomllib::ast::structs::{comp_opt, Comment, WSSep, WSKeySep, Table, TableType,
    CommentNewLines, CommentOrNewLines};
use tomllib::ast::values::{Value, Array, ArrayValue, KeyVal, TableKeyVal, InlineTable};
use tomllib::ast::document::{Expression, NLExpression, Toml, HashValue, decimal_string};
use tomllib::types::{StrType, Children, Date, Time, DateTime, TimeOffset, TimeOffsetAmount};

#[test]
fn test_comp_opt() {
    let (a, b) = (Some("value"), Some("value"));
    assert!(comp_opt(&a, &b));
    let d: Option<&str> = None;
    let c = Some("stuff");
    assert!(!comp_opt(&c, &d));
}

#[test]
fn comp_opt_none_and_different() {
    let n: Option<u8> = None;
    assert!(comp_opt(&n, &None));
    assert!(!comp_opt(&Some(1u8), &Some(2u8)));
    assert!(comp_opt(&Some(Comment::new_str("x")), &Some(Comment::new_str("x"))));
    assert!(!comp_opt(&Some(Comment::new_str("x")), &Some(Comment::new_str("y"))));
}

#[test]
fn comment_renders_with_hash() {
    assert_eq!(Comment::new_str("çô₥₥èñƭ").to_string(), "#çô₥₥èñƭ");
    assert_eq!(Comment::new_string(String::from("a b")).to_string(), "#a b");
}

#[test]
fn table_new_puts_first_key_in_front() {
    let t = Table::new_str(WSSep::new_str(" ", " "), "_underscore_",
        vec![WSKeySep::new_str(WSSep::new_str(" ", " "), "\"-δáƨλèƨ-\"")]);
    assert_eq!(t.keys.len(), 2);
    assert_eq!(t.keys[0].key, "_underscore_");
    assert_eq!(t.to_string(), " _underscore_ . \"-δáƨλèƨ-\" ");
    let std = TableType::Standard(t);
    assert_eq!(std.to_string(), "[ _underscore_ . \"-δáƨλèƨ-\" ]");
    let arr = TableType::Array(Table::new_string(WSSep::new_str("\t ", " \t"), String::from("NumberOne"),
        vec![WSKeySep::new_str(WSSep::new_str("\t", "\t"), "nUMBERtWO")]));
    assert_eq!(arr.to_string(), "[[\t NumberOne\t.\tnUMBERtWO \t]]");
}

#[test]
fn empty_table_renders_nothing() {
    let t = Table { keys: vec![] };
    assert_eq!(t.to_string(), "");
}

#[test]
fn table_type_equality_needs_same_kind() {
    let a = TableType::Standard(Table::new_str(WSSep::new_str("", ""), "a", vec![]));
    let b = TableType::Array(Table::new_str(WSSep::new_str("", ""), "a", vec![]));
    let c = TableType::Standard(Table::new_str(WSSep::new_str("", ""), "a", vec![]));
    assert!(a != b);
    assert!(a == c);
}

#[test]
fn comment_newlines_render() {
    let c = CommentNewLines::new_str("\r\n\t", Comment::new_str("çô₥₥èñƭñèωℓïñè"), "\n \n \n");
    assert_eq!(c.to_string(), "\r\n\t#çô₥₥èñƭñèωℓïñè\n \n \n");
    let n = CommentOrNewLines::NewLines(String::from("\n\t\r\n "));
    assert_eq!(n.to_string(), "\n\t\r\n ");
    assert!(CommentOrNewLines::Comment(c) != n);
    let c2 = CommentNewLines::new_string(String::from(" "), Comment::new_str("x"), String::from("\n"));
    assert_eq!(CommentOrNewLines::Comment(c2).to_string(), " #x\n");
}

fn integer(s: &str) -> Value {
    Value::Integer(String::from(s))
}

#[test]
fn values_render_as_written() {
    assert_eq!(integer("44_9").to_string(), "44_9");
    assert_eq!(Value::Float(String::from("3.14E+5")).to_string(), "3.14E+5");
    assert_eq!(Value::Boolean(true).to_string(), "true");
    assert_eq!(Value::Boolean(false).to_string(), "false");
    assert_eq!(Value::String(String::from("a"), StrType::Basic).to_string(), "\"a\"");
    assert_eq!(Value::String(String::from("a"), StrType::MLBasic).to_string(), "\"\"\"a\"\"\"");
    assert_eq!(Value::String(String::from("Mè ƭôô!"), StrType::Literal).to_string(), "'Mè ƭôô!'");
    assert_eq!(Value::String(String::from("New\nLine"), StrType::MLLiteral).to_string(), "'''New\nLine'''");
}

#[test]
fn string_equality_ignores_quotes() {
    let a = Value::String(String::from("x"), StrType::Basic);
    let b = Value::String(String::from("x"), StrType::MLLiteral);
    let c = Value::String(String::from("y"), StrType::Basic);
    assert!(a == b);
    assert!(a != c);
    assert!(integer("1") != Value::Float(String::from("1")));
}

#[test]
fn date_times_render() {
    let dt = DateTime::new(Date::new_str("2010", "10", "10"),
        Some(Time::new_str("10", "10", "10", Some("33"), Some(TimeOffset::Zulu))));
    assert_eq!(Value::DateTime(dt).to_string(), "2010-10-10T10:10:10.33Z");
    let dt2 = DateTime::new(Date::new_str("1950", "03", "30"),
        Some(Time::new_str("21", "04", "14", Some("123"),
            Some(TimeOffset::Time(TimeOffsetAmount::new_str("+", "05", "00"))))));
    assert_eq!(dt2.to_string(), "1950-03-30T21:04:14.123+05:00");
    let d = DateTime::new(Date::new_str("1979", "05", "27"), None);
    assert_eq!(d.to_string(), "1979-05-27");
    let t = Time::new_str("07", "32", "00", None, None);
    assert_eq!(t.to_string(), "07:32:00");
    assert!(Date::new_str("1", "2", "3") == Date::new_str("1", "2", "3"));
    assert!(Date::new_str("1", "2", "3") != Date::new_str("1", "2", "4"));
}

#[test]
fn arrays_render() {
    let a = Array::new(vec![
        ArrayValue::new(integer("1"), Some(WSSep::new_str("", " ")), vec![CommentOrNewLines::NewLines(String::new())]),
        ArrayValue::new(integer("2"), Some(WSSep::new_str("", " ")),
            vec![CommentOrNewLines::Comment(CommentNewLines::new_str("", Comment::new_str("çô₥₥èñƭ"), "\n"))]),
        ArrayValue::new(integer("3"), None, vec![CommentOrNewLines::NewLines(String::new())]),
    ], vec![CommentOrNewLines::NewLines(String::from(" "))], vec![]);
    assert_eq!(a.to_string(), "[ 1, 2, #çô₥₥èñƭ\n3]");
    let nested = Value::Array(Array::new(vec![
        ArrayValue::default(Value::Array(Array::new(vec![ArrayValue::last(integer("6"))], vec![], vec![]))),
        ArrayValue::last(integer("7")),
    ], vec![], vec![]));
    assert_eq!(nested.to_string(), "[[6], 7]");
}

#[test]
fn array_value_constructors() {
    let d = ArrayValue::default(integer("5"));
    assert_eq!(d.to_string(), "5, ");
    let l = ArrayValue::last(integer("5"));
    assert_eq!(l.to_string(), "5");
    assert!(d != l);
}

#[test]
fn inline_tables_render() {
    let t = InlineTable::new(vec![
        TableKeyVal::new(KeyVal::new_str("Key", WSSep::new_str(" ", " "), Value::Float(String::from("3.14E+5"))),
            WSSep::new_str("", " ")),
        TableKeyVal::new(KeyVal::new_string(String::from("\"Key2\""), WSSep::new_str(" ", " "),
            Value::String(String::from("New\nLine"), StrType::MLLiteral)), WSSep::new_str(" ", "\t")),
    ], WSSep::new_str("\t", ""));
    assert_eq!(t.to_string(), "{\tKey = 3.14E+5 , \"Key2\" = '''New\nLine'''\t}");
    let built = InlineTable::new(vec![
        TableKeyVal::first("a", integer("1")),
        TableKeyVal::default("b", integer("2")),
    ], WSSep::new_str(" ", " "));
    assert_eq!(built.to_string(), "{ a = 1, b = 2 }");
}

#[test]
fn keyval_renders() {
    let kv = KeyVal::new_str("\"Ì WúƲ Húϱƨ!\"", WSSep::new_str("\t", "\t"),
        Value::String(String::from("Mè ƭôô!"), StrType::Literal));
    assert_eq!(kv.to_string(), "\"Ì WúƲ Húϱƨ!\"\t=\t'Mè ƭôô!'");
}

#[test]
fn expressions_render() {
    let e = Expression::new(WSSep::new_str("  ", " "),
        Some(KeyVal::new_str("title", WSSep::new_str(" ", " "), Value::String(String::from("TOML"), StrType::Basic))),
        None, Some(Comment::new_str(" c")));
    assert_eq!(e.to_string(), "  title = \"TOML\" # c");
    let t = Expression::new(WSSep::new_str("", ""), None,
        Some(TableType::Standard(Table::new_str(WSSep::new_str("", ""), "owner", vec![]))), None);
    assert_eq!(t.to_string(), "[owner]");
    let c = Expression::new(WSSep::new_str("\t", "ignored"), None, None, Some(Comment::new_str("x")));
    assert_eq!(c.to_string(), "\t#x");
    let w = Expression::new(WSSep::new_str("  ", "ignored"), None, None, None);
    assert_eq!(w.to_string(), "  ");
    let doc = Toml::new(vec![
        NLExpression::new_str("", t),
        NLExpression::new_string(String::from("\n"), e),
    ]);
    assert_eq!(doc.to_string(), "[owner]\n  title = \"TOML\" # c");
}

#[test]
fn expression_equality() {
    let a = Expression::new(WSSep::new_str("", ""), None, None, Some(Comment::new_str("x")));
    let b = Expression::new(WSSep::new_str("", ""), None, None, Some(Comment::new_str("x")));
    let c = Expression::new(WSSep::new_str("", ""), None, None, None);
    assert!(a == b);
    assert!(a != c);
    let d1 = Toml::new(vec![NLExpression::new_str("\n", a)]);
    let d2 = Toml::new(vec![NLExpression::new_str("\n", b)]);
    assert!(d1 == d2);
}

#[test]
fn hash_values_render() {
    let h = HashValue::new_count(integer("3"));
    assert_eq!(h.to_string(), "Subkey Count: 0, Value: 3");
    assert_eq!(HashValue::one_count().to_string(), "Subkey Count: 1, No Value");
    assert_eq!(HashValue::none_count().to_string(), "Subkey Count: 0, No Value");
    assert_eq!(HashValue::none_keys().to_string(), "Subkey Set: No Value");
    assert_eq!(HashValue::one_keys(String::from("a")).to_string(), "Subkey Set: a, No Value");
    let k = HashValue::new_keys(Value::Boolean(true));
    assert_eq!(k.to_string(), "Subkey Set: Value: true");
    let big = HashValue { value: None, subkeys: Children::Count(1207) };
    assert_eq!(big.to_string(), "Subkey Count: 1207, No Value");
}

#[test]
fn hash_value_equality_ignores_subkeys() {
    assert!(HashValue::none_keys() == HashValue::one_count());
    assert!(HashValue::new_keys(integer("1")) == HashValue::new_count(integer("1")));
    assert!(HashValue::new_keys(integer("1")) != HashValue::new_keys(integer("2")));
    assert!(HashValue::new_keys(integer("1")) != HashValue::none_keys());
}

#[test]
fn decimal_numbers() {
    assert_eq!(decimal_string(0), "0");
    assert_eq!(decimal_string(9), "9");
    assert_eq!(decimal_string(10), "10");
    assert_eq!(decimal_string(1234567890), "1234567890");
}
