use tomllib::ast::structs::{WSSep, WSKeySep, Table, TableType, ErrorCode, Comment,
    CommentNewLines};
use tomllib::ast::values::{Value, Array, ArrayValue, InlineTable, TableKeyVal};
use tomllib::ast::document::HashValue;
use tomllib::objects::{TOMLParser, KeyMap};
use tomllib::types::{StrType, Children};

fn sample() -> Value {
    Value::Array(Array::new(vec![
        ArrayValue::default(Value::InlineTable(InlineTable::new(vec![
            TableKeyVal::first("k", Value::String(String::from("v"), StrType::Basic)),
        ], WSSep::new_str("", "")))),
        ArrayValue::last(Value::Integer(String::from("2"))),
    ], vec![], vec![]))
}

fn sample_quoted_otherwise() -> Value {
    Value::Array(Array::new(vec![
        ArrayValue::default(Value::InlineTable(InlineTable::new(vec![
            TableKeyVal::first("k", Value::String(String::from("v"), StrType::Literal)),
        ], WSSep::new_str("", "")))),
        ArrayValue::last(Value::Integer(String::from("2"))),
    ], vec![], vec![]))
}

#[test]
fn equality_is_an_equivalence() {
    let (a, b, c) = (sample(), sample_quoted_otherwise(), sample());
    assert!(a == a);
    assert!(a == b && b == a);
    assert!(a == b && b == c && a == c);
    let d = Value::Integer(String::from("3"));
    assert!(a != d && d != a);
}

#[test]
fn inserting_twice_is_refused() {
    let mut v: Vec<String> = vec![];
    assert!(TOMLParser::insert(&mut v, String::from("x")));
    assert!(TOMLParser::contains(&v, "x"));
    assert!(!TOMLParser::insert(&mut v, String::from("x")));
    assert_eq!(v.len(), 1);
}

#[test]
fn a_table_defined_twice_is_refused() {
    let mut m = KeyMap::new();
    m.insert(String::from("a"), HashValue::none_keys());
    assert!(TOMLParser::add_to_table_set(&mut m, "b", "a"));
    assert!(!TOMLParser::add_to_table_set(&mut m, "b", "a"));
    match &m.get("a").unwrap().subkeys {
        Children::Keys(k) => assert_eq!(k, &vec![String::from("b")]),
        Children::Count(_) => panic!("keys expected"),
    }
}

#[test]
fn key_map_reads_what_was_written() {
    let mut m = KeyMap::new();
    m.insert(String::from("a"), HashValue::new_keys(Value::Boolean(true)));
    m.insert(String::from("b"), HashValue::new_keys(Value::Boolean(false)));
    assert!(*m.get("a").unwrap() == HashValue::new_keys(Value::Boolean(true)));
    m.insert(String::from("a"), HashValue::new_keys(Value::Boolean(false)));
    assert!(*m.get("a").unwrap() == HashValue::new_keys(Value::Boolean(false)));
    assert!(*m.get("b").unwrap() == HashValue::new_keys(Value::Boolean(false)));
    assert!(m.get("c").is_none());
}

#[test]
fn subtables_are_reflexive_and_transitive() {
    let t = |ks: &[&str]| {
        let rest = ks[1..].iter().map(|k| WSKeySep::new_str(WSSep::new_str("", ""), k)).collect();
        TableType::Standard(Table::new_str(WSSep::new_str("", ""), ks[0], rest))
    };
    let (a, b, c) = (t(&["x", "y", "z"]), t(&["x", "y"]), t(&["x"]));
    assert!(a.is_subtable_of(&a));
    assert!(a.is_subtable_of(&b) && b.is_subtable_of(&c) && a.is_subtable_of(&c));
}

#[test]
fn parsing_then_rendering_gives_the_text_back() {
    let input = "[[ \"a b\" .\tc ]]\n";
    let (rest, t) = TOMLParser::table(input).unwrap();
    assert_eq!(format!("{}{}", t.to_string(), rest), input);
    let (rest, k) = TOMLParser::table_subkey(" . d = 1").unwrap();
    assert_eq!(format!("{}{}", k.to_string(), rest), " . d = 1");
    let (rest, c) = TOMLParser::comment_nl("\n\n# x\n\nkey").unwrap();
    assert_eq!(format!("{}{}", c.to_string(), rest), "\n\n# x\n\nkey");
}

#[test]
fn error_codes() {
    assert_eq!(ErrorCode::BasicString.code(), 0);
    assert_eq!(ErrorCode::MLBasicString.code(), 1);
    assert_eq!(ErrorCode::LiteralString.code(), 2);
    assert_eq!(ErrorCode::MLLiteralString.code(), 3);
}

#[test]
fn rendering_then_reading_gives_the_header_back() {
    let headers = vec![
        TableType::Standard(Table::new_str(WSSep::new_str(" \t", "\t "), "a-b_c", vec![
            WSKeySep::new_str(WSSep::new_str("", " "), "\"q.u[o]te\""),
            WSKeySep::new_str(WSSep::new_str("\t", ""), "z9"),
        ])),
        TableType::Array(Table::new_str(WSSep::new_str("", ""), "\"x\\u00E9\"", vec![])),
        TableType::Standard(Table::new_str(WSSep::new_str("", ""), "only", vec![])),
    ];
    for t in headers.iter() {
        for rest in ["", "\n# after", "[next]", " key = 1"].iter() {
            let text = format!("{}{}", t.to_string(), rest);
            let read = TOMLParser::table(&text);
            assert_eq!(read, Some((*rest, t.clone())));
            let array = matches!(t, TableType::Array(_));
            assert_eq!(TOMLParser::array_table(&text).is_some(), array);
            assert_eq!(TOMLParser::std_table(&text).is_some(), !array);
        }
    }
}

#[test]
fn rendering_then_reading_gives_the_comment_back() {
    let comments = vec![
        CommentNewLines::new_str(" \n\t", Comment::new_str(" a # b\tc"), "\r\n \n"),
        CommentNewLines::new_str("", Comment::new_str(""), "\n"),
        CommentNewLines::new_str("\r\n", Comment::new_str("çô₥₥èñƭ"), ""),
    ];
    for c in comments.iter() {
        for rest in ["", "key = 1", "[t]"].iter() {
            if c.newlines.is_empty() && !rest.is_empty() {
                continue;
            }
            let text = format!("{}{}", c.to_string(), rest);
            assert_eq!(TOMLParser::comment_nl(&text), Some((*rest, c.clone())));
        }
    }
}
