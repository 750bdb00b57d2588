use tomllib::ast::structs::{WSSep, Comment, CommentNewLines, CommentOrNewLines};
use tomllib::ast::values::{Value, Array, ArrayValue, InlineTable, TableKeyVal, KeyVal};
use tomllib::types::{StrType, DateTime, Date, Time, TimeOffset, TimeOffsetAmount};
use tomllib::objects::TOMLParser;

fn empty_nl() -> Vec<CommentOrNewLines> {
    vec![CommentOrNewLines::NewLines("".into())]
}

fn integer(s: &str) -> Value {
    Value::Integer(s.into())
}

#[test]
fn test_array_value() {
    assert_eq!(TOMLParser::array_value("54.6, \n#çô₥₥èñƭ\n\n"),
        Some(("", ArrayValue::new(
            Value::Float("54.6".into()), Some(WSSep::new_str("", " ")),
            vec![CommentOrNewLines::Comment(CommentNewLines::new_str(
                "\n", Comment::new_str("çô₥₥èñƭ"), "\n\n"
            ))]
        )))
    );
    assert_eq!(TOMLParser::array_value("\"ƨƥáϱλèƭƭï\""),
        Some(("", ArrayValue::new(
            Value::String("ƨƥáϱλèƭƭï".into(), StrType::Basic), None, empty_nl()
        )))
    );
    assert_eq!(TOMLParser::array_value("44_9 , "),
        Some(("", ArrayValue::new(integer("44_9"), Some(WSSep::new_str(" ", " ")), empty_nl())))
    );
}

#[test]
fn test_array_values() {
    assert_eq!(TOMLParser::array_values("1, 2, 3"), Some(("", vec![
        ArrayValue::new(integer("1"), Some(WSSep::new_str("", " ")), empty_nl()),
        ArrayValue::new(integer("2"), Some(WSSep::new_str("", " ")), empty_nl()),
        ArrayValue::new(integer("3"), None, empty_nl()),
    ])));
    assert_eq!(TOMLParser::array_values("1, 2, #çô₥₥èñƭ\n3, "), Some(("", vec![
        ArrayValue::new(integer("1"), Some(WSSep::new_str("", " ")), empty_nl()),
        ArrayValue::new(integer("2"), Some(WSSep::new_str("", " ")),
            vec![CommentOrNewLines::Comment(CommentNewLines::new_str("", Comment::new_str("çô₥₥èñƭ"), "\n"))]),
        ArrayValue::new(integer("3"), Some(WSSep::new_str("", " ")), empty_nl()),
    ])));
}

#[test]
fn test_non_nested_array() {
    assert_eq!(TOMLParser::array("[2010-10-10T10:10:10.33Z, 1950-03-30T21:04:14.123+05:00]"),
        Some(("", Array::new(
            vec![
                ArrayValue::new(
                    Value::DateTime(DateTime::new(
                        Date::new_str("2010", "10", "10"),
                        Some(Time::new_str("10", "10", "10", Some("33"), Some(TimeOffset::Zulu))),
                    )),
                    Some(WSSep::new_str("", " ")),
                    empty_nl(),
                ),
                ArrayValue::new(
                    Value::DateTime(DateTime::new(
                        Date::new_str("1950", "03", "30"),
                        Some(Time::new_str("21", "04", "14", Some("123"),
                            Some(TimeOffset::Time(TimeOffsetAmount::new_str("+", "05", "00"))))),
                    )),
                    None,
                    empty_nl(),
                ),
            ],
            empty_nl(), empty_nl(),
        )))
    );
}

fn small(vals: Vec<&str>) -> Value {
    let n = vals.len();
    let mut out = vec![];
    for (k, v) in vals.into_iter().enumerate() {
        let sep = if k + 1 < n { Some(WSSep::new_str("", "")) } else { None };
        out.push(ArrayValue::new(integer(v), sep, empty_nl()));
    }
    Value::Array(Array::new(out, empty_nl(), empty_nl()))
}

#[test]
fn test_nested_array() {
    assert_eq!(TOMLParser::array("[[3,4], [4,5], [6]]"),
        Some(("", Array::new(
            vec![
                ArrayValue::new(small(vec!["3", "4"]), Some(WSSep::new_str("", " ")), empty_nl()),
                ArrayValue::new(small(vec!["4", "5"]), Some(WSSep::new_str("", " ")), empty_nl()),
                ArrayValue::new(small(vec!["6"]), None, empty_nl()),
            ],
            empty_nl(), empty_nl(),
        )))
    );
}

#[test]
fn test_table_keyval() {
    assert_eq!(TOMLParser::table_keyval("\"Ì WúƲ Húϱƨ!\"\t=\t'Mè ƭôô!' "), Some(("", TableKeyVal::new(
        KeyVal::new_str(
            "\"Ì WúƲ Húϱƨ!\"", WSSep::new_str("\t", "\t"), Value::String("Mè ƭôô!".into(), StrType::Literal)
        ),
        WSSep::new_str("", " "),
    ))));
}

#[test]
fn test_inline_table_keyvals_non_empty() {
    assert_eq!(TOMLParser::inline_table_keyvals_non_empty("Key =\t54,\"Key2\" = '34.99'"),
        Some(("", vec![
            TableKeyVal::new(KeyVal::new_str("Key", WSSep::new_str(" ", "\t"), integer("54")), WSSep::new_str("", "")),
            TableKeyVal::new(
                KeyVal::new_str("\"Key2\"", WSSep::new_str(" ", " "), Value::String("34.99".into(), StrType::Literal)),
                WSSep::new_str("", ""),
            ),
        ]))
    );
}

#[test]
fn test_inline_table() {
    assert_eq!(TOMLParser::inline_table("{\tKey = 3.14E+5 , \"Key2\" = '''New\nLine'''\t}"),
        Some(("", InlineTable::new(
            vec![
                TableKeyVal::new(
                    KeyVal::new_str("Key", WSSep::new_str(" ", " "), Value::Float("3.14E+5".into())),
                    WSSep::new_str("", " "),
                ),
                TableKeyVal::new(
                    KeyVal::new_str("\"Key2\"", WSSep::new_str(" ", " "),
                        Value::String("New\nLine".into(), StrType::MLLiteral)),
                    WSSep::new_str(" ", "\t"),
                ),
            ],
            WSSep::new_str("\t", ""),
        )))
    );
}

#[test]
fn empty_inline_table_reads_and_renders() {
    let read = TOMLParser::inline_table("{ }");
    assert_eq!(read, Some(("", InlineTable::new(vec![], WSSep::new_str(" ", "")))));
    assert_eq!(InlineTable::new(vec![], WSSep::new_str(" ", "")).to_string(), "{ }");
    let v = TOMLParser::val("[ {}, { a = {} } ]").unwrap().1;
    assert_eq!(v.to_string(), "[ {}, { a = {} } ]");
}

#[test]
fn values_of_every_kind_render_back() {
    let texts = [
        "+1_000", "-0", "3.14e-2", "6.02E23", "1e05", "true", "false",
        "1979-05-27T07:32:00Z", "1979-05-27T00:32:00.999999-07:00",
        "\"a \\\" b\"", "\"\"\"multi\n\"quoted\" line\"\"\"", "'lit'", "'''raw\r\nx'''",
        "[ 1, 2, # c\n [\"x\"] ]", "{ k = 1, \"q\" = [ ] }", "{}",
    ];
    for t in texts.iter() {
        let (rest, v) = TOMLParser::val(t).expect(t);
        assert_eq!(format!("{}{}", v.to_string(), rest), *t);
    }
    assert_eq!(TOMLParser::val("1e05").unwrap().0, "5");
    assert_eq!(TOMLParser::val("01").unwrap(), ("1", integer("0")));
    assert_eq!(TOMLParser::val("\"a\\\"").unwrap(), ("", Value::String("a\\".into(), StrType::Basic)));
    assert!(TOMLParser::val("x").is_none());
    assert!(TOMLParser::inline_table("{a=1,}").is_none());
}

#[test]
fn keyvals_read_back() {
    let (rest, kv) = TOMLParser::keyval("title = \"TOML\" # c").unwrap();
    assert_eq!(rest, " # c");
    assert_eq!(kv, KeyVal::new_str("title", WSSep::new_str(" ", " "), Value::String("TOML".into(), StrType::Basic)));
}

#[test]
fn digits_of_any_script_count_as_digits() {
    assert_eq!(TOMLParser::val("1\u{0663}_\u{0664}"), Some(("", integer("1\u{0663}_\u{0664}"))));
    assert_eq!(TOMLParser::val("\u{0663}.5"), Some(("", Value::Float("\u{0663}.5".into()))));
    assert!(TOMLParser::val("\u{0663}\u{0663}-01-01T00:00:00Z").is_some());
    assert_ne!(TOMLParser::val("\u{0663}\u{0663}\u{0663}\u{0663}-01-01T00:00:00Z").unwrap().0, "");
}

#[test]
fn values_are_read_as_their_kind() {
    assert_eq!(TOMLParser::val("3.0 "), Some((" ", Value::Float("3.0".into()))));
    assert_eq!(TOMLParser::val("30"), Some(("", integer("30"))));
    assert_eq!(TOMLParser::val("true,"), Some((",", Value::Boolean(true))));
    assert_eq!(TOMLParser::val("''''''"), Some(("", Value::String("".into(), StrType::MLLiteral))));
    assert_eq!(TOMLParser::val("'''x"), Some(("'x", Value::String("".into(), StrType::Literal))));
    assert_eq!(TOMLParser::val("\"\""), Some(("", Value::String("".into(), StrType::Basic))));
}
