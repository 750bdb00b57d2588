use tomllib::ast::structs::{WSSep, WSKeySep, Table, TableType, Comment, CommentNewLines,
    CommentOrNewLines};
use tomllib::objects::TOMLParser;

#[test]
fn test_table() {
    assert_eq!(TOMLParser::table("[ _underscore_ . \"-δáƨλèƨ-\" ]"), Some(("",
        TableType::Standard(Table::new_str(
            WSSep::new_str(" ", " "), "_underscore_", vec![
                WSKeySep::new_str(WSSep::new_str(" ", " "), "\"-δáƨλèƨ-\"")
            ]
        ))
    )));
    assert_eq!(TOMLParser::table("[[\t NumberOne\t.\tnUMBERtWO \t]]"), Some(("",
        TableType::Array(Table::new_str(
            WSSep::new_str("\t ", " \t"), "NumberOne", vec![
                WSKeySep::new_str(WSSep::new_str("\t", "\t"), "nUMBERtWO")
            ]
        ))
    )));
}

#[test]
fn test_table_subkey() {
    assert_eq!(TOMLParser::table_subkey("\t . \t\"áƭúƨôèλôñèƭúññèôúñôèƭú\""), Some(("",
        WSKeySep::new_str(WSSep::new_str("\t ", " \t"), "\"áƭúƨôèλôñèƭúññèôúñôèƭú\""),
    )));
}

#[test]
fn test_table_subkeys() {
    assert_eq!(TOMLParser::table_subkeys(" .\tAPPLE.MAC . \"ßÓÓK\""), Some(("",
        vec![
            WSKeySep::new_str(WSSep::new_str(" ", "\t"), "APPLE"),
            WSKeySep::new_str(WSSep::new_str("", ""), "MAC"),
            WSKeySep::new_str(WSSep::new_str(" ", " "), "\"ßÓÓK\"")
        ]
    )));
}

#[test]
fn test_std_table() {
    assert_eq!(TOMLParser::std_table("[Dr-Pepper  . \"ƙè¥_TWÓ\"]"), Some(("",
        TableType::Standard(Table::new_str(
            WSSep::new_str("", ""), "Dr-Pepper", vec![
                WSKeySep::new_str(WSSep::new_str("  ", " "), "\"ƙè¥_TWÓ\"")
            ]
        ))
    )));
}

#[test]
fn test_array_table() {
    assert_eq!(TOMLParser::array_table("[[\"ƙè¥ôñè\"\t. key_TWO]]"), Some(("",
        TableType::Array(Table::new_str(
            WSSep::new_str("", ""), "\"ƙè¥ôñè\"", vec![
                WSKeySep::new_str(WSSep::new_str("\t", " "), "key_TWO")
            ]
        ))
    )));
}

#[test]
fn test_array_sep() {
    assert_eq!(TOMLParser::array_sep("  ,  "), Some(("", WSSep::new_str("  ", "  "))));
}

#[test]
fn test_ws_newline() {
    assert_eq!(TOMLParser::ws_newline("\t\n\n"), Some(("", String::from("\t\n\n"))));
}

#[test]
fn test_comment_nl() {
    assert_eq!(TOMLParser::comment_nl("\r\n\t#çô₥₥èñƭñèωℓïñè\n \n \n"), Some(("",
        CommentNewLines::new_str(
            "\r\n\t", Comment::new_str("çô₥₥èñƭñèωℓïñè"), "\n \n \n"
        )
    )));
}

#[test]
fn test_comment_or_nl() {
    assert_eq!(TOMLParser::comment_or_nl("#ωôřƙωôřƙ\n"), Some(("",
        CommentOrNewLines::Comment(CommentNewLines::new_str(
            "", Comment::new_str("ωôřƙωôřƙ"), "\n"
        ))
    )));
    assert_eq!(TOMLParser::comment_or_nl(" \t\n#ωôřƙωôřƙ\n \r\n"), Some(("",
        CommentOrNewLines::Comment(CommentNewLines::new_str(
            " \t\n", Comment::new_str("ωôřƙωôřƙ"), "\n \r\n"
        ))
    )));
    assert_eq!(TOMLParser::comment_or_nl("\n\t\r\n "), Some(("",
        CommentOrNewLines::NewLines(String::from("\n\t\r\n ")))));
}

#[test]
fn comment_or_nls_reads_at_least_one() {
    assert_eq!(TOMLParser::comment_or_nls(""), Some(("", vec![CommentOrNewLines::NewLines(String::new())])));
    assert_eq!(TOMLParser::comment_or_nls("]"), Some(("]", vec![CommentOrNewLines::NewLines(String::new())])));
    assert_eq!(TOMLParser::comment_or_nls("\n#a\n#b\nx"), Some(("x", vec![
        CommentOrNewLines::Comment(CommentNewLines::new_str("\n", Comment::new_str("a"), "\n")),
        CommentOrNewLines::Comment(CommentNewLines::new_str("", Comment::new_str("b"), "\n")),
    ])));
}

#[test]
fn parse_failures() {
    assert_eq!(TOMLParser::table("[a"), None);
    assert_eq!(TOMLParser::table("a]"), None);
    assert_eq!(TOMLParser::table("[]"), None);
    assert_eq!(TOMLParser::std_table("[[a]]"), None);
    assert_eq!(TOMLParser::array_table("[a]"), None);
    assert_eq!(TOMLParser::table_subkey("a"), None);
    assert_eq!(TOMLParser::array_sep(" x"), None);
    assert_eq!(TOMLParser::comment("x"), None);
    assert_eq!(TOMLParser::comment_nl("  x"), None);
    assert_eq!(TOMLParser::key("\"\""), None);
    assert_eq!(TOMLParser::key("\"a"), None);
    assert_eq!(TOMLParser::key("=x"), None);
}

#[test]
fn parse_leaves_the_rest() {
    assert_eq!(TOMLParser::table("[a] # c"), Some((" # c",
        TableType::Standard(Table::new_str(WSSep::new_str("", ""), "a", vec![])))));
    assert_eq!(TOMLParser::key("key = 1"), Some((" = 1", String::from("key"))));
    assert_eq!(TOMLParser::key("\"a\\\"b\\u00E9\" = 1"), Some((" = 1", String::from("\"a\\\"b\\u00E9\""))));
    assert_eq!(TOMLParser::ws(" \t x"), Some(("x", String::from(" \t "))));
    assert_eq!(TOMLParser::comment("#note\nnext"), Some(("\nnext", Comment::new_str("note"))));
    assert_eq!(TOMLParser::table_subkeys("x"), Some(("x", vec![])));
}

#[test]
fn parsed_headers_render_back() {
    for input in ["[ a . \"b c\" . d ]", "[[x]]", "[\tq.r\t]"] {
        let (rest, t) = TOMLParser::table(input).unwrap();
        assert_eq!(rest, "");
        assert_eq!(t.to_string(), input);
    }
    let (rest, cs) = TOMLParser::comment_or_nls("  \n# one\r\n\n#two\n  [t]").unwrap();
    let mut text = String::new();
    for c in &cs {
        text.push_str(&c.to_string());
    }
    text.push_str(rest);
    assert_eq!(text, "  \n# one\r\n\n#two\n  [t]");
}
