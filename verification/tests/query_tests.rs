use flatdb::model::{DataType, Op, WordType};
use flatdb::query::{parse_query, CompileError};

fn push_str(s: &str) -> Op {
    Op::PushWord { data_type: DataType::Str, word_type: WordType::Str(String::from(s)) }
}

fn push_int(v: i32) -> Op {
    Op::PushWord { data_type: DataType::Int, word_type: WordType::Int(v) }
}

#[test]
fn valid_query() {
    let query = "id name select id 10 > filter";
    let expected = vec![
        Op::PushWord { data_type: DataType::Str, word_type: WordType::Str(String::from("id")) },
        Op::PushWord { data_type: DataType::Str, word_type: WordType::Str(String::from("name")) },
        Op::Select,
        Op::PushWord { data_type: DataType::Str, word_type: WordType::Str(String::from("id")) },
        Op::PushWord { data_type: DataType::Int, word_type: WordType::Int(10) },
        Op::More,
        Op::Filter,
    ];
    match parse_query(query) {
        Ok(tokens) => assert!(expected == tokens),
        Err(err) => assert!(false, "{:?}", err),
    }

    let query = "id 5 != name \"John Watson\" == delete";
    let expected = vec![
        Op::PushWord { data_type: DataType::Str, word_type: WordType::Str(String::from("id")) },
        Op::PushWord { data_type: DataType::Int, word_type: WordType::Int(5) },
        Op::NotEqual,
        Op::PushWord { data_type: DataType::Str, word_type: WordType::Str(String::from("name")) },
        Op::PushWord {
            data_type: DataType::Str,
            word_type: WordType::Str(String::from("John Watson")),
        },
        Op::Equal,
        Op::Delete,
    ];
    match parse_query(query) {
        Ok(tokens) => assert!(expected == tokens),
        Err(err) => assert!(false, "{:?}", err),
    }
}

#[test]
fn unclosed_string() {
    let query = "3 \"John Watson 20 insert";
    assert_eq!(parse_query(query), Err(CompileError::UnclosedString));
}

#[test]
fn unclosed_string_after_a_number() {
    assert_eq!(parse_query("3 \"unterminated"), Err(CompileError::UnclosedString));
}

#[test]
fn parentheses_are_stripped() {
    let ops = parse_query("clients (id Int) (name Str) create").unwrap();
    let expected = vec![
        push_str("clients"),
        push_str("id"),
        Op::PushWord { data_type: DataType::Type, word_type: WordType::Type(DataType::Int) },
        push_str("name"),
        Op::PushWord { data_type: DataType::Type, word_type: WordType::Type(DataType::Str) },
        Op::Create,
    ];
    assert_eq!(ops, expected);
    assert_eq!(parse_query("( ) (t) ( drop )").unwrap(), vec![push_str("t"), Op::Drop]);
}

#[test]
fn integer_literals() {
    assert_eq!(parse_query("-12 +7 2147483647 -2147483648").unwrap(), vec![
        push_int(-12),
        push_int(7),
        push_int(i32::MAX),
        push_int(i32::MIN),
    ]);
    assert_eq!(parse_query("2147483648 - + 1x").unwrap(), vec![
        push_str("2147483648"),
        push_str("-"),
        push_str("+"),
        push_str("1x"),
    ]);
}

#[test]
fn any_white_space_separates_tokens() {
    assert_eq!(parse_query("a\u{a0}b\u{3000}select\tc\r\n").unwrap(), vec![
        push_str("a"),
        push_str("b"),
        Op::Select,
        push_str("c"),
    ]);
    assert_eq!(parse_query("").unwrap(), vec![]);
    assert_eq!(parse_query(" \n ").unwrap(), vec![]);
}

#[test]
fn quoted_literals() {
    assert_eq!(parse_query("\"select\" \"10\" \"Int\" \"\" \"(a b)\"").unwrap(), vec![
        push_str("select"),
        push_str("10"),
        push_str("Int"),
        push_str(""),
        push_str("(a b)"),
    ]);
    assert_eq!(parse_query("(\"a b\")c \"d\"e").unwrap(), vec![
        push_str("a b"),
        push_str("c"),
        push_str("d"),
        push_str("e"),
    ]);
    assert_eq!(parse_query("a\"b c\"").unwrap(), vec![push_str("a\"b"), push_str("c\"")]);
    assert_eq!(parse_query("\""), Err(CompileError::UnclosedString));
    assert_eq!(parse_query("a ((\"b"), Err(CompileError::UnclosedString));
}

#[test]
fn operators_win_over_literals() {
    assert_eq!(parse_query("(select) s(el)ect and) (or == != < > Type Str Int").unwrap(), vec![
        Op::Select,
        Op::Select,
        Op::And,
        Op::Or,
        Op::Equal,
        Op::NotEqual,
        Op::Less,
        Op::More,
        Op::PushWord { data_type: DataType::Type, word_type: WordType::Type(DataType::Type) },
        Op::PushWord { data_type: DataType::Type, word_type: WordType::Type(DataType::Str) },
        Op::PushWord { data_type: DataType::Type, word_type: WordType::Type(DataType::Int) },
    ]);
    assert_eq!(parse_query("Select =< type").unwrap(), vec![
        push_str("Select"),
        push_str("=<"),
        push_str("type"),
    ]);
}
