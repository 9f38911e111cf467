use flatdb::model::{Col, DataType, Table, TableSchema, WordType};
use flatdb::render::{format_table, int_chars};
use flatdb::text::parse_int;

#[test]
fn a_table_is_shown_in_columns() {
    let table = Table {
        schema: TableSchema {
            name: "temp".to_string(),
            cols: vec![
                Col { name: "id".to_string(), data_type: DataType::Int },
                Col { name: "name".to_string(), data_type: DataType::Str },
                Col { name: "kind".to_string(), data_type: DataType::Type },
            ],
        },
        rows: vec![
            vec![WordType::Int(0), WordType::Str("John".to_string())],
            vec![WordType::Int(-12), WordType::Str("Dmitriy".to_string())],
            vec![WordType::Int(1234567), WordType::Str("a name of more than twenty".to_string())],
        ],
    };
    let expected = format!(
        "{:>5}{:>20}{:>5}\n{:>5}{:>20}\n{:>5}{:>20}\n{:>5}{:>20}\n",
        "id", "name", "kind", 0, "John", -12, "Dmitriy", 1234567, "a name of more than twenty"
    );
    assert_eq!(format_table(&table), expected);
    assert_eq!(
        format_table(&table).lines().next().unwrap(),
        "   id                name kind"
    );
}

#[test]
fn an_empty_table_shows_its_head() {
    let table = Table {
        schema: TableSchema {
            name: "temp".to_string(),
            cols: vec![Col { name: "identifier".to_string(), data_type: DataType::Int }],
        },
        rows: vec![],
    };
    assert_eq!(format_table(&table), "identifier\n");
    let none = Table { schema: TableSchema { name: "t".to_string(), cols: vec![] }, rows: vec![] };
    assert_eq!(format_table(&none), "\n");
}

#[test]
fn cells_are_padded_by_characters() {
    let table = Table {
        schema: TableSchema {
            name: "temp".to_string(),
            cols: vec![Col { name: "é".to_string(), data_type: DataType::Str }],
        },
        rows: vec![vec![WordType::Str("日本".to_string())]],
    };
    assert_eq!(format_table(&table), format!("{:>20}\n{:>20}\n", "é", "日本"));
}

#[test]
fn integers_in_decimal() {
    for x in [0, 1, -1, 9, 10, -10, 99, 100, 12345, -98765, i32::MAX, i32::MIN, 1000000000] {
        let text: String = int_chars(x).into_iter().collect();
        assert_eq!(text, x.to_string());
        let chars: Vec<char> = text.chars().collect();
        assert_eq!(parse_int(&chars, 0, chars.len()), Some(x));
    }
}
