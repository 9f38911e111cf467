use flatdb::model::{data_type_to_string, try_parse_data_type, Col, DataType, TableSchema};
use flatdb::schema::{parse_table_schema, write_schema, SchemaError};

#[test]
fn valid_table_schema() {
    let schema = parse_table_schema("TestTable\nid:Int\nname:Str\nage:Int\n");
    if let Err(ref err) = schema {
        assert!(false, "{:?}", err);
    }
    let schema = schema.unwrap();
    assert!(schema.name == "TestTable");
    assert!(schema.cols.len() == 3);
    assert!(schema.cols[0].name == "id");
    assert!(schema.cols[0].data_type == DataType::Int);
    assert!(schema.cols[1].name == "name");
    assert!(schema.cols[1].data_type == DataType::Str);
    assert!(schema.cols[2].name == "age");
    assert!(schema.cols[2].data_type == DataType::Int);
}

#[test]
fn schema_with_empty_table_name() {
    assert_eq!(parse_table_schema("\nid:Int\n"), Err(SchemaError::EmptyName));
    assert_eq!(parse_table_schema("   \nid:Int\n"), Err(SchemaError::EmptyName));
}

#[test]
fn double_column_declaration() {
    assert_eq!(
        parse_table_schema("TestTable\nid:Int\nname:Str\nid:Int\n"),
        Err(SchemaError::DuplicateColumn)
    );
}

#[test]
fn duplicate_is_reported_before_an_unknown_type() {
    assert_eq!(
        parse_table_schema("TestTable\nid:Int\nid:Float\n"),
        Err(SchemaError::DuplicateColumn)
    );
}

#[test]
fn invalid_column_type() {
    assert_eq!(parse_table_schema("TestTable\nid:Float\n"), Err(SchemaError::UnknownType));
    assert_eq!(parse_table_schema("TestTable\nid:int\n"), Err(SchemaError::UnknownType));
    assert_eq!(parse_table_schema("TestTable\nid:\n"), Err(SchemaError::UnknownType));
}

#[test]
fn empty_table_schema() {
    assert_eq!(parse_table_schema(""), Err(SchemaError::EmptyName));
}

#[test]
fn invalid_column_format() {
    assert_eq!(parse_table_schema("TestTable\nid Int\n"), Err(SchemaError::MalformedLine));
    assert_eq!(parse_table_schema("TestTable\nid:Int\n\n"), Err(SchemaError::MalformedLine));
}

#[test]
fn empty_column_name() {
    assert_eq!(parse_table_schema("TestTable\n:Int\n"), Err(SchemaError::EmptyName));
    assert_eq!(parse_table_schema("TestTable\n  :Int\n"), Err(SchemaError::EmptyName));
}

#[test]
fn names_and_types_are_trimmed() {
    let schema = parse_table_schema("  people \r\n id : Int\r\n\tfull name:Str  \r\nkind:Type").unwrap();
    let expected = TableSchema {
        name: "people".to_string(),
        cols: vec![
            Col { name: "id".to_string(), data_type: DataType::Int },
            Col { name: "full name".to_string(), data_type: DataType::Str },
            Col { name: "kind".to_string(), data_type: DataType::Type },
        ],
    };
    assert_eq!(schema, expected);
}

#[test]
fn the_first_colon_splits_a_line() {
    assert_eq!(parse_table_schema("t\na:b:Int\n"), Err(SchemaError::UnknownType));
}

#[test]
fn a_table_may_have_no_columns() {
    let schema = parse_table_schema("lonely").unwrap();
    assert_eq!(schema, TableSchema { name: "lonely".to_string(), cols: vec![] });
}

#[test]
fn write_schema_text() {
    let schema = TableSchema {
        name: "table1".to_string(),
        cols: vec![
            Col { name: "id".to_string(), data_type: DataType::Int },
            Col { name: "name".to_string(), data_type: DataType::Str },
            Col { name: "kind".to_string(), data_type: DataType::Type },
        ],
    };
    assert_eq!(write_schema(&schema), "table1\nid:Int\nname:Str\nkind:Type\n");
    assert_eq!(write_schema(&TableSchema { name: "t".to_string(), cols: vec![] }), "t\n");
}

#[test]
fn schema_round_trip() {
    let schema = TableSchema {
        name: "table 2".to_string(),
        cols: vec![
            Col { name: "id".to_string(), data_type: DataType::Int },
            Col { name: "first name".to_string(), data_type: DataType::Str },
            Col { name: "age".to_string(), data_type: DataType::Int },
        ],
    };
    assert_eq!(parse_table_schema(&write_schema(&schema)), Ok(schema));
    let text = "  t \n a : Int \n b:Str";
    let parsed = parse_table_schema(text).unwrap();
    assert_eq!(parse_table_schema(&write_schema(&parsed)), Ok(parsed));
}

#[test]
fn type_names() {
    assert_eq!(try_parse_data_type("Int"), Some(DataType::Int));
    assert_eq!(try_parse_data_type("Str"), Some(DataType::Str));
    assert_eq!(try_parse_data_type("Type"), Some(DataType::Type));
    assert_eq!(try_parse_data_type("int"), None);
    assert_eq!(try_parse_data_type(""), None);
    assert_eq!(try_parse_data_type("Int "), None);
    assert_eq!(data_type_to_string(DataType::Int), "Int");
    assert_eq!(data_type_to_string(DataType::Str), "Str");
    assert_eq!(data_type_to_string(DataType::Type), "Type");
    for t in [DataType::Int, DataType::Str, DataType::Type] {
        assert_eq!(try_parse_data_type(&data_type_to_string(t)), Some(t));
    }
}
