use flatdb::codec::{
    decode_rows, encode_row, encode_rows, row_width_of, text_is_cut, ByteOrder, CodecError,
};
use flatdb::model::{Col, DataType, Database, Table, TableSchema, WordType};
use flatdb::schema::parse_table_schema;
use flatdb::storage::{
    is_schema_file, is_storable, is_table_storable, load_table, save_database_to, schema_file_path,
    table_file_path,
};

fn schema(name: &str, cols: &[(&str, DataType)]) -> TableSchema {
    TableSchema {
        name: name.to_string(),
        cols: cols.iter().map(|(n, t)| Col { name: n.to_string(), data_type: *t }).collect(),
    }
}

#[test]
fn save_and_load_database() {
    let expected = Database {
        name: "database".to_string(),
        path: String::new(),
        tables: vec![
            Table {
                schema: TableSchema {
                    name: "table1".to_string(),
                    cols: vec![
                        Col { name: "id".to_string(), data_type: DataType::Int },
                        Col { name: "name".to_string(), data_type: DataType::Str },
                    ],
                },
                rows: vec![
                    vec![WordType::Int(0), WordType::Str("John".to_string())],
                    vec![WordType::Int(1), WordType::Str("Dmitriy".to_string())],
                ],
            },
            Table {
                schema: TableSchema {
                    name: "table2".to_string(),
                    cols: vec![
                        Col { name: "id".to_string(), data_type: DataType::Int },
                        Col { name: "name".to_string(), data_type: DataType::Str },
                        Col { name: "age".to_string(), data_type: DataType::Int },
                    ],
                },
                rows: vec![
                    vec![WordType::Int(0), WordType::Str("John".to_string()), WordType::Int(25)],
                    vec![WordType::Int(1), WordType::Str("Dmitriy".to_string()), WordType::Int(19)],
                ],
            },
        ],
    };
    for order in [ByteOrder::Little, ByteOrder::Big] {
        assert!(expected.tables.iter().all(is_table_storable));
        let files = save_database_to("./src/tests_input/database", &expected, order);
        assert_eq!(files.len(), 2);
        assert_eq!(files[0].schema_path, "./src/tests_input/database/table1.tbls");
        assert_eq!(files[0].rows_path, "./src/tests_input/database/table1.tbl");
        assert_eq!(files[1].schema_path, "./src/tests_input/database/table2.tbls");
        assert_eq!(files[1].rows_path, "./src/tests_input/database/table2.tbl");
        assert_eq!(files[0].schema_text, "table1\nid:Int\nname:Str\n");
        assert_eq!(files[0].rows.len(), 2 * 54);
        assert_eq!(files[1].rows.len(), 2 * 58);
        let mut database = Database {
            name: "database".to_string(),
            path: "./src/tests_input/database".to_string(),
            tables: vec![],
        };
        for stored in &files {
            assert!(is_schema_file(&stored.schema_path));
            let schema = parse_table_schema(&stored.schema_text).unwrap();
            assert!(is_storable(&schema));
            assert_eq!(
                table_file_path("./src/tests_input/database", &schema.name),
                stored.rows_path
            );
            database.tables.push(load_table(schema, &stored.rows, order).unwrap());
        }
        'outer: for table in &expected.tables {
            for table1 in &database.tables {
                if table.schema.name == table1.schema.name {
                    assert!(table == table1);
                    continue 'outer;
                }
            }
            assert!(false);
        }
    }
}

#[test]
fn file_names() {
    assert_eq!(schema_file_path("./database", "clients"), "./database/clients.tbls");
    assert_eq!(table_file_path("./database", "clients"), "./database/clients.tbl");
    assert_eq!(table_file_path("", "t"), "/t.tbl");
    assert!(is_schema_file("./database/clients.tbls"));
    assert!(is_schema_file(".tbls"));
    assert!(!is_schema_file("./database/clients.tbl"));
    assert!(!is_schema_file("tbls"));
    assert!(!is_schema_file("a.tbls "));
    assert!(!is_schema_file(""));
}

#[test]
fn integers_in_both_byte_orders() {
    let row = vec![WordType::Int(0x01020304)];
    assert_eq!(encode_row(&row, ByteOrder::Little), vec![4, 3, 2, 1]);
    assert_eq!(encode_row(&row, ByteOrder::Big), vec![1, 2, 3, 4]);
    assert_eq!(encode_row(&vec![WordType::Int(-2)], ByteOrder::Little), vec![0xfe, 0xff, 0xff, 0xff]);
    assert_eq!(encode_row(&vec![WordType::Int(-2)], ByteOrder::Big), vec![0xff, 0xff, 0xff, 0xfe]);
    let s = schema("t", &[("n", DataType::Int)]);
    for v in [0, 1, -1, 255, 256, -256, i32::MIN, i32::MAX, 0x12345678, -0x12345678] {
        assert_eq!(encode_row(&vec![WordType::Int(v)], ByteOrder::Little), v.to_le_bytes().to_vec());
        assert_eq!(encode_row(&vec![WordType::Int(v)], ByteOrder::Big), v.to_be_bytes().to_vec());
        for order in [ByteOrder::Little, ByteOrder::Big] {
            let bytes = encode_row(&vec![WordType::Int(v)], order);
            assert_eq!(decode_rows(&bytes, &s, order), Ok(vec![vec![WordType::Int(v)]]));
        }
    }
}

#[test]
fn texts_are_padded_with_zero_bytes() {
    let bytes = encode_row(&vec![WordType::Str("John".to_string())], ByteOrder::Little);
    let mut expected = vec![0u8; 50];
    expected[..4].copy_from_slice(b"John");
    assert_eq!(bytes, expected);
    assert_eq!(encode_row(&vec![WordType::Str(String::new())], ByteOrder::Big), vec![0u8; 50]);
}

#[test]
fn long_texts_are_cut_after_fifty_bytes() {
    let long = "abcdefghij".repeat(6);
    let bytes = encode_row(&vec![WordType::Str(long.clone())], ByteOrder::Little);
    assert_eq!(bytes, long.as_bytes()[..50].to_vec());
    let s = schema("t", &[("name", DataType::Str)]);
    assert_eq!(
        decode_rows(&bytes, &s, ByteOrder::Little),
        Ok(vec![vec![WordType::Str(long[..50].to_string())]])
    );
    assert!(text_is_cut(&long));
    assert!(text_is_cut(&format!("{}é", "y".repeat(49))));
    assert!(!text_is_cut(&"x".repeat(50)));
    assert!(!text_is_cut(&String::new()));
    let exact = "x".repeat(50);
    let bytes = encode_row(&vec![WordType::Str(exact.clone())], ByteOrder::Little);
    assert_eq!(decode_rows(&bytes, &s, ByteOrder::Little), Ok(vec![vec![WordType::Str(exact)]]));
    let split = format!("{}é", "y".repeat(49));
    let bytes = encode_row(&vec![WordType::Str(split.clone())], ByteOrder::Little);
    assert_eq!(bytes, split.as_bytes()[..50].to_vec());
    assert_eq!(
        decode_rows(&bytes, &s, ByteOrder::Little),
        Ok(vec![vec![WordType::Str(format!("{}\u{fffd}", "y".repeat(49)))]])
    );
}

#[test]
fn a_zero_byte_ends_a_text() {
    let s = schema("t", &[("name", DataType::Str)]);
    let mut bytes = vec![0u8; 50];
    bytes[..5].copy_from_slice(b"ab\0cd");
    assert_eq!(
        decode_rows(&bytes, &s, ByteOrder::Little),
        Ok(vec![vec![WordType::Str("ab".to_string())]])
    );
    let bytes = encode_row(&vec![WordType::Str("ab\0cd".to_string())], ByteOrder::Little);
    assert_eq!(
        decode_rows(&bytes, &s, ByteOrder::Little),
        Ok(vec![vec![WordType::Str("ab".to_string())]])
    );
}

#[test]
fn bytes_that_are_no_text_are_replaced() {
    let s = schema("t", &[("name", DataType::Str)]);
    let mut bytes = vec![0u8; 50];
    bytes[..3].copy_from_slice(&[b'a', 0xff, b'b']);
    assert_eq!(
        decode_rows(&bytes, &s, ByteOrder::Little),
        Ok(vec![vec![WordType::Str("a\u{fffd}b".to_string())]])
    );
}

#[test]
fn texts_keep_their_characters() {
    let s = schema("t", &[("name", DataType::Str)]);
    for v in ["", "a", "Dmitriy", "日本語", "añ é", "\u{10348}x"] {
        let row = vec![WordType::Str(v.to_string())];
        let bytes = encode_row(&row, ByteOrder::Big);
        assert_eq!(bytes.len(), 50);
        assert_eq!(decode_rows(&bytes, &s, ByteOrder::Big), Ok(vec![row]));
    }
}

#[test]
fn truncated_file() {
    let s = schema("t", &[("id", DataType::Int), ("name", DataType::Str)]);
    assert_eq!(row_width_of(&s), 54);
    assert_eq!(decode_rows(&[0u8; 53], &s, ByteOrder::Little), Err(CodecError::TruncatedFile));
    assert_eq!(decode_rows(&[0u8; 55], &s, ByteOrder::Little), Err(CodecError::TruncatedFile));
    assert_eq!(decode_rows(&[0u8; 1], &s, ByteOrder::Little), Err(CodecError::TruncatedFile));
    assert_eq!(decode_rows(&[], &s, ByteOrder::Little), Ok(vec![]));
    assert_eq!(
        decode_rows(&[0u8; 108], &s, ByteOrder::Little),
        Ok(vec![
            vec![WordType::Int(0), WordType::Str(String::new())],
            vec![WordType::Int(0), WordType::Str(String::new())],
        ])
    );
    assert_eq!(
        load_table(schema("t", &[("id", DataType::Int)]), &[1, 2, 3], ByteOrder::Big),
        Err(CodecError::TruncatedFile)
    );
}

#[test]
fn rows_round_trip() {
    let s = schema("t", &[("id", DataType::Int), ("name", DataType::Str), ("age", DataType::Int)]);
    let rows = vec![
        vec![WordType::Int(0), WordType::Str("John".to_string()), WordType::Int(25)],
        vec![WordType::Int(-1), WordType::Str("Dmitriy".to_string()), WordType::Int(19)],
        vec![WordType::Int(7), WordType::Str(String::new()), WordType::Int(i32::MIN)],
    ];
    for order in [ByteOrder::Little, ByteOrder::Big] {
        let bytes = encode_rows(&rows, order);
        assert_eq!(bytes.len(), 3 * 58);
        assert_eq!(bytes[58..116], encode_row(&rows[1], order)[..]);
        assert_eq!(decode_rows(&bytes, &s, order), Ok(rows.clone()));
        assert_eq!(encode_rows(&decode_rows(&bytes, &s, order).unwrap(), order), bytes);
        for row in &rows {
            assert_eq!(decode_rows(&encode_row(row, order), &s, order), Ok(vec![row.clone()]));
        }
    }
}

#[test]
fn what_can_be_stored() {
    assert!(is_storable(&schema("t", &[("id", DataType::Int), ("name", DataType::Str)])));
    assert!(!is_storable(&schema("t", &[])));
    assert!(!is_storable(&schema("t", &[("id", DataType::Int), ("kind", DataType::Type)])));
    let table = Table {
        schema: schema("t", &[("kind", DataType::Type)]),
        rows: vec![vec![WordType::Type(DataType::Int)]],
    };
    assert!(!is_table_storable(&table));
    assert!(is_table_storable(&Table { schema: schema("t", &[("kind", DataType::Type)]), rows: vec![] }));
}
