use flatdb::conditions::{
    evaluate_row, filter_condition, find_col, logical_op_check, values_equal, ExecutionError,
};
use flatdb::executor::{execute_op, execute_query, table_name_check, QueryOutcome, QueryState};
use flatdb::model::{Col, Condition, DataType, Database, Op, Table, TableSchema, WordType};
use flatdb::query::{parse_query, try_parse_op};

fn num(v: i32) -> WordType {
    WordType::Int(v)
}

fn text(s: &str) -> WordType {
    WordType::Str(s.to_string())
}

fn col(name: &str, data_type: DataType) -> Col {
    Col { name: name.to_string(), data_type }
}

fn people() -> Table {
    Table {
        schema: TableSchema {
            name: "table1".to_string(),
            cols: vec![col("id", DataType::Int), col("name", DataType::Str)],
        },
        rows: vec![vec![num(0), text("John")], vec![num(1), text("Dmitriy")]],
    }
}

fn ages() -> Table {
    Table {
        schema: TableSchema {
            name: "table2".to_string(),
            cols: vec![
                col("id", DataType::Int),
                col("name", DataType::Str),
                col("age", DataType::Int),
            ],
        },
        rows: vec![
            vec![num(0), text("John"), num(25)],
            vec![num(1), text("Dmitriy"), num(19)],
            vec![num(2), text("Anna"), num(31)],
            vec![num(3), text("Zed"), num(19)],
        ],
    }
}

fn database(tables: Vec<Table>) -> Database {
    Database { name: "database".to_string(), path: String::new(), tables }
}

fn run(query: &str, database: &mut Database) -> QueryOutcome {
    assert!(database.is_well_formed());
    let ops = parse_query(query).unwrap();
    let outcome = execute_query(&ops, database);
    assert!(database.is_well_formed());
    outcome
}

fn selected(query: &str, database: &mut Database) -> Table {
    run(query, database).result.unwrap().unwrap()
}

fn failure(query: &str, database: &mut Database) -> ExecutionError {
    run(query, database).result.unwrap_err()
}

// --- logical_op_check() ---
#[test]
fn valid_logical_op() {
    let words = vec![
        (DataType::Str, WordType::Str("name".to_string())),
        (DataType::Str, WordType::Str("John".to_string())),
    ];
    let table = Table {
        schema: TableSchema {
            name: "test".to_string(),
            cols: vec![Col { name: "name".to_string(), data_type: DataType::Str }],
        },
        rows: vec![],
    };
    let expected = Condition { idx: 0, value: WordType::Str("John".to_string()), op: Op::Equal };
    assert!(
        expected
            == logical_op_check(Op::Equal, words[0].1.clone(), words[1].1.clone(), &table).unwrap()
    );
}

#[test]
fn not_string_for_col_name() {
    let words = vec![(DataType::Int, WordType::Int(10)), (DataType::Int, WordType::Int(5))];
    let table = Table {
        schema: TableSchema { name: "test".to_string(), cols: vec![] },
        rows: vec![],
    };
    assert_eq!(
        logical_op_check(Op::More, words[0].1.clone(), words[1].1.clone(), &table),
        Err(ExecutionError::TypeMismatch)
    );
}

#[test]
fn not_existing_column() {
    let words = vec![
        (DataType::Str, WordType::Str("age".to_string())),
        (DataType::Int, WordType::Int(5)),
    ];
    let table = Table {
        schema: TableSchema {
            name: "test".to_string(),
            cols: vec![Col { name: "id".to_string(), data_type: DataType::Int }],
        },
        rows: vec![],
    };
    assert_eq!(
        logical_op_check(Op::More, words[0].1.clone(), words[1].1.clone(), &table),
        Err(ExecutionError::UnknownColumn)
    );
}

#[test]
fn types_mismatch_between_col_and_word() {
    let words = vec![
        (DataType::Str, WordType::Str("id".to_string())),
        (DataType::Str, WordType::Str("8".to_string())),
    ];
    let table = Table {
        schema: TableSchema {
            name: "test".to_string(),
            cols: vec![Col { name: "id".to_string(), data_type: DataType::Int }],
        },
        rows: vec![],
    };
    assert_eq!(
        logical_op_check(Op::More, words[0].1.clone(), words[1].1.clone(), &table),
        Err(ExecutionError::TypeMismatch)
    );
}

#[test]
fn logical_op_resolves_the_first_column_of_a_name() {
    let table = Table {
        schema: TableSchema {
            name: "test".to_string(),
            cols: vec![col("a", DataType::Int), col("b", DataType::Str), col("b", DataType::Int)],
        },
        rows: vec![],
    };
    assert_eq!(
        logical_op_check(Op::Less, text("b"), text("x"), &table),
        Ok(Condition { idx: 1, value: text("x"), op: Op::Less })
    );
    assert_eq!(find_col(&table.schema.cols, &"b".to_string()), Some(1));
    assert_eq!(find_col(&table.schema.cols, &"c".to_string()), None);
}

// --- execute_query() ---
#[test]
fn create_table() {
    let query = "(id Int) (name Str) clients create";
    let mut database =
        Database { name: "database".to_string(), path: String::new(), tables: vec![] };
    let tokens = parse_query(query).unwrap();
    let result = execute_query(&tokens, &mut database);
    assert!(result.result.unwrap().is_none());
    assert!(result.dropped.is_empty());
    assert!(database.tables.len() == 1);
    let expected = Table {
        schema: TableSchema {
            name: "clients".to_string(),
            cols: vec![
                Col { name: "id".to_string(), data_type: DataType::Int },
                Col { name: "name".to_string(), data_type: DataType::Str },
            ],
        },
        rows: vec![],
    };
    assert!(expected == database.tables[0]);
}

#[test]
fn drop_table() {
    let query = "clients drop";
    let mut database = Database {
        name: "database".to_string(),
        path: String::new(),
        tables: vec![Table {
            schema: TableSchema { name: "clients".to_string(), cols: vec![] },
            rows: vec![],
        }],
    };
    let tokens = parse_query(query).unwrap();
    let result = execute_query(&tokens, &mut database);
    assert!(result.result.unwrap().is_none());
    assert!(database.tables.len() == 0);
    assert_eq!(result.dropped, vec!["clients".to_string()]);
}

#[test]
fn create_then_drop() {
    let mut db = database(vec![]);
    let outcome = run("(id Int) (name Str) t create", &mut db);
    assert_eq!(outcome.result, Ok(None));
    assert_eq!(db.tables, vec![Table {
        schema: TableSchema {
            name: "t".to_string(),
            cols: vec![col("id", DataType::Int), col("name", DataType::Str)],
        },
        rows: vec![],
    }]);
    let outcome = run("t drop", &mut db);
    assert_eq!(outcome.result, Ok(None));
    assert_eq!(outcome.dropped, vec!["t".to_string()]);
    assert!(db.tables.is_empty());
    assert_eq!(db.name, "database");
}

#[test]
fn select_one_column() {
    let mut db = database(vec![people()]);
    let table = selected("id table1 select", &mut db);
    assert_eq!(table, Table {
        schema: TableSchema { name: "temp".to_string(), cols: vec![col("id", DataType::Int)] },
        rows: vec![vec![num(0)], vec![num(1)]],
    });
    assert_eq!(db.tables, vec![people()]);
}

#[test]
fn select_orders_columns_as_named() {
    let mut db = database(vec![people(), ages()]);
    let table = selected("age id table2 select", &mut db);
    assert_eq!(table.schema.cols, vec![col("age", DataType::Int), col("id", DataType::Int)]);
    assert_eq!(table.rows, vec![
        vec![num(25), num(0)],
        vec![num(19), num(1)],
        vec![num(31), num(2)],
        vec![num(19), num(3)],
    ]);
    let table = selected("age * id table2 select", &mut db);
    assert_eq!(table.schema.cols, vec![
        col("age", DataType::Int),
        col("id", DataType::Int),
        col("name", DataType::Str),
        col("age", DataType::Int),
        col("id", DataType::Int),
    ]);
    assert_eq!(table.rows[2], vec![num(31), num(2), text("Anna"), num(31), num(2)]);
}

#[test]
fn select_with_conditions() {
    let mut db = database(vec![ages()]);
    let table = selected("age 19 == name table2 select", &mut db);
    assert_eq!(table.rows, vec![vec![text("Dmitriy")], vec![text("Zed")]]);
    let table = selected("age 25 > name \"Anna\" != and id table2 select", &mut db);
    assert_eq!(table.rows, vec![vec![num(0)]]);
    let table = selected("age 19 < id 0 == or id table2 select", &mut db);
    assert_eq!(table.rows, vec![vec![num(0)], vec![num(1)], vec![num(3)]]);
    let table = selected("name \"John\" > name table2 select", &mut db);
    assert_eq!(table.rows, vec![vec![text("John")], vec![text("Zed")]]);
}

#[test]
fn select_then_filter() {
    let mut db = database(vec![ages()]);
    let table = selected("id age table2 select age 20 > filter", &mut db);
    assert_eq!(table.rows, vec![vec![num(0), num(25)], vec![num(2), num(31)]]);
    let table = selected("id age table2 select filter", &mut db);
    assert_eq!(table.rows.len(), 4);
    assert_eq!(failure("id table2 select age 20 > filter", &mut db), ExecutionError::UnknownColumn);
    assert_eq!(failure("id 1 == filter", &mut db), ExecutionError::MissingArguments);
}

#[test]
fn select_errors() {
    let mut db = database(vec![people()]);
    assert_eq!(failure("select", &mut db), ExecutionError::StackUnderflow);
    assert_eq!(failure("id select", &mut db), ExecutionError::UnknownTable);
    assert_eq!(failure("id nowhere select", &mut db), ExecutionError::UnknownTable);
    assert_eq!(failure("id 7 select", &mut db), ExecutionError::UnknownTable);
    assert_eq!(failure("table1 select", &mut db), ExecutionError::MissingArguments);
    assert_eq!(failure("7 table1 select", &mut db), ExecutionError::MissingArguments);
    assert_eq!(failure("age id table1 select", &mut db), ExecutionError::UnknownColumn);
    assert_eq!(failure("age 1 == id table1 select", &mut db), ExecutionError::UnknownColumn);
    assert_eq!(failure("id \"1\" == id table1 select", &mut db), ExecutionError::TypeMismatch);
    assert_eq!(failure("1 id == id table1 select", &mut db), ExecutionError::TypeMismatch);
    assert_eq!(
        failure("id 1 == id 0 == id table1 select", &mut db),
        ExecutionError::MalformedConditionChain
    );
    assert_eq!(failure("id 1 == and id table1 select", &mut db), ExecutionError::MalformedConditionChain);
    assert_eq!(failure("1 ==", &mut db), ExecutionError::StackUnderflow);
    assert_eq!(db.tables, vec![people()]);
}

#[test]
fn a_malformed_chain_passes_where_there_is_no_row() {
    let mut db = database(vec![Table { schema: people().schema, rows: vec![] }]);
    let table = selected("id 1 == id 0 == id table1 select", &mut db);
    assert!(table.rows.is_empty());
}

#[test]
fn insert_rows() {
    let mut db = database(vec![people()]);
    assert_eq!(run("2 \"Mary Ann\" table1 insert", &mut db).result, Ok(None));
    assert_eq!(db.tables[0].rows, vec![
        vec![num(0), text("John")],
        vec![num(1), text("Dmitriy")],
        vec![num(2), text("Mary Ann")],
    ]);
    assert_eq!(failure("\"x\" 3 table1 insert", &mut db), ExecutionError::TypeMismatch);
    assert_eq!(failure("\"x\" table1 insert", &mut db), ExecutionError::StackUnderflow);
    assert_eq!(failure("3 table1 insert", &mut db), ExecutionError::TypeMismatch);
    assert_eq!(failure("3 \"x\" nowhere insert", &mut db), ExecutionError::UnknownTable);
    assert_eq!(failure("insert", &mut db), ExecutionError::StackUnderflow);
    assert_eq!(db.tables[0].rows.len(), 3);
}

#[test]
fn insert_clears_the_operands() {
    let mut db = database(vec![people()]);
    assert_eq!(
        failure("id 9 \"x\" table1 insert table1 select", &mut db),
        ExecutionError::MissingArguments
    );
    assert_eq!(db.tables[0].rows.len(), 3);
}

#[test]
fn delete_rows() {
    let mut db = database(vec![ages()]);
    assert_eq!(run("age 19 == table2 delete", &mut db).result, Ok(None));
    assert_eq!(db.tables[0].rows, vec![
        vec![num(0), text("John"), num(25)],
        vec![num(2), text("Anna"), num(31)],
    ]);
    assert_eq!(run("id 0 > table2 delete", &mut db).result, Ok(None));
    assert!(db.tables[0].rows.is_empty());
}

#[test]
fn delete_without_conditions_deletes_nothing() {
    let mut db = database(vec![ages()]);
    assert_eq!(run("table2 delete", &mut db).result, Ok(None));
    assert_eq!(db.tables, vec![ages()]);
}

#[test]
fn delete_with_a_malformed_chain() {
    let mut db = database(vec![ages()]);
    assert_eq!(
        failure("age 19 == id 0 == table2 delete", &mut db),
        ExecutionError::MalformedConditionChain
    );
    assert_eq!(failure("age 19 == or table2 delete", &mut db), ExecutionError::MalformedConditionChain);
    assert_eq!(failure("and table2 delete", &mut db), ExecutionError::MalformedConditionChain);
    assert_eq!(db.tables, vec![ages()]);
}

#[test]
fn an_error_keeps_what_was_done_before() {
    let mut db = database(vec![people()]);
    let outcome = run("5 \"Eve\" table1 insert table1 drop nowhere drop", &mut db);
    assert_eq!(outcome.result, Err(ExecutionError::UnknownTable));
    assert_eq!(outcome.dropped, vec!["table1".to_string()]);
    assert!(db.tables.is_empty());
}

#[test]
fn create_errors() {
    let mut db = database(vec![]);
    assert_eq!(failure("create", &mut db), ExecutionError::StackUnderflow);
    assert_eq!(failure("7 create", &mut db), ExecutionError::TypeMismatch);
    assert_eq!(failure("Int t create", &mut db), ExecutionError::StackUnderflow);
    assert_eq!(failure("7 Int t create", &mut db), ExecutionError::TypeMismatch);
    assert_eq!(failure("t (id Int) (name Str) create", &mut db), ExecutionError::TypeMismatch);
    assert!(db.tables.is_empty());
    assert_eq!(run("7 a Int t create", &mut db).result, Ok(None));
    assert_eq!(db.tables[0].schema.cols, vec![col("a", DataType::Int)]);
    assert_eq!(run("t create", &mut db).result, Ok(None));
    assert_eq!(db.tables.len(), 2);
    assert!(db.tables[1].schema.cols.is_empty());
}

#[test]
fn create_leaves_the_operands_below_the_columns() {
    let mut db = database(vec![]);
    let mut state = QueryState::new();
    for op in parse_query("x 7 a Int b Type t create").unwrap() {
        assert_eq!(execute_op(&op, &mut state, &mut db), Ok(None));
    }
    assert_eq!(state.words(), &vec![text("x"), num(7)]);
    assert_eq!(db.tables[0].schema.cols, vec![col("a", DataType::Int), col("b", DataType::Type)]);
}

#[test]
fn drop_takes_the_first_table_of_a_name() {
    let mut other = people();
    other.rows.clear();
    let mut db = database(vec![people(), ages(), other]);
    assert_eq!(table_name_check(text("table1"), &db), Ok(0));
    assert_eq!(table_name_check(text("table2"), &db), Ok(1));
    assert_eq!(table_name_check(text("table3"), &db), Err(ExecutionError::UnknownTable));
    assert_eq!(table_name_check(num(1), &db), Err(ExecutionError::UnknownTable));
    assert_eq!(run("table1 drop", &mut db).dropped, vec!["table1".to_string()]);
    assert_eq!(db.tables.len(), 2);
    assert_eq!(db.tables[0], ages());
    assert!(db.tables[1].rows.is_empty());
}

#[test]
fn one_operation_at_a_time() {
    let mut db = database(vec![people()]);
    let mut state = QueryState::new();
    let ops = parse_query("id table1 select table1 drop").unwrap();
    assert_eq!(execute_op(&ops[0], &mut state, &mut db), Ok(None));
    assert_eq!(execute_op(&ops[1], &mut state, &mut db), Ok(None));
    assert_eq!(state.words(), &vec![text("id"), text("table1")]);
    assert!(state.selected().is_none());
    assert_eq!(execute_op(&ops[2], &mut state, &mut db), Ok(None));
    assert!(state.words().is_empty());
    assert_eq!(state.selected().as_ref().unwrap().rows, vec![vec![num(0)], vec![num(1)]]);
    assert_eq!(execute_op(&ops[3], &mut state, &mut db), Ok(None));
    assert_eq!(execute_op(&ops[4], &mut state, &mut db), Ok(Some("table1".to_string())));
    assert!(db.tables.is_empty());
    assert_eq!(execute_op(&ops[4], &mut state, &mut db), Err(ExecutionError::StackUnderflow));
    assert_eq!(state.pending(), 0);
    assert_eq!(state.finish().unwrap().schema.name, "temp");
}

#[test]
fn unused_operands_and_conditions_are_counted() {
    let mut db = database(vec![people()]);
    let outcome = run("id table1 select 1 2 3 id 4 == and", &mut db);
    assert!(outcome.result.unwrap().is_some());
    assert_eq!(outcome.unused_words, 3);
    assert_eq!(outcome.unused_conditions, 2);
    let outcome = run("id table1 select", &mut db);
    assert_eq!((outcome.unused_words, outcome.unused_conditions), (0, 0));
}

#[test]
fn comparisons() {
    assert_eq!(filter_condition(&num(1), &num(1), Op::Equal), Ok(true));
    assert_eq!(filter_condition(&num(1), &num(2), Op::Equal), Ok(false));
    assert_eq!(filter_condition(&num(1), &num(2), Op::NotEqual), Ok(true));
    assert_eq!(filter_condition(&num(1), &num(2), Op::Less), Ok(true));
    assert_eq!(filter_condition(&num(2), &num(2), Op::Less), Ok(true));
    assert_eq!(filter_condition(&num(3), &num(2), Op::Less), Ok(false));
    assert_eq!(filter_condition(&num(3), &num(2), Op::More), Ok(true));
    assert_eq!(filter_condition(&num(2), &num(2), Op::More), Ok(true));
    assert_eq!(filter_condition(&num(-3), &num(2), Op::More), Ok(false));
    assert_eq!(filter_condition(&text("abc"), &text("abd"), Op::Less), Ok(true));
    assert_eq!(filter_condition(&text("abc"), &text("ab"), Op::Less), Ok(false));
    assert_eq!(filter_condition(&text("ab"), &text("abc"), Op::Less), Ok(true));
    assert_eq!(filter_condition(&text(""), &text(""), Op::More), Ok(true));
    assert_eq!(filter_condition(&text("é"), &text("z"), Op::More), Ok(true));
    assert_eq!(filter_condition(&text("\u{10000}"), &text("\u{ffff}"), Op::More), Ok(true));
    assert_eq!(filter_condition(&text("a"), &text("a"), Op::Equal), Ok(true));
    assert_eq!(
        filter_condition(&WordType::Type(DataType::Int), &WordType::Type(DataType::Str), Op::Less),
        Ok(true)
    );
    assert_eq!(
        filter_condition(&WordType::Type(DataType::Type), &WordType::Type(DataType::Str), Op::Less),
        Ok(false)
    );
    assert_eq!(filter_condition(&num(1), &text("1"), Op::Equal), Err(ExecutionError::TypeMismatch));
    assert_eq!(
        filter_condition(&text("Int"), &WordType::Type(DataType::Int), Op::NotEqual),
        Err(ExecutionError::TypeMismatch)
    );
    assert!(values_equal(&text("a"), &text("a")));
    assert!(!values_equal(&text("1"), &num(1)));
}

#[test]
fn text_order_is_that_of_strings() {
    let samples = ["", "a", "ab", "b", "é", "z", "\u{ffff}", "\u{10000}", "A", "aa", "日本"];
    for a in samples {
        for b in samples {
            assert_eq!(filter_condition(&text(a), &text(b), Op::Less), Ok(a <= b));
            assert_eq!(filter_condition(&text(a), &text(b), Op::More), Ok(a >= b));
        }
    }
}

#[test]
fn chains() {
    let row = vec![num(5), text("x")];
    let cond = |idx: usize, value: WordType, op: Op| Condition { idx, value, op };
    let and = || Condition { idx: 0, value: num(0), op: Op::And };
    let or = || Condition { idx: 0, value: num(0), op: Op::Or };
    assert_eq!(evaluate_row(&vec![cond(0, num(5), Op::Equal)], &row), Ok(true));
    assert_eq!(
        evaluate_row(&vec![cond(0, num(5), Op::Equal), cond(1, text("y"), Op::Equal), and()], &row),
        Ok(false)
    );
    assert_eq!(
        evaluate_row(&vec![cond(0, num(5), Op::Equal), cond(1, text("y"), Op::Equal), or()], &row),
        Ok(true)
    );
    assert_eq!(evaluate_row(&vec![], &row), Err(ExecutionError::MalformedConditionChain));
    assert_eq!(evaluate_row(&vec![or()], &row), Err(ExecutionError::MalformedConditionChain));
    assert_eq!(
        evaluate_row(&vec![cond(0, num(5), Op::Equal), cond(0, num(5), Op::Equal)], &row),
        Err(ExecutionError::MalformedConditionChain)
    );
}

#[test]
fn operator_names() {
    assert_eq!(try_parse_op("select"), Some(Op::Select));
    assert_eq!(try_parse_op("insert"), Some(Op::Insert));
    assert_eq!(try_parse_op("delete"), Some(Op::Delete));
    assert_eq!(try_parse_op("filter"), Some(Op::Filter));
    assert_eq!(try_parse_op("create"), Some(Op::Create));
    assert_eq!(try_parse_op("drop"), Some(Op::Drop));
    assert_eq!(try_parse_op("and"), Some(Op::And));
    assert_eq!(try_parse_op("or"), Some(Op::Or));
    assert_eq!(try_parse_op("=="), Some(Op::Equal));
    assert_eq!(try_parse_op("!="), Some(Op::NotEqual));
    assert_eq!(try_parse_op(">"), Some(Op::More));
    assert_eq!(try_parse_op("<"), Some(Op::Less));
    assert_eq!(try_parse_op("Select"), None);
    assert_eq!(try_parse_op("="), None);
    assert_eq!(try_parse_op(""), None);
}

#[test]
fn well_formed_tables() {
    assert!(people().is_well_formed());
    let mut broken = people();
    broken.rows.push(vec![num(1)]);
    assert!(!broken.is_well_formed());
    let mut broken = people();
    broken.rows.push(vec![text("1"), text("x")]);
    assert!(!broken.is_well_formed());
    assert!(!database(vec![people(), broken]).is_well_formed());
    assert!(num(1).matches_type(DataType::Int));
    assert!(!num(1).matches_type(DataType::Str));
    assert!(WordType::Type(DataType::Int).matches_type(DataType::Type));
}
