use energy_model_visualizer::connection::{
    execution_failure_message, in_year, mapping_failure_message, on_dataset,
    open_failure_message, parse_failure_message, run_query_rb, run_query_row, ConnectionHandler,
    ConnectionStep, QueryEvent, Served,
};
use energy_model_visualizer::record_stream::{finish_error, write_error};

const DB_PATH: &str = "TESTDB.duckdb";
const MEM_DB_PATH: &str = "mem.duckdb";
const SIMPLE_DEMO_SQL: &str = "SELECT name FROM demoTable;";
const SINGLE_ARG_SQL: &str = "SELECT name FROM demoTable WHERE id = ?";
const SHOW_TABLES_SQL: &str = "SHOW TABLES;";
const SYNTAX_ERR_SQL: &str = "SELCT name FROM demoTable";

#[derive(Clone, Debug)]
enum Value {
    Int(i32),
    Text(String),
}

// The demo table: (1, 'Belgium'), (2, 'Netherlands'), (3, 'France'), (4, 'Germany').
fn demo_rows() -> Vec<(i32, &'static str)> {
    vec![(1, "Belgium"), (2, "Netherlands"), (3, "France"), (4, "Germany")]
}

// No database runs in these tests. This function stands for the query engine on
// the demo table and is written here: it reports, for each of the queries above,
// what the engine is known to report. The words of its failures are therefore
// words of this file. Where a test below looks for them in a result, it shows
// that the library hands the engine's reason on under its own lead-in, not that
// a database words its failures so.
fn demo_engine(sql: &str, args: &[Value]) -> QueryEvent<Vec<Result<String, String>>> {
    let needed = sql.matches('?').count();
    if sql.is_empty() {
        return QueryEvent::ParseFailed("No statement to prepare!".to_string());
    }
    if sql.starts_with("SELCT") {
        return QueryEvent::ParseFailed(
            "Parser Error: syntax error at or near \"SELCT\"".to_string(),
        );
    }
    if args.len() != needed {
        return QueryEvent::ExecutionFailed(format!(
            "Wrong number of parameters passed to query. Got {}, needed {}",
            args.len(),
            needed
        ));
    }
    if sql == SHOW_TABLES_SQL {
        return QueryEvent::Fetched(vec![Ok("demoTable".to_string())]);
    }
    if sql == SIMPLE_DEMO_SQL {
        return QueryEvent::Fetched(
            demo_rows().into_iter().map(|(_, name)| Ok(name.to_string())).collect(),
        );
    }
    if sql == SINGLE_ARG_SQL {
        return match &args[0] {
            Value::Int(id) => QueryEvent::Fetched(
                demo_rows()
                    .into_iter()
                    .filter(|(row_id, _)| row_id == id)
                    .map(|(_, name)| Ok(name.to_string()))
                    .collect(),
            ),
            Value::Text(text) => QueryEvent::ExecutionFailed(format!(
                "Conversion Error: Could not convert string '{}' to INT32",
                text
            )),
        };
    }
    QueryEvent::ExecutionFailed("Catalog Error: unknown query".to_string())
}

// The same reply in record batches: the number of rows of each batch.
fn demo_engine_batches(sql: &str, args: &[Value]) -> QueryEvent<Vec<usize>> {
    match demo_engine(sql, args) {
        QueryEvent::ParseFailed(cause) => QueryEvent::ParseFailed(cause),
        QueryEvent::ExecutionFailed(cause) => QueryEvent::ExecutionFailed(cause),
        QueryEvent::Fetched(rows) => {
            if rows.is_empty() {
                QueryEvent::Fetched(vec![])
            } else {
                QueryEvent::Fetched(vec![rows.len()])
            }
        }
    }
}

// A registry in which the demo dataset has its connection.
fn mem_db_setup() -> ConnectionHandler {
    let mut conn_handler = ConnectionHandler::new();
    assert_eq!(conn_handler.fetch_connection(MEM_DB_PATH, true), Ok(ConnectionStep::Open));
    assert_eq!(conn_handler.register(MEM_DB_PATH), 0);
    conn_handler
}

fn run_query_rb_test_helper(sql: String, exp_len: usize, args: Vec<Value>) -> Result<(), String> {
    let mut conn_handler = mem_db_setup();

    let res: Result<Vec<usize>, String> =
        conn_handler.run_query_rb(MEM_DB_PATH, false, |step| {
            assert_eq!(step, ConnectionStep::Reuse(0));
            Served::Answered(demo_engine_batches(&sql, &args))
        });
    if res.is_err() {
        let message = res.as_ref().unwrap_err();
        assert!(message.starts_with("error parsing query: '")
            || message.starts_with("error executing query: '"));
        return res.map(|_| ());
    }

    let vec_rb: Vec<usize> = res.unwrap();
    let actual_len: usize = vec_rb.iter().fold(0, |acc, rb| acc + rb);
    assert_eq!(actual_len, exp_len);

    Ok(())
}

fn run_query_row_test_helper(sql: String, args: Vec<Value>, exp_len: usize) -> Result<(), String> {
    let mut conn_handler = mem_db_setup();

    let res: Result<Vec<String>, String> =
        conn_handler.run_query_row(MEM_DB_PATH, false, |step| {
            assert_eq!(step, ConnectionStep::Reuse(0));
            Served::Answered(demo_engine(&sql, &args))
        });
    if res.is_err() {
        let message = res.as_ref().unwrap_err();
        assert!(message.starts_with("error parsing query: '")
            || message.starts_with("error executing query: '"));
        return res.map(|_| ());
    }

    let vec_data: Vec<String> = res.unwrap();
    assert_eq!(vec_data.len(), exp_len);

    Ok(())
}

#[test]
fn fetch_connection_ok_test() {
    let conn_handler = ConnectionHandler::new();
    let res = conn_handler.fetch_connection(DB_PATH, true);
    assert!(res.is_ok(), "{:?}", res.unwrap_err());
}

#[test]
fn fetch_connection_incorrect_file_extension_test() {
    let conn_handler = ConnectionHandler::new();
    let res = conn_handler.fetch_connection(".out", true);
    assert!(res.is_err() && res.unwrap_err().contains(".duckdb"));
}

#[test]
fn fetch_connection_reuse_connection_test() {
    let mut conn_handler = ConnectionHandler::new();
    assert_eq!(conn_handler.len(), 0);
    assert_eq!(conn_handler.fetch_connection(DB_PATH, true), Ok(ConnectionStep::Open));
    conn_handler.register(DB_PATH);
    assert_eq!(conn_handler.len(), 1);
    assert_eq!(conn_handler.fetch_connection(DB_PATH, true), Ok(ConnectionStep::Reuse(0)));
    assert_eq!(conn_handler.len(), 1);
}

#[test]
fn fetch_connection_file_missing_test() {
    let conn_handler = ConnectionHandler::new();
    let res = conn_handler.fetch_connection("fakeFile.duckdb", false);
    let exp_err: &str = "file not found";
    assert!(res.is_err());
    assert!(
        res.as_ref().unwrap_err().contains(exp_err),
        "expected: {} but got: {}",
        exp_err,
        res.unwrap_err()
    );
}

#[test]
fn run_query_rb_show_tables_test() {
    let res = run_query_rb_test_helper(SHOW_TABLES_SQL.to_string(), 1, vec![]);
    assert!(res.is_ok(), "{:?}", res.unwrap_err());
}

#[test]
fn run_query_rb_simple_test() {
    let res = run_query_rb_test_helper(SIMPLE_DEMO_SQL.to_string(), 4, vec![]);
    assert!(res.is_ok(), "{:?}", res.unwrap_err());
}

#[test]
fn run_query_rb_syntax_err_test() {
    let res = run_query_rb_test_helper(SYNTAX_ERR_SQL.to_string(), usize::MAX, vec![]);
    let exp_err: &str = "syntax";
    assert!(
        res.as_ref().unwrap_err().contains(exp_err),
        "expected Err with '{}', but got: {:?}",
        exp_err,
        res.unwrap_err()
    );
}

#[test]
fn run_query_rb_empty_test() {
    let res = run_query_rb_test_helper(SINGLE_ARG_SQL.to_string(), 0, vec![Value::Int(0)]);
    assert!(res.is_ok(), "{:?}", res.unwrap_err());
}

#[test]
fn run_query_rb_wrong_arg_count_test() {
    let res = run_query_rb_test_helper(
        SINGLE_ARG_SQL.to_string(),
        usize::MAX,
        vec![Value::Int(1), Value::Int(2)],
    );
    let exp_err: &str = "Wrong number of parameters";
    assert!(
        res.as_ref().unwrap_err().contains(exp_err),
        "expected Err with '{}', but got: {:?}",
        exp_err,
        res.unwrap_err()
    );
}

#[test]
fn run_query_rb_arg_test() {
    let res = run_query_rb_test_helper(SINGLE_ARG_SQL.to_string(), 1, vec![Value::Int(1)]);
    assert!(res.is_ok(), "{:?}", res.unwrap_err());
}

#[test]
fn run_query_row_ok_test() {
    let res = run_query_row_test_helper(SHOW_TABLES_SQL.to_string(), vec![], 1);
    assert!(res.is_ok(), "{:?}", res.unwrap_err());
}

#[test]
fn run_query_row_syntax_err_test() {
    let res = run_query_row_test_helper(SYNTAX_ERR_SQL.to_string(), vec![], 1);
    let exp_err: &str = "syntax";
    assert!(
        res.as_ref().unwrap_err().contains(exp_err),
        "expected Err with '{}', but got: {:?}",
        exp_err,
        res.unwrap_err()
    );
}

#[test]
fn run_query_row_empty_query_test() {
    let res = run_query_row_test_helper(SINGLE_ARG_SQL.to_string(), vec![Value::Int(0)], 0);
    assert!(res.is_ok(), "{:?}", res.unwrap_err());
}

#[test]
fn run_query_row_empty_sql_test() {
    let res = run_query_row_test_helper("".to_string(), vec![], 0);
    let exp_err: &str = "No statement";
    assert!(
        res.as_ref().unwrap_err().contains(exp_err),
        "expected Err with '{}', but got: {:?}",
        exp_err,
        res.unwrap_err()
    );
}

#[test]
fn run_query_row_arg_test() {
    let res = run_query_row_test_helper(SINGLE_ARG_SQL.to_string(), vec![Value::Int(1)], 1);
    assert!(res.is_ok(), "{:?}", res.unwrap_err());
}

#[test]
fn run_query_row_inc_arg_count_test() {
    let res = run_query_row_test_helper(SINGLE_ARG_SQL.to_string(), vec![], 1);
    let exp_err: &str = "parameters";
    assert!(
        res.as_ref().unwrap_err().contains(exp_err),
        "expected Err with '{}', but got: {:?}",
        exp_err,
        res.unwrap_err()
    );
}

#[test]
fn run_query_row_inc_arg_type_test() {
    let res = run_query_row_test_helper(
        SHOW_TABLES_SQL.to_string(),
        vec![Value::Text("Belgium".to_string())],
        1,
    );
    let exp_err: &str = "parameter";
    assert!(
        res.as_ref().unwrap_err().contains(exp_err),
        "expected Err with '{}', but got: {:?}",
        exp_err,
        res.unwrap_err()
    );
}

#[test]
fn failure_messages_name_the_step() {
    assert_eq!(parse_failure_message("bad"), "error parsing query: 'bad'");
    assert_eq!(execution_failure_message("worse"), "error executing query: 'worse'");
    assert_eq!(
        open_failure_message("a.duckdb", "locked"),
        "Failed to open database 'a.duckdb': locked"
    );
    let parse: Result<Vec<usize>, String> = run_query_rb(QueryEvent::ParseFailed("p".to_string()));
    assert_eq!(parse, Err("error parsing query: 'p'".to_string()));
    let exec: Result<Vec<usize>, String> =
        run_query_rb(QueryEvent::ExecutionFailed("e".to_string()));
    assert_eq!(exec, Err("error executing query: 'e'".to_string()));
    assert_eq!(run_query_rb(QueryEvent::Fetched(vec![3usize, 4])), Ok(vec![3usize, 4]));
}

#[test]
fn a_row_that_cannot_be_mapped_fails_the_query() {
    let mapped: Vec<Result<i32, String>> = vec![Ok(1), Ok(2), Ok(3)];
    assert_eq!(run_query_row(QueryEvent::Fetched(mapped)), Ok(vec![1, 2, 3]));
    let rows = vec![Ok(1), Err("first".to_string()), Ok(2), Err("second".to_string())];
    assert_eq!(
        run_query_row(QueryEvent::Fetched(rows)),
        Err("error mapping row: 'first'".to_string())
    );
    let last: Vec<Result<i32, String>> = vec![Ok(1), Ok(2), Err("late".to_string())];
    assert_eq!(run_query_row(QueryEvent::Fetched(last)), Err(mapping_failure_message("late")));
    let empty: Vec<Result<i32, String>> = vec![];
    assert_eq!(run_query_row(QueryEvent::Fetched(empty)), Ok(vec![]));
}

#[test]
fn a_refused_path_is_refused_before_anything_is_run() {
    let mut handler = ConnectionHandler::new();
    let mut calls = 0;
    let res: Result<Vec<usize>, String> = handler.run_query_rb(".out", true, |_| {
        calls += 1;
        Served::Answered(QueryEvent::Fetched(vec![1]))
    });
    assert!(res.is_err() && res.unwrap_err().contains(".duckdb"));
    let res: Result<Vec<String>, String> = handler.run_query_row("gone.duckdb", false, |_| {
        calls += 1;
        Served::Answered(QueryEvent::Fetched(vec![]))
    });
    assert_eq!(res, Err("Error<file not found>` connecting to: 'gone.duckdb'".to_string()));
    assert_eq!(calls, 0);
    assert_eq!(handler.len(), 0);
}

#[test]
fn a_served_query_registers_the_dataset_it_opened() {
    let mut handler = ConnectionHandler::new();
    let res: Result<Vec<usize>, String> = handler.run_query_rb("a.duckdb", true, |step| {
        assert_eq!(step, ConnectionStep::Open);
        Served::OpenFailed("locked".to_string())
    });
    assert_eq!(res, Err("Failed to open database 'a.duckdb': locked".to_string()));
    assert_eq!(handler.len(), 0);
    let res: Result<Vec<usize>, String> = handler.run_query_rb("a.duckdb", true, |step| {
        assert_eq!(step, ConnectionStep::Open);
        Served::Answered(QueryEvent::ParseFailed("bad".to_string()))
    });
    assert_eq!(res, Err("error parsing query: 'bad'".to_string()));
    assert_eq!(handler.position("a.duckdb"), Some(0));
    let event = handler.serve_query("b.duckdb", true, |step| {
        assert_eq!(step, ConnectionStep::Open);
        Served::Answered(QueryEvent::Fetched(7))
    });
    assert!(matches!(event, Ok(QueryEvent::Fetched(7))));
    let res: Result<Vec<i32>, String> = handler.run_query_row("b.duckdb", false, |step| {
        assert_eq!(step, ConnectionStep::Reuse(1));
        Served::Answered(QueryEvent::Fetched(vec![Ok(5), Ok(6)]))
    });
    assert_eq!(res, Ok(vec![5, 6]));
    assert_eq!(handler.len(), 2);
}

#[test]
fn registry_keeps_the_order_of_opening() {
    let mut handler = ConnectionHandler::new();
    assert_eq!(handler.register("a.duckdb"), 0);
    assert_eq!(handler.register("b.duckdb"), 1);
    assert_eq!(handler.register("a.duckdb"), 0);
    assert_eq!(handler.len(), 2);
    assert_eq!(handler.position("b.duckdb"), Some(1));
    assert_eq!(handler.position("c.duckdb"), None);
    assert_eq!(handler.fetch_connection("b.duckdb", false), Ok(ConnectionStep::Reuse(1)));
    assert_eq!(
        handler.fetch_connection("c.duckdb", false),
        Err("Error<file not found>` connecting to: 'c.duckdb'".to_string())
    );
    assert_eq!(
        handler.fetch_connection("duckdb", true),
        Err("Database path must end with .duckdb".to_string())
    );
    assert_eq!(handler.fetch_connection(".duckdb", true), Ok(ConnectionStep::Open));
}

#[test]
fn failures_to_write_a_stream_are_worded() {
    assert_eq!(write_error("Io error: disk full"), format!("write error: {}", "Io error: disk full"));
    assert_eq!(finish_error("closed"), "finish error: closed");
    assert_eq!(write_error(""), "write error: ");
}

#[test]
fn failures_name_the_dataset_and_the_year() {
    assert_eq!(
        on_dataset("error parsing query: 'bad'", "a.duckdb"),
        "error parsing query: 'bad' (dataset 'a.duckdb')"
    );
    assert_eq!(in_year("Invalid storage type", 2030), "Invalid storage type (year 2030)");
    assert_eq!(in_year(&on_dataset("x", ""), 0), "x (dataset '') (year 0)");
}
