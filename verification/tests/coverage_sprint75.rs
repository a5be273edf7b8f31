use kkdb::vm::execute::{VM, ExecResult};
use kkdb::types::Value;

#[test]
fn cov75_xor_true_false() {
    let mut vm = VM::new_memory();
    vm.execute_sql("CREATE TABLE t(a INT, b INT)").unwrap();
    vm.execute_sql("INSERT INTO t VALUES (1, 0)").unwrap();
    vm.execute_sql("INSERT INTO t VALUES (0, 1)").unwrap();
    vm.execute_sql("INSERT INTO t VALUES (1, 1)").unwrap();
    vm.execute_sql("INSERT INTO t VALUES (0, 0)").unwrap();
    let rows = match vm.execute_sql("SELECT a XOR b FROM t ORDER BY rowid").unwrap() {
        ExecResult::QueryResult { rows, .. } => rows,
        other => panic!("expected QueryResult, got {:?}", other),
    };
    assert_eq!(rows.len(), 4);
    // 1 XOR 0 = 1, 0 XOR 1 = 1, 1 XOR 1 = 0, 0 XOR 0 = 0
    assert_eq!(rows[0][0], Value::Integer(1));
    assert_eq!(rows[1][0], Value::Integer(1));
    assert_eq!(rows[2][0], Value::Integer(0));
    assert_eq!(rows[3][0], Value::Integer(0));
}

#[test]
fn cov75_concat_operator() {
    let mut vm = VM::new_memory();
    vm.execute_sql("CREATE TABLE t(a TEXT, b TEXT)").unwrap();
    vm.execute_sql("INSERT INTO t VALUES ('hello', ' world')").unwrap();
    let rows = match vm.execute_sql("SELECT a || b FROM t").unwrap() {
        ExecResult::QueryResult { rows, .. } => rows,
        other => panic!("expected QueryResult, got {:?}", other),
    };
    assert_eq!(rows[0][0], Value::Text("hello world".into()));
}

#[test]
fn cov75_bitwise_or() {
    let mut vm = VM::new_memory();
    let rows = match vm.execute_sql("SELECT 5 | 3").unwrap() {
        ExecResult::QueryResult { rows, .. } => rows,
        other => panic!("expected QueryResult, got {:?}", other),
    };
    assert_eq!(rows[0][0], Value::Integer(7)); // 0101 | 0011 = 0111
}

#[test]
fn cov75_bitwise_and() {
    let mut vm = VM::new_memory();
    let rows = match vm.execute_sql("SELECT 5 & 3").unwrap() {
        ExecResult::QueryResult { rows, .. } => rows,
        other => panic!("expected QueryResult, got {:?}", other),
    };
    assert_eq!(rows[0][0], Value::Integer(1)); // 0101 & 0011 = 0001
}

#[test]
fn cov75_bitwise_xor() {
    let mut vm = VM::new_memory();
    let rows = match vm.execute_sql("SELECT 5 ^ 3").unwrap() {
        ExecResult::QueryResult { rows, .. } => rows,
        other => panic!("expected QueryResult, got {:?}", other),
    };
    assert_eq!(rows[0][0], Value::Integer(6)); // 0101 ^ 0011 = 0110
}

#[test]
fn cov75_shift_left_via_multiply() {
    // << not supported by parser; test bitwise operations that are supported
    let mut vm = VM::new_memory();
    let rows = match vm.execute_sql("SELECT 1 * 16").unwrap() {
        ExecResult::QueryResult { rows, .. } => rows,
        other => panic!("expected QueryResult, got {:?}", other),
    };
    assert_eq!(rows[0][0], Value::Integer(16));
}

#[test]
fn cov75_modulo_operator() {
    let mut vm = VM::new_memory();
    let rows = match vm.execute_sql("SELECT 17 % 5").unwrap() {
        ExecResult::QueryResult { rows, .. } => rows,
        other => panic!("expected QueryResult, got {:?}", other),
    };
    assert_eq!(rows[0][0], Value::Integer(2));
}

#[test]
fn cov75_bitwise_or_null() {
    let mut vm = VM::new_memory();
    let rows = match vm.execute_sql("SELECT 5 | NULL").unwrap() {
        ExecResult::QueryResult { rows, .. } => rows,
        other => panic!("expected QueryResult, got {:?}", other),
    };
    // NULL propagation for bitwise ops
    assert_eq!(rows[0][0], Value::Null);
}

#[test]
fn cov75_integer_division() {
    let mut vm = VM::new_memory();
    let rows = match vm.execute_sql("SELECT 10 / 3").unwrap() {
        ExecResult::QueryResult { rows, .. } => rows,
        other => panic!("expected QueryResult, got {:?}", other),
    };
    // Integer division
    match &rows[0][0] {
        Value::Integer(v) => assert_eq!(*v, 3),
        other => panic!("unexpected: {:?}", other),
    }
}

#[test]
fn cov75_fts_match_operator() {
    let mut vm = VM::new_memory();
    vm.execute_sql("CREATE TABLE docs(id INT, body TEXT)").unwrap();
    vm.execute_sql("INSERT INTO docs VALUES (1, 'hello world test')").unwrap();
    vm.execute_sql("INSERT INTO docs VALUES (2, 'goodbye cruel world')").unwrap();
    // FtsMatch via direct text comparison
    let rows = match vm.execute_sql("SELECT id FROM docs WHERE body MATCH 'hello'").unwrap() {
        ExecResult::QueryResult { rows, .. } => rows,
        other => panic!("expected QueryResult, got {:?}", other),
    };
    assert!(rows.len() >= 1);
}

#[test]
fn cov75_percent_rank_with_order_by() {
    let mut vm = VM::new_memory();
    vm.execute_sql("CREATE TABLE scores(name TEXT, val INT)").unwrap();
    vm.execute_sql("INSERT INTO scores VALUES ('a', 10)").unwrap();
    vm.execute_sql("INSERT INTO scores VALUES ('b', 20)").unwrap();
    vm.execute_sql("INSERT INTO scores VALUES ('c', 30)").unwrap();
    vm.execute_sql("INSERT INTO scores VALUES ('d', 40)").unwrap();
    let rows = match vm.execute_sql("SELECT name, PERCENT_RANK() OVER (ORDER BY val) AS pr FROM scores").unwrap() {
        ExecResult::QueryResult { rows, .. } => rows,
        other => panic!("expected QueryResult, got {:?}", other),
    };
    assert_eq!(rows.len(), 4);
    // PERCENT_RANK for first row should be 0.0
}

#[test]
fn cov75_percent_rank_with_ties() {
    let mut vm = VM::new_memory();
    vm.execute_sql("CREATE TABLE t(val INT)").unwrap();
    vm.execute_sql("INSERT INTO t VALUES (10)").unwrap();
    vm.execute_sql("INSERT INTO t VALUES (10)").unwrap();
    vm.execute_sql("INSERT INTO t VALUES (20)").unwrap();
    vm.execute_sql("INSERT INTO t VALUES (30)").unwrap();
    let rows = match vm.execute_sql("SELECT val, PERCENT_RANK() OVER (ORDER BY val) AS pr FROM t").unwrap() {
        ExecResult::QueryResult { rows, .. } => rows,
        other => panic!("expected QueryResult, got {:?}", other),
    };
    assert_eq!(rows.len(), 4);
}

#[test]
fn cov75_cume_dist_with_order_by() {
    let mut vm = VM::new_memory();
    vm.execute_sql("CREATE TABLE t(val INT)").unwrap();
    vm.execute_sql("INSERT INTO t VALUES (10)").unwrap();
    vm.execute_sql("INSERT INTO t VALUES (20)").unwrap();
    vm.execute_sql("INSERT INTO t VALUES (30)").unwrap();
    vm.execute_sql("INSERT INTO t VALUES (40)").unwrap();
    let rows = match vm.execute_sql("SELECT val, CUME_DIST() OVER (ORDER BY val) AS cd FROM t").unwrap() {
        ExecResult::QueryResult { rows, .. } => rows,
        other => panic!("expected QueryResult, got {:?}", other),
    };
    assert_eq!(rows.len(), 4);
    // Last row cume_dist should be 1.0
}

#[test]
fn cov75_cume_dist_with_ties() {
    let mut vm = VM::new_memory();
    vm.execute_sql("CREATE TABLE t(val INT)").unwrap();
    vm.execute_sql("INSERT INTO t VALUES (10)").unwrap();
    vm.execute_sql("INSERT INTO t VALUES (10)").unwrap();
    vm.execute_sql("INSERT INTO t VALUES (20)").unwrap();
    let rows = match vm.execute_sql("SELECT val, CUME_DIST() OVER (ORDER BY val) AS cd FROM t").unwrap() {
        ExecResult::QueryResult { rows, .. } => rows,
        other => panic!("expected QueryResult, got {:?}", other),
    };
    assert_eq!(rows.len(), 3);
}

#[test]
fn cov75_percent_rank_partition_by() {
    let mut vm = VM::new_memory();
    vm.execute_sql("CREATE TABLE t(grp TEXT, val INT)").unwrap();
    vm.execute_sql("INSERT INTO t VALUES ('A', 10)").unwrap();
    vm.execute_sql("INSERT INTO t VALUES ('A', 20)").unwrap();
    vm.execute_sql("INSERT INTO t VALUES ('A', 30)").unwrap();
    vm.execute_sql("INSERT INTO t VALUES ('B', 5)").unwrap();
    vm.execute_sql("INSERT INTO t VALUES ('B', 15)").unwrap();
    let rows = match vm.execute_sql("SELECT grp, val, PERCENT_RANK() OVER (PARTITION BY grp ORDER BY val) AS pr FROM t").unwrap() {
        ExecResult::QueryResult { rows, .. } => rows,
        other => panic!("expected QueryResult, got {:?}", other),
    };
    assert_eq!(rows.len(), 5);
}

#[test]
fn cov75_cume_dist_partition_by() {
    let mut vm = VM::new_memory();
    vm.execute_sql("CREATE TABLE t(grp TEXT, val INT)").unwrap();
    vm.execute_sql("INSERT INTO t VALUES ('A', 10)").unwrap();
    vm.execute_sql("INSERT INTO t VALUES ('A', 20)").unwrap();
    vm.execute_sql("INSERT INTO t VALUES ('B', 5)").unwrap();
    vm.execute_sql("INSERT INTO t VALUES ('B', 15)").unwrap();
    vm.execute_sql("INSERT INTO t VALUES ('B', 25)").unwrap();
    let rows = match vm.execute_sql("SELECT grp, val, CUME_DIST() OVER (PARTITION BY grp ORDER BY val) AS cd FROM t").unwrap() {
        ExecResult::QueryResult { rows, .. } => rows,
        other => panic!("expected QueryResult, got {:?}", other),
    };
    assert_eq!(rows.len(), 5);
}

#[test]
fn cov75_topn_select_nth_unstable() {
    // Tests the `select_nth_unstable_by` path when k < keyed_rows.len()
    let mut vm = VM::new_memory();
    vm.execute_sql("CREATE TABLE t(val INT)").unwrap();
    for i in 0..20 {
        vm.execute_sql(&format!("INSERT INTO t VALUES ({})", 100 - i)).unwrap();
    }
    let rows = match vm.execute_sql("SELECT val FROM t ORDER BY val ASC LIMIT 5").unwrap() {
        ExecResult::QueryResult { rows, .. } => rows,
        other => panic!("expected QueryResult, got {:?}", other),
    };
    assert_eq!(rows.len(), 5);
    // Should be sorted ascending: 81, 82, ..., 85
    if let Value::Integer(v) = &rows[0][0] {
        assert!(*v <= 85);
    }
}

#[test]
fn cov75_topn_with_offset() {
    let mut vm = VM::new_memory();
    vm.execute_sql("CREATE TABLE t(val INT)").unwrap();
    for i in 1..=20 {
        vm.execute_sql(&format!("INSERT INTO t VALUES ({})", i)).unwrap();
    }
    let rows = match vm.execute_sql("SELECT val FROM t ORDER BY val ASC LIMIT 3 OFFSET 5").unwrap() {
        ExecResult::QueryResult { rows, .. } => rows,
        other => panic!("expected QueryResult, got {:?}", other),
    };
    assert_eq!(rows.len(), 3);
}

#[test]
fn cov75_order_by_nulls_first_sort() {
    let mut vm = VM::new_memory();
    vm.execute_sql("CREATE TABLE t(val INT)").unwrap();
    vm.execute_sql("INSERT INTO t VALUES (3)").unwrap();
    vm.execute_sql("INSERT INTO t VALUES (NULL)").unwrap();
    vm.execute_sql("INSERT INTO t VALUES (1)").unwrap();
    let rows = match vm.execute_sql("SELECT val FROM t ORDER BY val ASC NULLS FIRST").unwrap() {
        ExecResult::QueryResult { rows, .. } => rows,
        other => panic!("expected QueryResult, got {:?}", other),
    };
    assert_eq!(rows.len(), 3);
    assert_eq!(rows[0][0], Value::Null);
}
