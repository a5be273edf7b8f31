use kkdb::client::{count, e_err, first_integer, q};
use kkdb::sql::ast::Statement;
use kkdb::sql::parser::parse_sql;
use kkdb::sql::ast::BinaryOperator;
use kkdb::storage::btree::{last_rows_reversed, BTree};
use kkdb::storage::pager::Pager;
use kkdb::storage::prefix_compress::{prefix_decode, prefix_encode};
use kkdb::storage::record::{decode_record, encode_record};
use kkdb::types::Value;
use kkdb::sql::ast::Expr;
use kkdb::vm::execute::{ExecResult, VM};
use kkdb::vm::query::sort_positions;
use kkdb::sql::lexer::tokenize;
use kkdb::sql::parser::parse_expr;

fn run(vm: &mut VM, sql: &str) {
    vm.execute_sql(sql).unwrap();
}

fn ids(vm: &mut VM, sql: &str) -> Vec<i64> {
    q(vm, sql)
        .unwrap()
        .iter()
        .map(|r| match &r[0] {
            Value::Integer(i) => *i,
            other => panic!("expected an integer, got {:?}", other),
        })
        .collect()
}

fn text(s: &str) -> Value {
    Value::Text(s.into())
}

fn scalar(vm: &mut VM, sql: &str) -> Value {
    let rows = q(vm, sql).unwrap();
    assert_eq!(rows.len(), 1);
    rows[0][0].clone()
}

fn empty_leaf(pager: &mut Pager) -> u32 {
    let root = pager.allocate_page().unwrap();
    let page = pager.get_page_mut(root).unwrap();
    page.data[0] = 0x0D;
    let ps = kkdb::storage::pager::PAGE_SIZE as u16;
    page.data[3..5].copy_from_slice(&ps.to_le_bytes());
    root
}

#[test]
fn law_rollback_restores_tables() {
    let mut vm = VM::new_memory();
    run(&mut vm, "CREATE TABLE t (id INTEGER PRIMARY KEY, v TEXT)");
    run(&mut vm, "INSERT INTO t VALUES (1, 'a')");
    run(&mut vm, "BEGIN");
    run(&mut vm, "INSERT INTO t VALUES (2, 'b')");
    run(&mut vm, "DELETE FROM t WHERE id = 1");
    assert_eq!(ids(&mut vm, "SELECT id FROM t"), vec![2]);
    run(&mut vm, "ROLLBACK");
    assert_eq!(ids(&mut vm, "SELECT id FROM t"), vec![1]);
}

#[test]
fn law_rollback_to_savepoint_keeps_earlier_work() {
    let mut vm = VM::new_memory();
    run(&mut vm, "CREATE TABLE t (id INTEGER PRIMARY KEY)");
    run(&mut vm, "BEGIN");
    run(&mut vm, "INSERT INTO t VALUES (1)");
    run(&mut vm, "SAVEPOINT s1");
    run(&mut vm, "INSERT INTO t VALUES (2)");
    run(&mut vm, "ROLLBACK TO s1");
    run(&mut vm, "INSERT INTO t VALUES (3)");
    run(&mut vm, "COMMIT");
    assert_eq!(ids(&mut vm, "SELECT id FROM t ORDER BY id"), vec![1, 3]);
}

#[test]
fn law_commit_keeps_work() {
    let mut vm = VM::new_memory();
    run(&mut vm, "CREATE TABLE t (id INTEGER PRIMARY KEY)");
    run(&mut vm, "BEGIN");
    run(&mut vm, "INSERT INTO t VALUES (7)");
    run(&mut vm, "COMMIT");
    assert_eq!(ids(&mut vm, "SELECT id FROM t"), vec![7]);
    run(&mut vm, "ROLLBACK");
    assert_eq!(ids(&mut vm, "SELECT id FROM t"), vec![7]);
}

#[test]
fn law_select_returns_inserted_row() {
    let mut vm = VM::new_memory();
    run(&mut vm, "CREATE TABLE t (a INTEGER, b TEXT, c BLOB)");
    run(&mut vm, "INSERT INTO t VALUES (-5, 'héllo', NULL), (6, 'x', NULL)");
    let rows = q(&mut vm, "SELECT * FROM t").unwrap();
    assert_eq!(rows.len(), 2);
    assert_eq!(rows[0], vec![Value::Integer(-5), text("héllo"), Value::Null]);
    assert_eq!(rows[1], vec![Value::Integer(6), text("x"), Value::Null]);
}

#[test]
fn law_delete_removes_exactly_matching_rows() {
    let mut vm = VM::new_memory();
    run(&mut vm, "CREATE TABLE t (id INTEGER PRIMARY KEY, v INTEGER)");
    for i in 1..=10 {
        run(&mut vm, &format!("INSERT INTO t VALUES ({i}, {})", i % 3));
    }
    run(&mut vm, "DELETE FROM t WHERE v = 0");
    assert_eq!(ids(&mut vm, "SELECT id FROM t"), vec![1, 2, 4, 5, 7, 8, 10]);
    assert_eq!(count(&mut vm, "SELECT COUNT(*) FROM t WHERE v = 0"), Some(0));
    run(&mut vm, "DELETE FROM t");
    assert_eq!(count(&mut vm, "SELECT COUNT(*) FROM t"), Some(0));
}

#[test]
fn law_delete_with_null_condition_keeps_row() {
    let mut vm = VM::new_memory();
    run(&mut vm, "CREATE TABLE t (id INTEGER PRIMARY KEY, v INTEGER)");
    run(&mut vm, "INSERT INTO t VALUES (1, NULL), (2, 5)");
    run(&mut vm, "DELETE FROM t WHERE v > 1");
    assert_eq!(ids(&mut vm, "SELECT id FROM t"), vec![1]);
}

#[test]
fn law_failed_statement_changes_nothing() {
    let mut vm = VM::new_memory();
    run(&mut vm, "CREATE TABLE t (id INTEGER PRIMARY KEY, v TEXT NOT NULL)");
    run(&mut vm, "INSERT INTO t VALUES (1, 'a')");
    assert!(vm.execute_sql("INSERT INTO t VALUES (2, 'b'), (3, NULL)").is_err());
    assert_eq!(ids(&mut vm, "SELECT id FROM t"), vec![1]);
}

#[test]
fn errors_have_their_inputs() {
    let mut vm = VM::new_memory();
    run(&mut vm, "CREATE TABLE t (id INTEGER PRIMARY KEY, u TEXT UNIQUE, n TEXT NOT NULL)");
    run(&mut vm, "INSERT INTO t VALUES (1, 'x', 'y')");
    assert!(e_err(&mut vm, "INSERT INTO t VALUES (2, 'x', 'z')").is_some());
    assert!(e_err(&mut vm, "INSERT INTO t VALUES (3, 'w', NULL)").is_some());
    assert!(e_err(&mut vm, "INSERT INTO t VALUES (1, 'v', 'z')").is_some());
    assert!(e_err(&mut vm, "SELECT * FROM missing").is_some());
    assert!(e_err(&mut vm, "SELEC 1").is_some());
    assert!(e_err(&mut vm, "SELECT 1").is_none());
    assert_eq!(ids(&mut vm, "SELECT id FROM t"), vec![1]);
}

#[test]
fn expression_values() {
    let mut vm = VM::new_memory();
    assert_eq!(scalar(&mut vm, "SELECT 7 % 3"), Value::Integer(1));
    assert_eq!(scalar(&mut vm, "SELECT 2 + 3 * 4"), Value::Integer(14));
    assert_eq!(scalar(&mut vm, "SELECT 5 BETWEEN 1 AND 5"), Value::Integer(1));
    assert_eq!(scalar(&mut vm, "SELECT 6 NOT BETWEEN 1 AND 5"), Value::Integer(1));
    assert_eq!(scalar(&mut vm, "SELECT 'abc' LIKE 'a%'"), Value::Integer(1));
    assert_eq!(scalar(&mut vm, "SELECT 'abc' LIKE 'A_C'"), Value::Integer(1));
    assert_eq!(scalar(&mut vm, "SELECT 'abc' LIKE 'b%'"), Value::Integer(0));
    assert_eq!(scalar(&mut vm, "SELECT 3 IN (1, 2, 3)"), Value::Integer(1));
    assert_eq!(scalar(&mut vm, "SELECT 4 IN (1, NULL)"), Value::Null);
    assert_eq!(scalar(&mut vm, "SELECT NULL IS NULL"), Value::Integer(1));
    assert_eq!(scalar(&mut vm, "SELECT CAST('12' AS INTEGER)"), Value::Integer(12));
    assert_eq!(scalar(&mut vm, "SELECT CAST(12 AS TEXT)"), text("12"));
    assert_eq!(scalar(&mut vm, "SELECT NULL + 1"), Value::Null);
}

#[test]
fn binary_op_laws_on_values() {
    let vm = VM::new_memory();
    let and = vm
        .apply_binary_op(&BinaryOperator::And, &Value::Integer(0), &Value::Null)
        .unwrap();
    assert_eq!(and, Value::Integer(0));
    let or = vm
        .apply_binary_op(&BinaryOperator::Or, &Value::Null, &Value::Integer(1))
        .unwrap();
    assert_eq!(or, Value::Integer(1));
    let lt = vm
        .apply_binary_op(&BinaryOperator::LessThan, &Value::Integer(2), &Value::Integer(3))
        .unwrap();
    let flipped = VM::flip_comparison_operator(&BinaryOperator::LessThan).unwrap();
    let gt = vm
        .apply_binary_op(&flipped, &Value::Integer(3), &Value::Integer(2))
        .unwrap();
    assert_eq!(lt, gt);
    assert!(vm
        .apply_binary_op(&BinaryOperator::Add, &Value::Integer(i64::MAX), &Value::Integer(1))
        .is_err());
}

#[test]
fn index_keys_of_values() {
    assert_eq!(VM::index_eq_key(&Value::Null), vec![0x5A]);
    assert_eq!(
        VM::index_eq_key(&Value::Integer(1)),
        vec![0x4E, 0x80, 0, 0, 0, 0, 0, 0, 1]
    );
    assert_eq!(
        VM::index_eq_key(&Value::Integer(-1)),
        vec![0x4E, 0x7F, 0xFF, 0xFF, 0xFF, 0xFF, 0xFF, 0xFF, 0xFF]
    );
    assert_eq!(VM::index_eq_key(&text("A")), vec![0x54, 0, 0, 0, 0x41]);
    assert_eq!(VM::index_eq_key(&Value::Blob(vec![9, 8])), vec![0x42, 9, 8]);
}

#[test]
fn law_record_roundtrip() {
    let row = vec![
        Value::Null,
        Value::Integer(i64::MIN),
        Value::Integer(-1),
        Value::Integer(42),
        text("ünïcode ✓"),
        text(""),
        Value::Blob(vec![0, 255, 7]),
    ];
    let bytes = encode_record(&row).unwrap();
    assert!(bytes.len() > row.len());
    assert_eq!(decode_record(&bytes), Some(row));
    assert_eq!(decode_record(&vec![0xFF]), None);
}

#[test]
fn law_prefix_roundtrip() {
    let prev = b"apple pie".to_vec();
    let cur = b"apple tart".to_vec();
    let enc = prefix_encode(&prev, &cur);
    assert!(enc.len() < cur.len() + 4);
    assert_eq!(prefix_decode(&prev, &enc), cur);
    let unrelated = b"zebra".to_vec();
    let enc2 = prefix_encode(&prev, &unrelated);
    assert_eq!(prefix_decode(&prev, &enc2), unrelated);
}

#[test]
fn law_btree_read_after_write() {
    let mut pager = Pager::open_memory();
    let root = empty_leaf(&mut pager);
    let mut tree = BTree::new(&mut pager);
    let mut root = root;
    for i in [5i64, 1, 9, 3, 7] {
        root = tree.insert(root, i, &vec![Value::Integer(i * 10)]).unwrap();
    }
    root = tree.insert(root, 3, &vec![text("again")]).unwrap();
    assert_eq!(tree.find_by_rowid(root, 3).unwrap(), Some((3, vec![text("again")])));
    assert_eq!(tree.find_by_rowid(root, 9).unwrap(), Some((9, vec![Value::Integer(90)])));
    assert_eq!(tree.find_by_rowid(root, 4).unwrap(), None);
    let all = tree.scan_all(root).unwrap();
    let keys: Vec<i64> = all.iter().map(|(k, _)| *k).collect();
    assert_eq!(keys, vec![1, 3, 5, 7, 9]);
    let (gone, same_root) = tree.delete_by_rowid(root, 5).unwrap();
    assert!(gone);
    assert_eq!(same_root, root);
    assert_eq!(tree.find_by_rowid(root, 5).unwrap(), None);
    assert_eq!(tree.max_rowid(root), Some(9));
}

#[test]
fn law_btree_large_rows_come_back_whole() {
    let mut pager = Pager::open_memory();
    let root = empty_leaf(&mut pager);
    let mut tree = BTree::new(&mut pager);
    let big = "q".repeat(9000);
    let root = tree.insert(root, 1, &vec![text(&big)]).unwrap();
    let (_, _, overflow, _) = tree.fragmentation_stats(root).unwrap();
    assert!(overflow >= 2);
    assert_eq!(tree.find_by_rowid(root, 1).unwrap(), Some((1, vec![text(&big)])));
}

#[test]
fn law_btree_splits_keep_order() {
    let mut pager = Pager::open_memory();
    let root = empty_leaf(&mut pager);
    let mut tree = BTree::new(&mut pager);
    let mut root = root;
    for i in (1i64..=400).rev() {
        root = tree.insert(root, i, &vec![text(&format!("row number {i}"))]).unwrap();
    }
    let all = tree.scan_all(root).unwrap();
    assert_eq!(all.len(), 400);
    assert!(all.windows(2).all(|w| w[0].0 < w[1].0));
    assert_eq!(tree.max_rowid(root), Some(400));
    assert_eq!(tree.defragment_all(root).unwrap() >= 2, true);
    assert_eq!(tree.scan_all(root).unwrap(), all);
}

#[test]
fn last_rows_reversed_takes_from_the_end() {
    let all = vec![
        (1i64, vec![Value::Integer(1)]),
        (2, vec![Value::Integer(2)]),
        (3, vec![Value::Integer(3)]),
    ];
    let two = last_rows_reversed(all, 2);
    assert_eq!(two, vec![vec![Value::Integer(3)], vec![Value::Integer(2)]]);
    assert!(last_rows_reversed(Vec::new(), 4).is_empty());
}

#[test]
fn alter_table_adds_and_drops_columns() {
    let mut vm = VM::new_memory();
    run(&mut vm, "CREATE TABLE t (id INTEGER PRIMARY KEY, a TEXT)");
    run(&mut vm, "INSERT INTO t VALUES (1, 'x')");
    run(&mut vm, "ALTER TABLE t ADD COLUMN b INTEGER DEFAULT 4");
    assert_eq!(
        q(&mut vm, "SELECT * FROM t").unwrap(),
        vec![vec![Value::Integer(1), text("x"), Value::Integer(4)]]
    );
    run(&mut vm, "ALTER TABLE t DROP COLUMN a");
    assert_eq!(
        q(&mut vm, "SELECT * FROM t").unwrap(),
        vec![vec![Value::Integer(1), Value::Integer(4)]]
    );
    assert!(vm.execute_sql("ALTER TABLE t ADD COLUMN c TEXT NOT NULL").is_err());
}

#[test]
fn client_helpers() {
    let mut vm = VM::new_memory();
    run(&mut vm, "CREATE TABLE t (id INTEGER)");
    run(&mut vm, "INSERT INTO t VALUES (3), (4)");
    assert_eq!(count(&mut vm, "SELECT COUNT(*) FROM t"), Some(2));
    assert_eq!(count(&mut vm, "SELECT * FROM missing"), None);
    let rows = q(&mut vm, "SELECT id FROM t").unwrap();
    assert_eq!(first_integer(&rows), Some(3));
    assert_eq!(first_integer(&Vec::new()), None);
    match vm.execute_sql("CREATE TABLE u (x INTEGER)").unwrap() {
        ExecResult::Message { .. } => {}
        other => panic!("expected a message, got {:?}", other),
    }
}

#[test]
fn law_update_assigns_selected_rows_only() {
    let mut vm = VM::new_memory();
    run(&mut vm, "CREATE TABLE t (id INTEGER PRIMARY KEY, a INTEGER, b INTEGER)");
    run(&mut vm, "INSERT INTO t VALUES (1, 10, 20), (2, 30, 40), (3, 50, 60)");
    run(&mut vm, "UPDATE t SET a = b, b = a WHERE id >= 2");
    assert_eq!(
        q(&mut vm, "SELECT * FROM t").unwrap(),
        vec![
            vec![Value::Integer(1), Value::Integer(10), Value::Integer(20)],
            vec![Value::Integer(2), Value::Integer(40), Value::Integer(30)],
            vec![Value::Integer(3), Value::Integer(60), Value::Integer(50)],
        ]
    );
    run(&mut vm, "UPDATE t SET a = a + 1, a = a + 5");
    assert_eq!(ids(&mut vm, "SELECT a FROM t"), vec![15, 45, 65]);
    run(&mut vm, "UPDATE t SET b = 0 WHERE a > 1000");
    assert_eq!(ids(&mut vm, "SELECT b FROM t"), vec![20, 30, 50]);
    assert!(vm.execute_sql("UPDATE t SET missing = 1").is_err());
}

fn order_item(desc: bool, nulls_first: Option<bool>) -> kkdb::sql::ast::OrderItem {
    kkdb::sql::ast::OrderItem {
        expr: kkdb::sql::ast::Expr::Literal(Value::Null),
        desc,
        nulls_first,
    }
}

#[test]
fn law_sort_is_stable_and_ordered() {
    let keys = vec![
        vec![Value::Integer(3)],
        vec![Value::Integer(1)],
        vec![Value::Integer(3)],
        vec![Value::Null],
        vec![Value::Integer(2)],
    ];
    let asc = sort_positions(&keys, &vec![order_item(false, None)]);
    assert_eq!(asc, vec![3, 1, 4, 0, 2]);
    let desc = sort_positions(&keys, &vec![order_item(true, None)]);
    assert_eq!(desc, vec![0, 2, 4, 1, 3]);
    let desc_nulls_first = sort_positions(&keys, &vec![order_item(true, Some(true))]);
    assert_eq!(desc_nulls_first, vec![3, 0, 2, 4, 1]);
    let mut vm = VM::new_memory();
    run(&mut vm, "CREATE TABLE s (id INTEGER PRIMARY KEY, v TEXT)");
    run(&mut vm, "INSERT INTO s VALUES (1, 'b'), (2, 'a'), (3, NULL), (4, 'b')");
    assert_eq!(ids(&mut vm, "SELECT id FROM s ORDER BY v, id DESC"), vec![3, 2, 4, 1]);
}

#[test]
fn aggregate_values() {
    let mut vm = VM::new_memory();
    run(&mut vm, "CREATE TABLE g (k INTEGER, v INTEGER, s TEXT)");
    run(&mut vm, "INSERT INTO g VALUES (1, 5, 'a'), (1, -8, 'b'), (2, 5, NULL), (2, NULL, 'c')");
    assert_eq!(scalar(&mut vm, "SELECT COUNT(*) FROM g"), Value::Integer(4));
    assert_eq!(scalar(&mut vm, "SELECT COUNT(v) FROM g"), Value::Integer(3));
    assert_eq!(scalar(&mut vm, "SELECT COUNT(DISTINCT v) FROM g"), Value::Integer(2));
    assert_eq!(scalar(&mut vm, "SELECT SUM(v) FROM g"), Value::Integer(2));
    assert_eq!(scalar(&mut vm, "SELECT AVG(v) FROM g WHERE k = 1"), Value::Integer(-1));
    assert_eq!(scalar(&mut vm, "SELECT MIN(v) FROM g"), Value::Integer(-8));
    assert_eq!(scalar(&mut vm, "SELECT MAX(s) FROM g"), text("c"));
    assert_eq!(scalar(&mut vm, "SELECT SUM(v) FROM g WHERE v IS NULL"), Value::Null);
    assert_eq!(scalar(&mut vm, "SELECT GROUP_CONCAT(s) FROM g"), text("a,b,c"));
    run(&mut vm, "CREATE TABLE big (v INTEGER)");
    run(&mut vm, "INSERT INTO big VALUES (9223372036854775807), (1)");
    assert!(vm.execute_sql("SELECT SUM(v) FROM big").is_err());
}

fn expr_text(e: &Expr) -> String {
    match e {
        Expr::Literal(Value::Integer(v)) => format!("{v}"),
        Expr::Column { table: None, name } => name.iter().collect(),
        Expr::Binary { op, left, right } => format!("({} {:?} {})", expr_text(left), op, expr_text(right)),
        other => format!("{:?}", other),
    }
}

#[test]
fn law_parse_gives_back_rendered_expression() {
    let toks = tokenize(&"((a + 2) * (b || 7)) <= c".chars().collect()).unwrap();
    let mut pos = 0usize;
    let e = parse_expr(&toks, &mut pos, 50).unwrap();
    assert_eq!(pos, toks.len());
    assert_eq!(expr_text(&e), "(((a Add 2) Multiply (b Concat 7)) LessThanOrEqual c)");
    let toks = tokenize(&"1 + 2 * 3 - 4".chars().collect()).unwrap();
    let mut pos = 0usize;
    let e = parse_expr(&toks, &mut pos, 50).unwrap();
    assert_eq!(expr_text(&e), "((1 Add (2 Multiply 3)) Subtract 4)");
    let toks = tokenize(&"((1))".chars().collect()).unwrap();
    let mut pos = 0usize;
    assert!(parse_expr(&toks, &mut pos, 1).is_err());
}

#[test]
fn law_set_operations_follow_set_semantics() {
    let mut vm = VM::new_memory();
    run(&mut vm, "CREATE TABLE a (x INTEGER)");
    run(&mut vm, "CREATE TABLE b (x INTEGER)");
    run(&mut vm, "INSERT INTO a VALUES (1), (2), (2), (3)");
    run(&mut vm, "INSERT INTO b VALUES (2), (4), (4)");
    assert_eq!(ids(&mut vm, "SELECT x FROM a UNION ALL SELECT x FROM b"), vec![1, 2, 2, 3, 2, 4, 4]);
    assert_eq!(ids(&mut vm, "SELECT x FROM a UNION SELECT x FROM b"), vec![1, 2, 3, 4]);
    assert_eq!(ids(&mut vm, "SELECT x FROM a INTERSECT SELECT x FROM b"), vec![2]);
    assert_eq!(ids(&mut vm, "SELECT x FROM a INTERSECT ALL SELECT x FROM b"), vec![2, 2]);
    assert_eq!(ids(&mut vm, "SELECT x FROM a EXCEPT SELECT x FROM b"), vec![1, 3]);
    assert_eq!(ids(&mut vm, "SELECT x FROM b EXCEPT ALL SELECT x FROM a"), vec![4, 4]);
}

#[test]
fn law_scalar_functions_on_values() {
    let mut vm = VM::new_memory();
    assert_eq!(scalar(&mut vm, "SELECT coalesce(NULL, NULL, 7, 8)"), Value::Integer(7));
    assert_eq!(scalar(&mut vm, "SELECT coalesce(NULL, NULL)"), Value::Null);
    assert_eq!(scalar(&mut vm, "SELECT nullif(3, 3)"), Value::Null);
    assert_eq!(scalar(&mut vm, "SELECT nullif(3, 4)"), Value::Integer(3));
    assert_eq!(scalar(&mut vm, "SELECT iif(1 < 2, 'yes', 'no')"), text("yes"));
    assert_eq!(scalar(&mut vm, "SELECT typeof('a')"), text("text"));
    assert_eq!(scalar(&mut vm, "SELECT max(3, 9, 4)"), Value::Integer(9));
    assert_eq!(scalar(&mut vm, "SELECT min(3, NULL, 4)"), Value::Null);
    assert_eq!(scalar(&mut vm, "SELECT upper('abC')"), text("ABC"));
    assert_eq!(scalar(&mut vm, "SELECT length('hello')"), Value::Integer(5));
    assert_eq!(scalar(&mut vm, "SELECT substr('hello', 2, 3)"), text("ell"));
    assert_eq!(scalar(&mut vm, "SELECT replace('a-b-c', '-', '+')"), text("a+b+c"));
    assert_eq!(scalar(&mut vm, "SELECT trim('  x  ')"), text("x"));
    assert_eq!(scalar(&mut vm, "SELECT abs(-5)"), Value::Integer(5));
    assert_eq!(scalar(&mut vm, "SELECT upper(NULL)"), Value::Null);
    assert!(vm.execute_sql("SELECT abs(-9223372036854775807 - 1)").is_err());
    assert!(vm.execute_sql("SELECT nullif(1)").is_err());
    assert!(vm.execute_sql("SELECT no_such_fn(1)").is_err());
}

#[test]
fn law_setting_reads_back_last_write() {
    let mut vm = VM::new_memory();
    run(&mut vm, "SET mykey = 'one'");
    run(&mut vm, "SET other = 'two'");
    run(&mut vm, "SET MyKey = 'three'");
    assert_eq!(scalar(&mut vm, "SELECT current_setting('mykey')"), text("three"));
    assert_eq!(scalar(&mut vm, "SELECT current_setting('other')"), text("two"));
    assert_eq!(scalar(&mut vm, "SELECT current_setting('missing')"), Value::Null);
}

#[test]
fn law_window_values_follow_their_formulas() {
    let mut vm = VM::new_memory();
    run(&mut vm, "CREATE TABLE w (x INTEGER)");
    run(&mut vm, "INSERT INTO w VALUES (1), (2), (3), (4), (5), (6), (7)");
    let tiles: Vec<i64> = q(&mut vm, "SELECT x, ntile(3) OVER (ORDER BY x) FROM w ORDER BY x")
        .unwrap()
        .iter()
        .map(|r| match &r[1] { Value::Integer(i) => *i, other => panic!("{:?}", other) })
        .collect();
    assert_eq!(tiles, vec![1, 1, 1, 2, 2, 3, 3]);
    run(&mut vm, "DELETE FROM w WHERE x > 5");
    let pr: Vec<Value> = q(&mut vm, "SELECT x, percent_rank() OVER (ORDER BY x) FROM w ORDER BY x")
        .unwrap()
        .iter()
        .map(|r| r[1].clone())
        .collect();
    assert_eq!(pr, vec![text("0.0"), text("0.25"), text("0.5"), text("0.75"), text("1.0")]);
    let lagged: Vec<Value> = q(&mut vm, "SELECT x, lag(x, 2, 0) OVER (ORDER BY x) FROM w ORDER BY x")
        .unwrap()
        .iter()
        .map(|r| r[1].clone())
        .collect();
    assert_eq!(lagged, vec![Value::Integer(0), Value::Integer(0), Value::Integer(1), Value::Integer(2), Value::Integer(3)]);
}

#[test]
fn law_select_is_filter_then_projection_of_the_from_list() {
    let mut vm = VM::new_memory();
    run(&mut vm, "CREATE TABLE a (id INTEGER, x INTEGER)");
    run(&mut vm, "CREATE TABLE b (id INTEGER, y TEXT)");
    run(&mut vm, "INSERT INTO a VALUES (1, 10), (2, 20), (3, 30)");
    run(&mut vm, "INSERT INTO b VALUES (1, 'one'), (3, 'three'), (3, 'tres')");
    let rows = q(&mut vm, "SELECT a.x, b.y FROM a JOIN b ON a.id = b.id WHERE a.x > 5").unwrap();
    assert_eq!(rows, vec![
        vec![Value::Integer(10), text("one")],
        vec![Value::Integer(30), text("three")],
        vec![Value::Integer(30), text("tres")],
    ]);
    let left = q(&mut vm, "SELECT a.id, b.y FROM a LEFT JOIN b ON a.id = b.id").unwrap();
    assert_eq!(left[1], vec![Value::Integer(2), Value::Null]);
    assert_eq!(left.len(), 4);
    assert_eq!(q(&mut vm, "SELECT * FROM a, b").unwrap().len(), 9);
    assert_eq!(ids(&mut vm, "SELECT DISTINCT id FROM b"), vec![1, 3]);
    assert_eq!(ids(&mut vm, "SELECT x FROM a LIMIT 1 OFFSET 1"), vec![20]);
    assert_eq!(ids(&mut vm, "SELECT value FROM generate_series(1, 10, 4)"), vec![1, 5, 9]);
    assert_eq!(ids(&mut vm, "SELECT value FROM generate_series(3, 1, -1)"), vec![3, 2, 1]);
    assert!(vm.execute_sql("SELECT value FROM generate_series(1, 2, 0)").is_err());
    assert!(vm.execute_sql("SELECT x FROM a LIMIT 'many'").is_err());
    assert!(vm.execute_sql("SELECT * FROM missing_table").is_err());
}

fn texts(vm: &mut VM, sql: &str) -> Vec<Value> {
    q(vm, sql).unwrap().iter().map(|r| r[0].clone()).collect()
}

#[test]
fn law_order_by_is_a_stable_sort_then_page() {
    let mut vm = VM::new_memory();
    run(&mut vm, "CREATE TABLE s (k INTEGER, v TEXT)");
    run(&mut vm, "INSERT INTO s VALUES (2, 'a'), (1, 'b'), (2, 'c'), (NULL, 'd'), (1, 'e')");
    assert_eq!(texts(&mut vm, "SELECT v FROM s ORDER BY k"), vec![text("d"), text("b"), text("e"), text("a"), text("c")]);
    assert_eq!(texts(&mut vm, "SELECT v FROM s ORDER BY k DESC"), vec![text("a"), text("c"), text("b"), text("e"), text("d")]);
    assert_eq!(texts(&mut vm, "SELECT v FROM s ORDER BY 1 DESC LIMIT 2"), vec![text("e"), text("d")]);
    assert_eq!(texts(&mut vm, "SELECT v FROM s ORDER BY k LIMIT 2 OFFSET 1"), vec![text("b"), text("e")]);
}

#[test]
fn test_cast_expressions() {
    let mut vm = VM::new_memory();
    let rows = q(&mut vm, "SELECT CAST(42 AS TEXT)").unwrap();
    assert_eq!(rows[0][0], Value::Text("42".into()));
    let rows = q(&mut vm, "SELECT CAST('123' AS INTEGER)").unwrap();
    assert_eq!(rows[0][0], Value::Integer(123));
    let rows = q(&mut vm, "SELECT CAST(3.14 AS INTEGER)").unwrap();
    assert_eq!(rows[0][0], Value::Integer(3));
}

#[test]
fn decimal_literal_outside_an_integer_cast_is_refused() {
    let mut vm = VM::new_memory();
    assert!(q(&mut vm, "SELECT 3.14").is_err());
    assert!(q(&mut vm, "SELECT CAST(3.99 AS TEXT)").is_err());
    let rows = q(&mut vm, "SELECT CAST(3.99 AS INTEGER)").unwrap();
    assert_eq!(rows[0][0], Value::Integer(3));
}

#[test]
fn count_star_counts_the_rows_of_a_table() {
    let mut vm = VM::new_memory();
    run(&mut vm, "CREATE TABLE cs (id INTEGER PRIMARY KEY, v INTEGER)");
    assert_eq!(count(&mut vm, "SELECT COUNT(*) FROM cs"), Some(0));
    run(&mut vm, "INSERT INTO cs VALUES (1, 10)");
    run(&mut vm, "INSERT INTO cs VALUES (2, 20)");
    assert_eq!(count(&mut vm, "SELECT COUNT(*) FROM cs;"), Some(2));
    assert!(vm.execute_sql("INSERT INTO cs VALUES (2, 30)").is_err());
    assert_eq!(count(&mut vm, "SELECT COUNT(*) FROM cs"), Some(2));
    run(&mut vm, "DELETE FROM cs");
    assert_eq!(count(&mut vm, "SELECT COUNT(*) FROM cs"), Some(0));
}

#[test]
fn text_statements_parse_to_their_statements() {
    let p = |s: &str| parse_sql(&s.chars().collect::<Vec<char>>());
    assert!(matches!(p("BEGIN TRANSACTION"), Ok(Statement::Begin)));
    assert!(matches!(p("commit;"), Ok(Statement::Commit)));
    assert!(matches!(p("ROLLBACK TO SAVEPOINT sp1"), Ok(Statement::RollbackTo(n)) if n.iter().collect::<String>() == "sp1"));
    assert!(matches!(p("DROP TABLE IF EXISTS t"), Ok(Statement::DropTable { if_exists: true, .. })));
    assert!(matches!(p("SELECT * FROM t"), Ok(Statement::Query(_))));
    assert!(matches!(p("INSERT INTO t VALUES (1, 2, 3)"), Ok(Statement::Insert { .. })));
    assert!(p("SELECT * FROM t )").is_err());
}

#[test]
fn rollback_text_undoes_inserts() {
    let mut vm = VM::new_memory();
    run(&mut vm, "CREATE TABLE txr (id INTEGER PRIMARY KEY)");
    run(&mut vm, "INSERT INTO txr VALUES (1)");
    run(&mut vm, "BEGIN");
    run(&mut vm, "INSERT INTO txr VALUES (2)");
    run(&mut vm, "INSERT INTO txr VALUES (3)");
    run(&mut vm, "ROLLBACK");
    assert_eq!(count(&mut vm, "SELECT COUNT(*) FROM txr"), Some(1));
}

#[test]
fn delete_with_a_condition_leaves_the_other_rows() {
    let mut vm = VM::new_memory();
    run(&mut vm, "CREATE TABLE sc (id INTEGER PRIMARY KEY, score INTEGER)");
    for i in 1..=20 {
        run(&mut vm, &format!("INSERT INTO sc VALUES ({}, {})", i, i));
    }
    let a = count(&mut vm, "SELECT COUNT(*) FROM sc").unwrap();
    let d = count(&mut vm, "SELECT COUNT(*) FROM sc WHERE (score <= 5)").unwrap();
    assert_eq!((a, d), (20, 5));
    run(&mut vm, "DELETE FROM sc WHERE (score <= 5)");
    assert_eq!(count(&mut vm, "SELECT COUNT(*) FROM sc"), Some(a - d));
    assert_eq!(count(&mut vm, "SELECT COUNT(*) FROM sc WHERE (score <= 5)"), Some(0));
}

#[test]
fn delete_with_an_unparenthesised_condition_leaves_the_other_rows() {
    let mut vm = VM::new_memory();
    run(&mut vm, "CREATE TABLE sb (id INTEGER PRIMARY KEY, score INTEGER)");
    run(&mut vm, "INSERT INTO sb VALUES (1, 1), (2, 2), (3, 3), (4, 4), (5, 5), (6, 6), (7, 7), (8, 8)");
    let a = count(&mut vm, "SELECT COUNT(*) FROM sb").unwrap();
    let d = count(&mut vm, "SELECT COUNT(*) FROM sb WHERE score <= 5").unwrap();
    assert_eq!((a, d), (8, 5));
    run(&mut vm, "DELETE FROM sb WHERE score <= 5");
    assert_eq!(count(&mut vm, "SELECT COUNT(*) FROM sb"), Some(a - d));
    assert_eq!(count(&mut vm, "SELECT COUNT(*) FROM sb WHERE score <= 5"), Some(0));
    assert_eq!(count(&mut vm, "SELECT COUNT(*) FROM sb WHERE (score * 2) > 14"), Some(1));
}

#[test]
fn vacuum_keeps_every_row() {
    let mut vm = VM::new_memory();
    run(&mut vm, "CREATE TABLE vk (id INTEGER PRIMARY KEY, v INTEGER)");
    run(&mut vm, "INSERT INTO vk VALUES (1, 10), (2, 20)");
    assert!(matches!(vm.execute_sql("VACUUM"), Ok(ExecResult::Message { .. })));
    assert_eq!(count(&mut vm, "SELECT COUNT(*) FROM vk"), Some(2));
}

#[test]
fn unknown_statement_words_are_refused() {
    let mut vm = VM::new_memory();
    for sql in ["LOAD DATA INFILE 'x'", "FETCH NEXT", "CLOSE c", "INSTALL plugin"] {
        assert!(vm.execute_sql(sql).is_err());
    }
}

#[test]
fn star_select_with_a_condition_returns_the_matching_rows() {
    let mut vm = VM::new_memory();
    run(&mut vm, "CREATE TABLE sw (id INTEGER PRIMARY KEY, v INTEGER)");
    run(&mut vm, "INSERT INTO sw VALUES (1, 10), (2, 20), (3, 30)");
    assert_eq!(ids(&mut vm, "SELECT * FROM sw WHERE v >= 20"), vec![2, 3]);
    assert_eq!(ids(&mut vm, "SELECT * FROM sw WHERE (id = 1)"), vec![1]);
}

#[test]
fn insert_of_text_and_null_literals_adds_one_row_each() {
    let mut vm = VM::new_memory();
    run(&mut vm, "CREATE TABLE lt (id INTEGER PRIMARY KEY, v TEXT)");
    run(&mut vm, "INSERT INTO lt VALUES (1, 'x'), (2, 'y')");
    run(&mut vm, "INSERT INTO lt VALUES (3, NULL)");
    assert_eq!(count(&mut vm, "SELECT COUNT(*) FROM lt"), Some(3));
    let r = q(&mut vm, "SELECT * FROM lt WHERE id = 1").unwrap();
    assert_eq!(r, vec![vec![Value::Integer(1), text("x")]]);
    let r = q(&mut vm, "SELECT * FROM lt WHERE id = 3").unwrap();
    assert_eq!(r, vec![vec![Value::Integer(3), Value::Null]]);
}

#[test]
fn column_select_returns_the_named_columns() {
    let mut vm = VM::new_memory();
    run(&mut vm, "CREATE TABLE cs (id INTEGER PRIMARY KEY, a INTEGER, b TEXT)");
    run(&mut vm, "INSERT INTO cs VALUES (1, 10, 'x'), (2, 20, 'y')");
    let r = q(&mut vm, "SELECT b, a FROM cs").unwrap();
    assert_eq!(r, vec![vec![text("x"), Value::Integer(10)], vec![text("y"), Value::Integer(20)]]);
    let r = q(&mut vm, "SELECT a FROM cs WHERE id = 2").unwrap();
    assert_eq!(r, vec![vec![Value::Integer(20)]]);
}

#[test]
fn update_text_assigns_the_selected_rows() {
    let mut vm = VM::new_memory();
    run(&mut vm, "CREATE TABLE up (id INTEGER PRIMARY KEY, v INTEGER)");
    run(&mut vm, "INSERT INTO up VALUES (1, 10), (2, 20), (3, 30)");
    run(&mut vm, "UPDATE up SET v = v + 1 WHERE id >= 2");
    let r = q(&mut vm, "SELECT v FROM up").unwrap();
    assert_eq!(r, vec![vec![Value::Integer(10)], vec![Value::Integer(21)], vec![Value::Integer(31)]]);
    run(&mut vm, "UPDATE up SET v = 0");
    assert_eq!(count(&mut vm, "SELECT COUNT(*) FROM up WHERE v = 0"), Some(3));
}
