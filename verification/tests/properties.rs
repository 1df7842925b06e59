use localdb::{Col, Database, LocalDB, LocalDBError, LocalDBValue, Row, Table};

fn db_of(tables: Vec<Table>) -> LocalDB {
    LocalDB { db: Database { tables } }
}

fn row(cols: Vec<(&str, LocalDBValue)>) -> Row {
    Row {
        cols: cols
            .into_iter()
            .map(|(n, v)| Col { name: n.to_string(), value: v })
            .collect(),
    }
}

#[test]
fn round_trip_via_statements() {
    let mut db = LocalDB::new();
    db.exec(
        "CREATE TABLE users (id UUID, name TEXT); \
         INSERT INTO users VALUES ('a', 'one'); \
         INSERT INTO users VALUES ('b', 'two'); \
         CREATE TABLE empty_table (id UUID, name TEXT);"
            .to_string(),
    )
    .expect("exec failed");
    let doc = db.document();
    let reopened = LocalDB::open(&doc);
    assert_eq!(reopened.document(), doc);
    let rows = reopened.query("SELECT * FROM users;").expect("query failed");
    assert_eq!(rows.len(), 2);
    match rows[0].get("name").unwrap() {
        LocalDBValue::TEXT(n) => assert_eq!(n, "one"),
        _ => panic!("name should be TEXT"),
    }
    match rows[1].get("name").unwrap() {
        LocalDBValue::TEXT(n) => assert_eq!(n, "two"),
        _ => panic!("name should be TEXT"),
    }
    let none = reopened.query("SELECT * FROM empty_table;").expect("query failed");
    assert_eq!(none.len(), 0);
}

#[test]
fn round_trip_int_and_escapes() {
    // A database no statement can build: integer values (the minimum and
    // maximum included) and text holding quotes and backslashes.
    let db = db_of(vec![Table {
        name: "t".to_string(),
        rows: vec![row(vec![
            ("n", LocalDBValue::INT(-123)),
            ("lo", LocalDBValue::INT(i64::MIN)),
            ("hi", LocalDBValue::INT(i64::MAX)),
            ("z", LocalDBValue::INT(0)),
            ("s", LocalDBValue::TEXT("a\"b\\c".to_string())),
            ("u", LocalDBValue::UUID("x'y".to_string())),
        ])],
    }]);
    let doc = db.document();
    let back = LocalDB::open(&doc);
    assert_eq!(back.document(), doc);
    let rows = back.query("SELECT * FROM t;").expect("query failed");
    assert_eq!(rows.len(), 1);
    let r = &rows[0];
    assert!(matches!(r.get("n"), Some(LocalDBValue::INT(-123))));
    assert!(matches!(r.get("lo"), Some(LocalDBValue::INT(i64::MIN))));
    assert!(matches!(r.get("hi"), Some(LocalDBValue::INT(i64::MAX))));
    assert!(matches!(r.get("z"), Some(LocalDBValue::INT(0))));
    match r.get("s").unwrap() {
        LocalDBValue::TEXT(s) => assert_eq!(s, "a\"b\\c"),
        _ => panic!("s should be TEXT"),
    }
    match r.get("u").unwrap() {
        LocalDBValue::UUID(u) => assert_eq!(u, "x'y"),
        _ => panic!("u should be UUID"),
    }
}

#[test]
fn document_exact_text() {
    assert_eq!(LocalDB::new().document(), "{}");
    let db = db_of(vec![Table { name: "t".to_string(), rows: vec![] }]);
    assert_eq!(db.document(), "{\"t\":[]}");
    let db2 = db_of(vec![Table {
        name: "t".to_string(),
        rows: vec![row(vec![("n", LocalDBValue::INT(-42))])],
    }]);
    assert_eq!(db2.document(), "{\"t\":[{\"n\":{\"INT\":-42}}]}");
    let db3 = db_of(vec![Table {
        name: "q\"s".to_string(),
        rows: vec![row(vec![("a", LocalDBValue::TEXT("x\\y".to_string()))])],
    }]);
    assert_eq!(db3.document(), "{\"q\\\"s\":[{\"a\":{\"TEXT\":\"x\\\\y\"}}]}");
}

#[test]
fn scenario_create_insert_retrieve() {
    let mut db = LocalDB::new();
    db.exec(
        "CREATE TABLE users (id UUID, name TEXT); INSERT INTO users VALUES ('11111111-1111-1111-1111-111111111111', 'kk');"
            .to_string(),
    )
    .expect("exec failed");
    let rows = db.query("SELECT * FROM users;").expect("query failed");
    assert_eq!(rows.len(), 1);
    match rows[0].get("id").unwrap() {
        LocalDBValue::UUID(id) => assert_eq!(id, "11111111-1111-1111-1111-111111111111"),
        _ => panic!("id should be UUID"),
    }
    match rows[0].get("name").unwrap() {
        LocalDBValue::TEXT(n) => assert_eq!(n, "kk"),
        _ => panic!("name should be TEXT"),
    }
}

#[test]
fn open_is_whitespace_tolerant() {
    let db = LocalDB::open("  { \"t\" : [ { \"n\" : { \"INT\" : 7 } } ] }  ");
    let rows = db.query("SELECT * FROM t;").expect("query failed");
    assert_eq!(rows.len(), 1);
    assert!(matches!(rows[0].get("n"), Some(LocalDBValue::INT(7))));
}

#[test]
fn open_recovers_from_corrupt_documents() {
    // Corrupt or foreign text denotes the empty database, never an error.
    assert_eq!(LocalDB::open("").document(), "{}");
    assert_eq!(LocalDB::open("not a document").document(), "{}");
    assert_eq!(LocalDB::open("{\"t\":[").document(), "{}");
    assert_eq!(LocalDB::open("{\"t\":[]}trailing").document(), "{}");
    // a repeated collection name is refused the same way
    assert_eq!(LocalDB::open("{\"t\":[],\"t\":[]}").document(), "{}");
}

#[test]
fn idempotent_creation() {
    let mut once = LocalDB::new();
    once.exec("CREATE TABLE t (id UUID, name TEXT);".to_string()).expect("exec failed");
    let mut twice = LocalDB::new();
    twice
        .exec("CREATE TABLE t (id UUID, name TEXT); CREATE TABLE t (id UUID, name TEXT);".to_string())
        .expect("exec failed");
    assert_eq!(once.document(), twice.document());
    assert_eq!(twice.query("SELECT * FROM t;").expect("query failed").len(), 0);
}

#[test]
fn insertion_ordering() {
    let mut db = LocalDB::new();
    db.exec("INSERT INTO t VALUES ('r1', 'first'); INSERT INTO t VALUES ('r2', 'second');".to_string())
        .expect("exec failed");
    let rows = db.query("SELECT * FROM t;").expect("query failed");
    assert_eq!(rows.len(), 2);
    match rows[0].get("id").unwrap() {
        LocalDBValue::UUID(id) => assert_eq!(id, "r1"),
        _ => panic!("id should be UUID"),
    }
    match rows[1].get("id").unwrap() {
        LocalDBValue::UUID(id) => assert_eq!(id, "r2"),
        _ => panic!("id should be UUID"),
    }
}

#[test]
fn unknown_collection_retrieval_is_empty() {
    let db = LocalDB::new();
    let rows = db.query("SELECT * FROM missing;").expect("query failed");
    assert_eq!(rows.len(), 0);
}

#[test]
fn misspelled_insert_behaves_identically() {
    let mut a = LocalDB::new();
    a.exec("INSET INTO t VALUES ('x','y');".to_string()).expect("exec failed");
    let mut b = LocalDB::new();
    b.exec("INSERT INTO t VALUES ('x','y');".to_string()).expect("exec failed");
    assert_eq!(a.document(), b.document());
    let rows = a.query("SELECT * FROM t;").expect("query failed");
    assert_eq!(rows.len(), 1);
    match rows[0].get("name").unwrap() {
        LocalDBValue::TEXT(n) => assert_eq!(n, "y"),
        _ => panic!("name should be TEXT"),
    }
}

#[test]
fn unsupported_statement_fails_without_mutation() {
    let mut db = LocalDB::new();
    let r = db.exec("DROP TABLE users;".to_string());
    match r {
        Err(LocalDBError::SqlError(msg)) => assert_eq!(msg, "Unsupported SQL: DROP TABLE users"),
        _ => panic!("expected an unsupported-statement error"),
    }
    assert_eq!(db.document(), "{}");
}

#[test]
fn batch_stops_at_first_failure_keeping_earlier_effects() {
    let mut db = LocalDB::new();
    let r = db.exec("INSERT INTO t VALUES ('a','b'); DROP TABLE t; INSERT INTO t VALUES ('c','d');".to_string());
    assert!(matches!(r, Err(LocalDBError::SqlError(_))));
    let rows = db.query("SELECT * FROM t;").expect("query failed");
    assert_eq!(rows.len(), 1);
}

#[test]
fn malformed_statements_fail_with_sql_errors() {
    let mut db = LocalDB::new();
    match db.exec("CREATE TABLE".to_string()) {
        Err(LocalDBError::SqlError(msg)) => assert_eq!(msg, "Invalid CREATE TABLE syntax"),
        _ => panic!("expected a malformed-statement error"),
    }
    match db.exec("INSERT INTO t VALUES ('only-one');".to_string()) {
        Err(LocalDBError::SqlError(msg)) => assert_eq!(msg, "Invalid INSERT syntax"),
        _ => panic!("expected a malformed-statement error"),
    }
    match db.exec("INSERT INTO t VALUES".to_string()) {
        Err(LocalDBError::SqlError(msg)) => assert_eq!(msg, "Invalid INSERT syntax"),
        _ => panic!("expected a malformed-statement error"),
    }
    match db.query("SELECT *") {
        Err(LocalDBError::SqlError(msg)) => assert_eq!(msg, "Invalid SELECT syntax"),
        _ => panic!("expected a malformed-statement error"),
    }
    match db.query("DELETE FROM t;") {
        Err(LocalDBError::SqlError(msg)) => assert_eq!(msg, "Only SELECT is supported"),
        _ => panic!("expected an unsupported-statement error"),
    }
}

#[test]
fn statement_batches_tolerate_whitespace_and_empty_segments() {
    let mut db = LocalDB::new();
    db.exec("  ;;  CREATE TABLE t (id UUID, name TEXT) ;\n INSERT INTO t VALUES ( 'a' , 'b' ) ; ".to_string())
        .expect("exec failed");
    let rows = db.query("  SELECT * FROM t;  ").expect("query failed");
    assert_eq!(rows.len(), 1);
    match rows[0].get("id").unwrap() {
        LocalDBValue::UUID(id) => assert_eq!(id, "a"),
        _ => panic!("id should be UUID"),
    }
}

#[test]
fn error_messages_are_reachable() {
    let e = LocalDBError::SqlError("boom".to_string());
    assert_eq!(e.message(), "boom");
    let io = LocalDBError::IoError("gone".to_string());
    assert_eq!(io.message(), "gone");
}
