use chloe_store::{make_record, read_record, split_lines, CommErr, Database, DbError, Value};

fn s(text: &str) -> Value {
    Value::String(text.to_string())
}

fn obj(entries: Vec<(&str, Value)>) -> Value {
    Value::Object(entries.into_iter().map(|(k, v)| (k.to_string(), v)).collect())
}

fn record(path: &[&str], value: Value) -> Value {
    Value::Array(vec![Value::Array(path.iter().map(|p| s(p)).collect()), value])
}

fn empty_store() -> Database {
    Database::open(obj(vec![]), &vec![]).unwrap()
}

#[test]
fn round_trip_through_reopen() {
    let mut db = empty_store();
    let rec = db.set(&["pings"], Value::Number(5)).unwrap();
    assert_eq!(db.get(&["pings"]), &Value::Number(5));
    assert_eq!(rec, record(&["pings"], Value::Number(5)));
    // a new process: the snapshot is still `{}`, the log holds the one record
    let reopened = Database::open(obj(vec![]), &vec![rec]).unwrap();
    assert_eq!(reopened.get(&["pings"]), &Value::Number(5));
    assert_eq!(reopened.document(), &obj(vec![("pings", Value::Number(5))]));
    // after the merge the log is empty and the snapshot is the document
    let merged = Database::open(reopened.document().deep_copy(), &vec![]).unwrap();
    assert_eq!(merged.get(&["pings"]), &Value::Number(5));
}

#[test]
fn auto_vivification() {
    let mut db = empty_store();
    db.set(&["a", "b", "c"], Value::Number(1)).unwrap();
    assert_eq!(db.get(&["a", "b"]), &obj(vec![("c", Value::Number(1))]));
    assert_eq!(
        db.document(),
        &obj(vec![("a", obj(vec![("b", obj(vec![("c", Value::Number(1))]))]))])
    );
}

#[test]
fn deletion_removes_the_key() {
    let mut db = empty_store();
    db.set(&["a", "b"], Value::Number(1)).unwrap();
    let rec = db.set(&["a", "b"], Value::Null).unwrap();
    assert_eq!(rec, record(&["a", "b"], Value::Null));
    assert_eq!(db.get(&["a", "b"]), &Value::Null);
    assert_eq!(db.get(&["a"]), &obj(vec![]));
    assert_eq!(db.document(), &obj(vec![("a", obj(vec![]))]));
}

#[test]
fn deleting_a_missing_key_changes_nothing() {
    let mut db = empty_store();
    db.set(&["k"], Value::Bool(true)).unwrap();
    db.set(&["other"], Value::Null).unwrap();
    assert_eq!(db.document(), &obj(vec![("k", Value::Bool(true))]));
}

#[test]
fn deletion_removes_every_entry_of_the_key() {
    let snapshot = obj(vec![("d", Value::Number(1)), ("e", Value::Number(2)), ("d", Value::Number(3))]);
    let mut db = Database::open(snapshot, &vec![]).unwrap();
    assert_eq!(db.get(&["d"]), &Value::Number(3));
    db.set(&["d"], Value::Null).unwrap();
    assert_eq!(db.get(&["d"]), &Value::Null);
    assert_eq!(db.document(), &obj(vec![("e", Value::Number(2))]));
}

#[test]
fn type_conflict() {
    let mut db = empty_store();
    db.set(&["a"], Value::Number(5)).unwrap();
    assert_eq!(db.set(&["a", "b"], Value::Number(1)), Err(DbError::TypePath));
    assert_eq!(db.get(&["a"]), &Value::Number(5));
    assert_eq!(db.document(), &obj(vec![("a", Value::Number(5))]));
}

#[test]
fn type_conflict_deep_leaves_document_unchanged() {
    let mut db = empty_store();
    db.set(&["a", "b"], s("leaf")).unwrap();
    assert_eq!(db.set(&["a", "b", "c", "d"], Value::Number(1)), Err(DbError::TypePath));
    assert_eq!(db.document(), &obj(vec![("a", obj(vec![("b", s("leaf"))]))]));
}

#[test]
fn stored_null_blocks_a_write_through_it() {
    let mut db = Database::open(obj(vec![("n", Value::Null)]), &vec![]).unwrap();
    assert_eq!(db.set(&["n", "x"], Value::Number(1)), Err(DbError::TypePath));
}

#[test]
fn lenient_read() {
    let db = empty_store();
    assert_eq!(db.get(&["nope", "x"]), &Value::Null);
}

#[test]
fn read_through_a_scalar_is_null() {
    let mut db = empty_store();
    db.set(&["a"], Value::Number(5)).unwrap();
    assert_eq!(db.get(&["a", "b"]), &Value::Null);
}

#[test]
fn read_of_the_empty_path_is_the_root() {
    let mut db = empty_store();
    db.set(&["x"], Value::Bool(false)).unwrap();
    assert_eq!(db.get(&[]), &obj(vec![("x", Value::Bool(false))]));
}

#[test]
fn overwrite_replaces_the_value() {
    let mut db = empty_store();
    db.set(&["x"], Value::Number(1)).unwrap();
    db.set(&["x"], Value::Array(vec![Value::Number(2), s("two")])).unwrap();
    assert_eq!(db.document(), &obj(vec![("x", Value::Array(vec![Value::Number(2), s("two")]))]));
}

#[test]
fn crash_recovery_scenario() {
    let wal = b"[[\"x\"],\"y\"]\n";
    let lines = split_lines(wal);
    assert_eq!(lines, vec![b"[[\"x\"],\"y\"]".to_vec()]);
    // the line, as JSON, is this record
    let records = vec![record(&["x"], s("y"))];
    let db = Database::open(obj(vec![]), &records).unwrap();
    assert_eq!(db.get(&["x"]), &s("y"));
    assert_eq!(db.document(), &obj(vec![("x", s("y"))]));
}

#[test]
fn replay_matches_writes_in_memory() {
    let snapshot = obj(vec![("keep", Value::Number(7)), ("gone", Value::Bool(true))]);
    let mut live = Database::open(snapshot.deep_copy(), &vec![]).unwrap();
    let mut log = Vec::new();
    log.push(live.set(&["a", "b"], Value::Number(1)).unwrap());
    log.push(live.set(&["a", "c"], s("z")).unwrap());
    log.push(live.set(&["gone"], Value::Null).unwrap());
    log.push(live.set(&["a", "b"], Value::Number(2)).unwrap());
    log.push(live.set(&["list"], Value::Array(vec![Value::Null, Value::Number(-3)])).unwrap());
    let reopened = Database::open(snapshot, &log).unwrap();
    assert_eq!(reopened.document(), live.document());
    assert_eq!(reopened.get(&["a", "b"]), &Value::Number(2));
    assert_eq!(reopened.get(&["gone"]), &Value::Null);
}

#[test]
fn failed_write_leaves_no_record_to_replay() {
    let mut live = empty_store();
    let mut log = Vec::new();
    log.push(live.set(&["a"], Value::Number(5)).unwrap());
    assert!(live.set(&["a", "b"], Value::Number(1)).is_err());
    log.push(live.set(&["c"], Value::Number(6)).unwrap());
    let reopened = Database::open(obj(vec![]), &log).unwrap();
    assert_eq!(reopened.document(), live.document());
}

#[test]
fn open_rejects_a_root_that_is_not_an_object() {
    assert!(matches!(Database::open(Value::Array(vec![]), &vec![]), Err(DbError::Parse)));
    assert!(matches!(Database::open(Value::Null, &vec![]), Err(DbError::Parse)));
    assert!(matches!(Database::open(Value::Number(3), &vec![]), Err(DbError::Parse)));
}

#[test]
fn open_rejects_a_malformed_record() {
    let bad = vec![
        Value::Array(vec![Value::Array(vec![s("x")])]),
        Value::Array(vec![Value::Array(vec![]), Value::Number(1)]),
        Value::Array(vec![Value::Array(vec![Value::Number(1)]), Value::Number(1)]),
        Value::Array(vec![s("x"), Value::Number(1)]),
        obj(vec![("x", Value::Number(1))]),
    ];
    for rec in bad {
        let log = vec![record(&["fine"], Value::Number(0)), rec];
        assert!(matches!(Database::open(obj(vec![]), &log), Err(DbError::Parse)));
    }
}

#[test]
fn open_rejects_a_record_that_conflicts() {
    let log = vec![record(&["a"], Value::Number(5)), record(&["a", "b"], Value::Number(1))];
    assert!(matches!(Database::open(obj(vec![]), &log), Err(DbError::Parse)));
}

#[test]
fn records_read_back() {
    let rec = make_record(&["p", "q"], Value::Bool(true));
    assert_eq!(rec, record(&["p", "q"], Value::Bool(true)));
    let (path, value) = read_record(&rec).unwrap();
    assert_eq!(path, vec!["p".to_string(), "q".to_string()]);
    assert_eq!(value, Value::Bool(true));
    assert_eq!(read_record(&Value::Array(vec![])), None);
    assert_eq!(read_record(&s("x")), None);
}

#[test]
fn split_lines_cases() {
    assert_eq!(split_lines(b""), Vec::<Vec<u8>>::new());
    assert_eq!(split_lines(b"a\nbc\n"), vec![b"a".to_vec(), b"bc".to_vec()]);
    assert_eq!(split_lines(b"a\r\nbc"), vec![b"a".to_vec(), b"bc".to_vec()]);
    assert_eq!(split_lines(b"a\n\nb\n"), vec![b"a".to_vec(), b"".to_vec(), b"b".to_vec()]);
    assert_eq!(split_lines(b"\n"), vec![b"".to_vec()]);
    assert_eq!(split_lines(b"[1,2"), vec![b"[1,2".to_vec()]);
}

#[test]
fn deep_copy_is_equal() {
    let v = obj(vec![("a", Value::Array(vec![s("x"), obj(vec![("n", Value::Number(i64::MIN))])]))]);
    assert_eq!(v.deep_copy(), v);
}

#[test]
fn command_errors_carry_their_messages() {
    let e = CommErr::Error("shown".to_string(), "logged".to_string());
    match e {
        CommErr::Error(user, log) => {
            assert_eq!(user, "shown");
            assert_eq!(log, "logged");
        }
        _ => panic!("wrong variant"),
    }
    assert!(matches!(CommErr::SyntaxError, CommErr::SyntaxError));
    assert!(!matches!(CommErr::UnknownCommand, CommErr::UnknownError));
}
