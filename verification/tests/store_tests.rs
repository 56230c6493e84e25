use file_session_store::decode::decode_record;
use file_session_store::record::{DataEntry, Record, SessionId};
use file_session_store::store::{
    interpret_delete, interpret_read, interpret_write, FileStore, StoreError,
};

fn rec(id: &str, expiry: i64, data: Vec<(&str, i64)>) -> Record {
    Record {
        id: SessionId::new(id.to_string()),
        expiry,
        data: data
            .into_iter()
            .map(|(k, v)| DataEntry { key: k.to_string(), value: v })
            .collect(),
    }
}

#[test]
fn new_keeps_base_path() {
    let store = FileStore::new("some/dir");
    assert_eq!(store.base_dir(), "some/dir");
}

#[test]
fn default_base_path_is_sessions() {
    let store = FileStore::default();
    assert_eq!(store.base_dir(), "sessions");
}

#[test]
fn record_path_concrete() {
    let store = FileStore::new("sessions");
    let path = store.record_path(&SessionId::new("abc".to_string())).unwrap();
    assert_eq!(path, "sessions/abc.json");
}

#[test]
fn record_path_rejects_traversal() {
    let store = FileStore::new("sessions");
    for bad in ["../etc", "a/b", "a\\b", "", "a b", "x\n", "a.b"] {
        let r = store.record_path(&SessionId::new(bad.to_string()));
        assert!(matches!(r, Err(StoreError::Backend(_))));
    }
}

#[test]
fn prepare_write_concrete_scenario() {
    let store = FileStore::new("sessions");
    let plan = store.prepare_write(&rec("abc", 0, vec![("counter", 0)])).unwrap();
    assert_eq!(plan.path, "sessions/abc.json");
    assert_eq!(
        plan.contents,
        "{\n  \"id\": \"abc\",\n  \"expiry\": 0,\n  \"data\": {\n    \"counter\": 0\n  }\n}"
    );
}

#[test]
fn save_is_deterministic() {
    // the same record always produces the same pending write, so saving it
    // twice leaves the same file as saving it once
    let store = FileStore::new("sessions");
    let a = store.prepare_write(&rec("abc", 9, vec![("counter", 1)])).unwrap();
    let b = store.prepare_write(&rec("abc", 9, vec![("counter", 1)])).unwrap();
    assert_eq!(a.path, b.path);
    assert_eq!(a.contents, b.contents);
}

#[test]
fn prepare_write_rejects_unsafe_id() {
    let store = FileStore::new("sessions");
    let r = store.prepare_write(&rec("../abc", 0, vec![]));
    match r {
        Err(StoreError::Backend(m)) => {
            assert_eq!(m, "session id is not a safe path component");
        },
        _ => panic!("an unsafe id must be a Backend error"),
    }
}

#[test]
fn prepare_write_rejects_unencodable_key() {
    let store = FileStore::new("sessions");
    let r = store.prepare_write(&rec("abc", 0, vec![("bad\"key", 1)]));
    match r {
        Err(StoreError::Encode(m)) => {
            assert_eq!(m, "failed to serialize record to json");
        },
        _ => panic!("an unencodable record must be an Encode error"),
    }
}

#[test]
fn interpret_mkdir_failure_names_path() {
    let store = FileStore::new("sessions");
    assert!(store.interpret_mkdir(true).is_ok());
    match store.interpret_mkdir(false) {
        Err(e) => {
            assert_eq!(
                e.message(),
                "failed to create directory with the path 'sessions'"
            );
        },
        Ok(()) => panic!("a failed directory creation must be an error"),
    }
}

#[test]
fn interpret_write_outcomes() {
    assert!(interpret_write(true).is_ok());
    match interpret_write(false) {
        Err(StoreError::Backend(m)) => assert_eq!(m, "failed to write record to file"),
        _ => panic!("a failed write must be a Backend error"),
    }
}

#[test]
fn delete_of_missing_is_backend_error() {
    assert!(interpret_delete(true).is_ok());
    match interpret_delete(false) {
        Err(StoreError::Backend(m)) => assert_eq!(m, "cannot delete record file"),
        _ => panic!("deleting an absent record must be a Backend error"),
    }
}

#[test]
fn load_collapses_failures_to_absent() {
    // unreadable file
    assert!(interpret_read(None).is_none());
    // corrupted file
    assert!(interpret_read(Some("not a record".to_string())).is_none());
    // intact file
    let store = FileStore::new("sessions");
    let plan = store.prepare_write(&rec("abc", 7, vec![("counter", 1)])).unwrap();
    let loaded = interpret_read(Some(plan.contents)).unwrap();
    assert_eq!(loaded.id.text, "abc");
    assert_eq!(loaded.expiry, 7);
    assert_eq!(loaded.data.len(), 1);
    assert_eq!(loaded.data[0].key, "counter");
    assert_eq!(loaded.data[0].value, 1);
}

#[test]
fn full_scenario_over_plans() {
    // base path `sessions`: create abc with counter 0, overwrite with
    // counter 1, load sees counter 1, delete, then load sees nothing and a
    // second delete fails
    let store = FileStore::new("sessions");
    let created = store.prepare_write(&rec("abc", 0, vec![("counter", 0)])).unwrap();
    assert_eq!(created.path, "sessions/abc.json");
    assert!(decode_record(&created.contents).is_some());

    let saved = store.prepare_write(&rec("abc", 0, vec![("counter", 1)])).unwrap();
    assert_eq!(saved.path, created.path);
    let loaded = interpret_read(Some(saved.contents)).unwrap();
    assert_eq!(loaded.data[0].value, 1);

    // after a delete the file is gone: a read fails, a second delete fails
    assert!(interpret_read(None).is_none());
    assert!(matches!(interpret_delete(false), Err(StoreError::Backend(_))));
}
