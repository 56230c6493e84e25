use file_session_store::record::{DataEntry, Record, SessionId};
use file_session_store::store::{
    interpret_delete, interpret_read, interpret_write, FileStore, StoreError,
};

fn rec(id: &str, expiry: i64, data: Vec<(&str, i64)>) -> Record {
    Record {
        id: SessionId::new(id.to_string()),
        expiry,
        data: data
            .into_iter()
            .map(|(k, v)| DataEntry { key: k.to_string(), value: v })
            .collect(),
    }
}

fn rt() -> tokio::runtime::Runtime {
    tokio::runtime::Builder::new_current_thread()
        .enable_all()
        .build()
        .unwrap()
}

async fn store_save(store: &FileStore, r: &Record) -> Result<(), StoreError> {
    let ok = tokio::fs::create_dir_all(store.base_dir()).await.is_ok();
    store.interpret_mkdir(ok)?;
    let plan = store.prepare_write(r)?;
    let ok = tokio::fs::write(&plan.path, &plan.contents).await.is_ok();
    interpret_write(ok)
}

async fn store_load(store: &FileStore, id: &SessionId) -> Option<Record> {
    let path = store.record_path(id).ok()?;
    let contents = tokio::fs::read(&path)
        .await
        .ok()
        .and_then(|b| String::from_utf8(b).ok());
    interpret_read(contents)
}

async fn store_delete(store: &FileStore, id: &SessionId) -> Result<(), StoreError> {
    let path = store.record_path(id)?;
    let removed = tokio::fs::remove_file(&path).await.is_ok();
    interpret_delete(removed)
}

#[test]
fn concrete_scenario_on_disk() {
    rt().block_on(async {
        let _ = tokio::fs::remove_dir_all("/tmp/fss_scenario/sessions").await;
        let store = FileStore::new("/tmp/fss_scenario/sessions");
        let abc = SessionId::new("abc".to_string());

        store_save(&store, &rec("abc", 0, vec![("counter", 0)])).await.unwrap();
        let on_disk = tokio::fs::read("/tmp/fss_scenario/sessions/abc.json").await.unwrap();
        assert_eq!(
            String::from_utf8(on_disk).unwrap(),
            "{\n  \"id\": \"abc\",\n  \"expiry\": 0,\n  \"data\": {\n    \"counter\": 0\n  }\n}"
        );

        store_save(&store, &rec("abc", 0, vec![("counter", 1)])).await.unwrap();
        let loaded = store_load(&store, &abc).await.unwrap();
        assert_eq!(loaded.id.text, "abc");
        assert_eq!(loaded.data.len(), 1);
        assert_eq!(loaded.data[0].key, "counter");
        assert_eq!(loaded.data[0].value, 1);

        store_delete(&store, &abc).await.unwrap();
        assert!(store_load(&store, &abc).await.is_none());
        assert!(matches!(
            store_delete(&store, &abc).await,
            Err(StoreError::Backend(_))
        ));

        let _ = tokio::fs::remove_dir_all("/tmp/fss_scenario/sessions").await;
    });
}

#[test]
fn missing_directory_self_heals() {
    rt().block_on(async {
        let _ = tokio::fs::remove_dir_all("/tmp/fss_heal/sessions").await;
        let store = FileStore::new("/tmp/fss_heal/sessions");
        let id = SessionId::new("abc".to_string());

        store_save(&store, &rec("abc", 5, vec![])).await.unwrap();
        tokio::fs::remove_dir_all("/tmp/fss_heal/sessions").await.unwrap();

        store_save(&store, &rec("abc", 5, vec![("n", 1)])).await.unwrap();
        let loaded = store_load(&store, &id).await.unwrap();
        assert_eq!(loaded.expiry, 5);
        assert_eq!(loaded.data[0].value, 1);

        let _ = tokio::fs::remove_dir_all("/tmp/fss_heal/sessions").await;
    });
}

#[test]
fn corrupted_file_loads_as_absent() {
    rt().block_on(async {
        let _ = tokio::fs::remove_dir_all("/tmp/fss_corrupt/sessions").await;
        let store = FileStore::new("/tmp/fss_corrupt/sessions");
        let id = SessionId::new("abc".to_string());

        store_save(&store, &rec("abc", 0, vec![("counter", 0)])).await.unwrap();

        tokio::fs::write("/tmp/fss_corrupt/sessions/abc.json", b"{ not a record }")
            .await
            .unwrap();
        assert!(store_load(&store, &id).await.is_none());

        tokio::fs::write("/tmp/fss_corrupt/sessions/abc.json", [0xffu8, 0xfe, 0x00])
            .await
            .unwrap();
        assert!(store_load(&store, &id).await.is_none());

        let _ = tokio::fs::remove_dir_all("/tmp/fss_corrupt/sessions").await;
    });
}
