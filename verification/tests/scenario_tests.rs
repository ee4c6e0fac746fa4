//! End-to-end scenarios against the filesystem stand-in: durability across a
//! fresh façade, the batch failure boundary, the concrete insert/get/delete
//! walk, independent keys, bulk loading, and the store and config on their
//! own.

use std::collections::HashMap;

use data_ferret::Config;
use data_ferret::Data;
use data_ferret::Database;
use data_ferret::DbError;
use data_ferret::DiskRequest;
use data_ferret::FileEntry;
use data_ferret::GetOutcome;
use data_ferret::OperationType;
use data_ferret::Store;

fn db_insert(db: &mut Database, disk: &mut HashMap<String, String>, pk: &str, sk: &str, v: &str) {
    let req = db.insert(pk.to_string(), sk.to_string(), v.to_string());
    disk.insert(req.file, req.contents);
}

fn db_get(
    db: &mut Database,
    disk: &HashMap<String, String>,
    pk: &str,
    sk: &str,
) -> Result<Option<Data>, DbError> {
    match db.get(pk.to_string(), sk.to_string()) {
        GetOutcome::Hit(d) => Ok(Some(d)),
        GetOutcome::Miss(path) => match disk.get(&path) {
            Some(contents) => match db.resolve_miss(pk.to_string(), sk.to_string(), contents) {
                Ok(d) => Ok(Some(d)),
                Err(e) => Err(e),
            },
            None => Err(DbError::NotFound),
        },
    }
}

fn record(pk: &str, sk: &str, v: &str) -> Data {
    Data {
        partition_key: pk.to_string(),
        sort_key: sk.to_string(),
        value: v.to_string(),
        operation_type: OperationType::Insert,
    }
}

#[test]
fn test_durability_across_restart() {
    let mut disk: HashMap<String, String> = HashMap::new();

    let mut first = Database::new("./test_db_restart".to_string());
    db_insert(&mut first, &mut disk, "partition", "sort", "value");
    drop(first);

    // A fresh façade over the same root starts with a cold cache: the read
    // misses, loads the record's file, and returns the stored value.
    let mut second = Database::new("./test_db_restart".to_string());
    match second.get("partition".to_string(), "sort".to_string()) {
        GetOutcome::Hit(_) => panic!("fresh cache cannot hit"),
        GetOutcome::Miss(path) => {
            assert_eq!("./test_db_restart/partition/sort", path);
            let contents = disk.get(&path).unwrap();
            let loaded = second
                .resolve_miss("partition".to_string(), "sort".to_string(), contents)
                .unwrap();
            assert_eq!(record("partition", "sort", "value"), loaded);
        }
    }

    // The record is cached now: the same read hits without the disk.
    match second.get("partition".to_string(), "sort".to_string()) {
        GetOutcome::Hit(d) => assert_eq!(record("partition", "sort", "value"), d),
        GetOutcome::Miss(_) => panic!("second read must hit the cache"),
    }
}

#[test]
fn test_batch_failure_boundary() {
    let mut disk: HashMap<String, String> = HashMap::new();
    let mut database = Database::new("./test_db_batch".to_string());

    let items = vec![record("a_part", "a_sort", "a_value"), record("b_part", "b_sort", "b_value")];

    // Apply the batch the way the binary does, with the second write failing:
    // the loop stops at the failure and reports it.
    let mut outcome: Result<(), DbError> = Ok(());
    for (i, item) in items.into_iter().enumerate() {
        match database.batch_step(item) {
            DiskRequest::Write(req) => {
                if i == 1 {
                    outcome = Err(DbError::IoError);
                    break;
                }
                disk.insert(req.file, req.contents);
            }
            DiskRequest::Remove(path) => {
                disk.remove(&path);
            }
        }
    }
    assert_eq!(Err(DbError::IoError), outcome);

    // The first entry is applied and durable; the second never reached disk.
    assert!(disk.contains_key("./test_db_batch/a_part/a_sort"));
    assert!(!disk.contains_key("./test_db_batch/b_part/b_sort"));
    let mut fresh = Database::new("./test_db_batch".to_string());
    assert_eq!(
        Ok(Some(record("a_part", "a_sort", "a_value"))),
        db_get(&mut fresh, &disk, "a_part", "a_sort")
    );
    assert_eq!(Err(DbError::NotFound), db_get(&mut fresh, &disk, "b_part", "b_sort"));

    // The cache of the database that ran the batch already holds the failed
    // entry: the write-through updates the cache before the write is
    // confirmed, deliberately.
    match database.get("b_part".to_string(), "b_sort".to_string()) {
        GetOutcome::Hit(d) => assert_eq!(record("b_part", "b_sort", "b_value"), d),
        GetOutcome::Miss(_) => panic!("cache must hold the unconfirmed entry"),
    }
}

#[test]
fn test_concrete_walk() {
    let mut disk: HashMap<String, String> = HashMap::new();
    let mut database = Database::new("root".to_string());

    db_insert(&mut database, &mut disk, "user1", "profile", "{\"name\":\"A\"}");

    let result = db_get(&mut database, &disk, "user1", "profile").unwrap().unwrap();
    assert_eq!("{\"name\":\"A\"}", result.value);
    assert!(disk.contains_key("root/user1/profile"));

    let path = database.delete("user1".to_string(), "profile".to_string());
    assert_eq!("root/user1/profile", path);
    disk.remove(&path);

    assert_eq!(
        Err(DbError::NotFound),
        db_get(&mut database, &disk, "user1", "profile")
    );
    assert!(!disk.contains_key("root/user1/profile"));
}

#[test]
fn test_ten_distinct_keys() {
    // Ten writers of ten distinct keys, serialized as a shared lock would
    // serialize them: every key afterwards holds its own value.
    let mut disk: HashMap<String, String> = HashMap::new();
    let mut database = Database::new("./test_db_many".to_string());

    for i in 0..10 {
        db_insert(
            &mut database,
            &mut disk,
            &format!("partition{}", i),
            &format!("sort{}", i),
            &format!("value{}", i),
        );
    }

    for i in 0..10 {
        let partition_key = format!("partition{}", i);
        let sort_key = format!("sort{}", i);
        let result = db_get(&mut database, &disk, &partition_key, &sort_key).unwrap();
        assert_eq!(
            Some(Data {
                operation_type: OperationType::Insert,
                partition_key,
                sort_key,
                value: format!("value{}", i)
            }),
            result
        );
    }
}

#[test]
fn test_load_all_data() {
    let mut disk: HashMap<String, String> = HashMap::new();
    let mut writer = Database::new("./test_db_load".to_string());
    db_insert(&mut writer, &mut disk, "p1", "s1", "v1");
    db_insert(&mut writer, &mut disk, "p1", "s2", "v2");
    db_insert(&mut writer, &mut disk, "p2", "s3", "v3");
    drop(writer);

    // The binary walks the tree and hands every file to the façade.
    let mut reader = Database::new("./test_db_load".to_string());
    let files = vec![
        FileEntry {
            partition_key: "p1".to_string(),
            sort_key: "s1".to_string(),
            contents: disk.get("./test_db_load/p1/s1").unwrap().clone(),
        },
        FileEntry {
            partition_key: "p1".to_string(),
            sort_key: "s2".to_string(),
            contents: disk.get("./test_db_load/p1/s2").unwrap().clone(),
        },
        FileEntry {
            partition_key: "p2".to_string(),
            sort_key: "s3".to_string(),
            contents: disk.get("./test_db_load/p2/s3").unwrap().clone(),
        },
    ];
    reader.load_all_data(files).unwrap();

    // Every record is cached: reads hit without touching the disk.
    let empty: HashMap<String, String> = HashMap::new();
    assert_eq!(Ok(Some(record("p1", "s1", "v1"))), db_get(&mut reader, &empty, "p1", "s1"));
    assert_eq!(Ok(Some(record("p1", "s2", "v2"))), db_get(&mut reader, &empty, "p1", "s2"));
    assert_eq!(Ok(Some(record("p2", "s3", "v3"))), db_get(&mut reader, &empty, "p2", "s3"));
}

#[test]
fn test_load_all_data_aborts_on_malformed() {
    let mut database = Database::new("./test_db_load_bad".to_string());
    database.insert("kept".to_string(), "kept".to_string(), "kept".to_string());

    let files = vec![
        FileEntry {
            partition_key: "p1".to_string(),
            sort_key: "s1".to_string(),
            contents: "{\"partition_key\":\"p1\",\"sort_key\":\"s1\",\"value\":\"v1\",\"operation_type\":\"Insert\"}".to_string(),
        },
        FileEntry {
            partition_key: "p2".to_string(),
            sort_key: "s2".to_string(),
            contents: "not a record".to_string(),
        },
    ];
    let outcome = database.load_all_data(files);
    assert_eq!(Err(DbError::SerializationError), outcome);

    // The whole load aborted: nothing of it reached the cache, while the
    // cache's own entries are untouched.
    match database.get("p1".to_string(), "s1".to_string()) {
        GetOutcome::Hit(_) => panic!("aborted load must not populate the cache"),
        GetOutcome::Miss(_) => {}
    }
    match database.get("kept".to_string(), "kept".to_string()) {
        GetOutcome::Hit(d) => assert_eq!("kept", d.value),
        GetOutcome::Miss(_) => panic!("existing entries must survive an aborted load"),
    }
}

#[test]
fn test_load_all_overwrites_cache() {
    // Where the cache and the durable tree disagree, a bulk load lets the
    // tree win: every loaded file's record replaces the cached one.
    let mut disk: HashMap<String, String> = HashMap::new();
    let mut writer = Database::new("./test_db_merge".to_string());
    db_insert(&mut writer, &mut disk, "p", "s", "durable");
    drop(writer);

    let mut database = Database::new("./test_db_merge".to_string());
    database.insert("p".to_string(), "s".to_string(), "cached-only".to_string());

    let files = vec![FileEntry {
        partition_key: "p".to_string(),
        sort_key: "s".to_string(),
        contents: disk.get("./test_db_merge/p/s").unwrap().clone(),
    }];
    database.load_all_data(files).unwrap();

    match database.get("p".to_string(), "s".to_string()) {
        GetOutcome::Hit(d) => assert_eq!("durable", d.value),
        GetOutcome::Miss(_) => panic!("loaded record must be cached"),
    }
}

#[test]
fn test_store_operations() {
    let mut store = Store::new();
    store.insert("p".to_string(), "s1".to_string(), record("p", "s1", "v1"));
    store.insert("p".to_string(), "s2".to_string(), record("p", "s2", "v2"));
    store.insert("p".to_string(), "s1".to_string(), record("p", "s1", "v3"));

    assert_eq!(
        Some(&record("p", "s1", "v3")),
        store.get(&"p".to_string(), &"s1".to_string())
    );
    assert_eq!(None, store.get(&"p".to_string(), &"missing".to_string()));
    assert_eq!(None, store.get(&"missing".to_string(), &"s1".to_string()));

    let partition = store.get_all(&"p".to_string()).unwrap();
    assert_eq!(2, partition.len());

    store.delete(&"p".to_string(), &"s1".to_string());
    assert_eq!(None, store.get(&"p".to_string(), &"s1".to_string()));
    assert_eq!(
        Some(&record("p", "s2", "v2")),
        store.get(&"p".to_string(), &"s2".to_string())
    );

    // Deleting an absent key is a no-op, and an emptied partition stays.
    store.delete(&"p".to_string(), &"s1".to_string());
    store.delete(&"p".to_string(), &"s2".to_string());
    assert!(store.get_all(&"p".to_string()).is_some());
    assert!(store.get_all(&"missing".to_string()).is_none());
}

#[test]
fn test_store_load_all() {
    let mut store = Store::new();
    store.insert("old".to_string(), "old".to_string(), record("old", "old", "old"));

    let seed = vec![
        (
            "p1".to_string(),
            vec![
                ("s1".to_string(), record("p1", "s1", "v1")),
                ("s2".to_string(), record("p1", "s2", "v2")),
            ],
        ),
        ("p2".to_string(), vec![("s3".to_string(), record("p2", "s3", "v3"))]),
    ];
    store.load_all(seed);

    // Wholesale replacement: the old contents are gone, the seed is there.
    assert_eq!(None, store.get(&"old".to_string(), &"old".to_string()));
    assert_eq!(
        Some(&record("p1", "s2", "v2")),
        store.get(&"p1".to_string(), &"s2".to_string())
    );
    assert_eq!(
        Some(&record("p2", "s3", "v3")),
        store.get(&"p2".to_string(), &"s3".to_string())
    );
}

#[test]
fn test_config_holds_path() {
    let config = Config::new("./somewhere".to_string());
    assert_eq!("./somewhere", config.db_path);
}
