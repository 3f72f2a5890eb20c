use cf_store::column_family::{decoded_record, entry_to_write, raw_key};
use cf_store::utils::{encode_index, generate_timestamp_index};
use cf_store::{ColumnFamily, Entry, Fault, Keyable, Scan, StoreError};
use std::collections::BTreeMap;

#[derive(PartialEq, Eq, Debug, Clone)]
struct TestUser {
    id: String,
    name: String,
}

impl Keyable for TestUser {
    fn key(&self) -> String {
        self.id.clone()
    }

    fn column_family() -> &'static str {
        "test_users"
    }

    fn encode(&self) -> Option<Vec<u8>> {
        let mut fields = serde_json::Map::new();
        fields.insert("id".to_string(), serde_json::Value::String(self.id.clone()));
        fields.insert("name".to_string(), serde_json::Value::String(self.name.clone()));
        serde_json::to_vec(&serde_json::Value::Object(fields)).ok()
    }

    fn decode(bytes: &[u8]) -> Option<Self> {
        let value: serde_json::Value = serde_json::from_slice(bytes).ok()?;
        let fields = value.as_object()?;
        if fields.len() != 2 {
            return None;
        }
        Some(TestUser {
            id: fields.get("id")?.as_str()?.to_string(),
            name: fields.get("name")?.as_str()?.to_string(),
        })
    }
}

/// A record under the key of its instant, with or without a discriminator.
#[derive(PartialEq, Eq, Debug, Clone)]
struct Reading {
    seconds: i64,
    source: Option<String>,
    level: u32,
}

impl Keyable for Reading {
    fn key(&self) -> String {
        match &self.source {
            Some(source) => generate_timestamp_index(source, self.seconds),
            None => encode_index(self.seconds),
        }
    }

    fn column_family() -> &'static str {
        "readings"
    }

    fn encode(&self) -> Option<Vec<u8>> {
        if self.level == u32::MAX {
            return None;
        }
        let mut fields = serde_json::Map::new();
        fields.insert("seconds".to_string(), serde_json::Value::from(self.seconds));
        fields.insert(
            "source".to_string(),
            match &self.source {
                Some(source) => serde_json::Value::String(source.clone()),
                None => serde_json::Value::Null,
            },
        );
        fields.insert("level".to_string(), serde_json::Value::from(self.level));
        serde_json::to_vec(&serde_json::Value::Object(fields)).ok()
    }

    fn decode(bytes: &[u8]) -> Option<Self> {
        let value: serde_json::Value = serde_json::from_slice(bytes).ok()?;
        let fields = value.as_object()?;
        let source = match fields.get("source")? {
            serde_json::Value::Null => None,
            other => Some(other.as_str()?.to_string()),
        };
        Some(Reading {
            seconds: fields.get("seconds")?.as_i64()?,
            source,
            level: u32::try_from(fields.get("level")?.as_u64()?).ok()?,
        })
    }
}

/// A sorted store in memory that answers as the storage handle does.
struct Store {
    rows: BTreeMap<Vec<u8>, Vec<u8>>,
    fault: Option<Fault>,
    batches: usize,
}

impl Store {
    fn new() -> Self {
        Store { rows: BTreeMap::new(), fault: None, batches: 0 }
    }

    fn fetch(&self, key: &[u8]) -> Result<Option<Vec<u8>>, Fault> {
        match self.fault {
            Some(fault) => Err(fault),
            None => Ok(self.rows.get(key).cloned()),
        }
    }

    fn put(&mut self, entry: Entry) -> Result<(), Fault> {
        match self.fault {
            Some(fault) => Err(fault),
            None => {
                self.rows.insert(entry.key, entry.value);
                Ok(())
            }
        }
    }

    fn delete(&mut self, key: Vec<u8>) -> Result<(), Fault> {
        match self.fault {
            Some(fault) => Err(fault),
            None => {
                self.rows.remove(&key);
                Ok(())
            }
        }
    }

    fn delete_batch(&mut self, keys: Vec<Vec<u8>>) -> Result<(), Fault> {
        match self.fault {
            Some(fault) => Err(fault),
            None => {
                self.batches += 1;
                for key in keys {
                    self.rows.remove(&key);
                }
                Ok(())
            }
        }
    }

    fn scan(&self) -> Scan {
        match self.fault {
            Some(fault) => Scan { entries: Vec::new(), fault: Some(fault) },
            None => Scan {
                entries: self
                    .rows
                    .iter()
                    .map(|(key, value)| Entry { key: key.clone(), value: value.clone() })
                    .collect(),
                fault: None,
            },
        }
    }
}

fn set<T: Keyable>(store: &mut Store, item: &T) -> Result<(), StoreError> {
    let cf = ColumnFamily::<T>::new();
    let entry = cf.set(item)?;
    cf.written(store.put(entry))
}

fn get<T: Keyable>(store: &Store, key: &str) -> Result<Option<T>, StoreError> {
    ColumnFamily::<T>::new().get(store.fetch(&raw_key(key)))
}

fn del<T: Keyable>(store: &mut Store, key: &str) -> Result<(), StoreError> {
    let cf = ColumnFamily::<T>::new();
    let raw = cf.del(key);
    cf.written(store.delete(raw))
}

fn get_all<T: Keyable>(store: &Store) -> Result<Vec<T>, StoreError> {
    ColumnFamily::<T>::new().get_all(&store.scan())
}

fn count_all<T: Keyable>(store: &Store) -> Result<usize, StoreError> {
    ColumnFamily::<T>::new().count_all(&store.scan())
}

fn keep_size<T: Keyable>(store: &mut Store, size: usize) -> Result<(), StoreError> {
    let cf = ColumnFamily::<T>::new();
    let excess = match cf.keep_size(size, &store.scan())? {
        Some(excess) => excess,
        None => return Ok(()),
    };
    let keys = cf.evicted_keys(excess, &store.scan())?;
    cf.written(store.delete_batch(keys))
}

fn filter_by_time_index<T: Keyable>(
    store: &Store,
    start_time: u64,
    end_time: u64,
) -> Result<Vec<T>, StoreError> {
    ColumnFamily::<T>::new().filter_by_time_index(start_time, end_time, &store.scan())
}

fn user(id: &str, name: &str) -> TestUser {
    TestUser { id: id.to_string(), name: name.to_string() }
}

fn reading(seconds: i64, level: u32) -> Reading {
    Reading { seconds, source: None, level }
}

fn reading_from(source: &str, seconds: i64, level: u32) -> Reading {
    Reading { seconds, source: Some(source.to_string()), level }
}

fn entry(key: &[u8], value: &[u8]) -> Entry {
    Entry { key: key.to_vec(), value: value.to_vec() }
}

fn stored<T: Keyable>(item: &T) -> Entry {
    ColumnFamily::<T>::new().set(item).unwrap()
}

#[test]
fn test_crud_operations() {
    let mut store = Store::new();
    assert_eq!(TestUser::column_family(), "test_users");

    // Create
    let user1 = TestUser { id: "001".to_string(), name: "Alice".to_string() };
    set(&mut store, &user1).unwrap();

    // Read single
    let retrieved = get::<TestUser>(&store, "001").unwrap().unwrap();
    assert_eq!(retrieved.name, "Alice");

    // Read all
    let user2 = TestUser { id: "002".to_string(), name: "Bob".to_string() };
    set(&mut store, &user2).unwrap();

    let all_users = get_all::<TestUser>(&store).unwrap();
    assert_eq!(all_users.len(), 2);
    assert!(all_users.contains(&user1));
    assert!(all_users.contains(&user2));

    // Count all
    assert_eq!(count_all::<TestUser>(&store).unwrap(), 2);

    // Update
    let updated_user = TestUser { id: "001".to_string(), name: "Alicia".to_string() };
    set(&mut store, &updated_user).unwrap();
    assert_eq!(get::<TestUser>(&store, "001").unwrap().unwrap().name, "Alicia");

    // Delete
    del::<TestUser>(&mut store, "001").unwrap();
    assert!(get::<TestUser>(&store, "001").unwrap().is_none());

    // Verify remaining data
    let remaining = get_all::<TestUser>(&store).unwrap();
    assert_eq!(remaining.len(), 1);
    assert_eq!(remaining[0], user2);

    assert!(get::<TestUser>(&store, "non_existent").unwrap().is_none());
}

#[test]
fn codec_round_trips() {
    for item in [user("001", "Alice"), user("", ""), user("键", "名 \"quoted\"\n")] {
        assert_eq!(TestUser::decode(&item.encode().unwrap()), Some(item));
    }
    for item in [reading(0, 0), reading_from("a_b", i64::MAX, 7), reading_from("", 100, 1)] {
        assert_eq!(Reading::decode(&item.encode().unwrap()), Some(item));
    }
}

#[test]
fn get_maps_each_answer_of_the_store() {
    let cf = ColumnFamily::<TestUser>::new();
    let alice = user("001", "Alice");
    let written = cf.set(&alice).unwrap();
    assert_eq!(cf.get(Ok(Some(written.value))), Ok(Some(alice)));
    assert_eq!(cf.get(Ok(None)), Ok(None));
    assert_eq!(cf.get(Ok(Some(b"not json".to_vec()))), Err(StoreError::DecodeFailure));
    assert_eq!(cf.get(Ok(Some(Vec::new()))), Err(StoreError::DecodeFailure));
    assert_eq!(cf.get(Err(Fault::Unavailable)), Err(StoreError::StorageUnavailable));
    assert_eq!(cf.get(Err(Fault::Failed)), Err(StoreError::IoFailure));
}

#[test]
fn decoded_record_turns_no_record_into_a_failure() {
    assert_eq!(decoded_record(Some(7u8)), Ok(7u8));
    assert_eq!(decoded_record::<u8>(None), Err(StoreError::DecodeFailure));
}

#[test]
fn set_gives_key_and_encoding() {
    let cf = ColumnFamily::<TestUser>::new();
    let alice = user("001", "Alice");
    let written = cf.set(&alice).unwrap();
    assert_eq!(written.key, b"001".to_vec());
    assert_eq!(written.value, alice.encode().unwrap());
    assert_eq!(written.value, br#"{"id":"001","name":"Alice"}"#.to_vec());
}

#[test]
fn set_of_a_record_without_encoding_fails() {
    let cf = ColumnFamily::<Reading>::new();
    assert_eq!(cf.set(&reading(100, u32::MAX)), Err(StoreError::EncodeFailure));
    let mut store = Store::new();
    assert_eq!(set(&mut store, &reading(100, u32::MAX)), Err(StoreError::EncodeFailure));
    assert!(store.rows.is_empty());
}

#[test]
fn entry_to_write_pairs_key_bytes_and_value() {
    assert_eq!(entry_to_write("k1", Some(vec![1, 2, 3])), Ok(entry(b"k1", &[1, 2, 3])));
    assert_eq!(entry_to_write("", Some(Vec::new())), Ok(entry(b"", b"")));
    assert_eq!(entry_to_write("é", Some(vec![0])), Ok(entry(&[0xc3, 0xa9], &[0])));
    assert_eq!(entry_to_write("k1", None), Err(StoreError::EncodeFailure));
}

#[test]
fn raw_key_is_the_text_in_utf8() {
    assert_eq!(raw_key("001"), b"001".to_vec());
    assert_eq!(raw_key(""), Vec::<u8>::new());
    assert_eq!(raw_key("é√"), "é√".as_bytes().to_vec());
}

#[test]
fn del_gives_the_key_to_delete() {
    let cf = ColumnFamily::<TestUser>::new();
    assert_eq!(cf.del("001"), b"001".to_vec());
    assert_eq!(cf.del("non_existent"), b"non_existent".to_vec());
}

#[test]
fn written_maps_the_outcome_of_a_write() {
    let cf = ColumnFamily::<TestUser>::new();
    assert_eq!(cf.written(Ok(())), Ok(()));
    assert_eq!(cf.written(Err(Fault::Unavailable)), Err(StoreError::StorageUnavailable));
    assert_eq!(cf.written(Err(Fault::Failed)), Err(StoreError::IoFailure));
}

#[test]
fn fault_maps_to_its_error() {
    assert_eq!(Fault::Unavailable.to_error(), StoreError::StorageUnavailable);
    assert_eq!(Fault::Failed.to_error(), StoreError::IoFailure);
}

#[test]
fn write_to_a_failing_store_fails() {
    let mut store = Store::new();
    store.fault = Some(Fault::Failed);
    assert_eq!(set(&mut store, &user("001", "Alice")), Err(StoreError::IoFailure));
    assert_eq!(del::<TestUser>(&mut store, "001"), Err(StoreError::IoFailure));
    store.fault = Some(Fault::Unavailable);
    assert_eq!(set(&mut store, &user("001", "Alice")), Err(StoreError::StorageUnavailable));
    assert_eq!(get::<TestUser>(&store, "001"), Err(StoreError::StorageUnavailable));
    assert_eq!(get_all::<TestUser>(&store), Err(StoreError::StorageUnavailable));
    assert_eq!(count_all::<TestUser>(&store), Err(StoreError::StorageUnavailable));
    assert_eq!(keep_size::<TestUser>(&mut store, 1), Err(StoreError::StorageUnavailable));
    assert_eq!(
        filter_by_time_index::<TestUser>(&store, 0, 10),
        Err(StoreError::StorageUnavailable)
    );
}

#[test]
fn upsert_twice_is_upsert_once() {
    let mut once = Store::new();
    let mut twice = Store::new();
    let alice = user("001", "Alice");
    set(&mut once, &user("000", "Zed")).unwrap();
    set(&mut twice, &user("000", "Zed")).unwrap();
    set(&mut once, &alice).unwrap();
    set(&mut twice, &alice).unwrap();
    set(&mut twice, &alice).unwrap();
    assert_eq!(once.rows, twice.rows);
    assert_eq!(get_all::<TestUser>(&once), get_all::<TestUser>(&twice));
    assert_eq!(count_all::<TestUser>(&twice), Ok(2));
    assert_eq!(get::<TestUser>(&twice, &alice.key()), Ok(Some(alice)));
}

#[test]
fn second_record_under_a_key_replaces_the_first() {
    let mut store = Store::new();
    let a = user("001", "Alice");
    let b = user("001", "Alicia");
    set(&mut store, &user("002", "Bob")).unwrap();
    set(&mut store, &a).unwrap();
    set(&mut store, &b).unwrap();
    let all = get_all::<TestUser>(&store).unwrap();
    assert_eq!(all.iter().filter(|u| **u == b).count(), 1);
    assert!(!all.contains(&a));
    assert_eq!(all, vec![b, user("002", "Bob")]);
}

#[test]
fn delete_twice_never_fails() {
    let mut store = Store::new();
    set(&mut store, &user("001", "Alice")).unwrap();
    assert_eq!(del::<TestUser>(&mut store, "001"), Ok(()));
    assert_eq!(del::<TestUser>(&mut store, "001"), Ok(()));
    assert_eq!(get::<TestUser>(&store, "001"), Ok(None));
    assert_eq!(del::<TestUser>(&mut store, "never_there"), Ok(()));
    assert_eq!(count_all::<TestUser>(&store), Ok(0));
}

#[test]
fn count_is_the_length_of_all_after_sets_and_dels() {
    let mut store = Store::new();
    let steps: [(&str, bool); 9] = [
        ("a", true),
        ("b", true),
        ("a", true),
        ("c", true),
        ("b", false),
        ("b", false),
        ("d", true),
        ("a", false),
        ("e", true),
    ];
    for (id, put) in steps {
        if put {
            set(&mut store, &user(id, "x")).unwrap();
        } else {
            del::<TestUser>(&mut store, id).unwrap();
        }
        let all = get_all::<TestUser>(&store).unwrap();
        assert_eq!(count_all::<TestUser>(&store), Ok(all.len()));
    }
    assert_eq!(count_all::<TestUser>(&store), Ok(3));
}

#[test]
fn get_all_follows_the_order_of_the_scan() {
    let cf = ColumnFamily::<TestUser>::new();
    let scan = Scan {
        entries: vec![stored(&user("a", "1")), stored(&user("b", "2")), stored(&user("c", "3"))],
        fault: None,
    };
    assert_eq!(cf.get_all(&scan), Ok(vec![user("a", "1"), user("b", "2"), user("c", "3")]));
    assert_eq!(cf.get_all(&Scan { entries: Vec::new(), fault: None }), Ok(Vec::new()));
}

#[test]
fn get_all_gives_no_partial_result() {
    let cf = ColumnFamily::<TestUser>::new();
    let bad_value = Scan {
        entries: vec![stored(&user("a", "1")), entry(b"b", b"{"), stored(&user("c", "3"))],
        fault: None,
    };
    assert_eq!(cf.get_all(&bad_value), Err(StoreError::DecodeFailure));
    let cut_short = Scan { entries: vec![stored(&user("a", "1"))], fault: Some(Fault::Failed) };
    assert_eq!(cf.get_all(&cut_short), Err(StoreError::IoFailure));
    let unavailable = Scan { entries: Vec::new(), fault: Some(Fault::Unavailable) };
    assert_eq!(cf.get_all(&unavailable), Err(StoreError::StorageUnavailable));
    let both = Scan { entries: vec![entry(b"a", b"?")], fault: Some(Fault::Failed) };
    assert_eq!(cf.get_all(&both), Err(StoreError::DecodeFailure));
}

#[test]
fn count_all_counts_without_decoding() {
    let cf = ColumnFamily::<TestUser>::new();
    let scan = Scan { entries: vec![entry(b"a", b"?"), stored(&user("b", "2"))], fault: None };
    assert_eq!(cf.count_all(&scan), Ok(2));
    assert_eq!(cf.count_all(&Scan { entries: Vec::new(), fault: None }), Ok(0));
    let cut_short = Scan { entries: vec![stored(&user("a", "1"))], fault: Some(Fault::Failed) };
    assert_eq!(cf.count_all(&cut_short), Err(StoreError::IoFailure));
    let unavailable = Scan { entries: Vec::new(), fault: Some(Fault::Unavailable) };
    assert_eq!(cf.count_all(&unavailable), Err(StoreError::StorageUnavailable));
}

#[test]
fn keep_size_counts_what_is_too_many() {
    let cf = ColumnFamily::<TestUser>::new();
    let three = Scan { entries: vec![entry(b"a", b""), entry(b"b", b""), entry(b"c", b"")], fault: None };
    assert_eq!(cf.keep_size(3, &three), Ok(None));
    assert_eq!(cf.keep_size(4, &three), Ok(None));
    assert_eq!(cf.keep_size(usize::MAX, &three), Ok(None));
    assert_eq!(cf.keep_size(2, &three), Ok(Some(1)));
    assert_eq!(cf.keep_size(1, &three), Ok(Some(2)));
    assert_eq!(cf.keep_size(0, &three), Ok(Some(3)));
    assert_eq!(cf.keep_size(0, &Scan { entries: Vec::new(), fault: None }), Ok(None));
    let cut_short = Scan { entries: vec![entry(b"a", b"")], fault: Some(Fault::Failed) };
    assert_eq!(cf.keep_size(0, &cut_short), Err(StoreError::IoFailure));
    assert_eq!(cf.keep_size(5, &cut_short), Err(StoreError::IoFailure));
}

#[test]
fn evicted_keys_are_the_first_of_the_scan() {
    let cf = ColumnFamily::<TestUser>::new();
    let three = Scan { entries: vec![entry(b"a", b"1"), entry(b"b", b"2"), entry(b"c", b"3")], fault: None };
    assert_eq!(cf.evicted_keys(0, &three), Ok(Vec::new()));
    assert_eq!(cf.evicted_keys(1, &three), Ok(vec![b"a".to_vec()]));
    assert_eq!(cf.evicted_keys(2, &three), Ok(vec![b"a".to_vec(), b"b".to_vec()]));
    assert_eq!(cf.evicted_keys(3, &three), Ok(vec![b"a".to_vec(), b"b".to_vec(), b"c".to_vec()]));
    assert_eq!(cf.evicted_keys(9, &three), Ok(vec![b"a".to_vec(), b"b".to_vec(), b"c".to_vec()]));
}

#[test]
fn evicted_keys_fail_where_the_scan_failed_in_reach() {
    let cf = ColumnFamily::<TestUser>::new();
    let cut_short = Scan { entries: vec![entry(b"a", b"1"), entry(b"b", b"2")], fault: Some(Fault::Failed) };
    assert_eq!(cf.evicted_keys(1, &cut_short), Ok(vec![b"a".to_vec()]));
    assert_eq!(cf.evicted_keys(2, &cut_short), Err(StoreError::IoFailure));
    assert_eq!(cf.evicted_keys(3, &cut_short), Err(StoreError::IoFailure));
    let unavailable = Scan { entries: Vec::new(), fault: Some(Fault::Unavailable) };
    assert_eq!(cf.evicted_keys(1, &unavailable), Err(StoreError::StorageUnavailable));
    assert_eq!(cf.evicted_keys(0, &unavailable), Err(StoreError::StorageUnavailable));
}

#[test]
fn keep_size_within_the_bound_changes_nothing() {
    let mut store = Store::new();
    for seconds in [100, 200, 300] {
        set(&mut store, &reading(seconds, 1)).unwrap();
    }
    let before = store.rows.clone();
    keep_size::<Reading>(&mut store, 3).unwrap();
    keep_size::<Reading>(&mut store, 10).unwrap();
    assert_eq!(store.rows, before);
    assert_eq!(store.batches, 0);
}

#[test]
fn keep_size_keeps_the_greatest_keys_of_the_time_index() {
    let mut store = Store::new();
    for seconds in [500, 100, 400, 200, 300] {
        set(&mut store, &reading_from("s", seconds, 1)).unwrap();
    }
    let scanned: Vec<i64> = get_all::<Reading>(&store).unwrap().iter().map(|r| r.seconds).collect();
    assert_eq!(scanned, vec![500, 400, 300, 200, 100]);
    keep_size::<Reading>(&mut store, 2).unwrap();
    assert_eq!(store.batches, 1);
    assert_eq!(count_all::<Reading>(&store), Ok(2));
    let kept = get_all::<Reading>(&store).unwrap();
    assert_eq!(kept, vec![reading_from("s", 200, 1), reading_from("s", 100, 1)]);
    keep_size::<Reading>(&mut store, 0).unwrap();
    assert_eq!(count_all::<Reading>(&store), Ok(0));
}

#[test]
fn keep_size_evicts_the_least_keys() {
    let mut store = Store::new();
    for id in ["d", "a", "c", "b", "e"] {
        set(&mut store, &user(id, "x")).unwrap();
    }
    keep_size::<TestUser>(&mut store, 3).unwrap();
    let kept: Vec<Vec<u8>> = store.rows.keys().cloned().collect();
    assert_eq!(kept, vec![b"c".to_vec(), b"d".to_vec(), b"e".to_vec()]);
    for evicted in [b"a", b"b"] {
        for key in &kept {
            assert!(evicted.as_slice() < key.as_slice());
        }
    }
}

/// Whether a read of the range picks the one entry under `key`.
fn picks(key: String, start_time: u64, end_time: u64) -> bool {
    let value = reading(0, 0).encode().unwrap();
    let scan = Scan { entries: vec![Entry { key: key.into_bytes(), value }], fault: None };
    let found = ColumnFamily::<Reading>::new().filter_by_time_index(start_time, end_time, &scan);
    found.unwrap().len() == 1
}

#[test]
fn range_includes_both_bounds() {
    assert!(picks(encode_index(150), 150, 300));
    assert!(picks(encode_index(300), 150, 300));
    assert!(picks(encode_index(200), 150, 300));
    assert!(!picks(encode_index(149), 150, 300));
    assert!(!picks(encode_index(301), 150, 300));
    assert!(picks(encode_index(200), 200, 200));
    assert!(!picks(encode_index(200), 201, 199));
    assert!(picks(encode_index(0), 0, i64::MAX as u64));
    assert!(picks(encode_index(i64::MAX), 0, i64::MAX as u64));
}

#[test]
fn key_with_discriminator_misses_the_lower_bound_only() {
    assert!(!picks(generate_timestamp_index("s", 150), 150, 300));
    assert!(picks(generate_timestamp_index("s", 151), 150, 300));
    assert!(picks(generate_timestamp_index("s", 300), 150, 300));
    assert!(!picks(generate_timestamp_index("s", 301), 150, 300));
}

#[test]
fn filter_gives_the_records_of_the_range() {
    let mut store = Store::new();
    for seconds in [100, 200, 300, 400] {
        set(&mut store, &reading(seconds, seconds as u32)).unwrap();
    }
    let found = |start: u64, end: u64| filter_by_time_index::<Reading>(&store, start, end).unwrap();
    assert_eq!(found(150, 300), vec![reading(300, 300), reading(200, 200)]);
    assert_eq!(found(100, 400), vec![reading(400, 400), reading(300, 300), reading(200, 200), reading(100, 100)]);
    assert_eq!(found(200, 200), vec![reading(200, 200)]);
    assert_eq!(found(201, 299), Vec::new());
    assert_eq!(found(300, 200), Vec::new());
    assert_eq!(found(0, 99), Vec::new());
    assert_eq!(found(401, i64::MAX as u64), Vec::new());
    assert_eq!(found(0, i64::MAX as u64).len(), 4);
}

#[test]
fn filter_decodes_only_what_lies_in_the_range() {
    let cf = ColumnFamily::<Reading>::new();
    let scan = Scan {
        entries: vec![
            stored(&reading(300, 3)),
            stored(&reading(200, 2)),
            Entry { key: encode_index(100).into_bytes(), value: b"broken".to_vec() },
        ],
        fault: None,
    };
    assert_eq!(cf.filter_by_time_index(150, 300, &scan), Ok(vec![reading(300, 3), reading(200, 2)]));
    assert_eq!(cf.filter_by_time_index(100, 300, &scan), Err(StoreError::DecodeFailure));
    assert_eq!(cf.get_all(&scan), Err(StoreError::DecodeFailure));
}

#[test]
fn filter_fails_on_a_key_that_is_no_text() {
    let cf = ColumnFamily::<Reading>::new();
    let scan = Scan {
        entries: vec![stored(&reading(300, 3)), Entry { key: vec![0xff, 0xfe], value: Vec::new() }],
        fault: None,
    };
    assert_eq!(cf.filter_by_time_index(150, 300, &scan), Err(StoreError::DecodeFailure));
    assert_eq!(cf.filter_by_time_index(0, 10, &scan), Err(StoreError::DecodeFailure));
    let text_only = Scan {
        entries: vec![stored(&reading(300, 3)), Entry { key: "é".as_bytes().to_vec(), value: Vec::new() }],
        fault: None,
    };
    assert_eq!(cf.filter_by_time_index(150, 300, &text_only), Ok(vec![reading(300, 3)]));
}

#[test]
fn filter_surfaces_a_failed_scan() {
    let cf = ColumnFamily::<Reading>::new();
    let cut_short = Scan { entries: vec![stored(&reading(300, 3))], fault: Some(Fault::Failed) };
    assert_eq!(cf.filter_by_time_index(150, 300, &cut_short), Err(StoreError::IoFailure));
    assert_eq!(cf.filter_by_time_index(0, 10, &cut_short), Err(StoreError::IoFailure));
}

#[test]
fn three_records_at_100_200_300() {
    let mut store = Store::new();
    let records = [reading_from("cfg", 100, 1), reading_from("cfg", 200, 2), reading_from("cfg", 300, 3)];
    for record in &records {
        set(&mut store, record).unwrap();
    }
    let found = filter_by_time_index::<Reading>(&store, 150, 300).unwrap();
    assert_eq!(found.len(), 2);
    assert!(found.contains(&records[1]));
    assert!(found.contains(&records[2]));

    // Retention goes by the order of keys: of the three, the key of 100 is
    // the greatest, and the two before it leave.
    assert!(records[2].key() < records[1].key() && records[1].key() < records[0].key());
    keep_size::<Reading>(&mut store, 1).unwrap();
    assert_eq!(count_all::<Reading>(&store), Ok(1));
    assert_eq!(get_all::<Reading>(&store), Ok(vec![records[0].clone()]));
    assert_eq!(get::<Reading>(&store, &records[0].key()), Ok(Some(records[0].clone())));
    assert_eq!(get::<Reading>(&store, &records[1].key()), Ok(None));
    assert_eq!(get::<Reading>(&store, &records[2].key()), Ok(None));
}

#[test]
fn accessors_are_interchangeable() {
    let mut store = Store::new();
    let first = ColumnFamily::<TestUser>::new();
    let second = ColumnFamily::<TestUser>::default();
    let written = first.set(&user("001", "Alice")).unwrap();
    store.put(written).unwrap();
    assert_eq!(second.get_all(&store.scan()), first.get_all(&store.scan()));
    assert_eq!(second.get(store.fetch(b"001")), Ok(Some(user("001", "Alice"))));
}
