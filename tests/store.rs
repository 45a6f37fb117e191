use ndb::engine::{sort_newest_first, Db, DbMeta};
use ndb::error::NdbError;
use ndb::keys::compare_keys;
use ndb::memtable::Memtable;
use ndb::sstable::{floor_search, SSTable, SSTableMetadata};
use ndb::wal::{log_get, replay};
use std::cmp::Ordering;

fn b(s: &str) -> Vec<u8> {
    s.as_bytes().to_vec()
}

fn table_meta(ts: u64) -> SSTableMetadata {
    SSTableMetadata {
        written_timestamp: ts,
        meta_path: format!("db/{}.meta", ts),
        data_path: format!("db/{}.sst", ts),
        index_path: format!("db/{}.idx", ts),
    }
}

fn empty_db() -> Db {
    let meta = DbMeta { sstables: vec![], wal: "db/log".to_string() };
    Db::new("db".to_string(), meta, &vec![], vec![]).unwrap()
}

fn hundred_records() -> Vec<(Vec<u8>, Vec<u8>)> {
    (0..100).map(|i| (b(&format!("key{:03}", i)), b(&format!("value{:03}", i)))).collect()
}

fn flush(db: &mut Db, ts: u64, wal: &str) -> SSTable {
    let table = db.flush_memtable(table_meta(ts)).unwrap();
    let meta = db.next_meta(&table.meta, wal.to_string());
    let reopened = SSTable::open(table_meta(ts), &table.index_json().unwrap(), table.data.clone()).unwrap();
    db.install(table, meta);
    reopened
}

#[test]
fn put_overwrite_flush_and_mask() {
    let mut db = empty_db();
    db.put(b"foo", b"bar");
    db.put(b"baz", b"qux");
    db.put(b"foo", b"goo");
    assert_eq!(db.get(b"foo").unwrap(), Some(b("goo")));
    flush(&mut db, 100, "db/log-100");
    assert_eq!(db.memtable.get(b"foo"), None);
    assert_eq!(db.get(b"foo").unwrap(), Some(b("goo")));
    assert_eq!(db.get(b"baz").unwrap(), Some(b("qux")));
    db.put(b"foo", b"loo");
    assert_eq!(db.get(b"foo").unwrap(), Some(b("loo")));
    assert_eq!(db.sstables[0].get(b"foo").unwrap(), Some(b("goo")));
}

#[test]
fn last_of_many_puts_wins() {
    let mut db = empty_db();
    for i in 0..50 {
        db.put(b"k", format!("v{}", i).as_bytes());
    }
    assert_eq!(db.get(b"k").unwrap(), Some(b("v49")));
    assert_eq!(db.get(b"other").unwrap(), None);
}

#[test]
fn hundred_records_index_and_floor() {
    let records = hundred_records();
    let t = SSTable::construct(table_meta(1), &records).unwrap();
    assert_eq!(t.index.len(), 7);
    let expected: Vec<Vec<u8>> = [0, 16, 32, 48, 64, 80, 96].iter().map(|i| b(&format!("key{:03}", i))).collect();
    let keys: Vec<Vec<u8>> = t.index.iter().map(|e| e.0.clone()).collect();
    assert_eq!(keys, expected);
    // each record is 4 + 6 + 4 + 8 = 22 bytes
    assert_eq!(t.index[3].1, 48 * 22);
    assert_eq!(floor_search(&t.index, b"key050"), 48 * 22);
    assert_eq!(t.get(b"key050").unwrap(), Some(b("value050")));
    assert_eq!(t.data.len(), 100 * 22);
}

#[test]
fn round_trip_every_key() {
    let records = hundred_records();
    let t = SSTable::construct(table_meta(1), &records).unwrap();
    for (k, v) in &records {
        assert_eq!(t.get(k).unwrap(), Some(v.clone()));
    }
}

#[test]
fn absent_keys_are_absent() {
    let t = SSTable::construct(table_meta(1), &hundred_records()).unwrap();
    assert_eq!(floor_search(&t.index, b"a"), 0);
    assert_eq!(t.get(b"a").unwrap(), None);
    assert_eq!(t.get(b"").unwrap(), None);
    assert_eq!(t.get(b"key0505").unwrap(), None);
    assert_eq!(t.get(b"key017x").unwrap(), None);
    assert_eq!(t.get(b"zzz").unwrap(), None);
    let empty = SSTable::construct(table_meta(2), &vec![]).unwrap();
    assert!(empty.data.is_empty());
    assert!(empty.index.is_empty());
    assert_eq!(empty.get(b"key").unwrap(), None);
}

#[test]
fn record_bytes_are_length_prefixed_big_endian() {
    let t = SSTable::construct(table_meta(1), &vec![(b("a"), b("bc"))]).unwrap();
    assert_eq!(t.data, vec![0, 0, 0, 1, 97, 0, 0, 0, 2, 98, 99]);
    assert_eq!(t.index, vec![(b("a"), 0u64)]);
}

#[test]
fn index_json_text_and_reopen() {
    let t = SSTable::construct(table_meta(1), &vec![(b("a"), b("b")), (b("c"), b("d"))]).unwrap();
    let text = t.index_json().unwrap();
    assert_eq!(text, "[[[97],0]]");
    let reopened = SSTable::open(table_meta(1), &text, t.data.clone()).unwrap();
    assert_eq!(reopened.index, t.index);
    assert_eq!(reopened.get(b"c").unwrap(), Some(b("d")));
}

#[test]
fn open_rejects_bad_index() {
    assert!(matches!(SSTable::open(table_meta(1), "not json", vec![]), Err(NdbError::Serde(_))));
    assert!(matches!(
        SSTable::open(table_meta(1), "[[[98],0],[[97],10]]", vec![]),
        Err(NdbError::UnsortedIndex)
    ));
    assert!(matches!(
        SSTable::open(table_meta(1), "[[[97],0],[[97],10]]", vec![]),
        Err(NdbError::UnsortedIndex)
    ));
}

#[test]
fn truncated_data_is_corrupt() {
    let t = SSTable::construct(table_meta(1), &vec![(b("a"), b("bc"))]).unwrap();
    let mut data = t.data.clone();
    data.pop();
    let cut = SSTable::open(table_meta(1), "[[[97],0]]", data).unwrap();
    assert!(matches!(cut.get(b"a"), Err(NdbError::CorruptData)));
    let short = SSTable::open(table_meta(1), "[]", vec![0, 0]).unwrap();
    assert!(matches!(short.get(b"a"), Err(NdbError::CorruptData)));
}

#[test]
fn newer_run_wins() {
    let old = SSTable::construct(table_meta(10), &vec![(b("k"), b("old")), (b("x"), b("1"))]).unwrap();
    let new = SSTable::construct(table_meta(20), &vec![(b("k"), b("new"))]).unwrap();
    let meta = DbMeta { sstables: vec![], wal: "db/log".to_string() };
    let db = Db::new("db".to_string(), meta, &vec![], vec![old, new]).unwrap();
    assert_eq!(db.sstables[0].meta.written_timestamp, 20);
    assert_eq!(db.get(b"k").unwrap(), Some(b("new")));
    assert_eq!(db.get(b"x").unwrap(), Some(b("1")));
}

#[test]
fn sort_puts_newest_first() {
    let ts = vec![5u64, 30, 7, 30, 1];
    let tables = ts.iter().map(|t| SSTable::construct(table_meta(*t), &vec![]).unwrap()).collect();
    let sorted: Vec<u64> = sort_newest_first(tables).iter().map(|t| t.meta.written_timestamp).collect();
    assert_eq!(sorted, vec![30, 30, 7, 5, 1]);
}

#[test]
fn hydrate_equals_direct_puts() {
    let puts = vec![(b("a"), b("1")), (b("b"), b("2")), (b("a"), b("3"))];
    let lines: Vec<Option<(Vec<u8>, Vec<u8>)>> = puts.iter().cloned().map(Some).collect();
    let records = replay(&lines).unwrap();
    let hydrated = Memtable::hydrate(&records);
    let mut direct = Memtable::new();
    for (k, v) in puts {
        direct.put(k, v);
    }
    for k in ["a", "b", "c"] {
        assert_eq!(hydrated.get(k.as_bytes()), direct.get(k.as_bytes()));
    }
    assert_eq!(hydrated.get(b"a"), Some(b("3")));
}

#[test]
fn torn_last_line_is_dropped() {
    let lines = vec![Some((b("a"), b("1"))), Some((b("b"), b("2"))), None];
    let records = replay(&lines).unwrap();
    assert_eq!(records, vec![(b("a"), b("1")), (b("b"), b("2"))]);
    assert_eq!(replay(&vec![None]).unwrap(), vec![]);
}

#[test]
fn corrupt_middle_line_fails() {
    let lines = vec![Some((b("a"), b("1"))), None, Some((b("b"), b("2")))];
    assert!(matches!(replay(&lines), Err(NdbError::CorruptLog { line: 1 })));
    let meta = DbMeta { sstables: vec![], wal: "db/log".to_string() };
    assert!(matches!(Db::new("db".to_string(), meta, &lines, vec![]), Err(NdbError::CorruptLog { line: 1 })));
}

#[test]
fn log_lookup_takes_last_record() {
    let records = vec![(b("a"), b("1")), (b("b"), b("2")), (b("a"), b("3"))];
    assert_eq!(log_get(&records, b"a"), Some(b("3")));
    assert_eq!(log_get(&records, b"b"), Some(b("2")));
    assert_eq!(log_get(&records, b"c"), None);
}

#[test]
fn memtable_insert_and_drain_in_key_order() {
    let mut m = Memtable::new();
    m.insert(b("c"), b("3"));
    m.put(b("a"), b("1"));
    m.insert(b("b"), b("2"));
    m.put(b("a"), b("0"));
    assert_eq!(m.drain(), vec![(b("a"), b("0")), (b("b"), b("2")), (b("c"), b("3"))]);
    assert_eq!(m.get(b"a"), None);
    assert!(m.drain().is_empty());
}

#[test]
fn keys_order_bytewise() {
    assert_eq!(compare_keys(b"a", b"b"), Ordering::Less);
    assert_eq!(compare_keys(b"ab", b"a"), Ordering::Greater);
    assert_eq!(compare_keys(b"", b""), Ordering::Equal);
    assert_eq!(compare_keys(b"", b"a"), Ordering::Less);
    assert_eq!(compare_keys(&[0xff], b"a"), Ordering::Greater);
}

#[test]
fn reopen_keeps_visible_pairs() {
    let mut db = empty_db();
    db.put(b"foo", b"bar");
    db.put(b"baz", b"qux");
    let first = flush(&mut db, 100, "db/log-100");
    db.put(b"foo", b"goo");
    db.put(b"new", b"one");
    let second = flush(&mut db, 200, "db/log-200");
    db.put(b"late", b"x");
    assert_eq!(db.meta.wal, "db/log-200");
    assert_eq!(db.meta.sstables, vec!["db/100.meta".to_string(), "db/200.meta".to_string()]);
    // the active log holds only what came after the last flush
    let lines = vec![Some((b("late"), b("x")))];
    let meta = DbMeta { sstables: db.meta.sstables.clone(), wal: db.meta.wal.clone() };
    let reopened = Db::new("db".to_string(), meta, &lines, vec![first, second]).unwrap();
    assert_eq!(reopened.meta.wal, "db/log-200");
    for k in ["foo", "baz", "new", "late", "none"] {
        assert_eq!(reopened.get(k.as_bytes()).unwrap(), db.get(k.as_bytes()).unwrap());
    }
    assert_eq!(reopened.get(b"foo").unwrap(), Some(b("goo")));
    assert_eq!(reopened.get(b"baz").unwrap(), Some(b("qux")));
}
