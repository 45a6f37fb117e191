//! The storage engine: one memtable over a write-ahead log, and sorted runs
//! read newest first. Writing the log and the files is the caller's part;
//! the engine decides what is read, written and installed.

use vstd::prelude::*;
use crate::error::NdbError;
use crate::format::{index_of, pairs_view, records_bytes, records_fit, sorted_keys};
use crate::memtable::{apply_puts, Memtable};
use crate::sstable::{result_view, SSTable, SSTableMetadata};
use crate::wal::{is_corrupt, lines_view, replay, replayed, replayed_len};

verus! {

broadcast use vstd::seq_lib::group_to_multiset_ensures;

/// What the engine records of itself: the descriptor paths of its runs, in
/// the order they were flushed, and the path of the active log.
#[derive(Debug)]
pub struct DbMeta {
    pub sstables: Vec<String>,
    pub wal: String,
}

/// A lookup across runs: the first run that has `key` answers; `None` where
/// a run consulted on the way is corrupt.
pub open spec fn tables_lookup(ts: Seq<SSTable>, key: Seq<u8>) -> Option<Option<Seq<u8>>>
    decreases ts.len(),
{
    if ts.len() == 0 {
        Some(None)
    } else {
        match ts[0].lookup(key) {
            Some(None) => tables_lookup(ts.drop_first(), key),
            found => found,
        }
    }
}

/// A lookup in the memtable, then in the runs in order.
pub open spec fn engine_lookup(mem: Map<Seq<u8>, Seq<u8>>, ts: Seq<SSTable>, key: Seq<u8>) -> Option<
    Option<Seq<u8>>,
> {
    if mem.contains_key(key) {
        Some(Some(mem[key]))
    } else {
        tables_lookup(ts, key)
    }
}

/// Runs in descending order of creation time.
pub open spec fn newest_first(ts: Seq<SSTable>) -> bool {
    forall|i: int, j: int|
        0 <= i < j < ts.len() ==> ts[i].meta.written_timestamp >= ts[j].meta.written_timestamp
}

/// Every run has a sorted index.
pub open spec fn tables_wf(ts: Seq<SSTable>) -> bool {
    forall|i: int| 0 <= i < ts.len() ==> (#[trigger] ts[i]).wf()
}

/// Orders runs newest first, whatever order they came in.
pub fn sort_newest_first(tables: Vec<SSTable>) -> (r: Vec<SSTable>)
    ensures
        r@.to_multiset() == tables@.to_multiset(),
        newest_first(r@),
{
    let mut rest = tables;
    let mut out: Vec<SSTable> = Vec::new();
    while rest.len() > 0
        invariant
            out@.to_multiset().add(rest@.to_multiset()) == tables@.to_multiset(),
            newest_first(out@),
        decreases rest@.len(),
    {
        let ghost before = rest@;
        let t = rest.pop().unwrap();
        assert(before =~= rest@.push(t));
        let ts = t.meta.written_timestamp;
        let mut j: usize = 0;
        while j < out.len()
            invariant
                ts == t.meta.written_timestamp,
                j <= out@.len(),
                forall|i: int| 0 <= i < j ==> (#[trigger] out@[i]).meta.written_timestamp >= ts,
            ensures
                j <= out@.len(),
                forall|i: int| 0 <= i < j ==> (#[trigger] out@[i]).meta.written_timestamp >= ts,
                j < out@.len() ==> out@[j as int].meta.written_timestamp < ts,
            decreases out@.len() - j,
        {
            if let std::cmp::Ordering::Greater = out[j].recency_cmp(&t) {
                break;
            }
            j = j + 1;
        }
        let ghost prev = out@;
        out.insert(j, t);
        assert(out@ == prev.insert(j as int, t));
        assert(newest_first(out@)) by {
            assert forall|a: int, b: int| 0 <= a < b < out@.len() implies out@[a].meta.written_timestamp
                >= out@[b].meta.written_timestamp by {
                if b < j {
                } else if b == j {
                } else if a == j {
                    assert(out@[b] == prev[b - 1]);
                    assert(prev[j as int].meta.written_timestamp < ts);
                    if b - 1 > j {
                        assert(prev[j as int].meta.written_timestamp >= prev[b - 1].meta.written_timestamp);
                    }
                } else if a < j {
                    assert(out@[b] == prev[b - 1]);
                } else {
                    assert(out@[b] == prev[b - 1]);
                    assert(out@[a] == prev[a - 1]);
                }
            }
        }
    }
    out
}

/// The engine's state: its directory, the memtable, the runs newest first,
/// and the metadata last persisted.
pub struct Db {
    pub dir: String,
    pub memtable: Memtable,
    pub sstables: Vec<SSTable>,
    pub meta: DbMeta,
}

impl Db {
    /// The memtable and every run are well formed.
    pub open spec fn wf(&self) -> bool {
        self.memtable.wf() && tables_wf(self.sstables@)
    }

    /// What `get` answers for `key`.
    pub open spec fn lookup(&self, key: Seq<u8>) -> Option<Option<Seq<u8>>> {
        engine_lookup(self.memtable@, self.sstables@, key)
    }

    /// Opens an engine from its metadata, the decoded lines of its active
    /// log, and its opened runs in any order: the memtable replays the log,
    /// and the runs are put newest first. Fails where a log line other than
    /// the last does not decode.
    pub fn new(dir: String, meta: DbMeta, wal_lines: &Vec<Option<(Vec<u8>, Vec<u8>)>>, tables: Vec<
        SSTable,
    >) -> (r: Result<Db, NdbError>)
        requires
            tables_wf(tables@),
        ensures
            r is Ok <==> !is_corrupt(lines_view(wal_lines@)),
            r matches Err(e) ==> e is CorruptLog,
            r matches Ok(db) ==> {
                &&& db.wf()
                &&& db.dir == dir
                &&& db.meta == meta
                &&& db.memtable@ == apply_puts(Map::empty(), replayed(lines_view(wal_lines@)))
                &&& db.sstables@.to_multiset() == tables@.to_multiset()
                &&& newest_first(db.sstables@)
            },
    {
        let records = match replay(wal_lines) {
            Ok(rs) => rs,
            Err(e) => {
                return Err(e);
            },
        };
        let memtable = Memtable::hydrate(&records);
        let sstables = sort_newest_first(tables);
        assert forall|i: int| 0 <= i < sstables@.len() implies (#[trigger] sstables@[i]).wf() by {
            assert(sstables@.to_multiset().contains(sstables@[i]));
            assert(tables@.contains(sstables@[i]));
        }
        Ok(Db { dir, memtable, sstables, meta })
    }

    /// Applies a write, once the log holds it, to the memtable.
    pub fn put(&mut self, key: &[u8], value: &[u8])
        requires
            old(self).wf(),
        ensures
            final(self).wf(),
            final(self).memtable@ == old(self).memtable@.insert(key@, value@),
            final(self).sstables == old(self).sstables,
            final(self).meta == old(self).meta,
            final(self).dir == old(self).dir,
    {
        self.memtable.put(vstd::slice::slice_to_vec(key), vstd::slice::slice_to_vec(value));
    }

    /// The value of `key`: from the memtable, else from the first run, newest
    /// first, that holds it.
    pub fn get(&self, key: &[u8]) -> (r: Result<Option<Vec<u8>>, NdbError>)
        requires
            self.wf(),
        ensures
            result_view(r) == self.lookup(key@),
    {
        if let Some(v) = self.memtable.get(key) {
            return Ok(Some(v));
        }
        let mut i: usize = 0;
        assert(self.sstables@.skip(0) =~= self.sstables@);
        while i < self.sstables.len()
            invariant
                self.wf(),
                i <= self.sstables@.len(),
                !self.memtable@.contains_key(key@),
                tables_lookup(self.sstables@, key@) == tables_lookup(
                    self.sstables@.skip(i as int),
                    key@,
                ),
            decreases self.sstables@.len() - i,
        {
            assert(self.sstables@.skip(i as int).drop_first() =~= self.sstables@.skip(i + 1));
            assert(self.sstables@.skip(i as int)[0] == self.sstables@[i as int]);
            let r = self.sstables[i].get(key);
            match r {
                Ok(None) => {},
                _ => {
                    return r;
                },
            }
            i = i + 1;
        }
        Ok(None)
    }

    /// Drains the memtable into a new run described by `table_meta`, which
    /// the caller persists before it calls `next_meta` and `install`. Where
    /// the entries do not fit the format the memtable is left as it was.
    pub fn flush_memtable(&mut self, table_meta: SSTableMetadata) -> (r: Result<SSTable, NdbError>)
        requires
            old(self).wf(),
        ensures
            final(self).wf(),
            final(self).sstables == old(self).sstables,
            final(self).meta == old(self).meta,
            final(self).dir == old(self).dir,
            r is Ok <==> records_fit(old(self).memtable.entries()),
            r matches Ok(t) ==> {
                &&& t.meta == table_meta
                &&& t.data@ == records_bytes(old(self).memtable.entries())
                &&& crate::format::index_view(t.index@) == index_of(old(self).memtable.entries())
                &&& t.wf()
                &&& final(self).memtable@ == Map::<Seq<u8>, Seq<u8>>::empty()
            },
            r matches Err(e) ==> e is TooLarge && final(self).memtable@ == old(self).memtable@,
    {
        let records = self.memtable.drain();
        match SSTable::construct(table_meta, &records) {
            Ok(t) => Ok(t),
            Err(e) => {
                self.memtable = Memtable::hydrate(&records);
                Err(e)
            },
        }
    }

    /// The metadata to persist once a flushed run is on disk: its descriptor
    /// path added to the list, and `wal` as the active log.
    pub fn next_meta(&self, table: &SSTableMetadata, wal: String) -> (r: DbMeta)
        ensures
            r.sstables@ == self.meta.sstables@.push(table.meta_path),
            r.wal == wal,
    {
        let mut paths: Vec<String> = Vec::new();
        let mut i: usize = 0;
        while i < self.meta.sstables.len()
            invariant
                i <= self.meta.sstables@.len(),
                paths@ == self.meta.sstables@.take(i as int),
            decreases self.meta.sstables@.len() - i,
        {
            paths.push(self.meta.sstables[i].clone());
            assert(self.meta.sstables@.take(i + 1) =~= self.meta.sstables@.take(i as int).push(
                self.meta.sstables@[i as int],
            ));
            i = i + 1;
        }
        assert(self.meta.sstables@.take(i as int) =~= self.meta.sstables@);
        paths.push(table.meta_path.clone());
        DbMeta { sstables: paths, wal }
    }

    /// Installs a flushed run, once it and `meta` are persisted, in front of
    /// the others, and records `meta` as the engine's metadata.
    pub fn install(&mut self, table: SSTable, meta: DbMeta)
        requires
            old(self).wf(),
            table.wf(),
        ensures
            final(self).wf(),
            final(self).sstables@ == seq![table] + old(self).sstables@,
            final(self).meta == meta,
            final(self).memtable == old(self).memtable,
            final(self).dir == old(self).dir,
    {
        let ghost t = table;
        self.sstables.insert(0, table);
        self.meta = meta;
        assert(self.sstables@ =~= seq![t] + old(self).sstables@);
    }
}

/// Before a flush, any number of puts of one key leave `get` answering with
/// the value of the last of them, whatever the memtable and runs held before.
pub proof fn lemma_last_put_wins(
    mem: Map<Seq<u8>, Seq<u8>>,
    ts: Seq<SSTable>,
    puts: Seq<(Seq<u8>, Seq<u8>)>,
    key: Seq<u8>,
)
    requires
        puts.len() > 0,
        forall|i: int| 0 <= i < puts.len() ==> (#[trigger] puts[i]).0 == key,
    ensures
        engine_lookup(apply_puts(mem, puts), ts, key) == Some(Some(puts.last().1)),
{
    assert(puts[puts.len() - 1].0 == key);
}

/// A log whose lines hold a run of puts, with or without a torn last line,
/// replays to those puts, so the memtable it hydrates holds what applying the
/// puts one by one to an empty memtable gives.
pub proof fn lemma_replay_matches_puts(puts: Seq<(Seq<u8>, Seq<u8>)>)
    ensures
        !is_corrupt(puts.map_values(|p: (Seq<u8>, Seq<u8>)| Some(p))),
        replayed(puts.map_values(|p: (Seq<u8>, Seq<u8>)| Some(p))) == puts,
        !is_corrupt(puts.map_values(|p: (Seq<u8>, Seq<u8>)| Some(p)).push(None)),
        replayed(puts.map_values(|p: (Seq<u8>, Seq<u8>)| Some(p)).push(None)) == puts,
{
    let lines = puts.map_values(|p: (Seq<u8>, Seq<u8>)| Some(p));
    let torn = lines.push(None);
    assert(torn.last() is None);
    assert(replayed(lines) =~= puts);
    assert(replayed(torn) =~= puts) by {
        assert forall|i: int| 0 <= i < puts.len() implies torn[i] == lines[i] by {}
    }
    assert forall|i: int| 0 <= i < replayed_len(torn) implies (#[trigger] torn[i]) is Some by {
        assert(torn[i] == lines[i]);
    }
}

/// Of two runs that both hold `key`, the engine answers from the newer one,
/// in whatever order the two were handed to `Db::new`.
pub proof fn lemma_newest_run_wins(
    mem: Map<Seq<u8>, Seq<u8>>,
    ts: Seq<SSTable>,
    newer: SSTable,
    older: SSTable,
    key: Seq<u8>,
    v: Seq<u8>,
)
    requires
        ts.to_multiset() == seq![newer, older].to_multiset(),
        newest_first(ts),
        newer.meta.written_timestamp > older.meta.written_timestamp,
        newer.lookup(key) == Some(Some(v)),
        !mem.contains_key(key),
    ensures
        engine_lookup(mem, ts, key) == Some(Some(v)),
{
    let pair = seq![newer, older];
    assert(pair.contains(newer) && pair.contains(older)) by {
        assert(pair[0] == newer && pair[1] == older);
    }
    assert(ts.len() == 2) by {
        assert(pair.to_multiset().len() == 2);
    }
    assert(pair.to_multiset().count(newer) > 0 && pair.to_multiset().count(older) > 0);
    assert(ts.contains(newer) && ts.contains(older)) by {
        assert(ts.to_multiset().count(newer) > 0 && ts.to_multiset().count(older) > 0);
    }
    assert(pair.contains(ts[0]) && pair.contains(ts[1])) by {
        assert(ts.contains(ts[0]) && ts.contains(ts[1]));
        assert(ts.to_multiset().count(ts[0]) > 0 && ts.to_multiset().count(ts[1]) > 0);
        assert(pair.to_multiset().count(ts[0]) > 0 && pair.to_multiset().count(ts[1]) > 0);
    }
    if ts[0] != newer {
        assert(ts[1] == newer);
        assert(ts[0] == older);
    }
    assert(ts[0] == newer);
}

/// No two runs share a creation time.
pub open spec fn distinct_times(ts: Seq<SSTable>) -> bool {
    forall|i: int, j: int|
        0 <= i < ts.len() && 0 <= j < ts.len() && i != j ==> ts[i].meta.written_timestamp
            != ts[j].meta.written_timestamp
}

proof fn lemma_newest_first_unique(a: Seq<SSTable>, b: Seq<SSTable>)
    requires
        a.to_multiset() == b.to_multiset(),
        newest_first(a),
        newest_first(b),
        distinct_times(a),
    ensures
        a == b,
    decreases a.len(),
{
    assert(a.len() == a.to_multiset().len() && b.len() == b.to_multiset().len());
    if a.len() == 0 {
        assert(a =~= b);
    } else {
        assert(a.to_multiset().count(a[0]) > 0 && a.to_multiset().count(b[0]) > 0) by {
            assert(a.contains(a[0]));
            assert(b.contains(b[0]));
            assert(b.to_multiset().count(b[0]) > 0);
        }
        assert(b.contains(a[0]));
        assert(a.contains(b[0]));
        let k = choose|k: int| 0 <= k < b.len() && b[k] == a[0];
        let m = choose|m: int| 0 <= m < a.len() && a[m] == b[0];
        assert(a[0].meta.written_timestamp >= a[m].meta.written_timestamp);
        assert(b[0].meta.written_timestamp >= b[k].meta.written_timestamp);
        assert(m == 0);
        let a1 = a.remove(0);
        let b1 = b.remove(0);
        assert(a1.to_multiset() == a.to_multiset().remove(a[0]));
        assert(b1.to_multiset() == b.to_multiset().remove(b[0]));
        assert(newest_first(a1)) by {
            assert forall|i: int, j: int| 0 <= i < j < a1.len() implies a1[i].meta.written_timestamp
                >= a1[j].meta.written_timestamp by {
                assert(a1[i] == a[i + 1] && a1[j] == a[j + 1]);
            }
        }
        assert(newest_first(b1)) by {
            assert forall|i: int, j: int| 0 <= i < j < b1.len() implies b1[i].meta.written_timestamp
                >= b1[j].meta.written_timestamp by {
                assert(b1[i] == b[i + 1] && b1[j] == b[j + 1]);
            }
        }
        assert(distinct_times(a1)) by {
            assert forall|i: int, j: int|
                0 <= i < a1.len() && 0 <= j < a1.len() && i != j implies a1[i].meta.written_timestamp
                != a1[j].meta.written_timestamp by {
                assert(a1[i] == a[i + 1] && a1[j] == a[j + 1]);
            }
        }
        lemma_newest_first_unique(a1, b1);
        assert forall|i: int| 0 <= i < a.len() implies a[i] == b[i] by {
            if i > 0 {
                assert(a[i] == a1[i - 1] && b[i] == b1[i - 1]);
            }
        }
        assert(a =~= b);
    }
}

/// Reopening keeps every answer: an engine whose memtable replays the same
/// log and whose runs are the same runs, handed over in any order and put
/// newest first, answers every key as the engine before did, provided no two
/// runs were created in the same second.
pub proof fn lemma_reopen_keeps_answers(
    mem: Map<Seq<u8>, Seq<u8>>,
    ts: Seq<SSTable>,
    lines: Seq<Option<(Seq<u8>, Seq<u8>)>>,
    reopened: Seq<SSTable>,
    key: Seq<u8>,
)
    requires
        mem == apply_puts(Map::empty(), replayed(lines)),
        newest_first(ts),
        distinct_times(ts),
        reopened.to_multiset() == ts.to_multiset(),
        newest_first(reopened),
    ensures
        reopened == ts,
        engine_lookup(apply_puts(Map::empty(), replayed(lines)), reopened, key) == engine_lookup(
            mem,
            ts,
            key,
        ),
{
    lemma_newest_first_unique(ts, reopened);
}

} // verus!
