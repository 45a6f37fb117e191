//! Immutable sorted runs: construction from sorted records, and point
//! lookup through a sparse index.

use vstd::prelude::*;
use vstd::slice::{slice_subrange, slice_to_vec};
use crate::codec::{decode_index, encode_index, index_from_json, index_to_json};
use crate::error::NdbError;
use crate::format::{
    append_bytes, be_bytes, be_value, floor_offset, lemma_be_round_trip, record_bytes, index_of, index_sorted, index_view, lemma_prefix, lemma_take_next,
    offset_of, pairs_view, read_be_u32, records_bytes, records_fit, scan, sorted_keys, write_be_u32,
};
use crate::keys::{compare_keys, key_le, key_lt, lemma_lt_asymmetric, lemma_lt_irreflexive, lemma_lt_transitive};

verus! {

/// The identity of a sorted run: its creation time, which also orders runs
/// by recency, and the paths of its three files.
#[derive(Debug)]
pub struct SSTableMetadata {
    pub written_timestamp: u64,
    pub meta_path: String,
    pub data_path: String,
    pub index_path: String,
}

/// An opened sorted run: its descriptor, its data bytes, and its sparse
/// index of `(key, offset)` entries.
pub struct SSTable {
    pub meta: SSTableMetadata,
    pub data: Vec<u8>,
    pub index: Vec<(Vec<u8>, u64)>,
}

/// What a lookup in `data` with index `idx` gives for `key`: `None` where the
/// data is cut short on the way.
pub open spec fn table_lookup(data: Seq<u8>, idx: Seq<(Seq<u8>, u64)>, key: Seq<u8>) -> Option<
    Option<Seq<u8>>,
> {
    scan(data, floor_offset(idx, key) as int, key)
}

/// A lookup result as byte strings, with `None` for corrupt data.
pub open spec fn result_view(r: Result<Option<Vec<u8>>, NdbError>) -> Option<Option<Seq<u8>>> {
    match r {
        Ok(Some(v)) => Some(Some(v@)),
        Ok(None) => Some(None),
        Err(_) => None,
    }
}

proof fn lemma_floor_at(idx: Seq<(Seq<u8>, u64)>, key: Seq<u8>, c: int)
    requires
        0 <= c <= idx.len(),
        forall|j: int| 0 <= j < c ==> key_le(#[trigger] idx[j].0, key),
        forall|j: int| c <= j < idx.len() ==> key_lt(key, #[trigger] idx[j].0),
    ensures
        floor_offset(idx, key) == if c == 0 {
            0
        } else {
            idx[c - 1].1
        },
    decreases idx.len(),
{
    if idx.len() > 0 && c < idx.len() {
        let l = idx.len() - 1;
        assert(key_lt(key, idx[l].0));
        lemma_lt_asymmetric(key, idx[l].0);
        lemma_lt_irreflexive(key);
        lemma_floor_at(idx.drop_last(), key, c);
    }
}

/// Finds the offset of the greatest index entry whose key is at most `key`,
/// or 0 where every entry's key is greater.
pub fn floor_search(index: &Vec<(Vec<u8>, u64)>, key: &[u8]) -> (r: u64)
    requires
        index_sorted(index_view(index@)),
    ensures
        r == floor_offset(index_view(index@), key@),
{
    let ghost idx = index_view(index@);
    let mut lo: usize = 0;
    let mut hi: usize = index.len();
    while lo < hi
        invariant
            idx == index_view(index@),
            index_sorted(idx),
            0 <= lo <= hi <= index@.len(),
            forall|j: int| 0 <= j < lo ==> key_le(#[trigger] idx[j].0, key@),
            forall|j: int| hi <= j < idx.len() ==> key_lt(key@, #[trigger] idx[j].0),
        decreases hi - lo,
    {
        let mid = lo + (hi - lo) / 2;
        let c = compare_keys(index[mid].0.as_slice(), key);
        assert(idx[mid as int].0 == index@[mid as int].0@);
        match c {
            std::cmp::Ordering::Greater => {
                assert forall|j: int| mid <= j < idx.len() implies key_lt(
                    key@,
                    #[trigger] idx[j].0,
                ) by {
                    if mid < j < hi {
                        lemma_lt_transitive(key@, idx[mid as int].0, idx[j].0);
                    }
                }
                hi = mid;
            },
            _ => {
                assert forall|j: int| 0 <= j <= mid implies key_le(#[trigger] idx[j].0, key@) by {
                    if lo <= j < mid {
                        if idx[mid as int].0 != key@ {
                            lemma_lt_transitive(idx[j].0, idx[mid as int].0, key@);
                        }
                    }
                }
                lo = mid + 1;
            },
        }
    }
    proof {
        lemma_floor_at(idx, key@, lo as int);
    }
    if lo == 0 {
        0
    } else {
        index[lo - 1].1
    }
}

/// Decodes records of `data` from `start` on until one holds `key`, one
/// sorts after it, or the data ends.
pub fn scan_from(data: &[u8], start: usize, key: &[u8]) -> (r: Result<Option<Vec<u8>>, NdbError>)
    ensures
        result_view(r) == scan(data@, start as int, key@),
        r is Err ==> r == Err::<Option<Vec<u8>>, NdbError>(NdbError::CorruptData),
{
    let mut pos = start;
    while pos < data.len()
        invariant
            scan(data@, start as int, key@) == scan(data@, pos as int, key@),
        decreases data@.len() - pos,
    {
        if data.len() - pos < 4 {
            return Err(NdbError::CorruptData);
        }
        let kl = read_be_u32(data, pos) as usize;
        let ks = pos + 4;
        if data.len() - ks < kl || data.len() - ks - kl < 4 {
            return Err(NdbError::CorruptData);
        }
        let ke = ks + kl;
        let vl = read_be_u32(data, ke) as usize;
        let vs = ke + 4;
        if data.len() - vs < vl {
            return Err(NdbError::CorruptData);
        }
        let ve = vs + vl;
        let k = slice_subrange(data, ks, ke);
        match compare_keys(k, key) {
            std::cmp::Ordering::Equal => {
                let v = slice_to_vec(slice_subrange(data, vs, ve));
                return Ok(Some(v));
            },
            std::cmp::Ordering::Greater => {
                return Ok(None);
            },
            std::cmp::Ordering::Less => {
                proof {
                    lemma_lt_asymmetric(k@, key@);
                }
                pos = ve;
            },
        }
    }
    Ok(None)
}

/// How many records apart the sparse index samples keys.
pub const INDEX_INTERVAL: usize = 16;

impl SSTable {
    /// The lookup `get` performs on this run.
    pub open spec fn lookup(&self, key: Seq<u8>) -> Option<Option<Seq<u8>>> {
        table_lookup(self.data@, index_view(self.index@), key)
    }

    /// Index keys strictly ascending.
    pub open spec fn wf(&self) -> bool {
        index_sorted(index_view(self.index@))
    }

    /// Orders runs by recency: `Less` where this run is newer, `Greater`
    /// where it is older, `Equal` where both were created in the same second.
    pub fn recency_cmp(&self, other: &SSTable) -> (r: std::cmp::Ordering)
        ensures
            (r == std::cmp::Ordering::Less) == (self.meta.written_timestamp
                > other.meta.written_timestamp),
            (r == std::cmp::Ordering::Equal) == (self.meta.written_timestamp
                == other.meta.written_timestamp),
            (r == std::cmp::Ordering::Greater) == (self.meta.written_timestamp
                < other.meta.written_timestamp),
    {
        if self.meta.written_timestamp > other.meta.written_timestamp {
            std::cmp::Ordering::Less
        } else if self.meta.written_timestamp == other.meta.written_timestamp {
            std::cmp::Ordering::Equal
        } else {
            std::cmp::Ordering::Greater
        }
    }

    /// Looks `key` up: a floor search over the index, then a scan of the data
    /// from the offset found (from the start where no entry qualifies).
    pub fn get(&self, key: &[u8]) -> (r: Result<Option<Vec<u8>>, NdbError>)
        requires
            self.wf(),
        ensures
            result_view(r) == self.lookup(key@),
            r is Err ==> r == Err::<Option<Vec<u8>>, NdbError>(NdbError::CorruptData),
    {
        let offset = floor_search(&self.index, key);
        if offset >= self.data.len() as u64 {
            return Ok(None);
        }
        scan_from(self.data.as_slice(), offset as usize, key)
    }
}

impl SSTable {
    /// Builds a run from records in strictly ascending key order: their
    /// bytes one after another, and an index entry for records 0, 16, 32, ...
    /// Fails where a key or value is too long for a 4-byte length, or the
    /// bytes would not fit in memory.
    pub fn construct(meta: SSTableMetadata, records: &Vec<(Vec<u8>, Vec<u8>)>) -> (r: Result<
        SSTable,
        NdbError,
    >)
        requires
            sorted_keys(pairs_view(records@)),
        ensures
            r is Ok <==> records_fit(pairs_view(records@)),
            r is Err ==> r == Err::<SSTable, NdbError>(NdbError::TooLarge),
            r matches Ok(t) ==> {
                &&& t.meta == meta
                &&& t.data@ == records_bytes(pairs_view(records@))
                &&& index_view(t.index@) == index_of(pairs_view(records@))
                &&& t.wf()
            },
    {
        let ghost rs = pairs_view(records@);
        let mut data: Vec<u8> = Vec::new();
        let mut index: Vec<(Vec<u8>, u64)> = Vec::new();
        let mut i: usize = 0;
        proof {
            assert(rs.take(0) =~= Seq::<(Seq<u8>, Seq<u8>)>::empty());
        }
        while i < records.len()
            invariant
                rs == pairs_view(records@),
                sorted_keys(rs),
                i <= records@.len(),
                data@ == records_bytes(rs.take(i as int)),
                data@.len() <= usize::MAX,
                index_view(index@) == index_of(rs.take(i as int)),
                forall|j: int|
                    0 <= j < i ==> (#[trigger] rs[j]).0.len() <= u32::MAX && rs[j].1.len()
                        <= u32::MAX,
            decreases records@.len() - i,
        {
            let k = records[i].0.as_slice();
            let v = records[i].1.as_slice();
            assert(rs[i as int] == (k@, v@));
            if k.len() > u32::MAX as usize || v.len() > u32::MAX as usize {
                return Err(NdbError::TooLarge);
            }
            let room = usize::MAX - data.len();
            if room < 8 || room - 8 < k.len() || room - 8 - k.len() < v.len() {
                proof {
                    lemma_take_next(rs, i as int);
                    lemma_prefix(rs, i + 1);
                }
                return Err(NdbError::TooLarge);
            }
            let offset = data.len() as u64;
            write_be_u32(&mut data, k.len() as u32);
            append_bytes(&mut data, k);
            write_be_u32(&mut data, v.len() as u32);
            append_bytes(&mut data, v);
            proof {
                lemma_take_next(rs, i as int);
                assert(rs.take(i + 1).drop_last() =~= rs.take(i as int));
                assert(rs.take(i + 1).take(i as int) =~= rs.take(i as int));
            }
            if i % INDEX_INTERVAL == 0 {
                index.push((slice_to_vec(k), offset));
                assert(index_view(index@) =~= index_of(rs.take(i + 1)));
            }
            i = i + 1;
        }
        proof {
            assert(rs.take(i as int) =~= rs);
            lemma_index_sorted(rs);
        }
        Ok(SSTable { meta, data, index })
    }
}

impl SSTable {
    /// Opens a run from its descriptor, the JSON text of its index, and its
    /// data bytes. Fails where the index does not decode, or its keys are not
    /// strictly ascending.
    pub fn open(meta: SSTableMetadata, index_text: &str, data: Vec<u8>) -> (r: Result<
        SSTable,
        NdbError,
    >)
        ensures
            r is Ok <==> (index_from_json(index_text@) matches Some(idx) && index_sorted(idx)),
            r matches Ok(t) ==> {
                &&& t.meta == meta
                &&& t.data == data
                &&& Some(index_view(t.index@)) == index_from_json(index_text@)
                &&& t.wf()
            },
            r matches Err(e) ==> (e is Serde <==> index_from_json(index_text@) is None),
            r matches Err(e) ==> (e is Serde || e is UnsortedIndex),
    {
        let index = match decode_index(index_text) {
            Ok(v) => v,
            Err(e) => {
                return Err(NdbError::Serde(e));
            },
        };
        let ghost idx = index_view(index@);
        let mut i: usize = 1;
        while i < index.len()
            invariant
                idx == index_view(index@),
                index_from_json(index_text@) == Some(idx),
                1 <= i,
                forall|a: int, b: int| 0 <= a < b < i && b < idx.len() ==> key_lt(idx[a].0, idx[b].0),
            decreases index@.len() - i,
        {
            assert(idx[i - 1].0 == index@[i - 1].0@ && idx[i as int].0 == index@[i as int].0@);
            match compare_keys(index[i - 1].0.as_slice(), index[i].0.as_slice()) {
                std::cmp::Ordering::Less => {
                    assert forall|a: int, b: int| 0 <= a < b < i + 1 && b < idx.len() implies key_lt(
                        idx[a].0,
                        idx[b].0,
                    ) by {
                        if b == i && a < i - 1 {
                            lemma_lt_transitive(idx[a].0, idx[i - 1].0, idx[b].0);
                        }
                    }
                },
                _ => {
                    proof {
                        lemma_lt_asymmetric(idx[i - 1].0, idx[i as int].0);
                        lemma_lt_irreflexive(idx[i as int].0);
                        assert(!key_lt(idx[i - 1].0, idx[i as int].0));
                        assert(!index_sorted(idx));
                    }
                    return Err(NdbError::UnsortedIndex);
                },
            }
            i = i + 1;
        }
        Ok(SSTable { meta, data, index })
    }

    /// The JSON text of the index, as its file holds it.
    pub fn index_json(&self) -> (r: Result<String, NdbError>)
        ensures
            r matches Ok(s) ==> s@ == index_to_json(index_view(self.index@)),
            r matches Err(e) ==> e is Serde,
    {
        match encode_index(&self.index) {
            Ok(s) => Ok(s),
            Err(e) => Err(NdbError::Serde(e)),
        }
    }
}

/// Every index entry is the key and start of a record at a multiple of 16.
pub proof fn lemma_index_entries(rs: Seq<(Seq<u8>, Seq<u8>)>)
    ensures
        index_of(rs).len() == (rs.len() + 15) / 16,
        forall|j: int|
            0 <= j < index_of(rs).len() ==> #[trigger] index_of(rs)[j] == (
                rs[16 * j].0,
                offset_of(rs, 16 * j) as u64,
            ),
    decreases rs.len(),
{
    if rs.len() > 0 {
        let p = rs.drop_last();
        lemma_index_entries(p);
        assert forall|j: int| 0 <= j < index_of(p).len() implies #[trigger] offset_of(p, 16 * j)
            == offset_of(rs, 16 * j) && p[16 * j] == rs[16 * j] by {
            assert(p.take(16 * j) =~= rs.take(16 * j));
        }
    }
}

proof fn lemma_record_at(data: Seq<u8>, o: int, k: Seq<u8>, v: Seq<u8>)
    requires
        0 <= o,
        o + record_bytes(k, v).len() <= data.len(),
        data.subrange(o, o + record_bytes(k, v).len()) == record_bytes(k, v),
        k.len() <= u32::MAX,
        v.len() <= u32::MAX,
    ensures
        be_value(data, o) == k.len(),
        be_value(data, o + 4 + k.len()) == v.len(),
        data.subrange(o + 4, o + 4 + k.len()) == k,
        data.subrange(o + 8 + k.len(), o + 8 + k.len() + v.len()) == v,
{
    let rb = record_bytes(k, v);
    let kb = be_bytes(k.len() as u32);
    let vb = be_bytes(v.len() as u32);
    assert forall|t: int| 0 <= t < rb.len() implies data[o + t] == #[trigger] rb[t] by {
        assert(data.subrange(o, o + rb.len())[t] == rb[t]);
    }
    assert(rb[0] == kb[0] && rb[1] == kb[1] && rb[2] == kb[2] && rb[3] == kb[3]);
    assert(data[o] == kb[0] && data[o + 1] == kb[1] && data[o + 2] == kb[2] && data[o + 3] == kb[3]);
    let kl = k.len() as int;
    let p = o + 4 + kl;
    assert(rb[4 + kl] == vb[0] && rb[5 + kl] == vb[1]);
    assert(rb[6 + kl] == vb[2] && rb[7 + kl] == vb[3]);
    assert(data[p] == vb[0] && data[p + 1] == vb[1] && data[p + 2] == vb[2] && data[p + 3] == vb[3]);
    lemma_be_round_trip(k.len() as u32);
    lemma_be_round_trip(v.len() as u32);
    assert(be_value(data, o) == be_value(kb, 0));
    assert(be_value(data, p) == be_value(vb, 0));
    assert(data.subrange(o + 4, o + 4 + k.len()) =~= k) by {
        assert forall|t: int| 0 <= t < k.len() implies data[o + 4 + t] == k[t] by {
            assert(rb[4 + t] == k[t]);
        }
    }
    assert(data.subrange(p + 4, p + 4 + v.len()) =~= v) by {
        assert forall|t: int| 0 <= t < v.len() implies data[p + 4 + t] == v[t] by {
            assert(rb[8 + kl + t] == v[t]);
        }
    }
}

/// Scanning the bytes of sorted records from the start of record `m` finds
/// exactly the records from `m` on.
proof fn lemma_scan_from_record(rs: Seq<(Seq<u8>, Seq<u8>)>, m: int, key: Seq<u8>)
    requires
        sorted_keys(rs),
        records_fit(rs),
        0 <= m <= rs.len(),
    ensures
        forall|i: int|
            m <= i < rs.len() && rs[i].0 == key ==> scan(records_bytes(rs), offset_of(rs, m), key)
                == Some(Some(rs[i].1)),
        (forall|i: int| m <= i < rs.len() ==> rs[i].0 != key) ==> scan(
            records_bytes(rs),
            offset_of(rs, m),
            key,
        ) == Some(None::<Seq<u8>>),
    decreases rs.len() - m,
{
    let data = records_bytes(rs);
    lemma_prefix(rs, m);
    if m == rs.len() {
        assert(rs.take(m) =~= rs);
    } else {
        let (k, v) = rs[m];
        let o = offset_of(rs, m);
        lemma_prefix(rs, m + 1);
        lemma_take_next(rs, m);
        let rb = record_bytes(k, v);
        assert(data.subrange(o, o + rb.len()) =~= rb) by {
            assert(data.subrange(0, o + rb.len()) == records_bytes(rs.take(m)) + rb);
            assert(data.subrange(o, o + rb.len()) =~= data.subrange(0, o + rb.len()).subrange(
                o,
                o + rb.len(),
            ));
        }
        lemma_record_at(data, o, k, v);
        lemma_scan_from_record(rs, m + 1, key);
        assert(offset_of(rs, m + 1) == o + rb.len());
        assert forall|i: int| m <= i < rs.len() && rs[i].0 == key implies scan(
            data,
            offset_of(rs, m),
            key,
        ) == Some(Some(rs[i].1)) by {
            if i > m {
                lemma_lt_asymmetric(k, key);
            }
        }
        if k != key && key_lt(key, k) {
            assert forall|i: int| m <= i < rs.len() implies rs[i].0 != key by {
                if i > m && rs[i].0 == key {
                    lemma_lt_transitive(key, k, rs[i].0);
                    lemma_lt_irreflexive(key);
                }
            }
        }
    }
}

proof fn lemma_floor_is_entry(idx: Seq<(Seq<u8>, u64)>, key: Seq<u8>)
    ensures
        floor_offset(idx, key) == 0 || exists|j: int|
            0 <= j < idx.len() && (#[trigger] idx[j]).1 == floor_offset(idx, key) && key_le(
                idx[j].0,
                key,
            ),
    decreases idx.len(),
{
    if idx.len() > 0 && !key_le(idx.last().0, key) {
        lemma_floor_is_entry(idx.drop_last(), key);
        if floor_offset(idx, key) != 0 {
            let j = choose|j: int|
                0 <= j < idx.drop_last().len() && (#[trigger] idx.drop_last()[j]).1 == floor_offset(
                    idx.drop_last(),
                    key,
                ) && key_le(idx.drop_last()[j].0, key);
            assert(idx[j] == idx.drop_last()[j]);
        }
    }
}

/// The record where a lookup of `key` in a run built from `rs` starts its
/// scan: no record before it holds `key`.
proof fn lemma_start_record(rs: Seq<(Seq<u8>, Seq<u8>)>, key: Seq<u8>) -> (m: int)
    requires
        sorted_keys(rs),
        records_fit(rs),
    ensures
        0 <= m <= rs.len(),
        offset_of(rs, m) == floor_offset(index_of(rs), key) as int,
        forall|i: int| 0 <= i < m ==> rs[i].0 != key,
{
    let idx = index_of(rs);
    lemma_floor_is_entry(idx, key);
    lemma_index_entries(rs);
    if floor_offset(idx, key) == 0 {
        assert(rs.take(0) =~= Seq::<(Seq<u8>, Seq<u8>)>::empty());
        0
    } else {
        let j = choose|j: int|
            0 <= j < idx.len() && (#[trigger] idx[j]).1 == floor_offset(idx, key) && key_le(
                idx[j].0,
                key,
            );
        let m = 16 * j;
        assert(idx[j] == (rs[m].0, offset_of(rs, m) as u64));
        lemma_prefix(rs, m);
        assert forall|i: int| 0 <= i < m implies rs[i].0 != key by {
            if rs[i].0 == key {
                lemma_lt_asymmetric(key, rs[m].0);
                lemma_lt_irreflexive(key);
            }
        }
        m
    }
}

/// A run built from sorted records finds each of them under its key.
pub proof fn lemma_construct_finds_each_record(rs: Seq<(Seq<u8>, Seq<u8>)>, i: int)
    requires
        sorted_keys(rs),
        records_fit(rs),
        0 <= i < rs.len(),
    ensures
        table_lookup(records_bytes(rs), index_of(rs), rs[i].0) == Some(Some(rs[i].1)),
{
    let m = lemma_start_record(rs, rs[i].0);
    lemma_scan_from_record(rs, m, rs[i].0);
}

/// A run built from sorted records reports every other key as absent,
/// whether it sorts before, between or after the records' keys.
pub proof fn lemma_construct_misses_absent_keys(rs: Seq<(Seq<u8>, Seq<u8>)>, key: Seq<u8>)
    requires
        sorted_keys(rs),
        records_fit(rs),
        forall|i: int| 0 <= i < rs.len() ==> rs[i].0 != key,
    ensures
        table_lookup(records_bytes(rs), index_of(rs), key) == Some(None::<Seq<u8>>),
{
    let m = lemma_start_record(rs, key);
    lemma_scan_from_record(rs, m, key);
}

proof fn lemma_index_sorted(rs: Seq<(Seq<u8>, Seq<u8>)>)
    requires
        sorted_keys(rs),
    ensures
        index_sorted(index_of(rs)),
{
    lemma_index_entries(rs);
    let idx = index_of(rs);
    assert forall|i: int, j: int| 0 <= i < j < idx.len() implies key_lt(idx[i].0, idx[j].0) by {
        assert(idx[i].0 == rs[16 * i].0);
        assert(idx[j].0 == rs[16 * j].0);
    }
}

} // verus!
