//! The byte layout of a sorted run: each record is a 4-byte big-endian key
//! length, the key, a 4-byte big-endian value length, and the value.

use vstd::prelude::*;
use crate::keys::{key_lt, key_le};

verus! {

/// A key and its value, as byte strings.
pub open spec fn pair_view(r: (Vec<u8>, Vec<u8>)) -> (Seq<u8>, Seq<u8>) {
    (r.0@, r.1@)
}

/// The records of a vector, as byte strings.
pub open spec fn pairs_view(rs: Seq<(Vec<u8>, Vec<u8>)>) -> Seq<(Seq<u8>, Seq<u8>)> {
    rs.map_values(|r: (Vec<u8>, Vec<u8>)| pair_view(r))
}

/// The four big-endian bytes of `n`.
pub open spec fn be_bytes(n: u32) -> Seq<u8> {
    seq![(n >> 24u32) as u8, (n >> 16u32) as u8, (n >> 8u32) as u8, n as u8]
}

/// The big-endian number held by the four bytes of `s` from `at` on.
pub open spec fn be_value(s: Seq<u8>, at: int) -> u32 {
    ((s[at] as u32) << 24u32) | ((s[at + 1] as u32) << 16u32) | ((s[at + 2] as u32) << 8u32) | (
    s[at + 3] as u32)
}

pub proof fn lemma_be_round_trip(n: u32)
    ensures
        be_value(be_bytes(n), 0) == n,
{
    let b = be_bytes(n);
    assert(b[0] == (n >> 24u32) as u8 && b[1] == (n >> 16u32) as u8 && b[2] == (n >> 8u32) as u8
        && b[3] == n as u8);
    assert((((((n >> 24u32) as u8) as u32) << 24u32) | ((((n >> 16u32) as u8) as u32) << 16u32) | (
    (((n >> 8u32) as u8) as u32) << 8u32) | ((n as u8) as u32)) == n) by (bit_vector);
}

/// The bytes of one record.
pub open spec fn record_bytes(k: Seq<u8>, v: Seq<u8>) -> Seq<u8> {
    be_bytes(k.len() as u32) + k + be_bytes(v.len() as u32) + v
}

/// The bytes of a run of records, one after another.
pub open spec fn records_bytes(rs: Seq<(Seq<u8>, Seq<u8>)>) -> Seq<u8>
    decreases rs.len(),
{
    if rs.len() == 0 {
        Seq::empty()
    } else {
        records_bytes(rs.drop_last()) + record_bytes(rs.last().0, rs.last().1)
    }
}

/// Where record `i` starts in the bytes of `rs`.
pub open spec fn offset_of(rs: Seq<(Seq<u8>, Seq<u8>)>, i: int) -> int {
    records_bytes(rs.take(i)).len() as int
}

/// Every key and value is short enough for its 4-byte length, and the whole
/// run fits in memory.
pub open spec fn records_fit(rs: Seq<(Seq<u8>, Seq<u8>)>) -> bool {
    &&& forall|i: int| 0 <= i < rs.len() ==> rs[i].0.len() <= u32::MAX && rs[i].1.len() <= u32::MAX
    &&& records_bytes(rs).len() <= usize::MAX
}

/// Keys strictly ascending.
pub open spec fn sorted_keys(rs: Seq<(Seq<u8>, Seq<u8>)>) -> bool {
    forall|i: int, j: int| 0 <= i < j < rs.len() ==> key_lt(rs[i].0, rs[j].0)
}

/// Scanning `data` for `key` from `pos` on: `None` where a record is cut short
/// by the end of the bytes; `Some(Some(v))` at the first record holding `key`;
/// `Some(None)` at the end, or at the first record whose key sorts after `key`.
pub open spec fn scan(data: Seq<u8>, pos: int, key: Seq<u8>) -> Option<Option<Seq<u8>>>
    decreases data.len() - pos,
{
    if pos < 0 || pos >= data.len() {
        Some(None)
    } else if pos + 4 > data.len() {
        None
    } else {
        let ks = pos + 4;
        let ke = ks + be_value(data, pos) as int;
        if ke + 4 > data.len() {
            None
        } else {
            let vs = ke + 4;
            let ve = vs + be_value(data, ke) as int;
            if ve > data.len() {
                None
            } else {
                let k = data.subrange(ks, ke);
                if k == key {
                    Some(Some(data.subrange(vs, ve)))
                } else if key_lt(key, k) {
                    Some(None)
                } else {
                    scan(data, ve, key)
                }
            }
        }
    }
}

/// A sparse index as byte strings and offsets.
pub open spec fn index_view(idx: Seq<(Vec<u8>, u64)>) -> Seq<(Seq<u8>, u64)> {
    idx.map_values(|e: (Vec<u8>, u64)| (e.0@, e.1))
}

/// Index keys strictly ascending.
pub open spec fn index_sorted(idx: Seq<(Seq<u8>, u64)>) -> bool {
    forall|i: int, j: int| 0 <= i < j < idx.len() ==> key_lt(idx[i].0, idx[j].0)
}

/// The offset of the last index entry whose key is at most `key`; 0 where
/// there is none.
pub open spec fn floor_offset(idx: Seq<(Seq<u8>, u64)>, key: Seq<u8>) -> u64
    decreases idx.len(),
{
    if idx.len() == 0 {
        0
    } else if key_le(idx.last().0, key) {
        idx.last().1
    } else {
        floor_offset(idx.drop_last(), key)
    }
}

/// Reads the 4-byte big-endian number at `at`.
pub fn read_be_u32(data: &[u8], at: usize) -> (r: u32)
    requires
        at + 4 <= data@.len(),
    ensures
        r == be_value(data@, at as int),
{
    ((data[at] as u32) << 24u32) | ((data[at + 1] as u32) << 16u32) | ((data[at + 2] as u32) << 8u32)
        | (data[at + 3] as u32)
}

/// Appends the 4 big-endian bytes of `n`.
pub fn write_be_u32(out: &mut Vec<u8>, n: u32)
    ensures
        final(out)@ == old(out)@ + be_bytes(n),
{
    out.push((n >> 24u32) as u8);
    out.push((n >> 16u32) as u8);
    out.push((n >> 8u32) as u8);
    out.push(n as u8);
    assert(final(out)@ =~= old(out)@ + be_bytes(n));
}

/// Appends the bytes of `b`.
pub fn append_bytes(out: &mut Vec<u8>, b: &[u8])
    ensures
        final(out)@ == old(out)@ + b@,
{
    let ghost start = out@;
    let mut i: usize = 0;
    while i < b.len()
        invariant
            i <= b@.len(),
            out@ == start + b@.subrange(0, i as int),
        decreases b@.len() - i,
    {
        out.push(b[i]);
        assert(b@.subrange(0, i + 1) =~= b@.subrange(0, i as int).push(b@[i as int]));
        i = i + 1;
    }
    assert(b@.subrange(0, i as int) =~= b@);
}

/// The bytes of the first `k` records are the first bytes of the run.
pub proof fn lemma_prefix(rs: Seq<(Seq<u8>, Seq<u8>)>, k: int)
    requires
        0 <= k <= rs.len(),
    ensures
        offset_of(rs, k) <= records_bytes(rs).len(),
        records_bytes(rs).subrange(0, offset_of(rs, k)) == records_bytes(rs.take(k)),
    decreases rs.len(),
{
    if k < rs.len() {
        lemma_prefix(rs.drop_last(), k);
        assert(rs.drop_last().take(k) =~= rs.take(k));
        let a = records_bytes(rs.drop_last());
        let b = record_bytes(rs.last().0, rs.last().1);
        assert((a + b).subrange(0, offset_of(rs, k)) =~= a.subrange(0, offset_of(rs, k)));
    } else {
        assert(rs.take(k) =~= rs);
        assert(records_bytes(rs).subrange(0, offset_of(rs, k)) =~= records_bytes(rs));
    }
}

/// The bytes of the first `i + 1` records: those of the first `i`, then record `i`.
pub proof fn lemma_take_next(rs: Seq<(Seq<u8>, Seq<u8>)>, i: int)
    requires
        0 <= i < rs.len(),
    ensures
        records_bytes(rs.take(i + 1)) == records_bytes(rs.take(i)) + record_bytes(rs[i].0, rs[i].1),
{
    assert(rs.take(i + 1).drop_last() =~= rs.take(i));
}

/// The sparse index of a run: every 16th record's key, with the offset where
/// that record starts.
pub open spec fn index_of(rs: Seq<(Seq<u8>, Seq<u8>)>) -> Seq<(Seq<u8>, u64)>
    decreases rs.len(),
{
    if rs.len() == 0 {
        Seq::empty()
    } else {
        let i = rs.len() - 1;
        if i % 16 == 0 {
            index_of(rs.drop_last()).push((rs[i].0, offset_of(rs, i) as u64))
        } else {
            index_of(rs.drop_last())
        }
    }
}

} // verus!
