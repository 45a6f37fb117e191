//! Replay of the write-ahead log: one record per line, in write order. A
//! last line that does not decode is a write torn by a crash and is dropped;
//! any other line that does not decode is corruption.

use vstd::prelude::*;
use vstd::slice::slice_to_vec;
use crate::error::NdbError;
use crate::format::pairs_view;
use crate::memtable::apply_puts;

verus! {

/// The decoded lines of a log as byte strings; `None` for a line that did not decode.
pub open spec fn lines_view(lines: Seq<Option<(Vec<u8>, Vec<u8>)>>) -> Seq<
    Option<(Seq<u8>, Seq<u8>)>,
> {
    lines.map_values(
        |l: Option<(Vec<u8>, Vec<u8>)>|
            match l {
                Some(r) => Some((r.0@, r.1@)),
                None => None,
            },
    )
}

/// How many lines replay reads: all of them, but a last one that did not decode.
pub open spec fn replayed_len(lines: Seq<Option<(Seq<u8>, Seq<u8>)>>) -> int {
    if lines.len() > 0 && lines.last() is None {
        lines.len() - 1
    } else {
        lines.len() as int
    }
}

/// A line before the replayed end did not decode.
pub open spec fn is_corrupt(lines: Seq<Option<(Seq<u8>, Seq<u8>)>>) -> bool {
    exists|i: int| 0 <= i < replayed_len(lines) && (#[trigger] lines[i]) is None
}

/// The records of the replayed lines, in order.
pub open spec fn replayed(lines: Seq<Option<(Seq<u8>, Seq<u8>)>>) -> Seq<(Seq<u8>, Seq<u8>)> {
    Seq::new(replayed_len(lines) as nat, |i: int| lines[i]->Some_0)
}

/// Replays the decoded lines of a log: the records in file order, without a
/// torn last line. Fails on the first other line that did not decode.
pub fn replay(lines: &Vec<Option<(Vec<u8>, Vec<u8>)>>) -> (r: Result<Vec<(Vec<u8>, Vec<u8>)>, NdbError>)
    ensures
        r is Ok <==> !is_corrupt(lines_view(lines@)),
        r matches Ok(rs) ==> pairs_view(rs@) == replayed(lines_view(lines@)),
        r matches Err(e) ==> e matches NdbError::CorruptLog { line } && 0 <= line < replayed_len(
            lines_view(lines@),
        ) && lines@[line as int] is None && forall|i: int|
            0 <= i < line ==> (#[trigger] lines@[i]) is Some,
{
    let ghost ls = lines_view(lines@);
    let n = if lines.len() > 0 && lines[lines.len() - 1].is_none() {
        lines.len() - 1
    } else {
        lines.len()
    };
    assert(n == replayed_len(ls)) by {
        if lines@.len() > 0 {
            assert(ls.last() == ls[lines@.len() - 1]);
        }
    }
    let mut out: Vec<(Vec<u8>, Vec<u8>)> = Vec::new();
    let mut i: usize = 0;
    while i < n
        invariant
            ls == lines_view(lines@),
            n == replayed_len(ls),
            n <= lines@.len(),
            i <= n,
            forall|j: int| 0 <= j < i ==> (#[trigger] lines@[j]) is Some,
            pairs_view(out@) =~= replayed(ls).take(i as int),
        decreases n - i,
    {
        match &lines[i] {
            Some(rec) => {
                out.push((slice_to_vec(rec.0.as_slice()), slice_to_vec(rec.1.as_slice())));
                assert(ls[i as int] == Some((rec.0@, rec.1@)));
                assert(replayed(ls)[i as int] == (rec.0@, rec.1@));
                assert(pairs_view(out@) =~= replayed(ls).take(i as int).push((rec.0@, rec.1@)));
                assert(replayed(ls).take(i + 1) =~= replayed(ls).take(i as int).push(
                    (rec.0@, rec.1@),
                ));
            },
            None => {
                assert(ls[i as int] is None);
                return Err(NdbError::CorruptLog { line: i });
            },
        }
        i = i + 1;
    }
    proof {
        assert forall|j: int| 0 <= j < n implies (#[trigger] ls[j]) is Some by {
            assert(lines@[j] is Some);
        }
    }
    Ok(out)
}

/// The value a log holds for `key`: that of its last record with that key.
pub fn log_get(records: &Vec<(Vec<u8>, Vec<u8>)>, key: &[u8]) -> (r: Option<Vec<u8>>)
    ensures
        r is Some <==> apply_puts(Map::empty(), pairs_view(records@)).contains_key(key@),
        r matches Some(v) ==> v@ == apply_puts(Map::empty(), pairs_view(records@))[key@],
{
    let ghost rs = pairs_view(records@);
    let mut result: Option<Vec<u8>> = None;
    let mut i: usize = 0;
    assert(rs.take(0) =~= Seq::<(Seq<u8>, Seq<u8>)>::empty());
    while i < records.len()
        invariant
            rs == pairs_view(records@),
            i <= records@.len(),
            result is Some <==> apply_puts(Map::empty(), rs.take(i as int)).contains_key(key@),
            result matches Some(v) ==> v@ == apply_puts(Map::empty(), rs.take(i as int))[key@],
        decreases records@.len() - i,
    {
        assert(rs.take(i + 1).drop_last() =~= rs.take(i as int));
        assert(rs[i as int] == (records@[i as int].0@, records@[i as int].1@));
        if records[i].0.as_slice().len() == key.len() {
            if let std::cmp::Ordering::Equal = crate::keys::compare_keys(records[i].0.as_slice(), key) {
                result = Some(slice_to_vec(records[i].1.as_slice()));
            }
        } else {
            assert(rs[i as int].0 != key@);
        }
        i = i + 1;
    }
    assert(rs.take(i as int) =~= rs);
    result
}

} // verus!
