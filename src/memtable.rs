//! The in-memory buffer of writes since the last flush: a mapping from key to
//! the latest value, kept as a vector of entries in ascending key order.

use vstd::prelude::*;
use vstd::slice::slice_to_vec;
use crate::format::{pairs_view, sorted_keys};
use crate::keys::{compare_keys, key_lt, lemma_lt_asymmetric, lemma_lt_irreflexive, lemma_lt_transitive};

verus! {

/// The mapping left by applying `puts` to `m` in order: a later put of a key
/// replaces an earlier one.
pub open spec fn apply_puts(m: Map<Seq<u8>, Seq<u8>>, puts: Seq<(Seq<u8>, Seq<u8>)>) -> Map<
    Seq<u8>,
    Seq<u8>,
>
    decreases puts.len(),
{
    if puts.len() == 0 {
        m
    } else {
        apply_puts(m, puts.drop_last()).insert(puts.last().0, puts.last().1)
    }
}

/// For entries with distinct keys the mapping holds exactly those entries.
pub proof fn lemma_sorted_map(s: Seq<(Seq<u8>, Seq<u8>)>)
    requires
        sorted_keys(s),
    ensures
        forall|k: Seq<u8>|
            #[trigger] apply_puts(Map::empty(), s).contains_key(k) <==> exists|i: int|
                0 <= i < s.len() && (#[trigger] s[i]).0 == k,
        forall|i: int|
            0 <= i < s.len() ==> #[trigger] apply_puts(Map::empty(), s)[s[i].0] == s[i].1,
    decreases s.len(),
{
    if s.len() > 0 {
        let p = s.drop_last();
        lemma_sorted_map(p);
        let l = s.len() - 1;
        assert forall|k: Seq<u8>|
            #[trigger] apply_puts(Map::empty(), s).contains_key(k) <==> exists|i: int|
                0 <= i < s.len() && (#[trigger] s[i]).0 == k by {
            if apply_puts(Map::empty(), p).contains_key(k) {
                let i = choose|i: int| 0 <= i < p.len() && (#[trigger] p[i]).0 == k;
                assert(s[i] == p[i]);
            }
            if exists|i: int| 0 <= i < s.len() && (#[trigger] s[i]).0 == k {
                let i = choose|i: int| 0 <= i < s.len() && (#[trigger] s[i]).0 == k;
                if i < l {
                    assert(p[i] == s[i]);
                }
            }
        }
        assert forall|i: int| 0 <= i < s.len() implies #[trigger] apply_puts(Map::empty(), s)[s[i].0]
            == s[i].1 by {
            if i < l {
                assert(p[i] == s[i]);
                lemma_lt_irreflexive(s[i].0);
                assert(key_lt(s[i].0, s[l].0));
                assert(s[i].0 != s[l].0);
                assert(apply_puts(Map::empty(), p)[p[i].0] == p[i].1);
            } else {
                assert(s.last() == s[l]);
            }
        }
    }
}

/// An ordered mapping from keys to values: the latest value put under each key.
pub struct Memtable {
    data: Vec<(Vec<u8>, Vec<u8>)>,
}

impl Memtable {
    /// The entries, in ascending key order.
    pub closed spec fn entries(&self) -> Seq<(Seq<u8>, Seq<u8>)> {
        pairs_view(self.data@)
    }

    /// Keys strictly ascending, so each key has one entry.
    pub open spec fn wf(&self) -> bool {
        sorted_keys(self.entries())
    }

    /// The mapping the memtable holds.
    pub open spec fn view(&self) -> Map<Seq<u8>, Seq<u8>> {
        apply_puts(Map::empty(), self.entries())
    }

    /// An empty memtable.
    pub fn new() -> (r: Memtable)
        ensures
            r.wf(),
            r@ == Map::<Seq<u8>, Seq<u8>>::empty(),
    {
        let r = Memtable { data: Vec::new() };
        assert(r.entries() =~= Seq::<(Seq<u8>, Seq<u8>)>::empty());
        r
    }

    /// The number of entries before the first whose key is at least `key`.
    fn lower_bound(&self, key: &[u8]) -> (p: usize)
        requires
            self.wf(),
        ensures
            p <= self.entries().len(),
            forall|j: int| 0 <= j < p ==> key_lt(#[trigger] self.entries()[j].0, key@),
            forall|j: int| p <= j < self.entries().len() ==> !key_lt(#[trigger] self.entries()[j].0, key@),
    {
        let ghost s = self.entries();
        let mut lo: usize = 0;
        let mut hi: usize = self.data.len();
        while lo < hi
            invariant
                s == self.entries(),
                sorted_keys(s),
                0 <= lo <= hi <= s.len(),
                s.len() == self.data@.len(),
                forall|j: int| 0 <= j < lo ==> key_lt(#[trigger] s[j].0, key@),
                forall|j: int| hi <= j < s.len() ==> !key_lt(#[trigger] s[j].0, key@),
            decreases hi - lo,
        {
            let mid = lo + (hi - lo) / 2;
            assert(s[mid as int].0 == self.data@[mid as int].0@);
            match compare_keys(self.data[mid].0.as_slice(), key) {
                std::cmp::Ordering::Less => {
                    assert forall|j: int| 0 <= j <= mid implies key_lt(#[trigger] s[j].0, key@) by {
                        if j < mid {
                            lemma_lt_transitive(s[j].0, s[mid as int].0, key@);
                        }
                    }
                    lo = mid + 1;
                },
                _ => {
                    assert forall|j: int| mid <= j < s.len() implies !key_lt(#[trigger] s[j].0, key@) by {
                        if mid < j && key_lt(s[j].0, key@) {
                            if s[mid as int].0 == key@ {
                                lemma_lt_asymmetric(s[mid as int].0, s[j].0);
                            } else {
                                lemma_lt_transitive(key@, s[mid as int].0, s[j].0);
                                lemma_lt_asymmetric(key@, s[j].0);
                            }
                        }
                    }
                    hi = mid;
                },
            }
        }
        lo
    }

    /// The value held under `key`, if any.
    pub fn get(&self, key: &[u8]) -> (r: Option<Vec<u8>>)
        requires
            self.wf(),
        ensures
            r is Some <==> self@.contains_key(key@),
            r matches Some(v) ==> v@ == self@[key@],
    {
        proof {
            lemma_sorted_map(self.entries());
        }
        let p = self.lower_bound(key);
        if p < self.data.len() {
            assert(self.entries()[p as int].0 == self.data@[p as int].0@);
            if let std::cmp::Ordering::Equal = compare_keys(self.data[p].0.as_slice(), key) {
                assert(self.entries()[p as int].1 == self.data@[p as int].1@);
                return Some(slice_to_vec(self.data[p].1.as_slice()));
            }
        }
        proof {
            let s = self.entries();
            assert forall|i: int| 0 <= i < s.len() implies (#[trigger] s[i]).0 != key@ by {
                if i >= p && s[i].0 == key@ {
                    if i > p {
                        lemma_lt_asymmetric(s[p as int].0, s[i].0);
                    }
                }
                if i < p {
                    lemma_lt_irreflexive(key@);
                }
            }
        }
        None
    }
}

impl Memtable {
    /// Puts `value` under `key`, replacing any value held there.
    pub fn put(&mut self, key: Vec<u8>, value: Vec<u8>)
        requires
            old(self).wf(),
        ensures
            final(self).wf(),
            final(self)@ == old(self)@.insert(key@, value@),
    {
        let ghost s = self.entries();
        let ghost k = key@;
        let ghost v = value@;
        proof {
            lemma_sorted_map(s);
        }
        let p = self.lower_bound(key.as_slice());
        let mut found = false;
        if p < self.data.len() {
            assert(s[p as int].0 == self.data@[p as int].0@);
            if let std::cmp::Ordering::Equal = compare_keys(self.data[p].0.as_slice(), key.as_slice()) {
                found = true;
            }
        }
        if found {
            self.data.set(p, (key, value));
            proof {
                let s2 = self.entries();
                assert(s2 =~= s.update(p as int, (k, v)));
                lemma_sorted_map(s2);
                assert(apply_puts(Map::empty(), s2) =~= apply_puts(Map::empty(), s).insert(k, v)) by {
                    assert forall|x: Seq<u8>|
                        #[trigger] apply_puts(Map::empty(), s).contains_key(x) && x != k implies apply_puts(
                            Map::empty(),
                            s2,
                        ).contains_key(x) && apply_puts(Map::empty(), s2)[x] == apply_puts(
                            Map::empty(),
                            s,
                        )[x] by {
                        let i = choose|i: int| 0 <= i < s.len() && (#[trigger] s[i]).0 == x;
                        assert(s2[i] == s[i]);
                    }
                    assert forall|x: Seq<u8>| #[trigger]
                        apply_puts(Map::empty(), s2).contains_key(x) implies x == k || apply_puts(
                            Map::empty(),
                            s,
                        ).contains_key(x) by {
                        let i = choose|i: int| 0 <= i < s2.len() && (#[trigger] s2[i]).0 == x;
                        if i != p {
                            assert(s2[i] == s[i]);
                        }
                    }
                    assert(s2[p as int] == (k, v));
                }
            }
        } else {
            self.data.insert(p, (key, value));
            proof {
                let s2 = self.entries();
                assert(s2 =~= s.insert(p as int, (k, v)));
                assert forall|j: int| p <= j < s.len() implies key_lt(k, #[trigger] s[j].0) by {
                    if j > p {
                        lemma_lt_asymmetric(s[p as int].0, s[j].0);
                    }
                    crate::keys::lemma_lt_total(k, s[j].0);
                    if j > p && s[j].0 == k {
                        crate::keys::lemma_lt_total(k, s[p as int].0);
                        lemma_lt_asymmetric(s[p as int].0, s[j].0);
                    }
                }
                assert forall|i: int, j: int| 0 <= i < j < s2.len() implies key_lt(
                    s2[i].0,
                    s2[j].0,
                ) by {
                    if i < p && j == p {
                    } else if i < p && j > p {
                        assert(s2[j] == s[j - 1]);
                        lemma_lt_transitive(s2[i].0, k, s2[j].0);
                    } else if i == p {
                        assert(s2[j] == s[j - 1]);
                    } else if i > p {
                        assert(s2[j] == s[j - 1]);
                        assert(s2[i] == s[i - 1]);
                    } else {
                        assert(s2[j] == s[j]);
                        assert(s2[i] == s[i]);
                    }
                }
                lemma_sorted_map(s2);
                assert(apply_puts(Map::empty(), s2) =~= apply_puts(Map::empty(), s).insert(k, v)) by {
                    assert forall|x: Seq<u8>|
                        #[trigger] apply_puts(Map::empty(), s).contains_key(x) implies apply_puts(
                            Map::empty(),
                            s2,
                        ).contains_key(x) && apply_puts(Map::empty(), s2)[x] == apply_puts(
                            Map::empty(),
                            s,
                        )[x] by {
                        let i = choose|i: int| 0 <= i < s.len() && (#[trigger] s[i]).0 == x;
                        if i < p {
                            assert(s2[i] == s[i]);
                            lemma_lt_irreflexive(k);
                        } else {
                            assert(s2[i + 1] == s[i]);
                            assert(key_lt(k, s[i].0));
                            lemma_lt_irreflexive(k);
                        }
                        assert(x != k);
                    }
                    assert forall|x: Seq<u8>| #[trigger]
                        apply_puts(Map::empty(), s2).contains_key(x) implies x == k || apply_puts(
                            Map::empty(),
                            s,
                        ).contains_key(x) by {
                        let i = choose|i: int| 0 <= i < s2.len() && (#[trigger] s2[i]).0 == x;
                        if i < p {
                            assert(s2[i] == s[i]);
                        } else if i > p {
                            assert(s2[i] == s[i - 1]);
                        }
                    }
                    assert(s2[p as int] == (k, v));
                    assert(apply_puts(Map::empty(), s2)[s2[p as int].0] == s2[p as int].1);
                }
            }
        }
    }
}

impl Memtable {
    /// Puts `value` under `key`, as `put` does.
    pub fn insert(&mut self, key: Vec<u8>, value: Vec<u8>)
        requires
            old(self).wf(),
        ensures
            final(self).wf(),
            final(self)@ == old(self)@.insert(key@, value@),
    {
        self.put(key, value);
    }

    /// Removes every entry and returns them in ascending key order.
    pub fn drain(&mut self) -> (r: Vec<(Vec<u8>, Vec<u8>)>)
        requires
            old(self).wf(),
        ensures
            final(self).wf(),
            final(self)@ == Map::<Seq<u8>, Seq<u8>>::empty(),
            pairs_view(r@) == old(self).entries(),
            sorted_keys(pairs_view(r@)),
            apply_puts(Map::empty(), pairs_view(r@)) == old(self)@,
    {
        let mut out: Vec<(Vec<u8>, Vec<u8>)> = Vec::new();
        std::mem::swap(&mut self.data, &mut out);
        assert(self.entries() =~= Seq::<(Seq<u8>, Seq<u8>)>::empty());
        out
    }

    /// Rebuilds a memtable by applying `records` in order, as a replay of
    /// the write-ahead log does: the last record of a key wins.
    pub fn hydrate(records: &Vec<(Vec<u8>, Vec<u8>)>) -> (r: Memtable)
        ensures
            r.wf(),
            r@ == apply_puts(Map::empty(), pairs_view(records@)),
    {
        let ghost rs = pairs_view(records@);
        let mut m = Memtable::new();
        let mut i: usize = 0;
        assert(rs.take(0) =~= Seq::<(Seq<u8>, Seq<u8>)>::empty());
        while i < records.len()
            invariant
                rs == pairs_view(records@),
                i <= records@.len(),
                m.wf(),
                m@ == apply_puts(Map::empty(), rs.take(i as int)),
            decreases records@.len() - i,
        {
            let k = slice_to_vec(records[i].0.as_slice());
            let v = slice_to_vec(records[i].1.as_slice());
            m.put(k, v);
            assert(rs.take(i + 1).drop_last() =~= rs.take(i as int));
            i = i + 1;
        }
        assert(rs.take(i as int) =~= rs);
        m
    }
}

} // verus!
