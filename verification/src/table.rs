//! The key-to-record table: unique keys, each with its statistics record,
//! viewed as a mathematical map from byte keys to record values.

use vstd::prelude::*;
use vstd::slice::slice_to_vec;
use crate::record::{Record, RecordV, rec_wf, recv_spec, merge_spec, empty_rec};
use crate::numbers::VAL_LIMIT;

verus! {

pub struct Entry {
    pub key: Vec<u8>,
    pub rec: Record,
}

pub open spec fn entries_unique(es: Seq<Entry>) -> bool {
    forall|i: int, j: int|
        0 <= i < j < es.len() ==> (#[trigger] es[i].key@) != (#[trigger] es[j].key@)
}

pub open spec fn has_key(es: Seq<Entry>, k: Seq<u8>) -> bool {
    exists|j: int| 0 <= j < es.len() && (#[trigger] es[j].key@) == k
}

pub open spec fn entry_rec(es: Seq<Entry>, k: Seq<u8>) -> RecordV {
    let j = choose|j: int| 0 <= j < es.len() && (#[trigger] es[j].key@) == k;
    es[j].rec@
}

pub open spec fn map_of_entries(es: Seq<Entry>) -> Map<Seq<u8>, RecordV> {
    Map::new(|k: Seq<u8>| has_key(es, k), |k: Seq<u8>| entry_rec(es, k))
}

/// With unique keys, the record of the entry at `j` is the map's value at
/// that entry's key.
pub proof fn lemma_entry_rec_is(es: Seq<Entry>, j: int)
    requires
        entries_unique(es),
        0 <= j < es.len(),
    ensures
        has_key(es, es[j].key@),
        entry_rec(es, es[j].key@) == es[j].rec@,
{
    let k = es[j].key@;
    assert(has_key(es, k));
    let j2 = choose|j2: int| 0 <= j2 < es.len() && (#[trigger] es[j2].key@) == k;
    if j2 < j {
        assert(es[j2].key@ != es[j].key@);
    } else if j < j2 {
        assert(es[j].key@ != es[j2].key@);
    }
}

/// Replacing the record of one entry, its key kept, updates the map at that
/// key alone.
pub proof fn lemma_entries_update(es: Seq<Entry>, es2: Seq<Entry>, j: int)
    requires
        entries_unique(es),
        0 <= j < es.len(),
        es2.len() == es.len(),
        es2[j].key@ == es[j].key@,
        forall|i: int| 0 <= i < es.len() && i != j ==> es2[i] == es[i],
    ensures
        entries_unique(es2),
        map_of_entries(es2) == map_of_entries(es).insert(es[j].key@, es2[j].rec@),
{
    let k = es[j].key@;
    assert(forall|i: int| 0 <= i < es2.len() ==> (#[trigger] es2[i].key@) == es[i].key@);
    assert(entries_unique(es2));
    lemma_entry_rec_is(es2, j);
    assert forall|k2: Seq<u8>| has_key(es2, k2) && k2 != k implies has_key(es, k2) && entry_rec(
        es2,
        k2,
    ) == entry_rec(es, k2) by {
        let j2 = choose|j2: int| 0 <= j2 < es2.len() && (#[trigger] es2[j2].key@) == k2;
        assert(es[j2].key@ == k2);
        lemma_entry_rec_is(es, j2);
        lemma_entry_rec_is(es2, j2);
    }
    assert forall|k2: Seq<u8>| has_key(es, k2) implies has_key(es2, k2) by {
        let j2 = choose|j2: int| 0 <= j2 < es.len() && (#[trigger] es[j2].key@) == k2;
        assert(es2[j2].key@ == k2);
    }
    assert(map_of_entries(es2) =~= map_of_entries(es).insert(k, es2[j].rec@));
}

/// Appending an entry whose key is fresh inserts that key alone.
pub proof fn lemma_entries_push(es: Seq<Entry>, es2: Seq<Entry>, e: Entry)
    requires
        entries_unique(es),
        !has_key(es, e.key@),
        es2 == es.push(e),
    ensures
        entries_unique(es2),
        map_of_entries(es2) == map_of_entries(es).insert(e.key@, e.rec@),
{
    assert forall|i: int, j: int| 0 <= i < j < es2.len() implies (#[trigger] es2[i].key@) != (
    #[trigger] es2[j].key@) by {
        if j < es.len() {
            assert(es2[i].key@ == es[i].key@ && es2[j].key@ == es[j].key@);
        } else {
            assert(es2[j].key@ == e.key@);
            assert(es2[i].key@ == es[i].key@);
            if es[i].key@ == e.key@ {
                assert(has_key(es, e.key@));
            }
        }
    }
    lemma_entry_rec_is(es2, es.len() as int);
    assert forall|k2: Seq<u8>| has_key(es2, k2) && k2 != e.key@ implies has_key(es, k2)
        && entry_rec(es2, k2) == entry_rec(es, k2) by {
        let j2 = choose|j2: int| 0 <= j2 < es2.len() && (#[trigger] es2[j2].key@) == k2;
        assert(j2 < es.len());
        assert(es[j2].key@ == k2);
        lemma_entry_rec_is(es, j2);
        lemma_entry_rec_is(es2, j2);
    }
    assert forall|k2: Seq<u8>| has_key(es, k2) implies has_key(es2, k2) by {
        let j2 = choose|j2: int| 0 <= j2 < es.len() && (#[trigger] es[j2].key@) == k2;
        assert(es2[j2].key@ == k2);
    }
    assert(map_of_entries(es2) =~= map_of_entries(es).insert(e.key@, e.rec@));
}

/// A map holds one record per key seen, folded by `recv_spec`.
pub open spec fn observe_map(m: Map<Seq<u8>, RecordV>, k: Seq<u8>, v: int) -> Map<
    Seq<u8>,
    RecordV,
> {
    m.insert(
        k,
        recv_spec(
            if m.contains_key(k) {
                m[k]
            } else {
                empty_rec()
            },
            v,
        ),
    )
}

/// The combination of two key-to-record maps: the union of their keys, a
/// shared key's records combined by `merge_spec`.
pub open spec fn merge_map(a: Map<Seq<u8>, RecordV>, b: Map<Seq<u8>, RecordV>) -> Map<
    Seq<u8>,
    RecordV,
> {
    Map::new(
        |k: Seq<u8>| a.contains_key(k) || b.contains_key(k),
        |k: Seq<u8>|
            if a.contains_key(k) && b.contains_key(k) {
                merge_spec(a[k], b[k])
            } else if b.contains_key(k) {
                b[k]
            } else {
                a[k]
            },
    )
}

/// Combining tables is commutative: merge order of two local tables does
/// not matter.
pub proof fn lemma_merge_map_comm(a: Map<Seq<u8>, RecordV>, b: Map<Seq<u8>, RecordV>)
    ensures
        merge_map(a, b) == merge_map(b, a),
{
    assert forall|k: Seq<u8>|
        merge_map(a, b).contains_key(k) implies #[trigger] merge_map(a, b)[k] == merge_map(
        b,
        a,
    )[k] by {
        if a.contains_key(k) && b.contains_key(k) {
            crate::record::lemma_merge_comm(a[k], b[k]);
        }
    }
    assert(merge_map(a, b) =~= merge_map(b, a));
}

/// Combining tables is associative: a reduction tree over local tables may
/// group the merges in any way.
pub proof fn lemma_merge_map_assoc(
    a: Map<Seq<u8>, RecordV>,
    b: Map<Seq<u8>, RecordV>,
    c: Map<Seq<u8>, RecordV>,
)
    ensures
        merge_map(merge_map(a, b), c) == merge_map(a, merge_map(b, c)),
{
    assert forall|k: Seq<u8>|
        merge_map(merge_map(a, b), c).contains_key(k) implies #[trigger] merge_map(
        merge_map(a, b),
        c,
    )[k] == merge_map(a, merge_map(b, c))[k] by {
        if a.contains_key(k) && b.contains_key(k) && c.contains_key(k) {
            crate::record::lemma_merge_assoc(a[k], b[k], c[k]);
        }
    }
    assert(merge_map(merge_map(a, b), c) =~= merge_map(a, merge_map(b, c)));
}

/// Byte-for-byte equality of two byte strings.
pub fn bytes_eq(a: &[u8], b: &[u8]) -> (r: bool)
    ensures
        r <==> a@ == b@,
{
    if a.len() != b.len() {
        return false;
    }
    let n = a.len();
    let mut i: usize = 0;
    while i < n
        invariant
            0 <= i <= n,
            n == a@.len() == b@.len(),
            forall|j: int| 0 <= j < i ==> a@[j] == b@[j],
        decreases n - i,
    {
        if a[i] != b[i] {
            return false;
        }
        i = i + 1;
    }
    proof {
        assert(a@ =~= b@);
    }
    true
}

pub struct SMap {
    pub entries: Vec<Entry>,
}

impl View for SMap {
    type V = Map<Seq<u8>, RecordV>;

    open spec fn view(&self) -> Map<Seq<u8>, RecordV> {
        map_of_entries(self.entries@)
    }
}

impl SMap {
    pub open spec fn wf(self) -> bool {
        &&& entries_unique(self.entries@)
        &&& forall|i: int| 0 <= i < self.entries@.len() ==> rec_wf(#[trigger] self.entries@[i].rec@)
    }

    pub fn new() -> (m: SMap)
        ensures
            m.wf(),
            m@ == Map::<Seq<u8>, RecordV>::empty(),
    {
        let m = SMap { entries: Vec::new() };
        proof {
            assert(m@ =~= Map::<Seq<u8>, RecordV>::empty());
        }
        m
    }

    /// An empty table pre-sized for the expected number of distinct keys.
    pub fn with_capacity(cap: usize) -> (m: SMap)
        ensures
            m.wf(),
            m@ == Map::<Seq<u8>, RecordV>::empty(),
    {
        let m = SMap { entries: Vec::with_capacity(cap) };
        proof {
            assert(m@ =~= Map::<Seq<u8>, RecordV>::empty());
        }
        m
    }

    fn find_key(&self, key: &[u8]) -> (r: Option<usize>)
        ensures
            match r {
                Some(j) => j < self.entries@.len() && self.entries@[j as int].key@ == key@,
                None => !has_key(self.entries@, key@),
            },
    {
        let n = self.entries.len();
        let mut i: usize = 0;
        while i < n
            invariant
                0 <= i <= n,
                n == self.entries@.len(),
                forall|j: int| 0 <= j < i ==> (#[trigger] self.entries@[j].key@) != key@,
            decreases n - i,
    {
            if bytes_eq(self.entries[i].key.as_slice(), key) {
                return Some(i);
            }
            i = i + 1;
        }
        None
    }

    /// Looks up the record of a key.
    pub fn get(&self, key: &[u8]) -> (r: Option<&Record>)
        requires
            self.wf(),
        ensures
            match r {
                Some(rec) => self@.contains_key(key@) && rec@ == self@[key@],
                None => !self@.contains_key(key@),
            },
    {
        match self.find_key(key) {
            Some(j) => {
                proof {
                    lemma_entry_rec_is(self.entries@, j as int);
                }
                Some(&self.entries[j].rec)
            },
            None => None,
        }
    }

    /// Folds one observed value into the record of `key`, creating the
    /// record at its first observation.
    pub fn observe(&mut self, key: &[u8], v: i64)
        requires
            old(self).wf(),
            -VAL_LIMIT < v < VAL_LIMIT,
            old(self)@.contains_key(key@) ==> old(self)@[key@].count < u64::MAX,
        ensures
            final(self).wf(),
            final(self)@ == observe_map(old(self)@, key@, v as int),
    {
        let ghost es = self.entries@;
        match self.find_key(key) {
            Some(j) => {
                proof {
                    lemma_entry_rec_is(es, j as int);
                }
                let mut r = self.entries[j].rec;
                r.recv(v);
                self.entries[j].rec = r;
                proof {
                    lemma_entries_update(es, self.entries@, j as int);
                    assert(final(self)@ == observe_map(old(self)@, key@, v as int));
                }
            },
            None => {
                let mut r = Record::default();
                r.recv(v);
                let e = Entry { key: slice_to_vec(key), rec: r };
                self.entries.push(e);
                proof {
                    lemma_entries_push(es, self.entries@, e);
                    assert(final(self)@ == observe_map(old(self)@, key@, v as int));
                }
            },
        }
    }
    /// Combines every record of `other` into this table: a key of both has
    /// its records merged, a key of `other` alone is inserted as it stands.
    pub fn merge_from(&mut self, other: &SMap)
        requires
            old(self).wf(),
            other.wf(),
            forall|k: Seq<u8>|
                old(self)@.contains_key(k) && other@.contains_key(k) ==> old(self)@[k].count
                    + other@[k].count <= u64::MAX,
        ensures
            final(self).wf(),
            final(self)@ == merge_map(old(self)@, other@),
    {
        let ghost a = old(self)@;
        let ghost os = other.entries@;
        let n = other.entries.len();
        let mut i: usize = 0;
        proof {
            assert(os.take(0) =~= Seq::<Entry>::empty());
            assert(self@ =~= merge_map(a, map_of_entries(os.take(0))));
        }
        while i < n
            invariant
                0 <= i <= n,
                n == os.len(),
                os == other.entries@,
                other.wf(),
                self.wf(),
                self@ == merge_map(a, map_of_entries(os.take(i as int))),
                forall|k: Seq<u8>|
                    a.contains_key(k) && other@.contains_key(k) ==> a[k].count + other@[k].count
                        <= u64::MAX,
            decreases n - i,
        {
            let ghost bprev = map_of_entries(os.take(i as int));
            let ghost ki = os[i as int].key@;
            proof {
                lemma_take_step(os, i as int);
                lemma_entry_rec_is(os, i as int);
                assert(other@.contains_key(ki));
                assert(other@[ki] == os[i as int].rec@);
            }
            let orec = other.entries[i].rec;
            let okey = other.entries[i].key.as_slice();
            match self.find_key(okey) {
                Some(j) => {
                    proof {
                        lemma_entry_rec_is(self.entries@, j as int);
                        assert(self@.contains_key(ki));
                        assert(!bprev.contains_key(ki));
                        assert(self@[ki] == a[ki]);
                    }
                    let ghost es = self.entries@;
                    let mut r = self.entries[j].rec;
                    r.merge(&orec);
                    self.entries[j].rec = r;
                    proof {
                        lemma_entries_update(es, self.entries@, j as int);
                        assert(merge_map(a, bprev.insert(ki, os[i as int].rec@))
                            =~= merge_map(a, bprev).insert(
                            ki,
                            merge_spec(a[ki], os[i as int].rec@),
                        ));
                        assert(self@ == merge_map(a, map_of_entries(os.take(i as int + 1))));
                    }
                },
                None => {
                    proof {
                        assert(!self@.contains_key(ki));
                        assert(!a.contains_key(ki) || bprev.contains_key(ki));
                        assert(!bprev.contains_key(ki));
                        assert(!a.contains_key(ki));
                    }
                    let ghost es = self.entries@;
                    let e = Entry { key: slice_to_vec(okey), rec: orec };
                    self.entries.push(e);
                    proof {
                        lemma_entries_push(es, self.entries@, e);
                        assert(merge_map(a, bprev.insert(ki, os[i as int].rec@))
                            =~= merge_map(a, bprev).insert(ki, os[i as int].rec@));
                        assert(self@ == merge_map(a, map_of_entries(os.take(i as int + 1))));
                    }
                },
            }
            i = i + 1;
        }
        proof {
            assert(os.take(n as int) =~= os);
        }
    }
}

/// Consuming the entries one step further inserts one fresh key: with unique
/// keys, the entry at `i` is not among the first `i`.
pub proof fn lemma_take_step(es: Seq<Entry>, i: int)
    requires
        entries_unique(es),
        0 <= i < es.len(),
    ensures
        !map_of_entries(es.take(i)).contains_key(es[i].key@),
        map_of_entries(es.take(i + 1)) == map_of_entries(es.take(i)).insert(
            es[i].key@,
            es[i].rec@,
        ),
{
    let pre = es.take(i);
    let cur = es.take(i + 1);
    assert(cur =~= pre.push(es[i]));
    if has_key(pre, es[i].key@) {
        let j2 = choose|j2: int| 0 <= j2 < pre.len() && (#[trigger] pre[j2].key@) == es[i].key@;
        assert(es[j2].key@ == es[i].key@);
    }
    assert(entries_unique(cur));
    lemma_entry_rec_is(cur, i);
    assert forall|k: Seq<u8>| has_key(cur, k) && k != es[i].key@ implies has_key(pre, k)
        && entry_rec(cur, k) == entry_rec(pre, k) by {
        let j2 = choose|j2: int| 0 <= j2 < cur.len() && (#[trigger] cur[j2].key@) == k;
        assert(j2 < pre.len());
        assert(pre[j2].key@ == k);
        assert(entries_unique(pre));
        lemma_entry_rec_is(pre, j2);
        lemma_entry_rec_is(cur, j2);
    }
    assert forall|k: Seq<u8>| has_key(pre, k) implies has_key(cur, k) by {
        let j2 = choose|j2: int| 0 <= j2 < pre.len() && (#[trigger] pre[j2].key@) == k;
        assert(cur[j2].key@ == k);
    }
    assert(map_of_entries(cur) =~= map_of_entries(pre).insert(es[i].key@, es[i].rec@));
}

} // verus!
