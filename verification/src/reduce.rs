//! The reduction pipeline: a partition's lines parsed and folded into a
//! local table, and local tables merged into the final table.
//!
//! The model of a byte region is `records_of`: the sequence of parsed
//! `(key, value)` records of its lines, a malformed line contributing
//! nothing.  `map_of_records` folds that sequence into the key-to-record
//! map that every aggregation path must produce.

use vstd::prelude::*;
use vstd::slice::slice_subrange;
use crate::bytes::{
    NL,
    SEMI,
    find_byte,
    lemma_find_byte,
    lemma_find_byte_is,
    lemma_find_byte_absent,
    find_first,
    read_line,
};
use crate::numbers::{dec_value, parse_value, lemma_dec_value_bounds, VAL_LIMIT};
use crate::record::{RecordV, recv_spec, empty_rec, sum_of};
use crate::table::{SMap, observe_map, merge_map};
use crate::partition::{Partition, parts_wf, divide};

verus! {

/// The record denoted by one line: the bytes before the first delimiter are
/// the key, the bytes after it must form a value of the numeric grammar.
/// A line without a delimiter, or with a malformed value, denotes nothing.
/// The key is taken as it stands and may be empty: a line `;1.0` denotes a
/// record of the empty key, as only a missing delimiter or a bad value
/// makes a line malformed.
pub open spec fn line_rec(l: Seq<u8>) -> Option<(Seq<u8>, int)> {
    let c = find_byte(l, SEMI);
    if c == l.len() {
        None
    } else {
        match dec_value(l.skip(c + 1)) {
            None => None,
            Some(v) => Some((l.take(c), v)),
        }
    }
}

pub open spec fn rec_seq(l: Seq<u8>) -> Seq<(Seq<u8>, int)> {
    match line_rec(l) {
        None => Seq::empty(),
        Some(r) => seq![r],
    }
}

/// The records of a region, line by line: lines are cut at each terminator,
/// the bytes after the last terminator forming the final line.
pub open spec fn records_of(s: Seq<u8>) -> Seq<(Seq<u8>, int)>
    decreases s.len(),
    via records_of_dec
{
    if s.len() == 0 {
        Seq::empty()
    } else {
        let i = find_byte(s, NL);
        if i < s.len() {
            rec_seq(s.take(i)) + records_of(s.skip(i + 1))
        } else {
            rec_seq(s)
        }
    }
}

#[via_fn]
proof fn records_of_dec(s: Seq<u8>) {
    lemma_find_byte(s, NL);
}

/// The key-to-record map denoted by a record sequence: each record folded
/// into its key's entry, in order.
pub open spec fn map_of_records(rs: Seq<(Seq<u8>, int)>) -> Map<Seq<u8>, RecordV>
    decreases rs.len(),
{
    if rs.len() == 0 {
        Map::empty()
    } else {
        observe_map(map_of_records(rs.drop_last()), rs.last().0, rs.last().1)
    }
}

/// Parses one line into its key and scaled value, or `None` for a malformed
/// line.
pub fn read_values(slice: &[u8]) -> (r: Option<(&[u8], i64)>)
    ensures
        match r {
            Some(p) => line_rec(slice@) == Some((p.0@, p.1 as int)) && -VAL_LIMIT < p.1
                < VAL_LIMIT,
            None => line_rec(slice@) is None,
        },
{
    proof {
        lemma_find_byte(slice@, SEMI);
    }
    match find_first(SEMI, slice) {
        None => {
            proof {
                lemma_find_byte_absent(slice@, SEMI);
            }
            None
        },
        Some(c) => {
            proof {
                lemma_find_byte_is(slice@, SEMI, c as int);
            }
            let n = slice.len();
            assert(c < n);
            let name = slice_subrange(slice, 0, c);
            let num = slice_subrange(slice, c + 1, n);
            proof {
                assert(name@ =~= slice@.take(c as int));
                assert(num@ =~= slice@.skip(c as int + 1));
            }
            match parse_value(num) {
                None => None,
                Some(v) => Some((name, v)),
            }
        },
    }
}

/// Every record of a sequence raises its key's count by one, so no count in
/// the folded map exceeds the sequence's length.
pub proof fn lemma_map_of_records_counts(rs: Seq<(Seq<u8>, int)>)
    ensures
        forall|k: Seq<u8>| #[trigger]
            map_of_records(rs).contains_key(k) ==> 0 <= map_of_records(rs)[k].count <= rs.len(),
    decreases rs.len(),
{
    if rs.len() > 0 {
        let pre = rs.drop_last();
        lemma_map_of_records_counts(pre);
        assert forall|k: Seq<u8>| #[trigger]
            map_of_records(rs).contains_key(k) implies 0 <= map_of_records(rs)[k].count
            <= rs.len() by {
            if k == rs.last().0 {
                if map_of_records(pre).contains_key(k) {
                    assert(map_of_records(pre)[k].count <= pre.len());
                }
            } else {
                assert(map_of_records(rs)[k] == map_of_records(pre)[k]);
            }
        }
    }
}

/// Reduces one partition: scans its lines, parses each, and folds every
/// parsed record into a fresh local table, which it returns.
pub fn process_partition(region: &[u8], p: Partition) -> (m: SMap)
    requires
        p.start <= p.end <= region@.len(),
    ensures
        m.wf(),
        m@ == map_of_records(records_of(region@.subrange(p.start as int, p.end as int))),
        forall|k: Seq<u8>| #[trigger]
            m@.contains_key(k) ==> 0 <= m@[k].count <= p.end - p.start,
{
    let ghost s0 = region@.subrange(p.start as int, p.end as int);
    let mut m = SMap::with_capacity(1000);
    let mut rem: &[u8] = slice_subrange(region, p.start, p.end);
    let ghost mut rs_done: Seq<(Seq<u8>, int)> = Seq::empty();
    proof {
        assert(rem@ =~= s0);
        assert(rs_done + records_of(rem@) =~= records_of(s0));
        assert(m@ =~= map_of_records(rs_done));
    }
    while rem.len() > 0
        invariant
            m.wf(),
            m@ == map_of_records(rs_done),
            records_of(s0) == rs_done + records_of(rem@),
            rs_done.len() + rem@.len() <= s0.len(),
            s0.len() <= usize::MAX,
            forall|k: Seq<u8>| #[trigger] m@.contains_key(k) ==> 0 <= m@[k].count
                <= rs_done.len(),
        decreases rem@.len(),
    {
        let ghost rem0 = rem@;
        let ghost rs_prev = rs_done;
        proof {
            lemma_find_byte(rem0, NL);
        }
        let (line, rest) = read_line(rem);
        proof {
            if find_byte(rem0, NL) < rem0.len() {
                assert(records_of(rem0) == rec_seq(line@) + records_of(rest@));
            } else {
                assert(rest@.len() == 0);
                assert(records_of(rest@) =~= Seq::<(Seq<u8>, int)>::empty());
                assert(records_of(rem0) == rec_seq(line@));
                assert(records_of(rem0) =~= rec_seq(line@) + records_of(rest@));
            }
            assert(rem0.len() > rest@.len());
        }
        match read_values(line) {
            Some((name, v)) => {
                proof {
                    assert(usize::MAX <= u64::MAX);
                    if m@.contains_key(name@) {
                        assert(m@[name@].count <= rs_done.len());
                        assert(rs_done.len() < s0.len());
                    }
                }
                m.observe(name, v);
                proof {
                    rs_done = rs_done.push((name@, v as int));
                    assert(rs_done.drop_last() =~= rs_prev);
                    assert(rec_seq(line@) =~= seq![(name@, v as int)]);
                    assert(m@ == map_of_records(rs_done));
                    assert(rs_prev + (rec_seq(line@) + records_of(rest@)) =~= rs_done
                        + records_of(rest@));
                }
            },
            None => {
                proof {
                    assert(rec_seq(line@) =~= Seq::<(Seq<u8>, int)>::empty());
                    assert(rs_prev + (rec_seq(line@) + records_of(rest@)) =~= rs_done
                        + records_of(rest@));
                }
            },
        }
        rem = rest;
    }
    proof {
        assert(records_of(rem@) =~= Seq::<(Seq<u8>, int)>::empty());
        assert(records_of(s0) =~= rs_done);
    }
    m
}

/// Every value a record sequence can carry lies strictly within the value
/// bound.
pub open spec fn recs_bounded(rs: Seq<(Seq<u8>, int)>) -> bool {
    forall|j: int|
        0 <= j < rs.len() ==> -(VAL_LIMIT as int) < (#[trigger] rs[j]).1 < VAL_LIMIT as int
}

pub proof fn lemma_records_of_bounded(s: Seq<u8>)
    ensures
        recs_bounded(records_of(s)),
    decreases s.len(),
{
    lemma_find_byte(s, NL);
    if s.len() == 0 {
    } else {
        let i = find_byte(s, NL);
        if i < s.len() {
            lemma_records_of_bounded(s.skip(i + 1));
            let first = rec_seq(s.take(i));
            if line_rec(s.take(i)) is Some {
                lemma_dec_value_bounds(s.take(i).skip(find_byte(s.take(i), SEMI) + 1));
            }
            assert forall|j: int| 0 <= j < records_of(s).len() implies -(VAL_LIMIT as int) < (
            #[trigger] records_of(s)[j]).1 < VAL_LIMIT as int by {
                if j >= first.len() {
                    assert(records_of(s)[j] == records_of(s.skip(i + 1))[j - first.len()]);
                }
            }
        } else {
            if line_rec(s) is Some {
                lemma_dec_value_bounds(s.skip(find_byte(s, SEMI) + 1));
            }
        }
    }
}

pub proof fn lemma_records_len(s: Seq<u8>)
    ensures
        records_of(s).len() <= s.len(),
    decreases s.len(),
{
    lemma_find_byte(s, NL);
    if s.len() > 0 {
        let i = find_byte(s, NL);
        if i < s.len() {
            lemma_records_len(s.skip(i + 1));
        }
    }
}

/// Merging an empty table changes nothing.
pub proof fn lemma_merge_map_empty(a: Map<Seq<u8>, RecordV>)
    ensures
        merge_map(a, Map::empty()) == a,
{
    assert(merge_map(a, Map::<Seq<u8>, RecordV>::empty()) =~= a);
}

/// Folding one observation into the right-hand table commutes with merging.
pub proof fn lemma_observe_merge(
    a: Map<Seq<u8>, RecordV>,
    b: Map<Seq<u8>, RecordV>,
    k: Seq<u8>,
    v: int,
)
    requires
        i64::MIN < v < i64::MAX,
    ensures
        observe_map(merge_map(a, b), k, v) == merge_map(a, observe_map(b, k, v)),
{
    crate::record::lemma_recv_merge(
        if a.contains_key(k) {
            a[k]
        } else {
            empty_rec()
        },
        if b.contains_key(k) {
            b[k]
        } else {
            empty_rec()
        },
        v,
    );
    assert(observe_map(merge_map(a, b), k, v) =~= merge_map(a, observe_map(b, k, v)));
}

/// The fold of two record sequences laid end to end is the merge of their
/// separate folds: local tables of disjoint partitions can be merged.
pub proof fn lemma_map_of_records_concat(rs1: Seq<(Seq<u8>, int)>, rs2: Seq<(Seq<u8>, int)>)
    requires
        recs_bounded(rs2),
    ensures
        map_of_records(rs1 + rs2) == merge_map(map_of_records(rs1), map_of_records(rs2)),
    decreases rs2.len(),
{
    if rs2.len() == 0 {
        assert(rs1 + rs2 =~= rs1);
        lemma_merge_map_empty(map_of_records(rs1));
    } else {
        let pre2 = rs2.drop_last();
        let r = rs2.last();
        assert(recs_bounded(pre2));
        lemma_map_of_records_concat(rs1, pre2);
        assert((rs1 + rs2).drop_last() =~= rs1 + pre2);
        assert((rs1 + rs2).len() > 0);
        assert((rs1 + rs2).last() == r);
        lemma_observe_merge(map_of_records(rs1), map_of_records(pre2), r.0, r.1);
    }
}

/// Cutting a region at a line boundary splits its records into the records
/// of the two sides.
pub proof fn lemma_records_split(s: Seq<u8>, j: int)
    requires
        0 <= j <= s.len(),
        j == 0 || s[j - 1] == NL,
    ensures
        records_of(s) == records_of(s.take(j)) + records_of(s.skip(j)),
    decreases s.len(),
{
    if j == 0 {
        assert(records_of(s.take(0)) =~= Seq::<(Seq<u8>, int)>::empty());
        assert(s.skip(0) =~= s);
        assert(records_of(s.take(0)) + records_of(s) =~= records_of(s));
    } else {
        lemma_find_byte(s, NL);
        let i = find_byte(s, NL);
        assert(i <= j - 1);
        let t = s.take(j);
        assert(t[i] == s[i]);
        assert(forall|j2: int| 0 <= j2 < i ==> t[j2] == s[j2]);
        lemma_find_byte_is(t, NL, i);
        assert(t.take(i) =~= s.take(i));
        if i + 1 == j {
            assert(t.skip(i + 1).len() == 0);
            assert(records_of(t.skip(i + 1)) =~= Seq::<(Seq<u8>, int)>::empty());
            assert(records_of(t) =~= rec_seq(s.take(i)));
            assert(s.skip(j) =~= s.skip(i + 1));
            assert(records_of(t) + records_of(s.skip(j)) =~= rec_seq(s.take(i)) + records_of(
                s.skip(i + 1),
            ));
        } else {
            let s2 = s.skip(i + 1);
            assert(s2[j - i - 2] == s[j - 1]);
            lemma_records_split(s2, j - i - 1);
            assert(s2.take(j - i - 1) =~= t.skip(i + 1));
            assert(s2.skip(j - i - 1) =~= s.skip(j));
            assert(rec_seq(s.take(i)) + (records_of(t.skip(i + 1)) + records_of(s.skip(j)))
                =~= (rec_seq(s.take(i)) + records_of(t.skip(i + 1))) + records_of(s.skip(j)));
        }
    }
}

/// The aggregation result is a function of the region's bytes alone:
/// `aggregate` promises its table equals `map_of_records(records_of(region))`
/// whatever partition count it is handed, so two runs over one region with
/// different counts yield equal tables, key for key and field for field.
pub proof fn lemma_partition_count_irrelevant(
    m1: Map<Seq<u8>, RecordV>,
    m2: Map<Seq<u8>, RecordV>,
    s: Seq<u8>,
)
    requires
        m1 == map_of_records(records_of(s)),
        m2 == map_of_records(records_of(s)),
    ensures
        m1 == m2,
{
}

pub open spec fn vals_of(rs: Seq<(Seq<u8>, int)>) -> Seq<int> {
    rs.map_values(|r: (Seq<u8>, int)| r.1)
}

/// A sequence of records of one single key folds to a table of that key
/// alone, whose count is the number of records, whose sum is the sum of the
/// values, and whose minimum and maximum are an observed value below,
/// respectively above, every observed value.
pub proof fn lemma_single_key_stats(rs: Seq<(Seq<u8>, int)>, k: Seq<u8>)
    requires
        rs.len() > 0,
        recs_bounded(rs),
        forall|j: int| 0 <= j < rs.len() ==> (#[trigger] rs[j]).0 == k,
    ensures
        map_of_records(rs).contains_key(k),
        forall|k2: Seq<u8>| k2 != k ==> !map_of_records(rs).contains_key(k2),
        map_of_records(rs)[k].count == rs.len(),
        map_of_records(rs)[k].sum == sum_of(vals_of(rs)),
        exists|j: int| 0 <= j < rs.len() && map_of_records(rs)[k].min == (#[trigger] rs[j]).1,
        forall|j: int| 0 <= j < rs.len() ==> map_of_records(rs)[k].min <= (#[trigger] rs[j]).1,
        exists|j: int| 0 <= j < rs.len() && map_of_records(rs)[k].max == (#[trigger] rs[j]).1,
        forall|j: int| 0 <= j < rs.len() ==> map_of_records(rs)[k].max >= (#[trigger] rs[j]).1,
    decreases rs.len(),
{
    let pre = rs.drop_last();
    let v = rs.last().1;
    assert(vals_of(rs).drop_last() =~= vals_of(pre));
    assert(vals_of(rs).last() == v);
    if rs.len() == 1 {
        assert(map_of_records(rs) == observe_map(map_of_records(pre), k, v));
        assert(map_of_records(pre) =~= Map::<Seq<u8>, RecordV>::empty());
        assert(map_of_records(rs)[k] == recv_spec(empty_rec(), v));
        assert(map_of_records(rs)[k].min == v);
        assert(map_of_records(rs)[k].max == v);
        assert(vals_of(pre).len() == 0);
        assert(sum_of(vals_of(pre)) == 0);
        assert(sum_of(vals_of(rs)) == v);
    } else {
        assert(recs_bounded(pre));
        lemma_single_key_stats(pre, k);
        let prev = map_of_records(pre)[k];
        assert(map_of_records(rs)[k] == recv_spec(prev, v));
        assert forall|j: int| 0 <= j < rs.len() implies map_of_records(rs)[k].min <= (
        #[trigger] rs[j]).1 by {
            if j < pre.len() {
                assert(pre[j] == rs[j]);
            }
        }
        assert forall|j: int| 0 <= j < rs.len() implies map_of_records(rs)[k].max >= (
        #[trigger] rs[j]).1 by {
            if j < pre.len() {
                assert(pre[j] == rs[j]);
            }
        }
        if v < prev.min {
            assert(map_of_records(rs)[k].min == rs[rs.len() - 1].1);
        } else {
            let j0 = choose|j0: int| 0 <= j0 < pre.len() && prev.min == (#[trigger] pre[j0]).1;
            assert(map_of_records(rs)[k].min == (rs[j0]).1);
        }
        if prev.max < v {
            assert(map_of_records(rs)[k].max == rs[rs.len() - 1].1);
        } else {
            let j0 = choose|j0: int| 0 <= j0 < pre.len() && prev.max == (#[trigger] pre[j0]).1;
            assert(map_of_records(rs)[k].max == (rs[j0]).1);
        }
    }
}

/// The region rebuilt from its well-formed lines alone: every malformed
/// line is removed together with its terminator, every kept line stands as
/// it stood.
pub open spec fn clean_of(s: Seq<u8>) -> Seq<u8>
    decreases s.len(),
    via clean_of_dec
{
    if s.len() == 0 {
        Seq::empty()
    } else {
        let i = find_byte(s, NL);
        if i < s.len() {
            if line_rec(s.take(i)) is Some {
                s.take(i + 1) + clean_of(s.skip(i + 1))
            } else {
                clean_of(s.skip(i + 1))
            }
        } else {
            if line_rec(s) is Some {
                s
            } else {
                Seq::empty()
            }
        }
    }
}

#[via_fn]
proof fn clean_of_dec(s: Seq<u8>) {
    lemma_find_byte(s, NL);
}

/// Malformed lines are dropped without trace: a region with every malformed
/// line removed carries the same records, so by `aggregate`'s contract the
/// two regions aggregate to equal tables.
pub proof fn lemma_malformed_lines_removed(s: Seq<u8>)
    ensures
        records_of(clean_of(s)) == records_of(s),
    decreases s.len(),
{
    if s.len() > 0 {
        lemma_find_byte(s, NL);
        let i = find_byte(s, NL);
        if i < s.len() {
            lemma_malformed_lines_removed(s.skip(i + 1));
            let l = s.take(i);
            if line_rec(l) is Some {
                let c = s.take(i + 1) + clean_of(s.skip(i + 1));
                assert(c[i] == s[i]);
                assert(forall|j: int| 0 <= j < i ==> c[j] == s[j]);
                lemma_find_byte_is(c, NL, i);
                assert(c.take(i) =~= l);
                assert(c.skip(i + 1) =~= clean_of(s.skip(i + 1)));
                assert(records_of(c) == rec_seq(l) + records_of(clean_of(s.skip(i + 1))));
            } else {
                assert(rec_seq(l) =~= Seq::<(Seq<u8>, int)>::empty());
                assert(rec_seq(l) + records_of(s.skip(i + 1)) =~= records_of(s.skip(i + 1)));
            }
        }
    }
}

/// A line that parses to no record contributes nothing: inserting it, with
/// its terminator, anywhere between two line-aligned halves of a region
/// leaves the region's records unchanged.  With `aggregate`'s contract, the
/// aggregation of a region with such lines equals the aggregation of the
/// region with them removed.
pub proof fn lemma_malformed_line_dropped(pre: Seq<u8>, bad: Seq<u8>, rest: Seq<u8>)
    requires
        pre.len() == 0 || pre.last() == NL,
        forall|j: int| 0 <= j < bad.len() ==> (#[trigger] bad[j]) != NL,
        line_rec(bad) is None,
    ensures
        records_of(pre + bad + seq![NL] + rest) == records_of(pre + rest),
{
    let s1 = pre + bad + seq![NL] + rest;
    let s2 = pre + rest;
    let mid = bad + seq![NL] + rest;
    if pre.len() > 0 {
        assert(s1[pre.len() - 1] == pre.last());
        assert(s2[pre.len() - 1] == pre.last());
    }
    lemma_records_split(s1, pre.len() as int);
    lemma_records_split(s2, pre.len() as int);
    assert(s1.take(pre.len() as int) =~= pre);
    assert(s1.skip(pre.len() as int) =~= mid);
    assert(s2.take(pre.len() as int) =~= pre);
    assert(s2.skip(pre.len() as int) =~= rest);
    assert(mid[bad.len() as int] == NL);
    assert(forall|j: int| 0 <= j < bad.len() ==> mid[j] == bad[j]);
    lemma_find_byte_is(mid, NL, bad.len() as int);
    assert(mid.take(bad.len() as int) =~= bad);
    assert(mid.skip(bad.len() as int + 1) =~= rest);
    assert(records_of(mid) == rec_seq(bad) + records_of(rest));
    assert(rec_seq(bad) + records_of(rest) =~= records_of(rest));
    assert(records_of(pre) + records_of(mid) =~= records_of(pre) + records_of(rest));
}

/// Aggregates the whole region: partitions it, reduces every partition to a
/// local table, and merges the local tables in order.  The result is the
/// fold of all parsed records of the region, whatever partition count is
/// asked for: any two counts yield the same table.
pub fn aggregate(region: &[u8], partition_count: usize) -> (m: SMap)
    ensures
        m.wf(),
        m@ == map_of_records(records_of(region@)),
{
    let parts = divide(region, partition_count);
    let mut m = SMap::new();
    let n = parts.len();
    let mut i: usize = 0;
    proof {
        assert(region@.take(0) =~= Seq::<u8>::empty());
        assert(m@ =~= map_of_records(records_of(region@.take(0))));
    }
    while i < n
        invariant
            m.wf(),
            n == parts@.len(),
            0 <= i <= n,
            parts_wf(region@, parts@),
            m@ == map_of_records(
                records_of(
                    region@.take(
                        if i == 0 {
                            0int
                        } else {
                            parts@[i - 1].end as int
                        },
                    ),
                ),
            ),
        decreases n - i,
    {
        let ghost off: int = if i == 0 {
            0int
        } else {
            parts@[i - 1].end as int
        };
        let p = parts[i];
        proof {
            assert(p.start as int == off);
        }
        let local = process_partition(region, p);
        proof {
            let s = region@;
            let sub = s.subrange(p.start as int, p.end as int);
            let t_end = s.take(p.end as int);
            if p.start > 0 {
                assert(t_end[p.start - 1] == s[p.start - 1]);
            }
            lemma_records_split(t_end, p.start as int);
            assert(t_end.take(p.start as int) =~= s.take(p.start as int));
            assert(t_end.skip(p.start as int) =~= sub);
            lemma_records_of_bounded(sub);
            lemma_map_of_records_concat(records_of(s.take(p.start as int)), records_of(sub));
            lemma_map_of_records_counts(records_of(s.take(p.start as int)));
            lemma_records_len(s.take(p.start as int));
            assert(usize::MAX <= u64::MAX);
            assert forall|k: Seq<u8>|
                m@.contains_key(k) && local@.contains_key(k) implies m@[k].count
                + local@[k].count <= u64::MAX by {
                assert(m@[k].count <= p.start);
                assert(local@[k].count <= p.end - p.start);
            }
        }
        m.merge_from(&local);
        i = i + 1;
        proof {
            assert(m@ == map_of_records(records_of(region@.take(parts@[i - 1].end as int))));
        }
    }
    proof {
        if n == 0 {
            assert(region@.len() == 0);
            assert(region@.take(0) =~= region@);
        } else {
            assert(parts@[n - 1].end == region@.len());
            assert(region@.take(region@.len() as int) =~= region@);
        }
    }
    m
}

} // verus!
