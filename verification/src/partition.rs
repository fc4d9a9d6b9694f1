//! The partitioner: splits a byte region into contiguous, line-aligned
//! chunks of roughly even size, so that no line crosses a chunk boundary.

use vstd::prelude::*;
use vstd::slice::{slice_subrange, slice_index_get};
use crate::bytes::{NL, find_byte, lemma_find_byte_is, lemma_find_byte_absent, find_first};

verus! {

/// One contiguous chunk of the region: the bytes at `start..end`.
#[derive(Clone, Copy, Debug, PartialEq, Eq, Structural)]
pub struct Partition {
    pub start: usize,
    pub end: usize,
}

/// The naive chunk size: the region length over the requested count, with
/// both the count and the size clamped to at least one.
pub open spec fn spec_chunk_size(len: int, n: int) -> int {
    let n1 = if n <= 0 {
        1
    } else {
        n
    };
    let c = len / n1;
    if c == 0 {
        1
    } else {
        c
    }
}

/// Where the chunk beginning at `from` ends: at the naive boundary when the
/// byte just before it is a line terminator; otherwise right after the next
/// line terminator; otherwise at the end of the region.
pub open spec fn chunk_end(s: Seq<u8>, cs: int, from: int) -> int {
    if from + cs >= s.len() {
        s.len() as int
    } else if s[from + cs - 1] == NL {
        from + cs
    } else {
        let i = find_byte(s.skip(from + cs), NL);
        if i < s.len() - (from + cs) {
            from + cs + i + 1
        } else {
            s.len() as int
        }
    }
}

/// The partitions tile the whole region in order, each non-empty, and every
/// partition after the first begins right after a line terminator.
pub open spec fn parts_wf(s: Seq<u8>, ps: Seq<Partition>) -> bool {
    &&& forall|i: int|
        0 <= i < ps.len() ==> (#[trigger] ps[i]).start < ps[i].end <= s.len()
    &&& ps.len() > 0 ==> ps[0].start == 0 && ps[ps.len() - 1].end == s.len()
    &&& forall|i: int| 0 <= i < ps.len() - 1 ==> (#[trigger] ps[i]).end == ps[i + 1].start
    &&& forall|i: int| 0 < i < ps.len() ==> s[(#[trigger] ps[i]).start - 1] == NL
}

/// Splits the region into at least one and roughly `n` line-aligned chunks;
/// an empty region yields no chunk.  A count of zero is treated as one.
/// At most one chunk beyond the requested count is ever produced: once `n`
/// chunks are cut, a trailing chunk absorbs whatever bytes remain.
pub fn divide(region: &[u8], n: usize) -> (ps: Vec<Partition>)
    ensures
        parts_wf(region@, ps@),
        ps@.len() == 0 <==> region@.len() == 0,
        ps@.len() <= (if n == 0 {
            1int
        } else {
            n as int
        }) + 1,
        forall|i: int|
            0 <= i < ps@.len() && i < (if n == 0 {
                1int
            } else {
                n as int
            }) ==> (#[trigger] ps@[i]).end == chunk_end(
                region@,
                spec_chunk_size(region@.len() as int, n as int),
                ps@[i].start as int,
            ),
{
    let len = region.len();
    let n1: usize = if n == 0 {
        1
    } else {
        n
    };
    let c0: usize = len / n1;
    let cs: usize = if c0 == 0 {
        1
    } else {
        c0
    };
    let mut ps: Vec<Partition> = Vec::new();
    let mut from: usize = 0;
    while from < len
        invariant
            0 <= from <= len,
            len == region@.len(),
            1 <= cs,
            cs == spec_chunk_size(len as int, n as int),
            n1 as int == (if n == 0 {
                1int
            } else {
                n as int
            }),
            from == 0 <==> ps@.len() == 0,
            ps@.len() <= n1 as int + 1,
            from < len ==> ps@.len() <= n1 as int,
            ps@.len() > 0 ==> ps@[0].start == 0 && ps@[ps@.len() - 1].end == from,
            from == 0 || from == len || region@[from - 1] == NL,
            forall|i: int| 0 <= i < ps@.len() ==> (#[trigger] ps@[i]).start < ps@[i].end <= len,
            forall|i: int| 0 <= i < ps@.len() - 1 ==> (#[trigger] ps@[i]).end == ps@[i + 1].start,
            forall|i: int| 0 < i < ps@.len() ==> region@[(#[trigger] ps@[i]).start - 1] == NL,
            forall|i: int|
                0 <= i < ps@.len() && i < n1 ==> (#[trigger] ps@[i]).end == chunk_end(
                    region@,
                    cs as int,
                    ps@[i].start as int,
                ),
        decreases len - from,
    {
        let end: usize;
        if ps.len() >= n1 {
            // the chunk budget is spent: the trailing chunk takes the rest
            end = len;
        } else if cs >= len - from {
            end = len;
        } else {
            let naive = from + cs;
            if *slice_index_get(region, naive - 1) == NL {
                end = naive;
            } else {
                let tail = slice_subrange(region, naive, len);
                proof {
                    assert(tail@ =~= region@.skip(naive as int));
                }
                match find_first(NL, tail) {
                    Some(i) => {
                        proof {
                            lemma_find_byte_is(region@.skip(naive as int), NL, i as int);
                        }
                        end = naive + i + 1;
                    },
                    None => {
                        proof {
                            lemma_find_byte_absent(region@.skip(naive as int), NL);
                        }
                        end = len;
                    },
                }
            }
        }
        assert(ps@.len() < n1 as int ==> end == chunk_end(region@, cs as int, from as int));
        assert(from < end <= len);
        assert(end < len ==> region@[end - 1] == NL);
        ps.push(Partition { start: from, end });
        from = end;
    }
    ps
}

/// The bytes of the partitions, in order, laid end to end.
pub open spec fn concat_parts(s: Seq<u8>, ps: Seq<Partition>) -> Seq<u8>
    decreases ps.len(),
{
    if ps.len() == 0 {
        Seq::empty()
    } else {
        concat_parts(s, ps.drop_last()) + s.subrange(
            ps.last().start as int,
            ps.last().end as int,
        )
    }
}

proof fn lemma_concat_prefix(s: Seq<u8>, ps: Seq<Partition>)
    requires
        forall|i: int| 0 <= i < ps.len() ==> (#[trigger] ps[i]).start < ps[i].end <= s.len(),
        ps.len() > 0 ==> ps[0].start == 0,
        forall|i: int| 0 <= i < ps.len() - 1 ==> (#[trigger] ps[i]).end == ps[i + 1].start,
    ensures
        concat_parts(s, ps) == s.take(
            if ps.len() == 0 {
                0
            } else {
                ps[ps.len() - 1].end as int
            },
        ),
    decreases ps.len(),
{
    if ps.len() == 0 {
        assert(concat_parts(s, ps) =~= s.take(0));
    } else {
        let pre = ps.drop_last();
        lemma_concat_prefix(s, pre);
        let prev_end: int = if pre.len() == 0 {
            0
        } else {
            pre[pre.len() - 1].end as int
        };
        assert(ps.last().start == prev_end);
        assert(s.take(prev_end) + s.subrange(prev_end, ps.last().end as int) =~= s.take(
            ps.last().end as int,
        ));
    }
}

/// The partitions reassemble the region byte for byte; with `parts_wf`'s
/// alignment of every cut to a line terminator, no line is split across two
/// partitions.
pub proof fn lemma_parts_reassemble(s: Seq<u8>, ps: Seq<Partition>)
    requires
        parts_wf(s, ps),
        ps.len() > 0 || s.len() == 0,
    ensures
        concat_parts(s, ps) == s,
{
    lemma_concat_prefix(s, ps);
    if ps.len() == 0 {
        assert(concat_parts(s, ps) =~= s);
    } else {
        assert(s.take(s.len() as int) =~= s);
    }
}

} // verus!
