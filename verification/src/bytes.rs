//! Byte-level scanning: the first occurrence of a byte in a region, and
//! splitting a region at its first line terminator.

use vstd::prelude::*;
use vstd::slice::slice_subrange;

verus! {

/// The line terminator byte (`\n`).
pub const NL: u8 = 10;

/// The key/value delimiter byte (`;`).
pub const SEMI: u8 = 59;

/// Index of the first occurrence of `b` in `s`, or `s.len()` when `b` does
/// not occur.
pub open spec fn find_byte(s: Seq<u8>, b: u8) -> int
    decreases s.len(),
{
    if s.len() == 0 {
        0
    } else if s[0] == b {
        0
    } else {
        1 + find_byte(s.skip(1), b)
    }
}

pub broadcast proof fn lemma_find_byte(s: Seq<u8>, b: u8)
    ensures
        0 <= #[trigger] find_byte(s, b) <= s.len(),
        find_byte(s, b) < s.len() ==> s[find_byte(s, b)] == b,
        forall|j: int| 0 <= j < find_byte(s, b) ==> s[j] != b,
    decreases s.len(),
{
    if s.len() > 0 && s[0] != b {
        lemma_find_byte(s.skip(1), b);
        assert forall|j: int| 0 <= j < find_byte(s, b) implies s[j] != b by {
            if j > 0 {
                assert(s.skip(1)[j - 1] == s[j]);
            }
        }
    }
}

/// `find_byte` is pinned by the first-occurrence property.
pub proof fn lemma_find_byte_is(s: Seq<u8>, b: u8, i: int)
    requires
        0 <= i < s.len(),
        s[i] == b,
        forall|j: int| 0 <= j < i ==> s[j] != b,
    ensures
        find_byte(s, b) == i,
{
    lemma_find_byte(s, b);
    if find_byte(s, b) < i {
        assert(s[find_byte(s, b)] == b);
    }
}

pub proof fn lemma_find_byte_absent(s: Seq<u8>, b: u8)
    requires
        forall|j: int| 0 <= j < s.len() ==> s[j] != b,
    ensures
        find_byte(s, b) == s.len(),
{
    lemma_find_byte(s, b);
}

/// Relies on `memchr::memchr`: returns the index of the first occurrence of
/// `needle` in `haystack`, or `None` when the byte does not occur.
#[verifier::external_body]
pub(crate) fn find_first(needle: u8, haystack: &[u8]) -> (r: Option<usize>)
    ensures
        match r {
            Some(i) => i < haystack@.len() && haystack@[i as int] == needle && forall|j: int|
                0 <= j < i ==> haystack@[j] != needle,
            None => forall|j: int| 0 <= j < haystack@.len() ==> haystack@[j] != needle,
        },
{
    memchr::memchr(needle, haystack)
}

/// Splits `slice` at its first line terminator: the line before it and the
/// rest after it.  Without a terminator the whole slice is the line and the
/// rest is empty.
pub fn read_line(slice: &[u8]) -> (r: (&[u8], &[u8]))
    ensures
        find_byte(slice@, NL) < slice@.len() ==> r.0@ == slice@.take(find_byte(slice@, NL))
            && r.1@ == slice@.skip(find_byte(slice@, NL) + 1),
        find_byte(slice@, NL) == slice@.len() ==> r.0@ == slice@ && r.1@.len() == 0,
{
    proof {
        lemma_find_byte(slice@, NL);
    }
    match find_first(NL, slice) {
        Some(idx) => {
            proof {
                lemma_find_byte_is(slice@, NL, idx as int);
            }
            let n = slice.len();
            assert(idx < n);
            let line = slice_subrange(slice, 0, idx);
            let rem = slice_subrange(slice, idx + 1, n);
            proof {
                assert(line@ =~= slice@.take(idx as int));
                assert(rem@ =~= slice@.skip(idx + 1));
            }
            (line, rem)
        },
        None => {
            proof {
                lemma_find_byte_absent(slice@, NL);
            }
            (slice, slice_subrange(slice, slice.len(), slice.len()))
        },
    }
}

} // verus!
