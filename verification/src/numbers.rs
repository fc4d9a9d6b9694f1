//! The numeric grammar of a record's value, and its verified parser.
//!
//! A value is a decimal literal: an optional sign, then digits with at most
//! one dot and at least one digit overall.  It is carried as a fixed-point
//! integer scaled by 10^4; fraction digits beyond the fourth are read but do
//! not contribute, and a value whose integer part reaches 10^12 is rejected.
//! Exponents and other notations are rejected, so every accepted value is
//! exact and the aggregation over values is exact integer arithmetic.

use vstd::prelude::*;
use crate::bytes::{find_byte, lemma_find_byte, lemma_find_byte_is, lemma_find_byte_absent};

verus! {

/// One scaled unit is 10^-4.
pub const SCALE: u64 = 10_000;

/// Values whose integer part reaches this many whole units are rejected.
pub const INT_LIMIT: u64 = 1_000_000_000_000;

/// Every accepted value `v` satisfies `-VAL_LIMIT < v < VAL_LIMIT`.
pub const VAL_LIMIT: i64 = 10_000_000_000_000_000;

pub const DOT: u8 = 46;

pub const PLUS: u8 = 43;

pub const MINUS: u8 = 45;

pub open spec fn is_digit(b: u8) -> bool {
    48 <= b <= 57
}

pub open spec fn all_digits(s: Seq<u8>) -> bool {
    forall|j: int| 0 <= j < s.len() ==> is_digit(#[trigger] s[j])
}

/// The integer denoted by a run of decimal digits (most significant first).
pub open spec fn digits_val(s: Seq<u8>) -> int
    decreases s.len(),
{
    if s.len() == 0 {
        0
    } else {
        digits_val(s.drop_last()) * 10 + (s.last() - 48)
    }
}

pub open spec fn pow10(n: nat) -> int
    decreases n,
{
    if n == 0 {
        1
    } else {
        10 * pow10((n - 1) as nat)
    }
}

pub proof fn lemma_digits_val_bounds(s: Seq<u8>)
    requires
        all_digits(s),
    ensures
        0 <= digits_val(s) < pow10(s.len()),
    decreases s.len(),
{
    if s.len() > 0 {
        assert(all_digits(s.drop_last()));
        lemma_digits_val_bounds(s.drop_last());
    }
}

/// The scaled contribution of the fraction digits: the first four count, the
/// rest are truncated away.
pub open spec fn frac_val(fp: Seq<u8>) -> int {
    if fp.len() >= 4 {
        digits_val(fp.take(4))
    } else {
        digits_val(fp) * pow10((4 - fp.len()) as nat)
    }
}

pub proof fn lemma_frac_val_bounds(fp: Seq<u8>)
    requires
        all_digits(fp),
    ensures
        0 <= frac_val(fp) < 10_000,
{
    assert(pow10(0) == 1);
    assert(pow10(1) == 10);
    assert(pow10(2) == 100);
    assert(pow10(3) == 1000);
    assert(pow10(4) == 10000);
    if fp.len() >= 4 {
        assert(all_digits(fp.take(4)));
        lemma_digits_val_bounds(fp.take(4));
    } else {
        lemma_digits_val_bounds(fp);
    }
}

/// The scaled value of an unsigned decimal body, when it is well formed.
pub open spec fn dec_body_value(body: Seq<u8>) -> Option<int> {
    let dot = find_byte(body, DOT);
    if dot == body.len() {
        if body.len() == 0 || !all_digits(body) || digits_val(body) >= INT_LIMIT as int {
            None
        } else {
            Some(digits_val(body) * SCALE as int)
        }
    } else {
        let ip = body.take(dot);
        let fp = body.skip(dot + 1);
        if !all_digits(ip) || !all_digits(fp) || (ip.len() == 0 && fp.len() == 0) || digits_val(ip)
            >= INT_LIMIT as int {
            None
        } else {
            Some(digits_val(ip) * SCALE as int + frac_val(fp))
        }
    }
}

/// The scaled value denoted by a record's numeric field, when it is well
/// formed: an optional sign before a decimal body.
pub open spec fn dec_value(s: Seq<u8>) -> Option<int> {
    if s.len() > 0 && s[0] == MINUS {
        match dec_body_value(s.skip(1)) {
            None => None,
            Some(v) => Some(-v),
        }
    } else if s.len() > 0 && s[0] == PLUS {
        dec_body_value(s.skip(1))
    } else {
        dec_body_value(s)
    }
}

pub proof fn lemma_dec_body_value_bounds(body: Seq<u8>)
    ensures
        dec_body_value(body) matches Some(v) ==> 0 <= v < VAL_LIMIT as int,
{
    lemma_find_byte(body, DOT);
    let dot = find_byte(body, DOT);
    if dot == body.len() {
        if body.len() > 0 && all_digits(body) && digits_val(body) < INT_LIMIT as int {
            lemma_digits_val_bounds(body);
        }
    } else {
        let ip = body.take(dot);
        let fp = body.skip(dot + 1);
        if all_digits(ip) && all_digits(fp) && !(ip.len() == 0 && fp.len() == 0) && digits_val(ip)
            < INT_LIMIT as int {
            lemma_digits_val_bounds(ip);
            lemma_frac_val_bounds(fp);
        }
    }
}

pub proof fn lemma_dec_value_bounds(s: Seq<u8>)
    ensures
        dec_value(s) matches Some(v) ==> -(VAL_LIMIT as int) < v < VAL_LIMIT as int,
{
    if s.len() > 0 && (s[0] == MINUS || s[0] == PLUS) {
        lemma_dec_body_value_bounds(s.skip(1));
    } else {
        lemma_dec_body_value_bounds(s);
    }
}

/// Parses the numeric field of a record into its scaled value, or `None`
/// when the bytes do not form a value of the grammar.
#[verifier::rlimit(100)]
pub fn parse_value(s: &[u8]) -> (r: Option<i64>)
    ensures
        r matches Some(v) ==> dec_value(s@) == Some(v as int) && -VAL_LIMIT < v < VAL_LIMIT,
        r is None ==> dec_value(s@) is None,
{
    let n = s.len();
    let mut i: usize = 0;
    let mut neg = false;
    if n > 0 && (s[0] == PLUS || s[0] == MINUS) {
        neg = s[0] == MINUS;
        i = 1;
    }
    let start = i;
    let ghost body = s@.skip(start as int);
    proof {
        if start == 0 {
            assert(body =~= s@);
        }
    }
    let mut acc: u64 = 0;
    while i < n && 48 <= s[i] && s[i] <= 57
        invariant
            start <= i <= n,
            n == s@.len(),
            all_digits(s@.subrange(start as int, i as int)),
            acc <= INT_LIMIT,
            acc < INT_LIMIT ==> acc == digits_val(s@.subrange(start as int, i as int)),
            acc == INT_LIMIT ==> digits_val(s@.subrange(start as int, i as int))
                >= INT_LIMIT as int,
        decreases n - i,
    {
        let ghost pre = s@.subrange(start as int, i as int);
        proof {
            lemma_digits_val_bounds(pre);
            assert(s@.subrange(start as int, i as int + 1) =~= pre.push(s@[i as int]));
            assert(pre.push(s@[i as int]).drop_last() =~= pre);
        }
        let d = (s[i] - 48) as u64;
        if acc < INT_LIMIT {
            let na = acc * 10 + d;
            acc = if na >= INT_LIMIT {
                INT_LIMIT
            } else {
                na
            };
        }
        i = i + 1;
    }
    let ghost ip = s@.subrange(start as int, i as int);
    if i == n {
        // the whole body is digits: no dot
        proof {
            assert(ip =~= body);
            if start < n {
                lemma_find_byte_absent(body, DOT);
            }
            lemma_digits_val_bounds(ip);
        }
        if i == start {
            return None;
        }
        if acc >= INT_LIMIT {
            return None;
        }
        let v = (acc * SCALE) as i64;
        if neg {
            return Some(-v);
        }
        return Some(v);
    }
    // s[i] is the first non-digit of the body
    proof {
        assert(!is_digit(s@[i as int]));
        assert(body[i - start] == s@[i as int]);
    }
    if s[i] != DOT {
        proof {
            lemma_find_byte(body, DOT);
            let dot = find_byte(body, DOT);
            if dot < body.len() {
                // the first dot lies beyond the non-digit, so the integer
                // part holds that non-digit
                assert(forall|j: int|
                    0 <= j < i - start ==> body[j] == s@.subrange(start as int, i as int)[j]);
                assert(forall|j: int| 0 <= j < i - start ==> body[j] != DOT);
                assert(dot > i - start);
                assert(body.take(dot)[i - start] == s@[i as int]);
                assert(!all_digits(body.take(dot)));
            } else {
                assert(!all_digits(body));
            }
        }
        return None;
    }
    proof {
        assert(forall|j: int| 0 <= j < i - start ==> body[j] == ip[j]);
        lemma_find_byte_is(body, DOT, i - start);
        assert(body.take(i - start) =~= ip);
    }
    let fstart = i + 1;
    let ghost fp = s@.subrange(fstart as int, n as int);
    proof {
        assert(body.skip(i - start + 1) =~= fp);
    }
    let mut k = fstart;
    let mut frac: u64 = 0;
    let mut fd: usize = 0;
    while k < n && 48 <= s[k] && s[k] <= 57
        invariant
            fstart <= k <= n,
            n == s@.len(),
            fp == s@.subrange(fstart as int, n as int),
            all_digits(s@.subrange(fstart as int, k as int)),
            fd == if k - fstart >= 4 {
                4int
            } else {
                k - fstart
            },
            frac == digits_val(s@.subrange(fstart as int, fstart as int + fd)),
            frac < 10_000,
        decreases n - k,
    {
        let ghost prefd = fd as int;
        let ghost pre = s@.subrange(fstart as int, fstart as int + prefd);
        proof {
            lemma_digits_val_bounds(pre);
            assert(pow10(0) == 1);
            assert(pow10(1) == 10);
            assert(pow10(2) == 100);
            assert(pow10(3) == 1000);
            assert(s@.subrange(fstart as int, k as int + 1) =~= s@.subrange(
                fstart as int,
                k as int,
            ).push(s@[k as int]));
            if prefd < 4 && k == fstart + prefd {
                assert(s@.subrange(fstart as int, fstart as int + prefd + 1) =~= pre.push(
                    s@[k as int],
                ));
                assert(pre.push(s@[k as int]).drop_last() =~= pre);
            }
        }
        if fd < 4 {
            frac = frac * 10 + (s[k] - 48) as u64;
            fd = fd + 1;
        }
        k = k + 1;
    }
    let ghost fscan = s@.subrange(fstart as int, k as int);
    if k < n {
        // a non-digit inside the fraction
        proof {
            assert(fp[k - fstart] == s@[k as int]);
            assert(!all_digits(fp));
        }
        return None;
    }
    proof {
        assert(fscan =~= fp);
        if fp.len() >= 4 {
            assert(s@.subrange(fstart as int, fstart as int + 4) =~= fp.take(4));
        } else {
            assert(s@.subrange(fstart as int, fstart as int + fd as int) =~= fp);
        }
        lemma_digits_val_bounds(ip);
        assert(pow10(0) == 1);
        assert(pow10(1) == 10);
        assert(pow10(2) == 100);
        assert(pow10(3) == 1000);
        assert(pow10(4) == 10000);
    }
    if i == start && k == fstart {
        return None;
    }
    if acc >= INT_LIMIT {
        return None;
    }
    let scaled_frac = if fd == 0 {
        0
    } else if fd == 1 {
        frac * 1000
    } else if fd == 2 {
        frac * 100
    } else if fd == 3 {
        frac * 10
    } else {
        frac
    };
    let v = (acc * SCALE + scaled_frac) as i64;
    proof {
        lemma_digits_val_bounds(ip);
        lemma_frac_val_bounds(fp);
        assert(frac_val(fp) == scaled_frac as int);
        assert(dec_body_value(body) == Some(digits_val(ip) * SCALE as int + frac_val(fp)));
    }
    if neg {
        Some(-v)
    } else {
        Some(v)
    }
}

} // verus!
