//! Decimal integers as `str::parse` reads them.

use vstd::prelude::*;

verus! {

pub open spec fn is_digit(c: char) -> bool {
    '0' <= c <= '9'
}

pub open spec fn all_digits(t: Seq<char>) -> bool {
    forall|i: int| 0 <= i < t.len() ==> is_digit(#[trigger] t[i])
}

/// The value of a string of decimal digits.
pub open spec fn digits_value(t: Seq<char>) -> int
    decreases t.len(),
{
    if t.len() == 0 {
        0
    } else {
        10 * digits_value(t.drop_last()) + (t.last() as int - '0' as int)
    }
}

/// What `str::parse::<i32>` accepts: an optional sign, then one or more
/// decimal digits, with the value in range.
pub open spec fn parse_i32(t: Seq<char>) -> Option<i32> {
    if t.len() > 0 && t[0] == '-' {
        let d = t.drop_first();
        if d.len() > 0 && all_digits(d) && -digits_value(d) >= i32::MIN {
            Some((-digits_value(d)) as i32)
        } else {
            None
        }
    } else {
        let d = if t.len() > 0 && t[0] == '+' { t.drop_first() } else { t };
        if d.len() > 0 && all_digits(d) && digits_value(d) <= i32::MAX {
            Some(digits_value(d) as i32)
        } else {
            None
        }
    }
}

proof fn lemma_digits_value_prefix(t: Seq<char>, i: int, j: int)
    requires
        0 <= i <= j <= t.len(),
        all_digits(t),
    ensures
        0 <= digits_value(t.take(i)) <= digits_value(t.take(j)),
    decreases j - i,
{
    if i < j {
        lemma_digits_value_prefix(t, i, j - 1);
        assert(t.take(j).drop_last() =~= t.take(j - 1));
        assert(is_digit(t[j - 1]));
        lemma_digits_value_nonneg(t.take(j - 1));
    } else {
        lemma_digits_value_nonneg(t.take(i));
    }
}

proof fn lemma_digits_value_nonneg(t: Seq<char>)
    requires
        all_digits(t),
    ensures
        digits_value(t) >= 0,
    decreases t.len(),
{
    if t.len() > 0 {
        assert(is_digit(t[t.len() - 1]));
        lemma_digits_value_nonneg(t.drop_last());
    }
}

/// The value of the digit string `t`, if every character is a digit and the
/// value is at most `limit`.
fn digits_upto(t: &[char], lo: usize, limit: i64) -> (r: Option<i64>)
    requires
        lo <= t@.len(),
        0 <= limit <= 0x8000_0000,
    ensures
        match r {
            Some(v) => all_digits(t@.skip(lo as int)) && v == digits_value(t@.skip(lo as int))
                && 0 <= v <= limit,
            None => !all_digits(t@.skip(lo as int)) || digits_value(t@.skip(lo as int)) > limit,
        },
{
    let ghost d = t@.skip(lo as int);
    let mut acc: i64 = 0;
    let mut i: usize = lo;
    while i < t.len()
        invariant
            lo <= i <= t@.len(),
            d == t@.skip(lo as int),
            0 <= limit <= 0x8000_0000,
            all_digits(d.take(i - lo)),
            acc == digits_value(d.take(i - lo)),
            0 <= acc <= limit,
        decreases t@.len() - i,
    {
        let c = t[i];
        proof {
            assert(d[i - lo] == c);
        }
        if !('0' <= c && c <= '9') {
            return None;
        }
        let dv = (c as u32 - '0' as u32) as i64;
        proof {
            let nt = d.take(i - lo + 1);
            assert(nt.drop_last() =~= d.take(i - lo));
            assert(nt.last() == c);
            assert(all_digits(nt)) by {
                assert forall|k: int| 0 <= k < nt.len() implies is_digit(#[trigger] nt[k]) by {
                    if k < i - lo {
                        assert(nt[k] == d.take(i - lo)[k]);
                    }
                }
            }
        }
        let next = 10 * acc + dv;
        if next > limit {
            proof {
                let nt = d.take(i - lo + 1);
                assert(digits_value(nt) == next);
                if all_digits(d) {
                    lemma_digits_value_prefix(d, i - lo + 1, d.len() as int);
                    assert(d.take(d.len() as int) =~= d);
                }
            }
            return None;
        }
        acc = next;
        i += 1;
    }
    proof {
        assert(d.take(i - lo) =~= d);
    }
    Some(acc)
}

/// `str::parse::<i32>` on the characters `t`.
pub fn parse_i32_chars(t: &[char]) -> (r: Option<i32>)
    ensures
        r == parse_i32(t@),
{
    if t.len() > 0 && t[0] == '-' {
        proof {
            assert(t@.skip(1) =~= t@.drop_first());
        }
        if t.len() == 1 {
            return None;
        }
        match digits_upto(t, 1, 0x8000_0000) {
            Some(v) => Some((-v) as i32),
            None => None,
        }
    } else {
        let lo: usize = if t.len() > 0 && t[0] == '+' { 1 } else { 0 };
        proof {
            if lo == 1 {
                assert(t@.skip(1) =~= t@.drop_first());
            } else {
                assert(t@.skip(0) =~= t@);
            }
        }
        if lo == t.len() {
            return None;
        }
        match digits_upto(t, lo, 0x7fff_ffff) {
            Some(v) => Some(v as i32),
            None => None,
        }
    }
}

/// What `str::parse` accepts for an unsigned type whose largest value is
/// `max`: an optional `+`, then one or more decimal digits, in range.
pub open spec fn parse_unsigned(t: Seq<char>, max: int) -> Option<int> {
    let d = if t.len() > 0 && t[0] == '+' { t.drop_first() } else { t };
    if d.len() > 0 && all_digits(d) && digits_value(d) <= max {
        Some(digits_value(d))
    } else {
        None
    }
}

/// The value of the digits of `t` from `lo` on, if all are digits and the
/// value is at most `limit`.
fn unsigned_upto(t: &[char], lo: usize, limit: u64) -> (r: Option<u64>)
    requires
        lo <= t@.len(),
    ensures
        match r {
            Some(v) => all_digits(t@.skip(lo as int)) && v == digits_value(t@.skip(lo as int)),
            None => !all_digits(t@.skip(lo as int)) || digits_value(t@.skip(lo as int)) > limit,
        },
        r matches Some(v) ==> v <= limit,
{
    let ghost d = t@.skip(lo as int);
    let mut acc: u128 = 0;
    let mut i: usize = lo;
    while i < t.len()
        invariant
            lo <= i <= t@.len(),
            d == t@.skip(lo as int),
            all_digits(d.take(i - lo)),
            acc == digits_value(d.take(i - lo)),
            acc <= limit,
        decreases t@.len() - i,
    {
        let c = t[i];
        proof {
            assert(d[i - lo] == c);
        }
        if !('0' <= c && c <= '9') {
            return None;
        }
        let dv = (c as u32 - '0' as u32) as u128;
        proof {
            let nt = d.take(i - lo + 1);
            assert(nt.drop_last() =~= d.take(i - lo));
            assert(nt.last() == c);
            assert(all_digits(nt)) by {
                assert forall|k: int| 0 <= k < nt.len() implies is_digit(#[trigger] nt[k]) by {
                    if k < i - lo {
                        assert(nt[k] == d.take(i - lo)[k]);
                    }
                }
            }
        }
        let next = 10 * acc + dv;
        if next > limit as u128 {
            proof {
                let nt = d.take(i - lo + 1);
                assert(digits_value(nt) == next);
                if all_digits(d) {
                    lemma_digits_value_prefix(d, i - lo + 1, d.len() as int);
                    assert(d.take(d.len() as int) =~= d);
                }
            }
            return None;
        }
        acc = next;
        i += 1;
    }
    proof {
        assert(d.take(i - lo) =~= d);
    }
    Some(acc as u64)
}

fn parse_unsigned_chars(t: &[char], max: u64) -> (r: Option<u64>)
    ensures
        match r {
            Some(v) => parse_unsigned(t@, max as int) == Some(v as int),
            None => parse_unsigned(t@, max as int) is None,
        },
{
    let lo: usize = if t.len() > 0 && t[0] == '+' { 1 } else { 0 };
    proof {
        if lo == 1 {
            assert(t@.skip(1) =~= t@.drop_first());
        } else {
            assert(t@.skip(0) =~= t@);
        }
    }
    if lo == t.len() {
        return None;
    }
    unsigned_upto(t, lo, max)
}

/// `str::parse::<u64>` on the characters `t`.
pub fn parse_u64_chars(t: &[char]) -> (r: Option<u64>)
    ensures
        match r {
            Some(v) => parse_unsigned(t@, u64::MAX as int) == Some(v as int),
            None => parse_unsigned(t@, u64::MAX as int) is None,
        },
{
    parse_unsigned_chars(t, u64::MAX)
}

/// `str::parse::<usize>` on the characters `t`.
pub fn parse_usize_chars(t: &[char]) -> (r: Option<usize>)
    ensures
        match r {
            Some(v) => parse_unsigned(t@, usize::MAX as int) == Some(v as int),
            None => parse_unsigned(t@, usize::MAX as int) is None,
        },
{
    match parse_unsigned_chars(t, usize::MAX as u64) {
        Some(v) => Some(v as usize),
        None => None,
    }
}

} // verus!
