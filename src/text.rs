//! Decimal numerals: the digits of an integer, and the value of a numeral.

use vstd::prelude::*;

verus! {

/// The ASCII digit for a value below ten.
pub open spec fn digit_byte(d: nat) -> u8 {
    (48 + d) as u8
}

pub open spec fn is_digit(b: u8) -> bool {
    48 <= b <= 57
}

/// The decimal digits of `n`, most significant first, with no leading zero.
pub open spec fn nat_digits(n: nat) -> Seq<u8>
    decreases n,
{
    if n < 10 {
        seq![digit_byte(n)]
    } else {
        nat_digits(n / 10).push(digit_byte(n % 10))
    }
}

/// The decimal text of an integer: a minus sign for a negative one, then the digits.
pub open spec fn int_text(n: int) -> Seq<u8> {
    if n < 0 {
        seq![45u8] + nat_digits((-n) as nat)
    } else {
        nat_digits(n as nat)
    }
}

/// At least one byte, and every byte a digit.
pub open spec fn all_digits(s: Seq<u8>) -> bool {
    s.len() > 0 && forall|i: int| 0 <= i < s.len() ==> is_digit(#[trigger] s[i])
}

/// The value of a run of digits.
pub open spec fn digits_value(s: Seq<u8>) -> nat
    decreases s.len(),
{
    if s.len() == 0 {
        0
    } else {
        digits_value(s.drop_last()) * 10 + (s.last() - 48) as nat
    }
}

/// The value of digits with an optional leading `+`.
pub open spec fn unsigned_value(s: Seq<u8>) -> Option<nat> {
    if all_digits(s) {
        Some(digits_value(s))
    } else if s.len() > 0 && s[0] == 43 && all_digits(s.drop_first()) {
        Some(digits_value(s.drop_first()))
    } else {
        None
    }
}

/// The value of digits with an optional leading `+` or `-`.
pub open spec fn numeral_value(s: Seq<u8>) -> Option<int> {
    if s.len() > 0 && s[0] == 45 && all_digits(s.drop_first()) {
        Some(-digits_value(s.drop_first()))
    } else {
        match unsigned_value(s) {
            Some(v) => Some(v as int),
            None => None,
        }
    }
}

/// The value of a numeral that names an `i64`.
pub open spec fn i64_value(s: Seq<u8>) -> Option<int> {
    match numeral_value(s) {
        Some(v) => if i64::MIN <= v <= i64::MAX {
            Some(v)
        } else {
            None
        },
        None => None,
    }
}

/// The value of an unsigned numeral that names a `u64`.
pub open spec fn u64_value(s: Seq<u8>) -> Option<nat> {
    match unsigned_value(s) {
        Some(v) => if v <= u64::MAX {
            Some(v)
        } else {
            None
        },
        None => None,
    }
}

pub proof fn lemma_nat_digits(n: nat)
    ensures
        all_digits(nat_digits(n)),
        digits_value(nat_digits(n)) == n,
    decreases n,
{
    let s = nat_digits(n);
    if n < 10 {
        assert(s.drop_last() =~= Seq::<u8>::empty());
        assert(s.last() == 48 + n);
        assert(digits_value(s) == digits_value(s.drop_last()) * 10 + (s.last() - 48) as nat);
    } else {
        lemma_nat_digits(n / 10);
        assert(s.drop_last() =~= nat_digits(n / 10));
        assert(s.last() == 48 + n % 10);
        assert(digits_value(s) == digits_value(s.drop_last()) * 10 + (s.last() - 48) as nat);
        assert(n == (n / 10) * 10 + n % 10);
        assert forall|i: int| 0 <= i < s.len() implies is_digit(#[trigger] s[i]) by {
            if i < s.len() - 1 {
                assert(s[i] == nat_digits(n / 10)[i]);
            }
        }
    }
}

/// Reading back the decimal text of an integer gives the integer.
pub proof fn lemma_int_text_value(n: int)
    ensures
        numeral_value(int_text(n)) == Some(n),
{
    if n < 0 {
        lemma_nat_digits((-n) as nat);
        assert(int_text(n).drop_first() =~= nat_digits((-n) as nat));
    } else {
        lemma_nat_digits(n as nat);
    }
}

/// A longer run of digits is worth at least as much as its prefix.
proof fn lemma_digits_prefix(s: Seq<u8>, j: int)
    requires
        0 <= j <= s.len(),
        forall|i: int| 0 <= i < s.len() ==> is_digit(#[trigger] s[i]),
    ensures
        digits_value(s.subrange(0, j)) <= digits_value(s),
    decreases s.len(),
{
    if j < s.len() {
        let t = s.drop_last();
        assert(t.subrange(0, j) =~= s.subrange(0, j));
        lemma_digits_prefix(t, j);
    } else {
        assert(s.subrange(0, j) =~= s);
    }
}

/// Appends the decimal digits of `n` to `out`.
pub fn push_digits(out: &mut Vec<u8>, n: u64)
    ensures
        final(out)@ == old(out)@ + nat_digits(n as nat),
    decreases n,
{
    if n >= 10 {
        push_digits(out, n / 10);
    }
    out.push(48u8 + (n % 10) as u8);
    assert(out@ =~= old(out)@ + nat_digits(n as nat));
}

/// Appends the decimal text of `n` to `out`.
pub fn push_int(out: &mut Vec<u8>, n: i64)
    ensures
        final(out)@ == old(out)@ + int_text(n as int),
{
    if n < 0 {
        out.push(45u8);
        let m: u64 = if n == i64::MIN {
            9223372036854775808u64
        } else {
            (-n) as u64
        };
        push_digits(out, m);
        assert(out@ =~= old(out)@ + int_text(n as int));
    } else {
        push_digits(out, n as u64);
    }
}

/// The value of the digits `b[start..end]` when all are digits and the value
/// is at most `limit`.
pub fn parse_digits(b: &[u8], start: usize, end: usize, limit: u64) -> (r: Option<u64>)
    requires
        start <= end <= b@.len(),
    ensures
        r matches Some(v) ==> v == digits_value(b@.subrange(start as int, end as int)),
        r is Some <==> all_digits(b@.subrange(start as int, end as int)) && digits_value(
            b@.subrange(start as int, end as int),
        ) <= limit,
{
    let ghost s = b@.subrange(start as int, end as int);
    if start == end {
        return None;
    }
    let mut acc: u64 = 0;
    let mut i: usize = start;
    while i < end
        invariant
            start <= i <= end <= b@.len(),
            s == b@.subrange(start as int, end as int),
            acc == digits_value(s.subrange(0, i - start)),
            acc <= limit,
            forall|k: int| 0 <= k < i - start ==> is_digit(#[trigger] s[k]),
        decreases end - i,
    {
        let c = b[i];
        if c < 48 || c > 57 {
            assert(s[i - start] == c);
            return None;
        }
        let d = (c - 48) as u64;
        let ghost next = s.subrange(0, i - start + 1);
        assert(next.drop_last() =~= s.subrange(0, i - start));
        assert(next.last() == c);
        if d > limit || acc > (limit - d) / 10 {
            assert(acc * 10 + d > limit) by (nonlinear_arith)
                requires
                    d > limit || acc > (limit - d) / 10,
                    acc >= 0,
            ;
            proof {
                if all_digits(s) {
                    lemma_digits_prefix(s, i - start + 1);
                }
            }
            return None;
        }
        assert(acc * 10 + d <= limit) by (nonlinear_arith)
            requires
                acc <= (limit - d) / 10,
                d <= limit,
        ;
        acc = acc * 10 + d;
        i = i + 1;
    }
    assert(s.subrange(0, i - start) =~= s);
    Some(acc)
}

/// The `i64` named by the numeral `b[start..end]`, if it names one.
pub fn parse_i64(b: &[u8], start: usize, end: usize) -> (r: Option<i64>)
    requires
        start <= end <= b@.len(),
    ensures
        r matches Some(v) ==> i64_value(b@.subrange(start as int, end as int)) == Some(v as int),
        r is None ==> i64_value(b@.subrange(start as int, end as int)) is None,
{
    let ghost s = b@.subrange(start as int, end as int);
    if start == end {
        return None;
    }
    assert(s.drop_first() =~= b@.subrange(start + 1, end as int));
    if b[start] == 45u8 {
        match parse_digits(b, start + 1, end, 9223372036854775808u64) {
            Some(m) => {
                if m == 9223372036854775808u64 {
                    Some(i64::MIN)
                } else {
                    Some(-(m as i64))
                }
            },
            None => None,
        }
    } else {
        let from: usize = if b[start] == 43u8 {
            start + 1
        } else {
            start
        };
        match parse_digits(b, from, end, 9223372036854775807u64) {
            Some(m) => Some(m as i64),
            None => {
                proof {
                    if all_digits(s) {
                        assert(s =~= b@.subrange(from as int, end as int));
                    }
                }
                None
            },
        }
    }
}

/// The `u64` named by the unsigned numeral `b[start..end]`, if it names one.
pub fn parse_u64(b: &[u8], start: usize, end: usize) -> (r: Option<u64>)
    requires
        start <= end <= b@.len(),
    ensures
        r matches Some(v) ==> u64_value(b@.subrange(start as int, end as int)) == Some(v as nat),
        r is None ==> u64_value(b@.subrange(start as int, end as int)) is None,
{
    let ghost s = b@.subrange(start as int, end as int);
    if start == end {
        return None;
    }
    assert(s.drop_first() =~= b@.subrange(start + 1, end as int));
    let from: usize = if b[start] == 43u8 {
        start + 1
    } else {
        start
    };
    proof {
        if from == start {
            assert(s =~= b@.subrange(from as int, end as int));
        }
        if all_digits(s) {
            assert(is_digit(s[0]));
        }
    }
    parse_digits(b, from, end, 18446744073709551615u64)
}

} // verus!
