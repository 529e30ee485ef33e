//! Decimal text of integers: writing it, and reading it back through atoi.
use crate::model::{
    all_digits, decimal_text, index_value, decimal_value, digits_value, in_i64, is_digit, line_value,
    nat_digits, sign_len,
};
use atoi::FromRadix10SignedChecked;
use vstd::prelude::*;

verus! {

/// How many digits follow one another in `s` from position `k` on.
pub open spec fn digit_run(s: Seq<u8>, k: int) -> nat
    decreases s.len() - k,
{
    if k < 0 || k >= s.len() {
        0
    } else if is_digit(s[k]) {
        1 + digit_run(s, k + 1)
    } else {
        0
    }
}

/// The value that an optional sign and the digits of `s` up to `end` stand for.
pub open spec fn signed_prefix_value(s: Seq<u8>, end: int) -> int {
    let k = sign_len(s) as int;
    let d = digits_value(s.subrange(k, end)) as int;
    if k == 1 && s[0] == 45 {
        -d
    } else {
        d
    }
}

/// Relies on atoi's `FromRadix10SignedChecked::from_radix_10_signed_checked`
/// for `i64`: it reads an optional `+` or `-`, then the longest run of digits
/// that follows, and returns the number of bytes it read and the value they
/// stand for, or `None` where that value does not fit.
#[verifier::external_body]
fn radix_10_signed(text: &[u8]) -> (r: (Option<i64>, usize))
    ensures
        r.1 == sign_len(text@) + digit_run(text@, sign_len(text@) as int),
        r.0 == (if in_i64(signed_prefix_value(text@, r.1 as int)) {
            Some(signed_prefix_value(text@, r.1 as int) as i64)
        } else {
            None
        }),
{
    i64::from_radix_10_signed_checked(text)
}

/// Relies on atoi's `FromRadix10SignedChecked::from_radix_10_signed_checked`
/// for `u64`: it reads an optional `+` or `-`, then the longest run of digits
/// that follows, and returns the number of bytes it read and the value they
/// stand for, or `None` where that value is negative or too large.
#[verifier::external_body]
fn radix_10_unsigned(text: &[u8]) -> (r: (Option<u64>, usize))
    ensures
        r.1 == sign_len(text@) + digit_run(text@, sign_len(text@) as int),
        r.0 == (if 0 <= signed_prefix_value(text@, r.1 as int) <= u64::MAX {
            Some(signed_prefix_value(text@, r.1 as int) as u64)
        } else {
            None
        }),
{
    u64::from_radix_10_signed_checked(text)
}

proof fn lemma_digit_run(s: Seq<u8>, k: int)
    requires
        0 <= k <= s.len(),
    ensures
        k + digit_run(s, k) <= s.len(),
        all_digits(s.subrange(k, k + digit_run(s, k))),
        k + digit_run(s, k) < s.len() ==> !is_digit(s[k + digit_run(s, k)]),
    decreases s.len() - k,
{
    if k < s.len() && is_digit(s[k]) {
        lemma_digit_run(s, k + 1);
        let r = digit_run(s, k);
        assert forall|i: int| 0 <= i < r implies is_digit(#[trigger] s.subrange(k, k + r)[i]) by {
            if i > 0 {
                assert(s.subrange(k, k + r)[i] == s.subrange(k + 1, k + r)[i - 1]);
            }
        }
    }
}

/// Reads a whole line as a signed decimal that fits in 64 bits.
pub fn parse_i64(line: &[u8]) -> (r: Option<i64>)
    ensures
        match r {
            Some(v) => line_value(line@) == Some(v as int),
            None => line_value(line@) is None,
        },
{
    let (value, used) = radix_10_signed(line);
    let k: usize = if line.len() > 0 && (line[0] == 43 || line[0] == 45) {
        1
    } else {
        0
    };
    proof {
        lemma_digit_run(line@, k as int);
        let d = line@.skip(k as int);
        assert(line@.subrange(k as int, line@.len() as int) == d);
        if d.len() > 0 && all_digits(d) && digit_run(line@, k as int) < d.len() {
            assert(d[digit_run(line@, k as int) as int] == line@[k + digit_run(line@, k as int)]);
        }
    }
    if used == line.len() && used > k {
        value
    } else {
        None
    }
}

/// Reads a whole line as digits alone, without a sign, whose value fits in
/// 64 bits unsigned.
pub fn parse_u64(line: &[u8]) -> (r: Option<u64>)
    ensures
        match r {
            Some(v) => index_value(line@) == Some(v as int),
            None => index_value(line@) is None,
        },
{
    let (value, used) = radix_10_unsigned(line);
    let signed = line.len() > 0 && (line[0] == 43 || line[0] == 45);
    proof {
        let k: int = if signed { 1 } else { 0 };
        lemma_digit_run(line@, k);
        assert(line@.subrange(0, line@.len() as int) == line@);
        if !signed && all_digits(line@) && digit_run(line@, 0) < line@.len() {
            assert(is_digit(line@[digit_run(line@, 0) as int]));
        }
        if signed {
            assert(!is_digit(line@[0]));
        }
    }
    if !signed && used == line.len() && used > 0 {
        value
    } else {
        None
    }
}

/// Appends the digits of `n`.
pub fn push_digits(out: &mut Vec<u8>, n: u64)
    ensures
        final(out)@ == old(out)@ + nat_digits(n as nat),
    decreases n,
{
    if n >= 10 {
        push_digits(out, n / 10);
    }
    out.push((48 + n % 10) as u8);
    proof {
        if n >= 10 {
            assert(old(out)@ + nat_digits(n as nat) == old(out)@ + nat_digits((n / 10) as nat) + seq![(48 + n % 10) as u8]);
        }
        assert(final(out)@ =~= old(out)@ + nat_digits(n as nat));
    }
}

/// Appends the shortest decimal text of `v`.
pub fn push_decimal(out: &mut Vec<u8>, v: i64)
    ensures
        final(out)@ == old(out)@ + decimal_text(v as int),
{
    if v < 0 {
        out.push(45);
        let m: u64 = if v == i64::MIN {
            9223372036854775808u64
        } else {
            (-v) as u64
        };
        push_digits(out, m);
        assert(final(out)@ =~= old(out)@ + decimal_text(v as int));
    } else {
        push_digits(out, v as u64);
    }
}

pub proof fn lemma_nat_digits(n: nat)
    ensures
        nat_digits(n).len() > 0,
        all_digits(nat_digits(n)),
        digits_value(nat_digits(n)) == n,
    decreases n,
{
    if n >= 10 {
        lemma_nat_digits(n / 10);
        let s = nat_digits(n);
        assert(s.drop_last() =~= nat_digits(n / 10));
        assert(s.last() == (48 + n % 10) as u8);
        assert((n / 10) * 10 + n % 10 == n) by (nonlinear_arith);
        assert(digits_value(s) == digits_value(s.drop_last()) * 10 + (s.last() - 48) as nat);
        assert((s.last() - 48) as nat == n % 10);
        assert forall|i: int| 0 <= i < s.len() implies is_digit(#[trigger] s[i]) by {
            if i < s.len() - 1 {
                assert(s[i] == nat_digits(n / 10)[i]);
            }
        }
    } else {
        let s = nat_digits(n);
        assert(s.drop_last() =~= Seq::<u8>::empty());
        assert(digits_value(s) == digits_value(s.drop_last()) * 10 + (s.last() - 48) as nat);
    }
}

/// The digits of an unsigned 64-bit integer read back as that integer.
pub proof fn lemma_index_text(n: u64)
    ensures
        index_value(nat_digits(n as nat)) == Some(n as int),
{
    lemma_nat_digits(n as nat);
}

/// The shortest decimal text of a 64-bit integer reads back as that integer,
/// and holds no carriage return.
pub proof fn lemma_decimal_text(v: int)
    requires
        in_i64(v),
    ensures
        line_value(decimal_text(v)) == Some(v),
        forall|i: int| 0 <= i < decimal_text(v).len() ==> #[trigger] decimal_text(v)[i] != 13u8,
        decimal_text(v).len() > 0,
{
    let t = decimal_text(v);
    if v < 0 {
        lemma_nat_digits((-v) as nat);
        assert(t.skip(1) =~= nat_digits((-v) as nat));
        assert forall|i: int| 0 <= i < t.len() implies #[trigger] t[i] != 13u8 by {
            if i > 0 {
                assert(t[i] == t.skip(1)[i - 1]);
            }
        }
    } else {
        lemma_nat_digits(v as nat);
        assert(t.skip(0) =~= t);
    }
}

} // verus!
