//! Signed and unsigned decimal numbers as ASCII bytes, in both directions.
use vstd::prelude::*;

verus! {

pub open spec fn is_digit(b: u8) -> bool {
    48 <= b <= 57
}

/// A non-empty run of ASCII digits.
pub open spec fn all_digits(s: Seq<u8>) -> bool {
    s.len() > 0 && forall|i: int| 0 <= i < s.len() ==> is_digit(#[trigger] s[i])
}

/// The number that a run of digits spells, most significant first.
pub open spec fn digits_value(s: Seq<u8>) -> int
    decreases s.len(),
{
    if s.len() == 0 {
        0
    } else {
        digits_value(s.drop_last()) * 10 + (s.last() - 48)
    }
}

/// The integer that `s` spells as `[+|-]digits`, if it has that shape.
pub open spec fn decimal_value(s: Seq<u8>) -> Option<int> {
    if s.len() > 0 && s[0] == 45 && all_digits(s.drop_first()) {
        Some(-digits_value(s.drop_first()))
    } else if s.len() > 0 && s[0] == 43 && all_digits(s.drop_first()) {
        Some(digits_value(s.drop_first()))
    } else if all_digits(s) {
        Some(digits_value(s))
    } else {
        None
    }
}

/// What reading `s` as an `i64` gives: a decimal in the type's range.
pub open spec fn i64_value(s: Seq<u8>) -> Option<i64> {
    match decimal_value(s) {
        Some(v) => if i64::MIN <= v <= i64::MAX {
            Some(v as i64)
        } else {
            None
        },
        None => None,
    }
}

/// What reading `s` as a `u64` gives: a decimal in the type's range,
/// without a minus sign.
pub open spec fn u64_value(s: Seq<u8>) -> Option<u64> {
    match decimal_value(s) {
        Some(v) => if s[0] != 45 && 0 <= v <= u64::MAX {
            Some(v as u64)
        } else {
            None
        },
        None => None,
    }
}

/// The digits of `n`, most significant first, without leading zeros.
pub open spec fn digits_of(n: nat) -> Seq<u8>
    decreases n,
{
    if n < 10 {
        seq![(48 + n) as u8]
    } else {
        digits_of(n / 10).push((48 + n % 10) as u8)
    }
}

/// The decimal text of `n`, with a minus sign when it is negative.
pub open spec fn decimal_text(n: int) -> Seq<u8> {
    if n < 0 {
        seq![45u8] + digits_of((-n) as nat)
    } else {
        digits_of(n as nat)
    }
}

pub proof fn lemma_digits_value_nonneg(s: Seq<u8>)
    requires
        forall|i: int| 0 <= i < s.len() ==> is_digit(#[trigger] s[i]),
    ensures
        digits_value(s) >= 0,
    decreases s.len(),
{
    if s.len() > 0 {
        lemma_digits_value_nonneg(s.drop_last());
    }
}

/// A prefix of a run of digits spells no larger a number.
pub proof fn lemma_digits_prefix_le(s: Seq<u8>, k: int)
    requires
        forall|i: int| 0 <= i < s.len() ==> is_digit(#[trigger] s[i]),
        0 <= k <= s.len(),
    ensures
        digits_value(s.subrange(0, k)) <= digits_value(s),
    decreases s.len(),
{
    if k == s.len() {
        assert(s.subrange(0, k) =~= s);
    } else {
        let t = s.drop_last();
        lemma_digits_prefix_le(t, k);
        assert(t.subrange(0, k) =~= s.subrange(0, k));
        lemma_digits_value_nonneg(t);
    }
}

/// The digits of `n` read back as `n`.
pub proof fn lemma_digits_of_value(n: nat)
    ensures
        all_digits(digits_of(n)),
        digits_value(digits_of(n)) == n,
    decreases n,
{
    if n < 10 {
        assert(digits_of(n).drop_last() =~= Seq::<u8>::empty());
        assert(digits_value(Seq::<u8>::empty()) == 0);
    } else {
        lemma_digits_of_value(n / 10);
        let d = digits_of(n / 10);
        let s = digits_of(n);
        assert(s.drop_last() =~= d);
        assert(s.last() == 48 + n % 10);
        assert((n / 10) * 10 + n % 10 == n) by {
            vstd::arithmetic::div_mod::lemma_fundamental_div_mod(n as int, 10);
        }
        assert forall|i: int| 0 <= i < s.len() implies is_digit(#[trigger] s[i]) by {
            if i < d.len() {
                assert(s[i] == d[i]);
            }
        }
    }
}

/// Reading the decimal text of `n` gives `n` back.
pub proof fn lemma_decimal_round_trip(n: int)
    ensures
        decimal_value(decimal_text(n)) == Some(n),
{
    if n < 0 {
        let d = digits_of((-n) as nat);
        lemma_digits_of_value((-n) as nat);
        assert((seq![45u8] + d).drop_first() =~= d);
    } else {
        lemma_digits_of_value(n as nat);
        let s = digits_of(n as nat);
        assert(is_digit(s[0]));
    }
}

/// Reads the digits `s[start..]` as a number no larger than `limit`.
fn parse_magnitude(s: &[u8], start: usize, limit: u64) -> (r: Option<u64>)
    requires
        start <= s@.len(),
    ensures
        r matches Some(m) ==> m <= limit,
        r == (if all_digits(s@.subrange(start as int, s@.len() as int)) && digits_value(
            s@.subrange(start as int, s@.len() as int),
        ) <= limit {
            Some(digits_value(s@.subrange(start as int, s@.len() as int)) as u64)
        } else {
            None::<u64>
        }),
{
    let ghost tail = s@.subrange(start as int, s@.len() as int);
    if start == s.len() {
        return None;
    }
    let mut acc: u64 = 0;
    let mut j: usize = start;
    while j < s.len()
        invariant
            start <= j <= s@.len(),
            tail == s@.subrange(start as int, s@.len() as int),
            forall|i: int| start <= i < j ==> is_digit(#[trigger] s@[i]),
            acc == digits_value(s@.subrange(start as int, j as int)),
            acc <= limit,
        decreases s@.len() - j,
    {
        let b = s[j];
        if b < 48 || b > 57 {
            assert(tail[j - start] == b);
            return None;
        }
        let ghost prev = s@.subrange(start as int, j as int);
        let ghost next = s@.subrange(start as int, j + 1);
        assert(next.drop_last() =~= prev);
        let wide: u128 = (acc as u128) * 10 + ((b - 48) as u128);
        if wide > limit as u128 {
            proof {
                assert forall|i: int| 0 <= i < next.len() implies is_digit(#[trigger] next[i]) by {
                    assert(next[i] == s@[start + i]);
                }
                if all_digits(tail) {
                    assert(tail.subrange(0, j + 1 - start) =~= next);
                    lemma_digits_prefix_le(tail, j + 1 - start);
                }
            }
            return None;
        }
        acc = wide as u64;
        j = j + 1;
    }
    proof {
        assert(s@.subrange(start as int, j as int) =~= tail);
        assert forall|i: int| 0 <= i < tail.len() implies is_digit(#[trigger] tail[i]) by {
            assert(tail[i] == s@[start + i]);
        }
    }
    Some(acc)
}

/// Reads `s` as a signed 64-bit decimal, with an optional `+` or `-` sign.
pub fn parse_i64(s: &[u8]) -> (r: Option<i64>)
    ensures
        r == i64_value(s@),
{
    if s.len() > 0 && s[0] == 45 {
        assert(s@.subrange(1, s@.len() as int) =~= s@.drop_first());
        match parse_magnitude(s, 1, 9223372036854775808) {
            Some(m) => {
                proof {
                    lemma_digits_value_nonneg(s@.drop_first());
                }
                if m == 9223372036854775808 {
                    Some(i64::MIN)
                } else {
                    Some(-(m as i64))
                }
            },
            None => {
                proof {
                    if all_digits(s@.drop_first()) {
                        lemma_digits_value_nonneg(s@.drop_first());
                    }
                }
                None
            },
        }
    } else if s.len() > 0 && s[0] == 43 {
        assert(s@.subrange(1, s@.len() as int) =~= s@.drop_first());
        let r = parse_magnitude(s, 1, 9223372036854775807);
        proof {
            if all_digits(s@.drop_first()) {
                lemma_digits_value_nonneg(s@.drop_first());
            }
        }
        match r {
            Some(m) => Some(m as i64),
            None => None,
        }
    } else {
        assert(s@.subrange(0, s@.len() as int) =~= s@);
        let r = parse_magnitude(s, 0, 9223372036854775807);
        proof {
            if all_digits(s@) {
                lemma_digits_value_nonneg(s@);
            }
        }
        match r {
            Some(m) => Some(m as i64),
            None => None,
        }
    }
}

/// Reads `s` as an unsigned 64-bit decimal, with an optional `+` sign.
pub fn parse_u64(s: &[u8]) -> (r: Option<u64>)
    ensures
        r == u64_value(s@),
{
    if s.len() > 0 && s[0] == 45 {
        None
    } else if s.len() > 0 && s[0] == 43 {
        assert(s@.subrange(1, s@.len() as int) =~= s@.drop_first());
        let r = parse_magnitude(s, 1, 18446744073709551615);
        proof {
            if all_digits(s@.drop_first()) {
                lemma_digits_value_nonneg(s@.drop_first());
            }
        }
        r
    } else {
        assert(s@.subrange(0, s@.len() as int) =~= s@);
        let r = parse_magnitude(s, 0, 18446744073709551615);
        proof {
            if all_digits(s@) {
                lemma_digits_value_nonneg(s@);
            }
        }
        r
    }
}

/// Appends the digits of `n` to `out`.
pub fn push_digits(n: u64, out: &mut Vec<u8>)
    ensures
        final(out)@ == old(out)@ + digits_of(n as nat),
    decreases n,
{
    if n >= 10 {
        push_digits(n / 10, out);
    }
    out.push((48 + n % 10) as u8);
    proof {
        if n < 10 {
            assert(final(out)@ =~= old(out)@ + digits_of(n as nat));
        }
    }
}

/// Appends the decimal text of `n` to `out`.
pub fn push_decimal(n: i64, out: &mut Vec<u8>)
    ensures
        final(out)@ == old(out)@ + decimal_text(n as int),
{
    if n < 0 {
        out.push(45);
        let m: u64 = if n == i64::MIN {
            9223372036854775808
        } else {
            (-n) as u64
        };
        push_digits(m, out);
    } else {
        push_digits(n as u64, out);
    }
}

} // verus!
