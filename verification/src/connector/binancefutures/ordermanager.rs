//! Client order ids: the order id of the strategy behind a prefix.

use vstd::prelude::*;
use vstd::string::StringSliceAdditionalSpecFns;

verus! {

/// The byte is a decimal digit.
pub open spec fn is_digit(b: u8) -> bool {
    0x30 <= b <= 0x39
}

/// Every byte is a decimal digit.
pub open spec fn all_digits(s: Seq<u8>) -> bool {
    forall|i: int| 0 <= i < s.len() ==> is_digit(#[trigger] s[i])
}

/// The number that the decimal digits spell.
pub open spec fn digits_value(s: Seq<u8>) -> int
    decreases s.len(),
{
    if s.len() == 0 {
        0
    } else {
        digits_value(s.drop_last()) * 10 + (s.last() - 0x30)
    }
}

/// Whether `s` begins with `prefix`.
pub open spec fn starts_with(s: Seq<u8>, prefix: Seq<u8>) -> bool {
    prefix.len() <= s.len() && s.take(prefix.len() as int) == prefix
}

/// The order id that a client order id stands for: the number that the
/// decimal digits behind the prefix spell, where there is a prefix, there
/// are digits and nothing else behind it, and the number is an id.
pub open spec fn spec_parse_client_order_id(client_order_id: Seq<u8>, prefix: Seq<u8>) -> Option<
    i64,
> {
    let digits = client_order_id.skip(prefix.len() as int);
    if starts_with(client_order_id, prefix) && digits.len() > 0 && all_digits(digits)
        && digits_value(digits) <= i64::MAX {
        Some(digits_value(digits) as i64)
    } else {
        None
    }
}

/// More digits never spell a smaller number.
pub proof fn lemma_digits_grow(s: Seq<u8>, n: int)
    requires
        0 <= n <= s.len(),
        all_digits(s),
    ensures
        0 <= digits_value(s.take(n)) <= digits_value(s),
    decreases s.len() - n,
{
    lemma_digits_nonnegative(s.take(n));
    if n < s.len() {
        let longer = s.take(n + 1);
        assert(longer.drop_last() =~= s.take(n));
        assert(is_digit(longer.last())) by {
            assert(longer.last() == s[n]);
        }
        lemma_digits_grow(s, n + 1);
    } else {
        assert(s.take(n) =~= s);
    }
}

/// Digits spell no negative number.
pub proof fn lemma_digits_nonnegative(s: Seq<u8>)
    requires
        all_digits(s),
    ensures
        0 <= digits_value(s),
    decreases s.len(),
{
    if s.len() > 0 {
        let rest = s.drop_last();
        assert forall|i: int| 0 <= i < rest.len() implies is_digit(#[trigger] rest[i]) by {
            assert(rest[i] == s[i]);
        }
        lemma_digits_nonnegative(rest);
        assert(is_digit(s.last())) by {
            assert(s.last() == s[s.len() - 1]);
        }
    }
}

/// The order id that the bytes of a client order id stand for.
pub fn parse_bytes(client_order_id: &[u8], prefix: &[u8]) -> (r: Option<i64>)
    ensures
        r == spec_parse_client_order_id(client_order_id@, prefix@),
{
    let n = client_order_id.len();
    let p = prefix.len();
    if p > n {
        return None;
    }
    let mut i: usize = 0;
    while i < p
        invariant
            0 <= i <= p <= n,
            n == client_order_id@.len(),
            p == prefix@.len(),
            forall|j: int| 0 <= j < i ==> client_order_id@[j] == prefix@[j],
        decreases p - i,
    {
        if client_order_id[i] != prefix[i] {
            proof {
                assert(client_order_id@.take(p as int)[i as int] == client_order_id@[i as int]);
            }
            return None;
        }
        i = i + 1;
    }
    assert(client_order_id@.take(p as int) =~= prefix@);
    if p == n {
        return None;
    }
    let ghost digits = client_order_id@.skip(p as int);
    let mut value: i64 = 0;
    let mut k: usize = p;
    while k < n
        invariant
            p <= k <= n,
            n == client_order_id@.len(),
            p == prefix@.len(),
            digits == client_order_id@.skip(p as int),
            all_digits(digits.take(k - p)),
            value == digits_value(digits.take(k - p)),
            0 <= value,
        decreases n - k,
    {
        let b = client_order_id[k];
        let ghost seen = digits.take(k - p);
        let ghost more = digits.take(k - p + 1);
        proof {
            assert(more.drop_last() =~= seen);
            assert(more.last() == b);
        }
        if b < 0x30 || b > 0x39 {
            proof {
                assert(digits[k - p] == b);
                assert(!is_digit(digits[k - p]));
            }
            return None;
        }
        let d = (b - 0x30) as i64;
        proof {
            assert forall|j: int| 0 <= j < more.len() implies is_digit(#[trigger] more[j]) by {
                if j < seen.len() {
                    assert(more[j] == seen[j]);
                }
            }
        }
        if value > (i64::MAX - d) / 10 {
            proof {
                assert(digits_value(more) == value * 10 + d);
                assert(value * 10 + d > i64::MAX);
                if all_digits(digits) {
                    lemma_digits_grow(digits, k - p + 1);
                }
            }
            return None;
        }
        value = value * 10 + d;
        k = k + 1;
    }
    proof {
        assert(digits.take(n - p) =~= digits);
    }
    Some(value)
}

/// The order id that a client order id stands for: the number behind the
/// prefix.
pub fn parse_client_order_id(client_order_id: &str, prefix: &str) -> (r: Option<i64>)
    ensures
        r == spec_parse_client_order_id(client_order_id.spec_bytes(), prefix.spec_bytes()),
{
    parse_bytes(client_order_id.as_bytes(), prefix.as_bytes())
}

} // verus!
