//! Decimal rendering and parsing of port numbers.

use vstd::prelude::*;
use vstd::string::*;
use crate::text::push_char;
use crate::text::no_nl;

verus! {

/// The decimal digit character for `d` (meaningful for `d < 10`).
pub open spec fn digit_char(d: nat) -> char {
    if d == 0 {
        '0'
    } else if d == 1 {
        '1'
    } else if d == 2 {
        '2'
    } else if d == 3 {
        '3'
    } else if d == 4 {
        '4'
    } else if d == 5 {
        '5'
    } else if d == 6 {
        '6'
    } else if d == 7 {
        '7'
    } else if d == 8 {
        '8'
    } else {
        '9'
    }
}

/// The decimal digit string of `n`, without a sign and without leading
/// zeros (except for `n == 0` itself).
pub open spec fn dec_str(n: nat) -> Seq<char>
    decreases n,
{
    if n < 10 {
        seq![digit_char(n)]
    } else {
        dec_str(n / 10).push(digit_char(n % 10))
    }
}

/// Digit strings never contain a line break.
pub proof fn lemma_dec_str_no_nl(n: nat)
    ensures
        no_nl(dec_str(n)),
    decreases n,
{
    if n >= 10 {
        lemma_dec_str_no_nl(n / 10);
    }
}

/// `c` is a decimal digit.
pub open spec fn is_digit(c: char) -> bool {
    '0' <= c && c <= '9'
}

/// The numeric value of a digit character.
pub open spec fn digit_val(c: char) -> int {
    c as int - '0' as int
}

/// Every character of `s` is a decimal digit.
pub open spec fn all_digits(s: Seq<char>) -> bool {
    forall|j: int| 0 <= j < s.len() ==> is_digit(#[trigger] s[j])
}

/// The numeric value of a digit string, most significant digit first.
pub open spec fn dec_value(s: Seq<char>) -> int
    decreases s.len(),
{
    if s.len() == 0 {
        0
    } else {
        dec_value(s.drop_last()) * 10 + digit_val(s.last())
    }
}

proof fn lemma_dec_value_nonneg(s: Seq<char>)
    requires
        all_digits(s),
    ensures
        dec_value(s) >= 0,
    decreases s.len(),
{
    if s.len() > 0 {
        assert(all_digits(s.drop_last()));
        lemma_dec_value_nonneg(s.drop_last());
    }
}

proof fn lemma_dec_value_grows(s: Seq<char>, k: int)
    requires
        all_digits(s),
        0 <= k <= s.len(),
    ensures
        dec_value(s) >= dec_value(s.take(k)),
    decreases s.len() - k,
{
    if k < s.len() {
        lemma_dec_value_grows(s, k + 1);
        assert(s.take(k + 1).drop_last() =~= s.take(k));
        assert(s.take(k + 1).last() == s[k]);
        assert(all_digits(s.take(k)));
        lemma_dec_value_nonneg(s.take(k));
    } else {
        assert(s.take(k) =~= s);
    }
}

fn digit_to_char(d: u16) -> (c: char)
    requires
        d < 10,
    ensures
        c == digit_char(d as nat),
{
    if d == 0 {
        '0'
    } else if d == 1 {
        '1'
    } else if d == 2 {
        '2'
    } else if d == 3 {
        '3'
    } else if d == 4 {
        '4'
    } else if d == 5 {
        '5'
    } else if d == 6 {
        '6'
    } else if d == 7 {
        '7'
    } else if d == 8 {
        '8'
    } else {
        '9'
    }
}

/// Render a port number in decimal.
pub fn u16_to_dec(n: u16) -> (r: String)
    ensures
        r@ == dec_str(n as nat),
    decreases n,
{
    if n < 10 {
        let mut s = String::new();
        push_char(&mut s, digit_to_char(n));
        proof {
            assert(s@ =~= seq![digit_char(n as nat)]);
        }
        s
    } else {
        let mut s = u16_to_dec(n / 10);
        push_char(&mut s, digit_to_char(n % 10));
        s
    }
}

/// Parse a decimal port number: succeeds exactly on non-empty all-digit
/// strings whose value fits in sixteen bits, and returns that value.
pub fn parse_port(s: &str) -> (r: Option<u16>)
    ensures
        match r {
            Some(v) => s@.len() > 0 && all_digits(s@) && dec_value(s@) == v as int,
            None => s@.len() == 0 || !all_digits(s@) || dec_value(s@) > u16::MAX as int,
        },
{
    let n = s.unicode_len();
    if n == 0 {
        return None;
    }
    let mut acc: u32 = 0;
    let mut k: usize = 0;
    while k < n
        invariant
            0 < n == s@.len(),
            k <= n,
            all_digits(s@.take(k as int)),
            acc as int == dec_value(s@.take(k as int)),
            acc <= u16::MAX,
        decreases n - k,
    {
        let c = s.get_char(k);
        if !(c >= '0' && c <= '9') {
            return None;
        }
        let d: u32 = c as u32 - '0' as u32;
        proof {
            assert(s@.take(k as int + 1).drop_last() =~= s@.take(k as int));
            assert(s@.take(k as int + 1).last() == s@[k as int]);
        }
        let next: u32 = acc * 10 + d;
        if next > u16::MAX as u32 {
            proof {
                assert(all_digits(s@.take(k as int + 1)));
                if all_digits(s@) {
                    lemma_dec_value_grows(s@, k as int + 1);
                    assert(s@.take(s@.len() as int) =~= s@);
                }
            }
            return None;
        }
        acc = next;
        k += 1;
    }
    proof {
        assert(s@.take(n as int) =~= s@);
    }
    Some(acc as u16)
}

} // verus!
