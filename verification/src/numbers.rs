//! Decimal numerals: formatting of `usize` (as `Display` writes it) and
//! parsing (as `usize::from_str` reads it).

use vstd::prelude::*;
use crate::text::char_code;

verus! {

/// The ASCII digit for `d < 10`.
pub open spec fn digit_char(d: nat) -> char {
    ((48 + d) as u8) as char
}

pub open spec fn is_digit(c: char) -> bool {
    0x30 <= (c as int) <= 0x39
}

/// The decimal numeral of `n`, without leading zeros.
pub open spec fn decimal(n: nat) -> Seq<char>
    decreases n,
{
    if n < 10 {
        seq![digit_char(n)]
    } else {
        decimal(n / 10).push(digit_char(n % 10))
    }
}

/// The value of a string of digits.
pub open spec fn digits_value(t: Seq<char>) -> nat
    decreases t.len(),
{
    if t.len() == 0 {
        0
    } else {
        digits_value(t.drop_last()) * 10 + ((t.last() as int) - 48) as nat
    }
}

pub open spec fn all_digits(t: Seq<char>) -> bool {
    forall|k: int| 0 <= k < t.len() ==> is_digit(#[trigger] t[k])
}

/// The digits part of an unsigned numeral: one leading `+` is allowed when
/// something follows it.
pub open spec fn unsigned_digits(s: Seq<char>) -> Seq<char> {
    if s.len() > 1 && s[0] == '+' {
        s.drop_first()
    } else {
        s
    }
}

/// `usize::from_str`: a non-empty run of ASCII digits, optionally after
/// `+`, whose value fits in `usize`.
pub open spec fn parse_usize(s: Seq<char>) -> Option<usize> {
    let t = unsigned_digits(s);
    if t.len() > 0 && all_digits(t) && digits_value(t) <= usize::MAX {
        Some(digits_value(t) as usize)
    } else {
        None
    }
}

/// The decimal numeral of `n`.
pub fn decimal_chars(n: usize) -> (v: Vec<char>)
    ensures
        v@ == decimal(n as nat),
    decreases n,
{
    let d = ((48 + n % 10) as u8) as char;
    if n < 10 {
        let mut v = Vec::new();
        v.push(d);
        assert(v@ =~= seq![digit_char(n as nat)]);
        v
    } else {
        let mut v = decimal_chars(n / 10);
        v.push(d);
        v
    }
}

proof fn lemma_digits_value_monotone(t: Seq<char>, m: int)
    requires
        0 <= m <= t.len(),
        all_digits(t),
    ensures
        digits_value(t.take(m)) <= digits_value(t),
    decreases t.len() - m,
{
    if m < t.len() {
        lemma_digits_value_monotone(t, m + 1);
        assert(t.take(m + 1).drop_last() =~= t.take(m));
        assert(is_digit(t[m]));
    } else {
        assert(t.take(m) =~= t);
    }
}

/// `usize::from_str` on `s`.
pub fn parse_usize_exec(s: &[char]) -> (r: Option<usize>)
    ensures
        r == parse_usize(s@),
{
    let start: usize = if s.len() > 1 && s[0] == '+' {
        1
    } else {
        0
    };
    let ghost t = unsigned_digits(s@);
    assert(t =~= s@.subrange(start as int, s@.len() as int));
    if start == s.len() {
        return None;
    }
    let mut acc: usize = 0;
    let mut k: usize = start;
    while k < s.len()
        invariant
            start <= k <= s@.len(),
            start < s@.len(),
            t =~= s@.subrange(start as int, s@.len() as int),
            t == unsigned_digits(s@),
            forall|j: int| 0 <= j < k - start ==> is_digit(#[trigger] t[j]),
            acc == digits_value(t.take(k - start)),
        decreases s@.len() - k,
    {
        let c = s[k];
        let u = char_code(c);
        if u < 0x30 || u > 0x39 {
            assert(!is_digit(t[k - start]));
            assert(!all_digits(t));
            return None;
        }
        assert(t.take(k - start + 1).drop_last() =~= t.take(k - start));
        let d = (u - 0x30) as usize;
        let ghost next_prefix = t.take(k - start + 1);
        assert(digits_value(next_prefix) == acc * 10 + d);
        let stepped = match acc.checked_mul(10) {
            Some(m) => m.checked_add(d),
            None => None,
        };
        match stepped {
            Some(next) => {
                acc = next;
            },
            None => {
                proof {
                    assert(acc * 10 + d > usize::MAX);
                    if all_digits(t) {
                        lemma_digits_value_monotone(t, k - start + 1);
                        assert(digits_value(t) > usize::MAX);
                    }
                }
                return None;
            },
        }
        k = k + 1;
    }
    assert(t.take(t.len() as int) =~= t);
    Some(acc)
}

proof fn lemma_digit_char(d: nat)
    requires
        d < 10,
    ensures
        digit_char(d) as int == 48 + d,
        is_digit(digit_char(d)),
{
}

/// The numeral of `n` is a non-empty string of digits whose value is `n`.
pub proof fn lemma_decimal_value(n: nat)
    ensures
        decimal(n).len() >= 1,
        all_digits(decimal(n)),
        digits_value(decimal(n)) == n,
    decreases n,
{
    if n < 10 {
        lemma_digit_char(n);
        assert(decimal(n).drop_last() =~= Seq::<char>::empty());
        assert(digits_value(Seq::<char>::empty()) == 0);
        assert(decimal(n).last() == digit_char(n));
        assert(digits_value(decimal(n)) == digits_value(decimal(n).drop_last()) * 10 + ((decimal(n).last() as int) - 48) as nat);
    } else {
        lemma_decimal_value(n / 10);
        assert((n / 10) * 10 + n % 10 == n);
        lemma_digit_char(n % 10);
        let d = decimal(n / 10);
        assert(decimal(n).drop_last() =~= d);
        assert(decimal(n).last() == digit_char(n % 10));
        assert(digits_value(decimal(n)) == digits_value(d) * 10 + ((decimal(n).last() as int) - 48) as nat);
        assert forall|k: int| 0 <= k < decimal(n).len() implies is_digit(#[trigger] decimal(n)[k]) by {
            if k < d.len() {
                assert(decimal(n)[k] == d[k]);
            }
        }
    }
}

/// Parsing the numeral of `n` gives back `n`.
pub proof fn lemma_parse_decimal(n: usize)
    ensures
        parse_usize(decimal(n as nat)) == Some(n),
{
    lemma_decimal_value(n as nat);
    let t = decimal(n as nat);
    assert(is_digit(t[0]));
    assert(unsigned_digits(t) == t);
}

} // verus!
