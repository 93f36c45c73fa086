//! Decimal numbers as text: reading them and writing them.
use vstd::prelude::*;
use crate::text::is_digit;

verus! {

/// The digit that stands for `d`, for `d` below ten.
pub open spec fn digit_char(d: int) -> char {
    ((d + 48) as u8) as char
}

/// The number that the digit `c` stands for.
pub open spec fn digit_value(c: char) -> int {
    c as u32 - 48
}

/// Whether every character of `s` is a decimal digit.
pub open spec fn all_digits(s: Seq<char>) -> bool {
    forall|i: int| 0 <= i < s.len() ==> is_digit(#[trigger] s[i])
}

/// The number that the digits of `s` spell, most significant first.
pub open spec fn number_of(s: Seq<char>) -> int
    decreases s.len(),
{
    if s.len() == 0 {
        0
    } else {
        number_of(s.drop_last()) * 10 + digit_value(s.last())
    }
}

/// The shortest decimal spelling of `n`.
pub open spec fn decimal(n: nat) -> Seq<char>
    decreases n,
{
    if n < 10 {
        seq![digit_char(n as int)]
    } else {
        decimal(n / 10).push(digit_char((n % 10) as int))
    }
}

/// What a text spells as an unsigned number no greater than `max`: an optional
/// plus sign, then at least one decimal digit and nothing else. Leading zeros
/// are read; anything else spells no number.
pub open spec fn parse_number(s: Seq<char>, max: int) -> Option<int> {
    let d = if s.len() > 0 && s[0] == '+' {
        s.drop_first()
    } else {
        s
    };
    if d.len() > 0 && all_digits(d) && number_of(d) <= max {
        Some(number_of(d))
    } else {
        None
    }
}

/// A digit string spells at least what any of its beginnings spells.
pub proof fn lemma_number_of_grows(s: Seq<char>, i: int)
    requires
        all_digits(s),
        0 <= i <= s.len(),
    ensures
        0 <= number_of(s.take(i)) <= number_of(s),
    decreases s.len() - i,
{
    if i == s.len() {
        assert(s.take(i) == s);
        lemma_number_of_nonnegative(s);
    } else {
        lemma_number_of_grows(s, i + 1);
        let t = s.take(i + 1);
        assert(t.drop_last() == s.take(i));
        assert(is_digit(s[i]));
        assert(t.last() == s[i]);
        lemma_number_of_nonnegative(s.take(i));
    }
}

/// A digit string spells no negative number.
pub proof fn lemma_number_of_nonnegative(s: Seq<char>)
    requires
        all_digits(s),
    ensures
        0 <= number_of(s),
    decreases s.len(),
{
    if s.len() > 0 {
        assert(is_digit(s.last()));
        assert forall|i: int| 0 <= i < s.drop_last().len() implies is_digit(
            #[trigger] s.drop_last()[i],
        ) by {
            assert(s.drop_last()[i] == s[i]);
        }
        lemma_number_of_nonnegative(s.drop_last());
    }
}

/// Writing a number and reading it back gives the number: `decimal(n)` is a
/// non-empty string of digits that spells `n`.
pub proof fn lemma_decimal_spells(n: nat)
    ensures
        decimal(n).len() >= 1,
        all_digits(decimal(n)),
        number_of(decimal(n)) == n,
    decreases n,
{
    if n < 10 {
        let s = decimal(n);
        assert(s.drop_last().len() == 0);
        assert(number_of(s.drop_last()) == 0);
    } else {
        lemma_decimal_spells(n / 10);
        let s = decimal(n);
        assert(s.drop_last() == decimal(n / 10));
        assert(s.last() == digit_char((n % 10) as int));
    }
}

/// A written number is read back as itself under any bound that admits it.
pub proof fn lemma_parse_decimal(n: nat, max: int)
    requires
        n <= max,
    ensures
        parse_number(decimal(n), max) == Some(n as int),
{
    lemma_decimal_spells(n);
    assert(is_digit(decimal(n)[0]));
}

/// Reads `v` as an unsigned decimal number no greater than `max`.
pub fn parse_unsigned(v: &[char], max: u32) -> (r: Option<u32>)
    ensures
        match r {
            Some(n) => parse_number(v@, max as int) == Some(n as int),
            None => parse_number(v@, max as int).is_none(),
        },
{
    let mut i: usize = 0;
    if v.len() > 0 && v[0] == '+' {
        i = 1;
    }
    let ghost d = if v@.len() > 0 && v@[0] == '+' {
        v@.drop_first()
    } else {
        v@
    };
    assert(d == v@.skip(i as int));
    if i == v.len() {
        return None;
    }
    let first: usize = i;
    let mut acc: u32 = 0;
    while i < v.len()
        invariant
            first <= i <= v.len(),
            first < v.len(),
            d == v@.skip(first as int),
            d == if v@.len() > 0 && v@[0] == '+' {
                v@.drop_first()
            } else {
                v@
            },
            all_digits(d.take(i - first)),
            acc as int == number_of(d.take(i - first)),
            acc <= max,
        decreases v.len() - i,
    {
        let c = v[i];
        assert(d[i - first] == c);
        if !(c >= '0' && c <= '9') {
            assert(!all_digits(d));
            return None;
        }
        let digit: u32 = c as u32 - 48;
        proof {
            let t = d.take(i - first + 1);
            assert(t.drop_last() == d.take(i - first));
            assert(t.last() == c);
            assert forall|j: int| 0 <= j < t.len() implies is_digit(#[trigger] t[j]) by {
                if j < i - first {
                    assert(t[j] == d.take(i - first)[j]);
                }
            }
            assert(number_of(t) == acc * 10 + digit);
        }
        if acc as u64 * 10 + digit as u64 > max as u64 {
            proof {
                if all_digits(d) {
                    lemma_number_of_grows(d, i - first + 1);
                }
            }
            return None;
        }
        acc = acc * 10 + digit;
        i += 1;
    }
    assert(d.take(d.len() as int) == d);
    Some(acc)
}

/// The digit for `d`.
fn digit_of(d: u8) -> (c: char)
    requires
        d <= 9,
    ensures
        c == digit_char(d as int),
{
    (d + 48) as char
}

/// Appends the decimal spelling of `n` to `out`.
pub fn push_decimal(out: &mut Vec<char>, n: u32)
    ensures
        final(out)@ == old(out)@ + decimal(n as nat),
    decreases n,
{
    if n >= 10 {
        push_decimal(out, n / 10);
    }
    out.push(digit_of((n % 10) as u8));
    proof {
        if n >= 10 {
            assert(old(out)@ + decimal(n as nat) == (old(out)@ + decimal((n / 10) as nat)).push(
                digit_char((n % 10) as int),
            ));
        } else {
            assert(old(out)@ + decimal(n as nat) == old(out)@.push(digit_char(n as int)));
        }
    }
}

} // verus!
