//! Numbers as text: decimal digits, and the reading of unsigned numbers.

use vstd::prelude::*;

use crate::text::push_all;

verus! {

/// The character of a decimal digit.
pub open spec fn digit_char(d: nat) -> char {
    (48 + d) as u8 as char
}

/// `n` in decimal, without leading zeros.
pub open spec fn decimal(n: nat) -> Seq<char>
    decreases n,
{
    if n < 10 {
        seq![digit_char(n)]
    } else {
        decimal(n / 10).push(digit_char(n % 10))
    }
}

/// `n` in decimal, with leading zeros up to three digits.
pub open spec fn decimal3(n: nat) -> Seq<char> {
    if n < 10 {
        seq!['0', '0'] + decimal(n)
    } else if n < 100 {
        seq!['0'] + decimal(n)
    } else {
        decimal(n)
    }
}

/// `n` in decimal.
pub fn decimal_of(n: usize) -> (out: Vec<char>)
    ensures
        out@ == decimal(n as nat),
    decreases n,
{
    let digit = (48 + (n % 10) as u8) as char;
    if n < 10 {
        let mut out: Vec<char> = Vec::new();
        out.push(digit);
        assert(out@ =~= seq![digit_char(n as nat)]);
        out
    } else {
        let mut out = decimal_of(n / 10);
        out.push(digit);
        out
    }
}

/// `n` in decimal, with leading zeros up to three digits.
pub fn decimal3_of(n: usize) -> (out: Vec<char>)
    ensures
        out@ == decimal3(n as nat),
{
    let mut out: Vec<char> = Vec::new();
    if n < 10 {
        out.push('0');
    }
    if n < 100 {
        out.push('0');
    }
    let digits = decimal_of(n);
    let ghost zeros = out@;
    push_all(&mut out, &digits);
    proof {
        if n < 10 {
            assert(zeros =~= seq!['0', '0']);
        } else if n < 100 {
            assert(zeros =~= seq!['0']);
        } else {
            assert(zeros + digits@ =~= digits@);
        }
    }
    out
}

/// The value of a digit in a radix of at most 16, or none.
pub open spec fn digit_value(c: char, radix: nat) -> Option<nat> {
    let v = if '0' <= c <= '9' {
        (c as int - 48) as nat
    } else if 'a' <= c <= 'f' {
        (c as int - 87) as nat
    } else if 'A' <= c <= 'F' {
        (c as int - 55) as nat
    } else {
        16
    };
    if v < radix {
        Some(v)
    } else {
        None
    }
}

/// The number that a run of digits spells; the digits are given by `digit_value`.
pub open spec fn digits_value(s: Seq<char>, radix: nat) -> nat
    decreases s.len(),
{
    if s.len() == 0 {
        0
    } else {
        digits_value(s.drop_last(), radix) * radix + digit_value(s.last(), radix)->0
    }
}

/// The digits of an unsigned number as it may be written: a plus sign may precede them.
pub open spec fn unsigned_digits(s: Seq<char>) -> Seq<char> {
    if s.len() > 0 && s[0] == '+' {
        s.skip(1)
    } else {
        s
    }
}

/// Whether `s` consists of digits of `radix`, at least one.
pub open spec fn is_digits(s: Seq<char>, radix: nat) -> bool {
    &&& s.len() > 0
    &&& forall|i: int| 0 <= i < s.len() ==> digit_value(#[trigger] s[i], radix) is Some
}

proof fn lemma_leading_zero(s: Seq<char>)
    ensures
        digits_value(seq!['0'] + s, 10) == digits_value(s, 10),
    decreases s.len(),
{
    reveal_with_fuel(digits_value, 2);
    let t = seq!['0'] + s;
    if s.len() == 0 {
        assert(t.drop_last() =~= Seq::empty());
        assert(t.last() == '0');
    } else {
        assert(t.drop_last() =~= seq!['0'] + s.drop_last());
        assert(t.last() == s.last());
        lemma_leading_zero(s.drop_last());
    }
}

/// The digits of a number, with or without leading zeros, spell that number.
pub proof fn law_decimals_are_read_back(n: nat)
    ensures
        digits_value(decimal(n), 10) == n,
        digits_value(decimal3(n), 10) == n,
    decreases n,
{
    reveal_with_fuel(digits_value, 2);
    let d = decimal(n);
    assert(digit_value(digit_char(n % 10), 10) == Some(n % 10));
    if n < 10 {
        assert(d.drop_last() =~= Seq::empty());
        lemma_leading_zero(d);
        lemma_leading_zero(seq!['0'] + d);
        assert(seq!['0', '0'] + d =~= seq!['0'] + (seq!['0'] + d));
    } else {
        assert(d.drop_last() =~= decimal(n / 10));
        law_decimals_are_read_back(n / 10);
        lemma_leading_zero(d);
    }
}

/// The unsigned number that `s` spells in `radix`, if it is at most `max`: one or more
/// digits, with an optional plus sign before them.
pub open spec fn parse_unsigned(s: Seq<char>, radix: nat, max: nat) -> Option<nat> {
    let digits = unsigned_digits(s);
    if is_digits(digits, radix) && digits_value(digits, radix) <= max {
        Some(digits_value(digits, radix))
    } else {
        None
    }
}

proof fn lemma_decimal_digits(n: nat)
    ensures
        is_digits(decimal(n), 10),
        forall|i: int| 0 <= i < decimal(n).len() ==> '0' <= #[trigger] decimal(n)[i] <= '9',
        n >= 10 ==> decimal(n).len() > 1,
        n < 10 ==> decimal(n).len() == 1,
        n >= 100 ==> decimal(n).len() > 2,
        10 <= n < 100 ==> decimal(n).len() == 2,
        n > 0 ==> decimal(n)[0] != '0',
    decreases n,
{
    let d = decimal(n);
    if n >= 10 {
        lemma_decimal_digits(n / 10);
        let init = decimal(n / 10);
        assert(d[0] == init[0]);
        assert forall|i: int| 0 <= i < d.len() implies '0' <= #[trigger] d[i] <= '9' by {
            if i < init.len() {
                assert(d[i] == init[i]);
            }
        }
    }
    assert forall|i: int| 0 <= i < d.len() implies digit_value(#[trigger] d[i], 10) is Some by {
        assert('0' <= d[i] <= '9');
    }
}

/// A number in decimal is digits only, and without leading zeros; with leading zeros it has at
/// least three digits, and no zero more than that takes. Read, it is the number again, unless it is
/// too large.
pub proof fn law_decimals_are_digits(n: nat, max: nat)
    ensures
        decimal(n).len() > 0,
        forall|i: int| 0 <= i < decimal(n).len() ==> '0' <= #[trigger] decimal(n)[i] <= '9',
        decimal(n).len() > 1 ==> decimal(n)[0] != '0',
        decimal3(n).len() >= 3,
        decimal3(n).len() > 3 ==> decimal3(n) == decimal(n),
        decimal3(n).skip(decimal3(n).len() - decimal(n).len()) == decimal(n),
        parse_unsigned(decimal(n), 10, max) == if n <= max {
            Some(n)
        } else {
            None
        },
        parse_unsigned(decimal3(n), 10, max) == if n <= max {
            Some(n)
        } else {
            None
        },
{
    lemma_decimal_digits(n);
    law_decimals_are_read_back(n);
    let d = decimal(n);
    let d3 = decimal3(n);
    assert(d3.skip(d3.len() - d.len()) =~= d);
    assert forall|i: int| 0 <= i < d3.len() implies digit_value(#[trigger] d3[i], 10) is Some by {
        let at = i - (d3.len() - d.len());
        if at >= 0 {
            assert(d3[i] == d[at]);
        } else {
            assert(d3[i] == '0');
        }
    }
    assert('0' <= d[0] <= '9');
    assert(digit_value(d3[0], 10) is Some);
}

/// A number is read digit by digit, the first counting most; a plus sign before it changes
/// nothing. What is empty, holds anything but digits, or is too large, is no number.
pub proof fn law_numbers_are_read_digit_by_digit(s: Seq<char>, c: char, radix: nat, max: nat)
    requires
        2 <= radix <= 16,
        s.len() > 0 ==> s[0] != '+',
    ensures
        parse_unsigned(Seq::empty(), radix, max) is None,
        parse_unsigned(seq!['+'] + s, radix, max) == parse_unsigned(s, radix, max),
        parse_unsigned(s, radix, max) matches Some(n) ==> n <= max && forall|i: int|
            0 <= i < s.len() ==> digit_value(#[trigger] s[i], radix) is Some,
        s.len() > 0 && parse_unsigned(s, radix, max) is Some && digit_value(c, radix) is Some
            ==> parse_unsigned(s.push(c), radix, max) == {
            let n = parse_unsigned(s, radix, max)->0 * radix + digit_value(c, radix)->0;
            if n <= max {
                Some(n)
            } else {
                None
            }
        },
        s.len() == 0 && c != '+' ==> parse_unsigned(s.push(c), radix, max) == match digit_value(
            c,
            radix,
        ) {
            Some(v) => if v <= max {
                Some(v)
            } else {
                None
            },
            None => None,
        },
        digit_value(c, radix) is Some <==> ('0' <= c <= '9' && c as int - '0' as int <= radix - 1)
            || ('a' <= c <= 'f' && c as int - 'a' as int + 10 <= radix - 1) || ('A' <= c <= 'F'
            && c as int - 'A' as int + 10 <= radix - 1),
        digit_value(c, radix) matches Some(v) ==> v == if '0' <= c <= '9' {
            c as int - '0' as int
        } else if 'a' <= c <= 'f' {
            c as int - 'a' as int + 10
        } else {
            c as int - 'A' as int + 10
        },
{
    reveal_with_fuel(digits_value, 2);
    assert((seq!['+'] + s).skip(1) =~= s);
    let t = s.push(c);
    assert(t.drop_last() =~= s);
    if s.len() > 0 {
        assert(t[0] == s[0]);
        if parse_unsigned(s, radix, max) is Some && digit_value(c, radix) is Some {
            assert forall|i: int| 0 <= i < t.len() implies digit_value(
                #[trigger] t[i],
                radix,
            ) is Some by {
                if i < s.len() {
                    assert(t[i] == s[i]);
                }
            }
        }
    } else {
        assert(t[0] == c);
        assert(s =~= Seq::empty());
        assert(digits_value(s, radix) * radix == 0) by (nonlinear_arith)
            requires
                digits_value(s, radix) == 0,
        ;
        if is_digits(t, radix) {
            assert(digit_value(t[0], radix) is Some);
        } else {
            assert(digit_value(c, radix) is None);
        }
    }
}

/// The value of a longer run of digits is no smaller.
proof fn lemma_prefix_value(s: Seq<char>, n: int, radix: nat)
    requires
        0 <= n <= s.len(),
        radix >= 1,
        forall|i: int| 0 <= i < s.len() ==> digit_value(#[trigger] s[i], radix) is Some,
    ensures
        digits_value(s.take(n), radix) <= digits_value(s, radix),
    decreases s.len() - n,
{
    if n < s.len() {
        let longer = s.take(n + 1);
        assert(longer.drop_last() =~= s.take(n));
        let v = digits_value(s.take(n), radix);
        assert(v <= v * radix) by (nonlinear_arith)
            requires
                radix >= 1,
                v >= 0,
        ;
        lemma_prefix_value(s, n + 1, radix);
    } else {
        assert(s.take(n) =~= s);
    }
}

/// The value of `c` as a digit.
fn digit_of(c: char, radix: u64) -> (r: Option<u64>)
    requires
        radix <= 16,
    ensures
        r is Some <==> digit_value(c, radix as nat) is Some,
        r is Some ==> r->0 == digit_value(c, radix as nat)->0,
{
    let v: u64 = if '0' <= c && c <= '9' {
        c as u64 - 48
    } else if 'a' <= c && c <= 'f' {
        c as u64 - 87
    } else if 'A' <= c && c <= 'F' {
        c as u64 - 55
    } else {
        16
    };
    if v < radix {
        Some(v)
    } else {
        None
    }
}

/// Reads an unsigned number of at most `max`.
pub fn read_unsigned(s: &[char], radix: u64, max: u64) -> (r: Option<u64>)
    requires
        2 <= radix <= 16,
    ensures
        match parse_unsigned(s@, radix as nat, max as nat) {
            Some(v) => r is Some && r->0 == v && v <= u64::MAX,
            None => r is None,
        },
{
    let start: usize = if s.len() > 0 && s[0] == '+' {
        1
    } else {
        0
    };
    let ghost digits = unsigned_digits(s@);
    assert(digits =~= s@.skip(start as int));
    if start == s.len() {
        return None;
    }
    let mut value: u64 = 0;
    let mut i: usize = start;
    assert(digits.take(0) =~= Seq::empty());
    while i < s.len()
        invariant
            start <= i <= s@.len(),
            2 <= radix <= 16,
            digits == s@.skip(start as int),
            digits == unsigned_digits(s@),
            forall|j: int| start <= j < i ==> digit_value(#[trigger] s@[j], radix as nat) is Some,
            value == digits_value(digits.take(i - start), radix as nat),
            value <= max,
        decreases s.len() - i,
    {
        let ghost before = digits.take(i - start);
        let ghost after = digits.take(i - start + 1);
        assert(after.drop_last() =~= before);
        assert(after.last() == s@[i as int]);
        match digit_of(s[i], radix) {
            None => {
                assert(digits[i - start] == s@[i as int]);
                return None;
            },
            Some(d) => {
                let next = match value.checked_mul(radix) {
                    None => None,
                    Some(p) => p.checked_add(d),
                };
                let over = match next {
                    None => true,
                    Some(v) => v > max,
                };
                if over {
                    proof {
                        assert(digits_value(after, radix as nat) == value * radix + d);
                        assert(digits_value(after, radix as nat) > max);
                        if is_digits(digits, radix as nat) {
                            lemma_prefix_value(digits, i - start + 1, radix as nat);
                        }
                    }
                    return None;
                }
                value = next.unwrap();
                i += 1;
            },
        }
    }
    proof {
        assert(digits.take(i - start) =~= digits);
        assert forall|j: int| 0 <= j < digits.len() implies digit_value(
            #[trigger] digits[j],
            radix as nat,
        ) is Some by {
            assert(digits[j] == s@[start + j]);
        }
    }
    Some(value)
}

} // verus!
