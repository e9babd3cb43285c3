//! Reading integers from the text of arguments.

use crate::error::Error;
use vstd::prelude::*;
use vstd::string::*;

verus! {

/// White space, as Unicode defines it.
pub open spec fn is_space(c: char) -> bool {
    let v = c as u32;
    ||| 0x09 <= v <= 0x0D
    ||| v == 0x20
    ||| v == 0x85
    ||| v == 0xA0
    ||| v == 0x1680
    ||| 0x2000 <= v <= 0x200A
    ||| v == 0x2028
    ||| v == 0x2029
    ||| v == 0x202F
    ||| v == 0x205F
    ||| v == 0x3000
}

/// One of the ten decimal digits.
pub open spec fn is_digit(c: char) -> bool {
    0x30 <= c as u32 <= 0x39
}

/// The number that a decimal digit stands for.
pub open spec fn digit_value(c: char) -> int {
    c as u32 - 0x30
}

/// The text without the white space that it begins with.
pub open spec fn trim_start(s: Seq<char>) -> Seq<char>
    decreases s.len(),
{
    if s.len() > 0 && is_space(s[0]) {
        trim_start(s.drop_first())
    } else {
        s
    }
}

/// The text without the white space that it ends with.
pub open spec fn trim_end(s: Seq<char>) -> Seq<char>
    decreases s.len(),
{
    if s.len() > 0 && is_space(s.last()) {
        trim_end(s.drop_last())
    } else {
        s
    }
}

/// Every character is a decimal digit.
pub open spec fn all_digits(s: Seq<char>) -> bool {
    forall|i: int| 0 <= i < s.len() ==> is_digit(#[trigger] s[i])
}

/// The number that a sequence of decimal digits stands for.
pub open spec fn decimal_value(digits: Seq<char>) -> int
    decreases digits.len(),
{
    if digits.len() == 0 {
        0
    } else {
        decimal_value(digits.drop_last()) * 10 + digit_value(digits.last())
    }
}

/// The integer that a sign and a sequence of decimal digits stand for: one
/// digit or more, for a number that an `i64` holds. Anything else stands for
/// none.
pub open spec fn signed_value(negative: bool, digits: Seq<char>) -> Option<int> {
    let value = if negative {
        -decimal_value(digits)
    } else {
        decimal_value(digits)
    };
    if digits.len() > 0 && all_digits(digits) && i64::MIN <= value <= i64::MAX {
        Some(value)
    } else {
        None
    }
}

/// The integer that the text stands for: white space around it aside, an
/// optional sign and then decimal digits.
pub open spec fn parse_int(s: Seq<char>) -> Option<int> {
    let t = trim_end(trim_start(s));
    if t.len() > 0 && t[0] == '-' {
        signed_value(true, t.drop_first())
    } else if t.len() > 0 && t[0] == '+' {
        signed_value(false, t.drop_first())
    } else {
        signed_value(false, t)
    }
}

/// Whether the character is white space.
pub fn is_space_char(c: char) -> (b: bool)
    ensures
        b == is_space(c),
{
    let v = c as u32;
    (0x09 <= v && v <= 0x0D) || v == 0x20 || v == 0x85 || v == 0xA0 || v == 0x1680 || (0x2000 <= v
        && v <= 0x200A) || v == 0x2028 || v == 0x2029 || v == 0x202F || v == 0x205F || v == 0x3000
}

/// A number does not get smaller as digits are appended.
proof fn lemma_decimal_value_grows(digits: Seq<char>, i: int)
    requires
        all_digits(digits),
        0 <= i <= digits.len(),
    ensures
        0 <= decimal_value(digits.take(i)) <= decimal_value(digits),
    decreases digits.len() - i,
{
    if i == digits.len() {
        assert(digits.take(i) =~= digits);
        lemma_decimal_value_not_negative(digits);
    } else {
        lemma_decimal_value_grows(digits, i + 1);
        assert(digits.take(i + 1).drop_last() =~= digits.take(i));
        assert(is_digit(digits[i]));
        assert(digits.take(i + 1).last() == digits[i]);
        lemma_decimal_value_not_negative(digits.take(i));
    }
}

/// Digits stand for a number that is not negative.
proof fn lemma_decimal_value_not_negative(digits: Seq<char>)
    requires
        all_digits(digits),
    ensures
        0 <= decimal_value(digits),
    decreases digits.len(),
{
    if digits.len() > 0 {
        assert(is_digit(digits[digits.len() - 1]));
        lemma_decimal_value_not_negative(digits.drop_last());
    }
}

/// Reads a decimal integer, as `parse_int` defines it.
pub fn parse_i64(s: &str) -> (r: Option<i64>)
    ensures
        match r {
            Some(v) => parse_int(s@) == Some(v as int),
            None => parse_int(s@) is None,
        },
{
    let n = s.unicode_len();
    let mut start: usize = 0;
    proof {
        assert(s@.skip(0) =~= s@);
    }
    while start < n && is_space_char(s.get_char(start))
        invariant
            0 <= start <= n,
            n == s@.len(),
            trim_start(s@) == trim_start(s@.skip(start as int)),
        decreases n - start,
    {
        proof {
            assert(s@.skip(start as int).drop_first() =~= s@.skip(start + 1));
        }
        start = start + 1;
    }
    let ghost rest = s@.skip(start as int);
    assert(trim_start(s@) == rest);
    let mut end: usize = n;
    proof {
        assert(s@.subrange(start as int, n as int) =~= rest);
    }
    while end > start && is_space_char(s.get_char(end - 1))
        invariant
            0 <= start <= end <= n,
            n == s@.len(),
            trim_end(rest) == trim_end(s@.subrange(start as int, end as int)),
        decreases end - start,
    {
        proof {
            assert(s@.subrange(start as int, end as int).drop_last() =~= s@.subrange(
                start as int,
                end - 1,
            ));
        }
        end = end - 1;
    }
    let ghost t = s@.subrange(start as int, end as int);
    assert(trim_end(trim_start(s@)) == t);
    let mut negative = false;
    let mut pos: usize = start;
    if start < end {
        let c = s.get_char(start);
        if c == '-' || c == '+' {
            negative = c == '-';
            pos = start + 1;
        }
    }
    let ghost digits = s@.subrange(pos as int, end as int);
    proof {
        if pos == start {
            assert(digits =~= t);
        } else {
            assert(digits =~= t.drop_first());
        }
    }
    assert(parse_int(s@) == signed_value(negative, digits));
    if pos == end {
        return None;
    }
    let mut acc: i128 = 0;
    let mut i: usize = pos;
    proof {
        assert(digits.take(0) =~= Seq::<char>::empty());
    }
    while i < end
        invariant
            pos <= i <= end <= n,
            n == s@.len(),
            digits == s@.subrange(pos as int, end as int),
            parse_int(s@) == signed_value(negative, digits),
            all_digits(digits.take(i - pos)),
            acc == decimal_value(digits.take(i - pos)),
            0 <= acc <= 0x8000_0000_0000_0000,
        decreases end - i,
    {
        let c = s.get_char(i);
        let v = c as u32;
        if v < 0x30 || v > 0x39 {
            proof {
                assert(digits[i - pos] == c);
                assert(!is_digit(digits[i - pos]));
            }
            return None;
        }
        let next: i128 = acc * 10 + (v - 0x30) as i128;
        proof {
            assert(digits.take(i + 1 - pos).drop_last() =~= digits.take(i - pos));
            assert(digits.take(i + 1 - pos).last() == c);
            assert forall|k: int| 0 <= k < i + 1 - pos implies is_digit(
                #[trigger] digits.take(i + 1 - pos)[k],
            ) by {
                if k < i - pos {
                    assert(digits.take(i - pos)[k] == digits.take(i + 1 - pos)[k]);
                }
            }
        }
        if next > 0x8000_0000_0000_0000 {
            proof {
                if all_digits(digits) {
                    lemma_decimal_value_grows(digits, i + 1 - pos);
                }
            }
            return None;
        }
        acc = next;
        i = i + 1;
    }
    proof {
        assert(digits.take(end - pos) =~= digits);
    }
    if negative {
        Some((-acc) as i64)
    } else if acc <= 0x7FFF_FFFF_FFFF_FFFF {
        Some(acc as i64)
    } else {
        None
    }
}

/// Reads every argument as a decimal integer. One argument that is none
/// makes the whole input malformed.
pub fn get_int_args(args: Vec<String>) -> (r: Result<Vec<i64>, Error>)
    ensures
        match r {
            Ok(values) => values@.len() == args@.len() && forall|i: int|
                0 <= i < args@.len() ==> parse_int(#[trigger] args@[i]@) == Some(
                    values@[i] as int,
                ),
            Err(e) => e == Error::MalformedInput && exists|i: int|
                0 <= i < args@.len() && parse_int(#[trigger] args@[i]@) is None,
        },
{
    let mut values: Vec<i64> = Vec::new();
    let mut i: usize = 0;
    while i < args.len()
        invariant
            0 <= i <= args.len(),
            values@.len() == i,
            forall|k: int|
                0 <= k < i ==> parse_int(#[trigger] args@[k]@) == Some(values@[k] as int),
        decreases args.len() - i,
    {
        match parse_i64(args[i].as_str()) {
            Some(v) => {
                values.push(v);
            },
            None => {
                return Err(Error::MalformedInput);
            },
        }
        i = i + 1;
    }
    Ok(values)
}

} // verus!
