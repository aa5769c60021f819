//! Decimal integers in text, read as `str::parse` reads them: an optional sign,
//! then ASCII digits, the value checked against the target type's range digit
//! by digit.

use vstd::prelude::*;

verus! {

/// Why a text is not an integer of the target type.
#[derive(Debug, Clone, Copy, PartialEq, Eq, Structural)]
pub enum IntErrorKind {
    /// The text is empty.
    Empty,
    /// A character is not a digit where one is expected.
    InvalidDigit,
    /// The value is above the type's maximum.
    PosOverflow,
    /// The value is below the type's minimum.
    NegOverflow,
}

pub open spec fn is_digit(c: char) -> bool {
    '0' <= c <= '9'
}

pub open spec fn digit_value(c: char) -> int {
    c as u32 - '0' as u32
}

/// Reads the digits `s[i..]` onto `acc`, checking each partial value against
/// `[min, max]`; subtracts the digits when `negative`.
pub open spec fn fold_digits(s: Seq<char>, i: int, acc: int, negative: bool, min: int, max: int) -> Result<int, IntErrorKind>
    decreases s.len() - i,
{
    if i < 0 || i >= s.len() {
        Ok(acc)
    } else if !is_digit(s[i]) {
        Err(IntErrorKind::InvalidDigit)
    } else {
        let next = if negative {
            acc * 10 - digit_value(s[i])
        } else {
            acc * 10 + digit_value(s[i])
        };
        if next > max {
            Err(IntErrorKind::PosOverflow)
        } else if next < min {
            Err(IntErrorKind::NegOverflow)
        } else {
            fold_digits(s, i + 1, next, negative, min, max)
        }
    }
}

/// The integer that `s` denotes in `[min, max]`; a leading `-` is a sign only
/// when `signed`.
pub open spec fn spec_parse_int(s: Seq<char>, signed: bool, min: int, max: int) -> Result<int, IntErrorKind> {
    if s.len() == 0 {
        Err(IntErrorKind::Empty)
    } else if s.len() == 1 && (s[0] == '+' || s[0] == '-') {
        Err(IntErrorKind::InvalidDigit)
    } else if s[0] == '+' {
        fold_digits(s, 1, 0, false, min, max)
    } else if s[0] == '-' && signed {
        fold_digits(s, 1, 0, true, min, max)
    } else {
        fold_digits(s, 0, 0, false, min, max)
    }
}

pub open spec fn spec_parse_i32(s: Seq<char>) -> Result<i32, IntErrorKind> {
    match spec_parse_int(s, true, i32::MIN as int, i32::MAX as int) {
        Ok(v) => Ok(v as i32),
        Err(e) => Err(e),
    }
}

pub open spec fn spec_parse_usize(s: Seq<char>) -> Result<usize, IntErrorKind> {
    match spec_parse_int(s, false, 0, usize::MAX as int) {
        Ok(v) => Ok(v as usize),
        Err(e) => Err(e),
    }
}

pub open spec fn widened(r: Result<i128, IntErrorKind>) -> Result<int, IntErrorKind> {
    match r {
        Ok(v) => Ok(v as int),
        Err(e) => Err(e),
    }
}

proof fn lemma_fold_range(s: Seq<char>, i: int, acc: int, negative: bool, min: int, max: int)
    requires
        min <= acc <= max,
    ensures
        fold_digits(s, i, acc, negative, min, max) matches Ok(v) ==> min <= v <= max,
    decreases s.len() - i,
{
    if 0 <= i < s.len() && is_digit(s[i]) {
        let next = if negative {
            acc * 10 - digit_value(s[i])
        } else {
            acc * 10 + digit_value(s[i])
        };
        if min <= next <= max {
            lemma_fold_range(s, i + 1, next, negative, min, max);
        }
    }
}

/// Reads the digits of `s` from `from` on, within `[min, max]`.
fn parse_digits(s: &[char], from: usize, negative: bool, min: i128, max: i128) -> (r: Result<i128, IntErrorKind>)
    requires
        from <= s@.len(),
        min <= 0 <= max,
        -0x1_0000_0000_0000_0000 <= min,
        max <= 0x1_0000_0000_0000_0000,
    ensures
        widened(r) == fold_digits(s@, from as int, 0, negative, min as int, max as int),
{
    let mut acc: i128 = 0;
    let mut i = from;
    while i < s.len()
        invariant
            from <= i <= s@.len(),
            min <= acc <= max,
            -0x1_0000_0000_0000_0000 <= min <= 0 <= max <= 0x1_0000_0000_0000_0000,
            fold_digits(s@, from as int, 0, negative, min as int, max as int) == fold_digits(
                s@,
                i as int,
                acc as int,
                negative,
                min as int,
                max as int,
            ),
        decreases s@.len() - i,
    {
        let c = s[i];
        if !('0' <= c && c <= '9') {
            return Err(IntErrorKind::InvalidDigit);
        }
        let d = (c as u32 - '0' as u32) as i128;
        let next = if negative {
            acc * 10 - d
        } else {
            acc * 10 + d
        };
        if next > max {
            return Err(IntErrorKind::PosOverflow);
        }
        if next < min {
            return Err(IntErrorKind::NegOverflow);
        }
        acc = next;
        i = i + 1;
    }
    Ok(acc)
}

fn parse_int(s: &[char], signed: bool, min: i128, max: i128) -> (r: Result<i128, IntErrorKind>)
    requires
        min <= 0 <= max,
        -0x1_0000_0000_0000_0000 <= min,
        max <= 0x1_0000_0000_0000_0000,
    ensures
        widened(r) == spec_parse_int(s@, signed, min as int, max as int),
        r matches Ok(v) ==> min <= v <= max,
{
    let r = if s.len() == 0 {
        Err(IntErrorKind::Empty)
    } else if s.len() == 1 && (s[0] == '+' || s[0] == '-') {
        Err(IntErrorKind::InvalidDigit)
    } else if s[0] == '+' {
        parse_digits(s, 1, false, min, max)
    } else if s[0] == '-' && signed {
        parse_digits(s, 1, true, min, max)
    } else {
        parse_digits(s, 0, false, min, max)
    };
    proof {
        lemma_fold_range(s@, 0, 0, false, min as int, max as int);
        lemma_fold_range(s@, 1, 0, false, min as int, max as int);
        lemma_fold_range(s@, 1, 0, true, min as int, max as int);
    }
    r
}

/// The `i32` that `s` denotes, as `s.parse::<i32>()` reads it.
pub fn parse_i32(s: &[char]) -> (r: Result<i32, IntErrorKind>)
    ensures
        r == spec_parse_i32(s@),
{
    match parse_int(s, true, i32::MIN as i128, i32::MAX as i128) {
        Ok(v) => Ok(v as i32),
        Err(e) => Err(e),
    }
}

/// The `usize` that `s` denotes, as `s.parse::<usize>()` reads it.
pub fn parse_usize(s: &[char]) -> (r: Result<usize, IntErrorKind>)
    ensures
        r == spec_parse_usize(s@),
{
    match parse_int(s, false, 0, usize::MAX as i128) {
        Ok(v) => Ok(v as usize),
        Err(e) => Err(e),
    }
}

} // verus!
