//! Reading records out of lines of text: the fields of a line are cut out
//! by the `scan_fmt` crate, and turned into numbers and characters here.

use vstd::prelude::*;

verus! {

/// The fields that `scan_fmt::parse::scan` cuts out of `input` under
/// `format`, in the order of the `{..}` places of `format` that store one.
pub uninterp spec fn scanned(input: Seq<char>, format: Seq<char>) -> Seq<Seq<char>>;

/// The formats that this library scans with.
pub open spec fn is_known_format(format: Seq<char>) -> bool {
    ||| format == "Step {} must be finished before step {} can begin."@
    ||| format == "#{d} @ {d},{d}: {d}x{d}"@
    ||| format == "[{d}-{d}-{d} {d}:{d}] {[a-zA-Z#0-9 ]}"@
    ||| format == "Guard #{d} begins shift"@
    ||| format == "{d}, {d}"@
    ||| format == "position=<{}, {}> velocity=<{}, {}>"@
}

/// Calls `scan_fmt::parse::scan`, which walks `format` and `input` side by
/// side and collects the text that each storing `{..}` place matches.  The
/// contract names the result and says nothing else of it.  The formats are
/// held to those of this library: none of them has a `{f}` or `{/../}`
/// place, the two on which the scanner can read past the end of its text.
#[verifier::external_body]
pub(crate) fn scan(input: &str, format: &str) -> (fields: Vec<String>)
    requires
        is_known_format(format@),
    ensures
        fields@.len() == scanned(input@, format@).len(),
        forall|i: int| 0 <= i < fields@.len() ==> (#[trigger] fields@[i])@ == scanned(input@, format@)[i],
{
    scan_fmt::parse::scan(input, format).collect()
}

/// A record could not be read: the field with this number, counted from 0,
/// is missing or does not hold a value of its type.
#[derive(Clone, Copy, Debug, PartialEq, Eq, Structural)]
pub struct ParseError {
    pub field: usize,
}

/// The character that a field of one character holds.
pub open spec fn char_of(field: Seq<char>) -> Option<char> {
    if field.len() == 1 {
        Some(field[0])
    } else {
        None
    }
}

/// Reads a field that holds one character.
pub fn parse_char(field: &str) -> (r: Option<char>)
    ensures
        r == char_of(field@),
{
    if field.unicode_len() == 1 {
        Some(field.get_char(0))
    } else {
        None
    }
}

/// `c` is one of the digits 0 to 9.
pub open spec fn is_digit(c: char) -> bool {
    '0' <= c <= '9'
}

/// The number that the digits `s` write in base ten.
pub open spec fn decimal_value(s: Seq<char>) -> nat
    decreases s.len(),
{
    if s.len() == 0 {
        0
    } else {
        (10 * decimal_value(s.drop_last()) + (s.last() as int - '0' as int)) as nat
    }
}

/// `s` holds a digit at least, and digits only.
pub open spec fn is_number(s: Seq<char>) -> bool {
    &&& s.len() > 0
    &&& forall|i: int| 0 <= i < s.len() ==> is_digit(#[trigger] s[i])
}

/// `field` without a leading plus sign.
pub open spec fn unsigned_part(field: Seq<char>) -> Seq<char> {
    if field.len() > 0 && field[0] == '+' {
        field.subrange(1, field.len() as int)
    } else {
        field
    }
}

/// The number up to `max` that a field holds: digits, after a plus sign or
/// none.
pub open spec fn unsigned_of(field: Seq<char>, max: nat) -> Option<nat> {
    let digits = unsigned_part(field);
    if is_number(digits) && decimal_value(digits) <= max {
        Some(decimal_value(digits))
    } else {
        None
    }
}

/// The number from `-low` to `high` that a field holds: digits, after a
/// plus sign, a minus sign or none.
pub open spec fn signed_of(field: Seq<char>, low: nat, high: nat) -> Option<int> {
    if field.len() > 0 && field[0] == '-' {
        let digits = field.subrange(1, field.len() as int);
        if is_number(digits) && decimal_value(digits) <= low {
            Some(-(decimal_value(digits) as int))
        } else {
            None
        }
    } else {
        match unsigned_of(field, high) {
            Some(v) => Some(v as int),
            None => None,
        }
    }
}

/// More digits do not write a smaller number.
pub proof fn lemma_decimal_value_grows(s: Seq<char>, k: int)
    requires
        0 <= k <= s.len(),
        forall|i: int| 0 <= i < s.len() ==> is_digit(#[trigger] s[i]),
    ensures
        decimal_value(s.take(k)) <= decimal_value(s),
    decreases s.len() - k,
{
    if k < s.len() {
        assert(s.take(k + 1).drop_last() =~= s.take(k));
        assert(is_digit(s[k]));
        assert(s.take(k + 1).last() == s[k]);
        lemma_decimal_value_grows(s, k + 1);
    } else {
        assert(s.take(k) =~= s);
    }
}

/// Reads the digits of `field` from the place `from` on as a number up to
/// `max`.
fn parse_digits(field: &str, from: usize, max: u64) -> (r: Option<u64>)
    requires
        from <= field@.len(),
        max <= 0xffff_ffff,
    ensures
        ({
            let digits = field@.subrange(from as int, field@.len() as int);
            r == if is_number(digits) && decimal_value(digits) <= max {
                Some(decimal_value(digits) as u64)
            } else {
                None
            }
        }),
{
    let len = field.unicode_len();
    let ghost digits = field@.subrange(from as int, len as int);
    if from == len {
        return None;
    }
    let mut value: u64 = 0;
    let mut at = from;
    while at < len
        invariant
            from <= at <= len,
            len == field@.len(),
            digits == field@.subrange(from as int, len as int),
            forall|i: int| 0 <= i < at - from ==> is_digit(#[trigger] digits[i]),
            value == decimal_value(digits.take(at - from)),
            value <= max <= 0xffff_ffff,
        decreases len - at,
    {
        let c = field.get_char(at);
        assert(digits[at - from] == c);
        if c < '0' || c > '9' {
            return None;
        }
        let digit = (c as u32 - '0' as u32) as u64;
        proof {
            assert(digits.take(at - from + 1).drop_last() =~= digits.take(at - from));
            assert(digits.take(at - from + 1).last() == c);
        }
        value = value * 10 + digit;
        if value > max {
            proof {
                if is_number(digits) {
                    lemma_decimal_value_grows(digits, at - from + 1);
                }
            }
            return None;
        }
        at += 1;
    }
    assert(digits.take(at - from) =~= digits);
    Some(value)
}

/// Reads a field that holds a number up to `max`, as `str::parse` reads an
/// unsigned integer: digits, after a plus sign or none.
pub fn parse_unsigned(field: &str, max: u64) -> (r: Option<u64>)
    requires
        max <= 0xffff_ffff,
    ensures
        r == match unsigned_of(field@, max as nat) {
            Some(v) => Some(v as u64),
            None => None,
        },
{
    let len = field.unicode_len();
    if len > 0 && field.get_char(0) == '+' {
        parse_digits(field, 1, max)
    } else {
        assert(field@.subrange(0, len as int) =~= field@);
        parse_digits(field, 0, max)
    }
}

/// Reads a field that holds a `u32`.
pub fn parse_u32(field: &str) -> (r: Option<u32>)
    ensures
        r == match unsigned_of(field@, 0xffff_ffff) {
            Some(v) => Some(v as u32),
            None => None,
        },
{
    match parse_unsigned(field, 0xffff_ffff) {
        Some(v) => Some(v as u32),
        None => None,
    }
}

/// Reads a field that holds a `u8`.
pub fn parse_u8(field: &str) -> (r: Option<u8>)
    ensures
        r == match unsigned_of(field@, 0xff) {
            Some(v) => Some(v as u8),
            None => None,
        },
{
    match parse_unsigned(field, 0xff) {
        Some(v) => Some(v as u8),
        None => None,
    }
}

/// Reads a field that holds an `i32`, as `str::parse` reads a signed
/// integer: digits, after a plus sign, a minus sign or none.
pub fn parse_i32(field: &str) -> (r: Option<i32>)
    ensures
        r == match signed_of(field@, 0x8000_0000, 0x7fff_ffff) {
            Some(v) => Some(v as i32),
            None => None,
        },
{
    let len = field.unicode_len();
    if len > 0 && field.get_char(0) == '-' {
        match parse_digits(field, 1, 0x8000_0000) {
            Some(v) => Some((0 - (v as i64)) as i32),
            None => None,
        }
    } else {
        match parse_unsigned(field, 0x7fff_ffff) {
            Some(v) => Some(v as i32),
            None => None,
        }
    }
}

} // verus!
