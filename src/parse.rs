use vstd::prelude::*;
use vstd::string::StringSliceAdditionalSpecFns;

verus! {

/// The byte of `'0'`.
pub const ZERO: u8 = 48;

/// The byte of `'9'`.
pub const NINE: u8 = 57;

/// The byte of `'+'`.
pub const PLUS: u8 = 43;

/// The byte of `'x'`, between width and height.
pub const DIMENSION_SEPARATOR: u8 = 120;

/// An ASCII decimal digit.
pub open spec fn is_digit(c: u8) -> bool {
    ZERO <= c <= NINE
}

/// The number written by a sequence of decimal digits.
pub open spec fn digits_value(digits: Seq<u8>) -> nat
    decreases digits.len(),
{
    if digits.len() == 0 {
        0
    } else {
        digits_value(digits.drop_last()) * 10 + (digits.last() - ZERO) as nat
    }
}

/// `text` without a leading `+`.
pub open spec fn unsigned_part(text: Seq<u8>) -> Seq<u8> {
    if text.len() > 0 && text[0] == PLUS {
        text.drop_first()
    } else {
        text
    }
}

/// Every byte of `digits` is a decimal digit.
pub open spec fn all_digits(digits: Seq<u8>) -> bool {
    forall|i: int| 0 <= i < digits.len() ==> is_digit(#[trigger] digits[i])
}

/// The unsigned number that `text` writes: an optional `+` followed by one or
/// more decimal digits.
pub open spec fn decimal_of(text: Seq<u8>) -> Option<nat> {
    let digits = unsigned_part(text);
    if digits.len() > 0 && all_digits(digits) {
        Some(digits_value(digits))
    } else {
        None
    }
}

/// The index of the first `separator` in `text`, if any.
pub open spec fn find_byte(text: Seq<u8>, separator: u8) -> Option<nat>
    decreases text.len(),
{
    if text.len() == 0 {
        None
    } else {
        match find_byte(text.drop_last(), separator) {
            Some(i) => Some(i),
            None => if text.last() == separator {
                Some((text.len() - 1) as nat)
            } else {
                None
            },
        }
    }
}

/// The pair of numbers that `text` writes as `LEFT` `separator` `RIGHT`,
/// split at the first separator; `None` where either side is no number or
/// does not fit in a `usize`.
pub open spec fn pair_of(text: Seq<u8>, separator: u8) -> Option<(usize, usize)> {
    match find_byte(text, separator) {
        None => None,
        Some(i) => match (
            decimal_of(text.subrange(0, i as int)),
            decimal_of(text.subrange(i as int + 1, text.len() as int)),
        ) {
            (Some(l), Some(r)) => if l <= usize::MAX && r <= usize::MAX {
                Some((l as usize, r as usize))
            } else {
                None
            },
            _ => None,
        },
    }
}

/// Parses image dimensions written as `"WIDTHxHEIGHT"`, as in `"1000x750"`.
pub fn parse_dimensions(s: &str) -> (r: Option<(usize, usize)>)
    ensures
        r == pair_of(s.spec_bytes(), DIMENSION_SEPARATOR),
{
    parse_pair_bytes(s.as_bytes(), DIMENSION_SEPARATOR)
}

/// Parses two unsigned numbers written on either side of `separator`.
fn parse_pair_bytes(text: &[u8], separator: u8) -> (r: Option<(usize, usize)>)
    ensures
        r == pair_of(text@, separator),
{
    let n = text.len();
    let mut i: usize = 0;
    while i < n
        invariant
            n == text@.len(),
            i <= n,
            find_byte(text@.subrange(0, i as int), separator) is None,
        decreases n - i,
    {
        proof {
            lemma_find_byte_extend(text@, separator, i as nat);
        }
        if text[i] == separator {
            let left = parse_decimal(text, 0, i);
            let right = parse_decimal(text, i + 1, n);
            return match (left, right) {
                (Some(l), Some(r)) => Some((l, r)),
                _ => None,
            };
        }
        i = i + 1;
    }
    assert(text@.subrange(0, n as int) =~= text@);
    None
}

/// `find_byte` on one more byte of the text.
proof fn lemma_find_byte_extend(text: Seq<u8>, separator: u8, i: nat)
    requires
        i < text.len(),
        find_byte(text.subrange(0, i as int), separator) is None,
    ensures
        find_byte(text.subrange(0, i as int + 1), separator) == if text[i as int] == separator {
            Some(i)
        } else {
            None::<nat>
        },
        text[i as int] == separator ==> find_byte(text, separator) == Some(i),
{
    let longer = text.subrange(0, i as int + 1);
    assert(longer.drop_last() =~= text.subrange(0, i as int));
    if text[i as int] == separator {
        lemma_find_byte_prefix(text, separator, i + 1);
    }
}

/// Once the separator is found in a prefix, it is the first in the whole text.
proof fn lemma_find_byte_prefix(text: Seq<u8>, separator: u8, len: nat)
    requires
        len <= text.len(),
        find_byte(text.subrange(0, len as int), separator) is Some,
    ensures
        find_byte(text, separator) == find_byte(text.subrange(0, len as int), separator),
    decreases text.len() - len,
{
    if len < text.len() {
        let longer = text.subrange(0, len as int + 1);
        assert(longer.drop_last() =~= text.subrange(0, len as int));
        lemma_find_byte_prefix(text, separator, len + 1);
    } else {
        assert(text.subrange(0, len as int) =~= text);
    }
}

/// Parses `text[start..end]` as an unsigned number.
fn parse_decimal(text: &[u8], start: usize, end: usize) -> (r: Option<usize>)
    requires
        start <= end <= text@.len(),
    ensures
        r == match decimal_of(text@.subrange(start as int, end as int)) {
            Some(v) => if v <= usize::MAX {
                Some(v as usize)
            } else {
                None
            },
            None => None,
        },
{
    let ghost whole = text@.subrange(start as int, end as int);
    let mut first = start;
    if start < end && text[start] == PLUS {
        first = start + 1;
    }
    let ghost digits = text@.subrange(first as int, end as int);
    assert(digits =~= unsigned_part(whole));
    if first == end {
        return None;
    }
    let mut value: usize = 0;
    let mut k: usize = first;
    while k < end
        invariant
            start <= first < end <= text@.len(),
            first <= k <= end,
            digits == text@.subrange(first as int, end as int),
            whole == text@.subrange(start as int, end as int),
            digits == unsigned_part(whole),
            forall|j: int| first <= j < k ==> is_digit(#[trigger] text@[j]),
            value == digits_value(text@.subrange(first as int, k as int)),
        decreases end - k,
    {
        let c = text[k];
        if c < ZERO || c > NINE {
            proof {
                assert(digits[k - first] == text@[k as int]);
                assert(!is_digit(digits[k - first]));
                assert(decimal_of(whole) is None);
            }
            return None;
        }
        let ghost before = text@.subrange(first as int, k as int);
        let ghost after = text@.subrange(first as int, k + 1);
        assert(after.drop_last() =~= before);
        assert(after.last() == c);
        assert(digits_value(after) == value * 10 + (c - ZERO) as nat);
        let next = match value.checked_mul(10) {
            Some(m) => m.checked_add((c - ZERO) as usize),
            None => None,
        };
        match next {
            Some(v) => {
                value = v;
            },
            None => {
                proof {
                    let rest_ok = all_digits(digits);
                    assert(value * 10 + (c - ZERO) as nat > usize::MAX);
                    if rest_ok {
                        lemma_prefix_value_le(digits, (k + 1 - first) as nat);
                        assert(digits.subrange(0, (k + 1 - first) as int) =~= after);
                        assert(decimal_of(whole) == Some(digits_value(digits)));
                        assert(digits_value(digits) > usize::MAX);
                    } else {
                        assert(decimal_of(whole) is None);
                    }
                }
                return None;
            },
        }
        k = k + 1;
    }
    assert(text@.subrange(first as int, end as int) =~= digits);
    assert forall|i: int| 0 <= i < digits.len() implies is_digit(#[trigger] digits[i]) by {
        assert(digits[i] == text@[first + i]);
    }
    Some(value)
}

/// The value of a digit sequence is at least the value of any prefix.
proof fn lemma_prefix_value_le(digits: Seq<u8>, len: nat)
    requires
        len <= digits.len(),
        forall|j: int| 0 <= j < digits.len() ==> is_digit(#[trigger] digits[j]),
    ensures
        digits_value(digits.subrange(0, len as int)) <= digits_value(digits),
    decreases digits.len() - len,
{
    if len < digits.len() {
        let shorter = digits.subrange(0, len as int);
        let longer = digits.subrange(0, len as int + 1);
        assert(longer.drop_last() =~= shorter);
        lemma_prefix_value_le(digits, len + 1);
    } else {
        assert(digits.subrange(0, len as int) =~= digits);
    }
}

} // verus!
