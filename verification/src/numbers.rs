//! Decimal integers: parsing them as `str::parse` does for the integer
//! types the server uses, and printing them as `Display` does.
use vstd::prelude::*;
use crate::text::push_char;

verus! {

pub open spec fn is_digit(c: char) -> bool {
    '0' <= c && c <= '9'
}

pub open spec fn digit_value(c: char) -> nat {
    (c as int - '0' as int) as nat
}

pub open spec fn all_digits(s: Seq<char>) -> bool {
    forall|i: int| 0 <= i < s.len() ==> is_digit(#[trigger] s[i])
}

/// The number that the decimal digits `s` denote.
pub open spec fn digits_value(s: Seq<char>) -> nat
    decreases s.len(),
{
    if s.len() == 0 {
        0
    } else {
        digits_value(s.drop_last()) * 10 + digit_value(s.last())
    }
}

/// What `str::parse` gives for an integer type whose values are
/// `min..=max`: an optional `+` (or `-` where `min < 0`), then one or more
/// decimal digits, and a value in range; `None` for every other input.
pub open spec fn parse_int(s: Seq<char>, min: int, max: int) -> Option<int> {
    if s.len() == 0 {
        None
    } else if (s[0] == '+' || s[0] == '-') && s.len() == 1 {
        None
    } else {
        let neg = s[0] == '-' && min < 0;
        let d = if s[0] == '+' || neg {
            s.drop_first()
        } else {
            s
        };
        let v = if neg {
            -digits_value(d)
        } else {
            digits_value(d) as int
        };
        if all_digits(d) && min <= v && v <= max {
            Some(v)
        } else {
            None
        }
    }
}

pub open spec fn parse_usize_spec(s: Seq<char>) -> Option<usize> {
    match parse_int(s, 0, usize::MAX as int) {
        Some(v) => Some(v as usize),
        None => None,
    }
}

pub open spec fn parse_isize_spec(s: Seq<char>) -> Option<isize> {
    match parse_int(s, isize::MIN as int, isize::MAX as int) {
        Some(v) => Some(v as isize),
        None => None,
    }
}

pub open spec fn parse_u64_spec(s: Seq<char>) -> Option<u64> {
    match parse_int(s, 0, u64::MAX as int) {
        Some(v) => Some(v as u64),
        None => None,
    }
}

pub proof fn lemma_digits_value_prefix(s: Seq<char>, k: int)
    requires
        0 <= k <= s.len(),
    ensures
        digits_value(s.take(k)) <= digits_value(s),
    decreases s.len() - k,
{
    if k < s.len() {
        lemma_digits_value_prefix(s, k + 1);
        assert(s.take(k + 1).drop_last() =~= s.take(k));
    } else {
        assert(s.take(k) =~= s);
    }
}

/// The value of the decimal digits `d` if they are all digits and the
/// value is at most `bound`.
fn parse_digits(d: &[char], bound: u128) -> (r: Option<u128>)
    requires
        bound <= 0x1_0000_0000_0000_0000u128,
    ensures
        r == (if all_digits(d@) && digits_value(d@) <= bound {
            Some(digits_value(d@) as u128)
        } else {
            None::<u128>
        }),
{
    let mut acc: u128 = 0;
    let mut i: usize = 0;
    while i < d.len()
        invariant
            i <= d.len(),
            bound <= 0x1_0000_0000_0000_0000u128,
            all_digits(d@.take(i as int)),
            acc == digits_value(d@.take(i as int)),
            acc <= bound,
        decreases d.len() - i,
    {
        let c = d[i];
        if !('0' <= c && c <= '9') {
            assert(!is_digit(d@[i as int]));
            return None;
        }
        let dv = (c as u32 - '0' as u32) as u128;
        proof {
            assert(d@.take(i + 1).drop_last() =~= d@.take(i as int));
            assert(d@.take(i + 1).last() == c);
        }
        acc = acc * 10 + dv;
        i = i + 1;
        if acc > bound {
            proof {
                lemma_digits_value_prefix(d@, i as int);
            }
            return None;
        }
        assert(all_digits(d@.take(i as int))) by {
            assert forall|j: int| 0 <= j < i implies is_digit(#[trigger] d@.take(i as int)[j]) by {
                if j < i - 1 {
                    assert(d@.take(i as int)[j] == d@.take(i - 1)[j]);
                }
            }
        }
    }
    assert(d@.take(d@.len() as int) =~= d@);
    Some(acc)
}

/// Shared core of the integer parsers: `parse_int(s, -max_neg, max_pos)`.
fn parse_integer(s: &[char], signed: bool, max_neg: u128, max_pos: u128) -> (r: Option<i128>)
    requires
        max_neg <= 0x8000_0000_0000_0000u128,
        max_pos <= 0xFFFF_FFFF_FFFF_FFFFu128,
        signed <==> max_neg > 0,
    ensures
        r == (match parse_int(s@, -(max_neg as int), max_pos as int) {
            Some(v) => Some(v as i128),
            None => None::<i128>,
        }),
{
    if s.len() == 0 {
        return None;
    }
    if (s[0] == '+' || s[0] == '-') && s.len() == 1 {
        return None;
    }
    let neg = s[0] == '-' && signed;
    let d: &[char] = if s[0] == '+' || neg {
        slice_skip_first(s)
    } else {
        s
    };
    let bound = if neg { max_neg } else { max_pos };
    match parse_digits(d, bound) {
        Some(v) => {
            if neg {
                Some(-(v as i128))
            } else {
                Some(v as i128)
            }
        },
        None => None,
    }
}

/// `&s[1..]` for a non-empty slice.
pub fn slice_skip_first<T>(s: &[T]) -> (r: &[T])
    requires
        s@.len() > 0,
    ensures
        r@ == s@.drop_first(),
{
    slice_subrange(s, 1, s.len())
}

/// `&s[from..to]`.
pub fn slice_subrange<T>(s: &[T], from: usize, to: usize) -> (r: &[T])
    requires
        from <= to <= s@.len(),
    ensures
        r@ == s@.subrange(from as int, to as int),
{
    vstd::slice::slice_subrange(s, from, to)
}

/// `str::parse::<usize>`.
pub fn parse_usize(s: &[char]) -> (r: Option<usize>)
    ensures
        r == parse_usize_spec(s@),
{
    match parse_integer(s, false, 0, usize::MAX as u128) {
        Some(v) => Some(v as usize),
        None => None,
    }
}

/// `str::parse::<isize>`.
pub fn parse_isize(s: &[char]) -> (r: Option<isize>)
    ensures
        r == parse_isize_spec(s@),
{
    let max_neg: u128 = (isize::MAX as u128) + 1;
    match parse_integer(s, true, max_neg, isize::MAX as u128) {
        Some(v) => Some(v as isize),
        None => None,
    }
}

/// `str::parse::<u64>`.
pub fn parse_u64(s: &[char]) -> (r: Option<u64>)
    ensures
        r == parse_u64_spec(s@),
{
    match parse_integer(s, false, 0, u64::MAX as u128) {
        Some(v) => Some(v as u64),
        None => None,
    }
}

pub open spec fn digit_char(d: nat) -> char {
    (d + '0' as int) as char
}

/// The decimal digits of `n`, without leading zeros (`"0"` for zero).
pub open spec fn nat_to_decimal(n: nat) -> Seq<char>
    decreases n,
{
    if n < 10 {
        seq![digit_char(n)]
    } else {
        nat_to_decimal(n / 10).push(digit_char(n % 10))
    }
}

/// `Display` of an integer: a `-` for negative values, then the digits.
pub open spec fn int_to_decimal(i: int) -> Seq<char> {
    if i < 0 {
        seq!['-'] + nat_to_decimal((-i) as nat)
    } else {
        nat_to_decimal(i as nat)
    }
}

pub proof fn lemma_digit_char(d: nat)
    requires
        d < 10,
    ensures
        is_digit(digit_char(d)),
        digit_value(digit_char(d)) == d,
{
    assert((d + '0' as int) as char as int == d + '0' as int);
}

/// The decimal digits of `n` are digits, start with a digit and denote `n`.
pub proof fn lemma_nat_to_decimal(n: nat)
    ensures
        nat_to_decimal(n).len() > 0,
        all_digits(nat_to_decimal(n)),
        digits_value(nat_to_decimal(n)) == n,
    decreases n,
{
    lemma_digit_char(n % 10);
    if n < 10 {
        let t = nat_to_decimal(n);
        assert(t.drop_last() =~= Seq::<char>::empty());
        assert(n % 10 == n);
        assert(t.last() == digit_char(n));
        assert(digits_value(t) == digits_value(t.drop_last()) * 10 + digit_value(t.last()));
    } else {
        lemma_nat_to_decimal(n / 10);
        let s = nat_to_decimal(n / 10);
        let t = nat_to_decimal(n);
        assert(t == s.push(digit_char(n % 10)));
        assert(t.drop_last() =~= s);
        assert(t.last() == digit_char(n % 10));
        assert(digits_value(t) == digits_value(s) * 10 + digit_value(t.last()));
        assert(n == (n / 10) * 10 + n % 10);
        assert forall|i: int| 0 <= i < t.len() implies is_digit(#[trigger] t[i]) by {
            if i < s.len() {
                assert(t[i] == s[i]);
            }
        }
    }
}

/// `Display` of a number reads back as that number (for a type whose
/// range holds it).
pub proof fn lemma_parse_int_of_decimal(i: int, min: int, max: int)
    requires
        min <= i <= max,
        min <= 0,
    ensures
        parse_int(int_to_decimal(i), min, max) == Some(i),
{
    if i < 0 {
        let d = nat_to_decimal((-i) as nat);
        lemma_nat_to_decimal((-i) as nat);
        let s = int_to_decimal(i);
        assert(s.drop_first() =~= d);
        assert(s[0] == '-');
    } else {
        let d = nat_to_decimal(i as nat);
        lemma_nat_to_decimal(i as nat);
        assert(is_digit(d[0]));
    }
}

/// Appends the decimal digits of `n` to `s`.
pub fn push_decimal(s: &mut String, n: u128)
    ensures
        final(s)@ == old(s)@ + nat_to_decimal(n as nat),
    decreases n,
{
    if n >= 10 {
        push_decimal(s, n / 10);
    }
    let d: u32 = (n % 10) as u32;
    let c = char_from_digit(d);
    push_char(s, c);
    assert(s@ =~= old(s)@ + nat_to_decimal(n as nat));
}

fn char_from_digit(d: u32) -> (c: char)
    requires
        d < 10,
    ensures
        c == digit_char(d as nat),
{
    let b: u8 = 48u8 + d as u8;
    b as char
}

/// Appends `Display` of `i` to `s`.
pub fn push_signed_decimal(s: &mut String, i: i128)
    requires
        i > i128::MIN,
    ensures
        final(s)@ == old(s)@ + int_to_decimal(i as int),
{
    if i < 0 {
        push_char(s, '-');
        push_decimal(s, (-i) as u128);
        assert(s@ =~= old(s)@ + int_to_decimal(i as int));
    } else {
        push_decimal(s, i as u128);
    }
}

/// `n.to_string()` for an unsigned integer.
pub fn u128_to_string(n: u128) -> (r: String)
    ensures
        r@ == nat_to_decimal(n as nat),
{
    let mut s = String::new();
    push_decimal(&mut s, n);
    assert(s@ =~= nat_to_decimal(n as nat));
    s
}

/// `i.to_string()` for an `isize`.
pub fn isize_to_string(i: isize) -> (r: String)
    ensures
        r@ == int_to_decimal(i as int),
{
    let mut s = String::new();
    push_signed_decimal(&mut s, i as i128);
    assert(s@ =~= int_to_decimal(i as int));
    s
}

} // verus!
