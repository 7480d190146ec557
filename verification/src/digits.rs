//! Integers as decimal text.
use vstd::prelude::*;
use vstd::string::*;

use crate::text;

verus! {

/// The character of a digit.
pub open spec fn digit(d: nat) -> char {
    (48 + d) as char
}

/// `n` in decimal.
pub open spec fn decimal(n: nat) -> Seq<char>
    decreases n,
{
    if n < 10 {
        seq![digit(n)]
    } else {
        decimal(n / 10).push(digit(n % 10))
    }
}

/// `i` in decimal, with a minus sign where it is negative.
pub open spec fn signed_decimal(i: int) -> Seq<char> {
    if i < 0 {
        seq!['-'] + decimal((-i) as nat)
    } else {
        decimal(i as nat)
    }
}

/// `s` with zeros before it up to `width` characters.
pub open spec fn zero_padded(s: Seq<char>, width: nat) -> Seq<char>
    decreases width - s.len(),
{
    if s.len() >= width {
        s
    } else {
        zero_padded(seq!['0'] + s, width)
    }
}

/// Whether `c` is a digit.
pub open spec fn is_digit(c: char) -> bool {
    '0' <= c && c <= '9'
}

/// The number that the digits `s` are.
pub open spec fn digits_value(s: Seq<char>) -> nat
    decreases s.len(),
{
    if s.len() == 0 {
        0
    } else {
        digits_value(s.drop_last()) * 10 + ((s.last() as nat) - 48) as nat
    }
}

/// The number that `s` is, where it is digits and at least one.
pub open spec fn natural(s: Seq<char>) -> Option<nat> {
    if s.len() > 0 && forall|i: int| 0 <= i < s.len() ==> is_digit(#[trigger] s[i]) {
        Some(digits_value(s))
    } else {
        None
    }
}

/// The `u8` that `s` is: digits, with or without a plus sign before them.
pub open spec fn parsed_u8(s: Seq<char>) -> Option<u8> {
    let t = if s.len() > 0 && s[0] == '+' {
        s.skip(1)
    } else {
        s
    };
    match natural(t) {
        Some(n) => if n <= 255 {
            Some(n as u8)
        } else {
            None
        },
        None => None,
    }
}

/// The `i32` that `s` is: digits, with or without a sign before them.
pub open spec fn parsed_i32(s: Seq<char>) -> Option<i32> {
    let negative = s.len() > 0 && s[0] == '-';
    let t = if s.len() > 0 && (s[0] == '+' || s[0] == '-') {
        s.skip(1)
    } else {
        s
    };
    match natural(t) {
        Some(n) => if negative && n <= 0x8000_0000 {
            Some((-(n as int)) as i32)
        } else if !negative && n <= 0x7fff_ffff {
            Some(n as i32)
        } else {
            None
        },
        None => None,
    }
}

/// The number that the characters `v[from..]` are, where they are digits, at least
/// one, and it is at most `limit`.
fn parse_digits(v: &Vec<char>, from: usize, limit: u64) -> (r: Option<u64>)
    requires
        from <= v@.len(),
        limit <= 0xffff_ffff,
    ensures
        match r {
            Some(n) => natural(v@.skip(from as int)) == Some(n as nat) && n <= limit,
            None => natural(v@.skip(from as int)) matches Some(n) ==> n > limit,
        },
{
    let ghost s = v@.skip(from as int);
    let mut acc: u64 = 0;
    let mut over: bool = false;
    let mut i: usize = from;
    if from == v.len() {
        return None;
    }
    while i < v.len()
        invariant
            from <= i <= v@.len(),
            s == v@.skip(from as int),
            limit <= 0xffff_ffff,
            acc <= limit,
            forall|k: int| 0 <= k < i - from ==> is_digit(#[trigger] s[k]),
            !over ==> digits_value(s.take(i - from)) == acc,
            over ==> digits_value(s.take(i - from)) > limit,
        decreases v@.len() - i,
    {
        let c = v[i];
        let ghost k = i - from;
        assert(s[k] == c);
        if !('0' <= c && c <= '9') {
            assert(!is_digit(s[k]));
            return None;
        }
        let d: u64 = (c as u32 - 48) as u64;
        assert(s.take(k + 1).drop_last() =~= s.take(k));
        assert(s.take(k + 1).last() == c);
        if !over {
            let next: u64 = acc * 10 + d;
            if next > limit {
                over = true;
            } else {
                acc = next;
            }
        }
        i += 1;
    }
    assert(s.take(s.len() as int) =~= s);
    if over {
        None
    } else {
        Some(acc)
    }
}

/// The `u8` that `s` is.
pub fn parse_u8(s: &str) -> (r: Option<u8>)
    ensures
        r == parsed_u8(s@),
{
    let v = text::chars_of(s);
    let from: usize = if v.len() > 0 && v[0] == '+' {
        1
    } else {
        0
    };
    assert(v@.skip(0) =~= v@);
    match parse_digits(&v, from, 255) {
        Some(n) => Some(n as u8),
        None => None,
    }
}

/// The `i32` that `s` is.
pub fn parse_i32(s: &str) -> (r: Option<i32>)
    ensures
        r == parsed_i32(s@),
{
    let v = text::chars_of(s);
    assert(v@.skip(0) =~= v@);
    if v.len() > 0 && v[0] == '-' {
        match parse_digits(&v, 1, 0x8000_0000) {
            Some(n) => Some((-(n as i64)) as i32),
            None => None,
        }
    } else {
        let from: usize = if v.len() > 0 && v[0] == '+' {
            1
        } else {
            0
        };
        match parse_digits(&v, from, 0x7fff_ffff) {
            Some(n) => Some(n as i32),
            None => None,
        }
    }
}

/// `n` in decimal.
pub fn decimal_text(n: u64) -> (r: String)
    ensures
        r@ == decimal(n as nat),
    decreases n,
{
    let c: char = (48 + (n % 10) as u8) as char;
    if n < 10 {
        let mut r = String::new();
        r.push(c);
        assert(r@ =~= seq![digit(n as nat)]);
        r
    } else {
        let mut r = decimal_text(n / 10);
        r.push(c);
        r
    }
}

/// `i` in decimal.
pub fn signed_text(i: i64) -> (r: String)
    ensures
        r@ == signed_decimal(i as int),
{
    if i < 0 {
        let mut r = String::new();
        r.push('-');
        let n: u64 = if i == i64::MIN {
            0x8000_0000_0000_0000
        } else {
            (-i) as u64
        };
        r.append(decimal_text(n).as_str());
        assert(r@ =~= signed_decimal(i as int));
        r
    } else {
        decimal_text(i as u64)
    }
}

/// `s` with zeros before it up to `width` characters.
pub fn pad_zeros(s: String, width: usize) -> (r: String)
    ensures
        r@ == zero_padded(s@, width as nat),
    decreases width - s@.len(),
{
    if text::char_count(s.as_str()) >= width {
        s
    } else {
        let mut t = String::new();
        t.push('0');
        t.append(s.as_str());
        assert(t@ =~= seq!['0'] + s@);
        pad_zeros(t, width)
    }
}

/// The digits of `n` are digits, and their number is `n`.
pub proof fn lemma_decimal(n: nat)
    ensures
        natural(decimal(n)) == Some(n),
        decimal(n).len() > 0,
        forall|i: int| 0 <= i < decimal(n).len() ==> is_digit(#[trigger] decimal(n)[i]),
    decreases n,
{
    let s = decimal(n);
    if n < 10 {
        assert(s.drop_last() =~= Seq::<char>::empty());
        assert(digits_value(s.drop_last()) == 0);
        assert(s.last() == digit(n));
    } else {
        lemma_decimal(n / 10);
        let t = decimal(n / 10);
        assert(s.drop_last() =~= t);
        assert(s.last() == digit(n % 10));
        assert forall|i: int| 0 <= i < s.len() implies is_digit(#[trigger] s[i]) by {
            if i < t.len() {
                assert(is_digit(t[i]));
            }
        }
    }
}

/// A `u8` in decimal is read back.
pub proof fn lemma_u8_read_back(n: u8)
    ensures
        parsed_u8(decimal(n as nat)) == Some(n),
{
    lemma_decimal(n as nat);
    assert(is_digit(decimal(n as nat)[0]));
}

/// A number that was written is read again, where it is one that fits; one that does not is
/// refused, and so is a text with anything but digits behind its sign.
pub proof fn law_numbers_are_read_back(i: int, n: nat)
    ensures
        i32::MIN <= i <= i32::MAX ==> parsed_i32(signed_decimal(i)) == Some(i as i32),
        !(i32::MIN <= i <= i32::MAX) ==> parsed_i32(signed_decimal(i)) is None,
        n <= u8::MAX ==> parsed_u8(decimal(n)) == Some(n as u8),
        n > u8::MAX ==> parsed_u8(decimal(n)) is None,
{
    lemma_decimal(n);
    assert(is_digit(decimal(n)[0]));
    if i < 0 {
        let d = decimal((-i) as nat);
        lemma_decimal((-i) as nat);
        let s = signed_decimal(i);
        assert(s[0] == '-');
        assert(s.skip(1) =~= d);
    } else {
        lemma_decimal(i as nat);
        assert(is_digit(decimal(i as nat)[0]));
    }
}

/// A text that is no number is not taken for one.
pub proof fn law_other_texts_are_refused(s: Seq<char>, i: int)
    ensures
        s.len() == 0 ==> parsed_i32(s) is None && parsed_u8(s) is None,
        0 < i < s.len() && !is_digit(s[i]) ==> parsed_i32(s) is None && parsed_u8(s) is None,
        s.len() > 0 && !is_digit(s[0]) && s[0] != '+' && s[0] != '-' ==> parsed_i32(s) is None
            && parsed_u8(s) is None,
        s.len() > 0 && s[0] == '-' ==> parsed_u8(s) is None,
{
    if 0 < i < s.len() && !is_digit(s[i]) {
        assert(s.skip(1)[i - 1] == s[i]);
    }
}

/// A digit counts ten times as much as one behind it.
pub proof fn law_digits_have_their_places(s: Seq<char>, d: nat)
    requires
        d < 10,
    ensures
        digits_value(s.push(digit(d))) == 10 * digits_value(s) + d,
        digits_value(Seq::<char>::empty()) == 0,
{
    assert(s.push(digit(d)).drop_last() =~= s);
}

/// Zeros before a number fill it up to its width and leave its value.
pub proof fn law_zeros_leave_the_value(s: Seq<char>, width: nat)
    requires
        natural(s) is Some,
    ensures
        natural(zero_padded(s, width)) == natural(s),
        zero_padded(s, width).len() == (if s.len() < width {
            width
        } else {
            s.len()
        }),
    decreases width - s.len(),
{
    if s.len() < width {
        let t = seq!['0'] + s;
        assert forall|i: int| 0 <= i < t.len() implies is_digit(#[trigger] t[i]) by {
            if i > 0 {
                assert(t[i] == s[i - 1]);
            }
        }
        lemma_leading_zero(s);
        law_zeros_leave_the_value(t, width);
    }
}

/// A zero before digits does not count.
proof fn lemma_leading_zero(s: Seq<char>)
    ensures
        digits_value(seq!['0'] + s) == digits_value(s),
    decreases s.len(),
{
    let t = seq!['0'] + s;
    if s.len() == 0 {
        assert(t.drop_last() =~= Seq::<char>::empty());
        assert(digits_value(t.drop_last()) == 0);
        assert(t.last() == '0');
    } else {
        assert(t.drop_last() =~= seq!['0'] + s.drop_last());
        assert(t.last() == s.last());
        lemma_leading_zero(s.drop_last());
    }
}

} // verus!
