//! The literals of the language, as text: which text is an integer, a boolean
//! or a float, what an integer or a boolean literal is worth, and how numbers
//! are written back as decimal text.

use crate::chars::{ascii_digit, is_ascii_digit};
use crate::text::{chars_of, same_text};
use vstd::prelude::*;

verus! {

/// The value of an ASCII digit.
pub open spec fn digit_value(c: char) -> int {
    c as int - '0' as int
}

/// Whether every character is an ASCII digit.
pub open spec fn all_digits(s: Seq<char>) -> bool {
    forall|i: int| 0 <= i < s.len() ==> ascii_digit(#[trigger] s[i])
}

/// The number that a run of digits writes in base ten; zero for no digit.
pub open spec fn decimal_value(s: Seq<char>) -> int
    decreases s.len(),
{
    if s.len() == 0 {
        0
    } else {
        decimal_value(s.drop_last()) * 10 + digit_value(s.last())
    }
}

/// Whether `c` is a plus or minus sign.
pub open spec fn is_sign(c: char) -> bool {
    c == '+' || c == '-'
}

/// The text after its sign, where it starts with one.
pub open spec fn unsigned_part(s: Seq<char>) -> Seq<char> {
    if s.len() > 0 && is_sign(s[0]) {
        s.skip(1)
    } else {
        s
    }
}

/// The integer that a literal denotes: an optional sign, then at least one
/// digit and nothing else. Any other text denotes nothing.
pub open spec fn int_literal(s: Seq<char>) -> Option<int> {
    let digits = unsigned_part(s);
    if digits.len() > 0 && all_digits(digits) {
        if s[0] == '-' {
            Some(-decimal_value(digits))
        } else {
            Some(decimal_value(digits))
        }
    } else {
        None
    }
}

/// The 32-bit signed integer that a literal denotes, where it fits.
pub open spec fn i32_literal(s: Seq<char>) -> Option<i32> {
    match int_literal(s) {
        Some(v) => if i32::MIN <= v <= i32::MAX {
            Some(v as i32)
        } else {
            None
        },
        None => None,
    }
}

/// The boolean that a literal denotes: `true` or `false`, written exactly so.
pub open spec fn bool_literal(s: Seq<char>) -> Option<bool> {
    if s == "true"@ {
        Some(true)
    } else if s == "false"@ {
        Some(false)
    } else {
        None
    }
}

/// The end of the longest run of digits that starts at `i`.
pub open spec fn digits_end(s: Seq<char>, i: int) -> int
    decreases s.len() - i,
{
    if 0 <= i < s.len() && ascii_digit(s[i]) {
        digits_end(s, i + 1)
    } else {
        i
    }
}

/// An upper-case ASCII letter as lower case; any other character as it is.
pub open spec fn ascii_lower(c: char) -> char {
    if 'A' <= c && c <= 'Z' {
        ((c as u8 + 32) as u8) as char
    } else {
        c
    }
}

/// The text with its upper-case ASCII letters in lower case.
pub open spec fn lowered(s: Seq<char>) -> Seq<char> {
    Seq::new(s.len(), |i: int| ascii_lower(s[i]))
}

/// The words that stand for the floats that no digits write.
pub open spec fn float_word(s: Seq<char>) -> bool {
    lowered(s) == "inf"@ || lowered(s) == "infinity"@ || lowered(s) == "nan"@
}

/// An exponent: the letter `e`, an optional sign, and at least one digit.
pub open spec fn float_exponent(s: Seq<char>) -> bool {
    &&& s.len() >= 2
    &&& (s[0] == 'e' || s[0] == 'E')
    &&& unsigned_part(s.skip(1)).len() > 0
    &&& all_digits(unsigned_part(s.skip(1)))
}

/// A number in decimal notation: digits with at most one point among them, at
/// least one digit before or after the point, and an optional exponent.
pub open spec fn float_number(s: Seq<char>) -> bool {
    let whole = digits_end(s, 0);
    let point = whole < s.len() && s[whole] == '.';
    let mantissa = if point {
        digits_end(s, whole + 1)
    } else {
        whole
    };
    let digits = if point {
        mantissa - 1
    } else {
        mantissa
    };
    digits > 0 && (mantissa == s.len() || float_exponent(s.skip(mantissa)))
}

/// Whether the text is a float literal: an optional sign, then either one of
/// the words `inf`, `infinity` and `nan` in any case, or a decimal number.
pub open spec fn float_literal(s: Seq<char>) -> bool {
    float_word(unsigned_part(s)) || float_number(unsigned_part(s))
}

/// A run of digits is worth at least as much as any of its prefixes, and
/// nothing below zero.
pub proof fn lemma_decimal_value_grows(s: Seq<char>, n: int)
    requires
        all_digits(s),
        0 <= n <= s.len(),
    ensures
        0 <= decimal_value(s.take(n)) <= decimal_value(s),
    decreases s.len() - n,
{
    lemma_decimal_value_nonnegative(s.take(n));
    if n < s.len() {
        let t = s.take(n + 1);
        assert(t.drop_last() =~= s.take(n));
        assert(ascii_digit(s[n]));
        assert(t.last() == s[n]);
        lemma_decimal_value_grows(s, n + 1);
    } else {
        assert(s.take(n) =~= s);
    }
}

/// A run of digits is worth nothing below zero.
pub proof fn lemma_decimal_value_nonnegative(s: Seq<char>)
    requires
        all_digits(s),
    ensures
        0 <= decimal_value(s),
    decreases s.len(),
{
    if s.len() > 0 {
        lemma_decimal_value_nonnegative(s.drop_last());
        assert(ascii_digit(s.last()));
    }
}

/// Reads a 32-bit signed integer in base ten.
pub fn parse_i32(literal: &str) -> (r: Option<i32>)
    ensures
        r == i32_literal(literal@),
{
    let chars = chars_of(literal);
    let n = chars.len();
    let mut start: usize = 0;
    let mut negative = false;
    if n > 0 && (chars[0] == '+' || chars[0] == '-') {
        start = 1;
        negative = chars[0] == '-';
    }
    let ghost digits = unsigned_part(chars@);
    assert(digits == chars@.skip(start as int));
    if start == n {
        return None;
    }
    let mut magnitude: i64 = 0;
    let mut i: usize = start;
    while i < n
        invariant
            start <= i <= n,
            n == chars@.len(),
            chars@ == literal@,
            digits == chars@.skip(start as int),
            digits == unsigned_part(literal@),
            digits.len() > 0,
            negative == (literal@[0] == '-'),
            all_digits(digits.take(i - start)),
            magnitude == decimal_value(digits.take(i - start)),
            0 <= magnitude <= 0x8000_0000,
        decreases n - i,
    {
        let c = chars[i];
        assert(c == digits[i - start]);
        if !is_ascii_digit(c) {
            return None;
        }
        let d: i64 = (c as u32 - '0' as u32) as i64;
        let ghost longer = digits.take(i - start + 1);
        proof {
            assert(longer.drop_last() =~= digits.take(i - start));
            assert(longer.last() == c);
            assert forall|k: int| 0 <= k < longer.len() implies ascii_digit(#[trigger] longer[k]) by {
                if k < longer.len() - 1 {
                    assert(longer[k] == digits.take(i - start)[k]);
                }
            }
        }
        if magnitude * 10 + d > 0x8000_0000 {
            proof {
                if all_digits(digits) {
                    lemma_decimal_value_grows(digits, i - start + 1);
                }
            }
            return None;
        }
        magnitude = magnitude * 10 + d;
        i += 1;
    }
    assert(digits.take(n - start) =~= digits);
    if negative {
        Some((-magnitude) as i32)
    } else if magnitude <= 0x7fff_ffff {
        Some(magnitude as i32)
    } else {
        None
    }
}

/// Reads a boolean: `true` or `false` and nothing else.
pub fn parse_bool(literal: &str) -> (r: Option<bool>)
    ensures
        r == bool_literal(literal@),
{
    if same_text(literal, "true") {
        Some(true)
    } else if same_text(literal, "false") {
        Some(false)
    } else {
        None
    }
}

/// Where a run of digits ends: within the text, after digits only, and before
/// a character that is no digit.
pub proof fn lemma_digits_end(s: Seq<char>, i: int)
    requires
        0 <= i <= s.len(),
    ensures
        i <= digits_end(s, i) <= s.len(),
        forall|k: int| i <= k < digits_end(s, i) ==> ascii_digit(#[trigger] s[k]),
        digits_end(s, i) < s.len() ==> !ascii_digit(s[digits_end(s, i)]),
        all_digits(s.skip(i)) <==> digits_end(s, i) == s.len(),
    decreases s.len() - i,
{
    if i < s.len() && ascii_digit(s[i]) {
        lemma_digits_end(s, i + 1);
        if digits_end(s, i) == s.len() {
            assert forall|k: int| 0 <= k < s.skip(i).len() implies ascii_digit(
                #[trigger] s.skip(i)[k],
            ) by {
                assert(s.skip(i)[k] == s[i + k]);
            }
        } else {
            let e = digits_end(s, i);
            assert(s.skip(i)[e - i] == s[e]);
        }
    } else if i < s.len() {
        assert(s.skip(i)[0] == s[i]);
    }
}

/// The characters of `v` from `from` on.
fn tail_of(v: &Vec<char>, from: usize) -> (t: Vec<char>)
    requires
        from <= v@.len(),
    ensures
        t@ == v@.skip(from as int),
{
    let mut t: Vec<char> = Vec::new();
    let mut i: usize = from;
    while i < v.len()
        invariant
            from <= i <= v@.len(),
            t@ == v@.subrange(from as int, i as int),
        decreases v@.len() - i,
    {
        t.push(v[i]);
        i += 1;
    }
    t
}

/// Skips the digits that start at `i`.
fn skip_digits(v: &Vec<char>, i: usize) -> (end: usize)
    requires
        i <= v@.len(),
    ensures
        end == digits_end(v@, i as int),
        i <= end <= v@.len(),
{
    let mut end: usize = i;
    while end < v.len() && is_ascii_digit(v[end])
        invariant
            i <= end <= v@.len(),
            digits_end(v@, i as int) == digits_end(v@, end as int),
        decreases v@.len() - end,
    {
        end += 1;
    }
    proof {
        lemma_digits_end(v@, end as int);
    }
    end
}

fn to_ascii_lower(c: char) -> (l: char)
    ensures
        l == ascii_lower(c),
{
    if 'A' <= c && c <= 'Z' {
        ((c as u8) + 32) as char
    } else {
        c
    }
}

/// Whether `v`, with its ASCII letters in lower case, reads as `word`.
fn lowered_is(v: &Vec<char>, word: &str) -> (r: bool)
    ensures
        r == (lowered(v@) == word@),
{
    let n = word.unicode_len();
    if v.len() != n {
        return false;
    }
    let mut i: usize = 0;
    while i < n
        invariant
            0 <= i <= n,
            n == v@.len(),
            n == word@.len(),
            forall|k: int| 0 <= k < i ==> ascii_lower(v@[k]) == word@[k],
        decreases n - i,
    {
        if to_ascii_lower(v[i]) != word.get_char(i) {
            assert(lowered(v@)[i as int] != word@[i as int]);
            return false;
        }
        i += 1;
    }
    assert(lowered(v@) =~= word@);
    true
}

/// Whether `v[from..]` is an exponent.
fn is_float_exponent(v: &Vec<char>, from: usize) -> (r: bool)
    requires
        from <= v@.len(),
    ensures
        r == float_exponent(v@.skip(from as int)),
{
    let n = v.len();
    let ghost s = v@.skip(from as int);
    if n - from < 2 {
        return false;
    }
    assert(s[0] == v@[from as int]);
    if v[from] != 'e' && v[from] != 'E' {
        return false;
    }
    let mut digits: usize = from + 1;
    assert(s.skip(1) =~= v@.skip(from + 1));
    assert(s.skip(1)[0] == v@[from + 1]);
    if v[digits] == '+' || v[digits] == '-' {
        digits += 1;
        assert(s.skip(1).skip(1) =~= v@.skip(from + 2));
    }
    assert(unsigned_part(s.skip(1)) == v@.skip(digits as int));
    let end = skip_digits(v, digits);
    proof {
        lemma_digits_end(v@, digits as int);
    }
    digits < n && end == n
}

/// Whether `v` is a number in decimal notation.
fn is_float_number(v: &Vec<char>) -> (r: bool)
    ensures
        r == float_number(v@),
{
    let n = v.len();
    let whole = skip_digits(v, 0);
    let point = whole < n && v[whole] == '.';
    let mantissa = if point {
        skip_digits(v, whole + 1)
    } else {
        whole
    };
    let digits = if point {
        mantissa - 1
    } else {
        mantissa
    };
    digits > 0 && (mantissa == n || is_float_exponent(v, mantissa))
}

/// Tells whether the text is a float literal.
pub fn is_float_literal(literal: &str) -> (r: bool)
    ensures
        r == float_literal(literal@),
{
    let chars = chars_of(literal);
    let signed = chars.len() > 0 && (chars[0] == '+' || chars[0] == '-');
    let body = tail_of(
        &chars,
        if signed {
            1
        } else {
            0
        },
    );
    assert(chars@.skip(0) =~= chars@);
    assert(body@ == unsigned_part(literal@));
    lowered_is(&body, "inf") || lowered_is(&body, "infinity") || lowered_is(&body, "nan")
        || is_float_number(&body)
}

/// The character that writes a digit.
pub open spec fn digit_char(d: int) -> char {
    ((48 + d) as u8) as char
}

/// A natural number in base ten, without leading zeros.
pub open spec fn decimal_text(n: nat) -> Seq<char>
    decreases n,
{
    if n < 10 {
        seq![digit_char(n as int)]
    } else {
        decimal_text(n / 10).push(digit_char((n % 10) as int))
    }
}

/// An integer in base ten, with a minus sign where it is negative.
pub open spec fn signed_decimal_text(v: int) -> Seq<char> {
    if v < 0 {
        seq!['-'] + decimal_text((-v) as nat)
    } else {
        decimal_text(v as nat)
    }
}

/// Appends `n` in base ten.
pub fn push_decimal(s: &mut String, n: u64)
    ensures
        final(s)@ == old(s)@ + decimal_text(n as nat),
    decreases n,
{
    if n >= 10 {
        push_decimal(s, n / 10);
    }
    let digit: u8 = 48 + (n % 10) as u8;
    s.push(digit as char);
    proof {
        if n >= 10 {
            assert(old(s)@ + decimal_text(n as nat) =~= (old(s)@ + decimal_text((n / 10) as nat)).push(
                digit_char((n % 10) as int),
            ));
        } else {
            assert(old(s)@ + decimal_text(n as nat) =~= old(s)@.push(digit_char(n as int)));
        }
    }
}

/// Writes a natural number in base ten.
pub fn decimal_string(n: u64) -> (s: String)
    ensures
        s@ == decimal_text(n as nat),
{
    let mut s = String::new();
    push_decimal(&mut s, n);
    assert(Seq::<char>::empty() + decimal_text(n as nat) =~= decimal_text(n as nat));
    s
}

/// Writes a 32-bit signed integer in base ten.
pub fn signed_decimal_string(v: i32) -> (s: String)
    ensures
        s@ == signed_decimal_text(v as int),
{
    let mut s = String::new();
    if v < 0 {
        s.push('-');
        push_decimal(&mut s, (-(v as i64)) as u64);
        assert(Seq::<char>::empty().push('-') =~= seq!['-']);
    } else {
        push_decimal(&mut s, v as u64);
        assert(Seq::<char>::empty() + decimal_text(v as nat) =~= decimal_text(v as nat));
    }
    s
}

} // verus!
