//! Small verified helpers on text, and the contracts this crate assumes of
//! the standard library's string and character functions.
//!
//! What the standard library says of a character, whether it is white space
//! and whether it is a letter or digit, is asked once for each character
//! and kept as its `CharClass`. The lexer reads the classes; it asks the
//! standard library nothing.

use vstd::prelude::*;

verus! {

/// Whether `c` has the Unicode `White_Space` property, as `char::is_whitespace` decides it.
pub uninterp spec fn unicode_whitespace(c: char) -> bool;

/// Whether `c` is alphabetic or numeric in Unicode, as `char::is_alphanumeric` decides it.
pub uninterp spec fn unicode_alphanumeric(c: char) -> bool;

/// What the lexer asks of a character beyond which character it is.
#[derive(Debug, Copy, Clone, PartialEq, Eq, Structural)]
pub struct CharClass {
    /// Whether the character is white space.
    pub whitespace: bool,
    /// Whether the character is a letter or a digit.
    pub alphanumeric: bool,
}

/// The class of `c` as the standard library decides it.
pub open spec fn class_of(c: char) -> CharClass {
    CharClass { whitespace: unicode_whitespace(c), alphanumeric: unicode_alphanumeric(c) }
}

/// The classes of the characters of a text, in order.
pub open spec fn classes_of(items: Seq<char>) -> Seq<CharClass> {
    Seq::new(items.len(), |i: int| class_of(items[i]))
}

/// Calls `char::is_whitespace`. Trusted: the result is the Unicode
/// `White_Space` property of `c`, which this crate only names.
#[verifier::external_body]
pub(crate) fn is_whitespace(c: char) -> (r: bool)
    ensures
        r == unicode_whitespace(c),
{
    c.is_whitespace()
}

/// Calls `char::is_alphanumeric`. Trusted: the result is the Unicode
/// alphabetic-or-numeric classification of `c`, which this crate only names.
#[verifier::external_body]
pub(crate) fn is_alphanumeric(c: char) -> (r: bool)
    ensures
        r == unicode_alphanumeric(c),
{
    c.is_alphanumeric()
}

/// Calls `String::push`. Trusted: the character is appended and nothing
/// else changes.
#[verifier::external_body]
pub(crate) fn push_char(s: &mut String, c: char)
    ensures
        final(s)@ == old(s)@.push(c),
{
    s.push(c)
}

/// Calls `str::eq`. Trusted: two string slices are equal exactly when they
/// hold the same characters.
#[verifier::external_body]
pub(crate) fn str_equal(a: &str, b: &str) -> (r: bool)
    ensures
        r == (a@ == b@),
{
    a == b
}

/// The class of `c`.
pub fn classify(c: char) -> (r: CharClass)
    ensures
        r == class_of(c),
{
    CharClass { whitespace: is_whitespace(c), alphanumeric: is_alphanumeric(c) }
}

/// The classes of the characters of a text, in order.
pub fn classify_all(items: &Vec<char>) -> (r: Vec<CharClass>)
    ensures
        r@ == classes_of(items@),
{
    let mut r: Vec<CharClass> = Vec::new();
    let mut i: usize = 0;
    while i < items.len()
        invariant
            i <= items.len(),
            r@.len() == i,
            forall|k: int| 0 <= k < i ==> #[trigger] r@[k] == class_of(items@[k]),
        decreases items.len() - i,
    {
        r.push(classify(items[i]));
        i += 1;
    }
    assert(r@ =~= classes_of(items@));
    r
}

/// The characters of a string slice, in order.
pub fn chars_of(s: &str) -> (v: Vec<char>)
    ensures
        v@ == s@,
{
    let mut v: Vec<char> = Vec::new();
    for c in it: s.chars()
        invariant
            v@ == it.seq().take(it.index() as int),
            it.seq() == s@,
    {
        v.push(c);
    }
    v
}

/// The string that holds the characters `items[from..to]`.
pub fn string_of(items: &Vec<char>, from: usize, to: usize) -> (s: String)
    requires
        from <= to <= items.len(),
    ensures
        s@ == items@.subrange(from as int, to as int),
{
    let mut s = String::new();
    let mut i: usize = from;
    while i < to
        invariant
            from <= i <= to <= items.len(),
            s@ == items@.subrange(from as int, i as int),
        decreases to - i,
    {
        push_char(&mut s, items[i]);
        assert(items@.subrange(from as int, i + 1) == items@.subrange(from as int, i as int).push(
            items@[i as int],
        ));
        i += 1;
    }
    s
}

/// Whether `c` is one of the ten decimal digits.
pub open spec fn is_digit(c: char) -> bool {
    '0' <= c <= '9'
}

/// Whether `c` is one of the ten decimal digits.
pub fn digit_char(c: char) -> (r: bool)
    ensures
        r == is_digit(c),
{
    c >= '0' && c <= '9'
}

/// The decimal digit that stands for `d`.
pub open spec fn digit_of(d: nat) -> char {
    if d == 0 {
        '0'
    } else if d == 1 {
        '1'
    } else if d == 2 {
        '2'
    } else if d == 3 {
        '3'
    } else if d == 4 {
        '4'
    } else if d == 5 {
        '5'
    } else if d == 6 {
        '6'
    } else if d == 7 {
        '7'
    } else if d == 8 {
        '8'
    } else {
        '9'
    }
}

/// The decimal numeral of `n`, without leading zeros.
pub open spec fn decimal(n: nat) -> Seq<char>
    decreases n,
{
    if n < 10 {
        seq![digit_of(n)]
    } else {
        decimal(n / 10).push(digit_of(n % 10))
    }
}

fn digit_to_char(d: u128) -> (c: char)
    requires
        d < 10,
    ensures
        c == digit_of(d as nat),
{
    if d == 0 {
        '0'
    } else if d == 1 {
        '1'
    } else if d == 2 {
        '2'
    } else if d == 3 {
        '3'
    } else if d == 4 {
        '4'
    } else if d == 5 {
        '5'
    } else if d == 6 {
        '6'
    } else if d == 7 {
        '7'
    } else if d == 8 {
        '8'
    } else {
        '9'
    }
}

/// The decimal numeral of `n` as a string.
pub fn decimal_text(n: u128) -> (s: String)
    ensures
        s@ == decimal(n as nat),
    decreases n,
{
    if n < 10 {
        let mut s = String::new();
        push_char(&mut s, digit_to_char(n));
        assert(s@ == seq![digit_of(n as nat)]);
        s
    } else {
        let mut s = decimal_text(n / 10);
        push_char(&mut s, digit_to_char(n % 10));
        s
    }
}


/// The number that a decimal digit stands for; 0 for any other character.
pub open spec fn digit_value(c: char) -> nat {
    if is_digit(c) {
        (c as int - '0' as int) as nat
    } else {
        0
    }
}

/// The number that a run of decimal digits stands for.
pub open spec fn decimal_value(digits: Seq<char>) -> nat
    decreases digits.len(),
{
    if digits.len() == 0 {
        0
    } else {
        decimal_value(digits.drop_last()) * 10 + digit_value(digits.last())
    }
}

/// A run of digits stands for at least what any of its prefixes stands for.
pub proof fn lemma_decimal_value_prefix(digits: Seq<char>, k: int)
    requires
        0 <= k <= digits.len(),
    ensures
        decimal_value(digits.take(k)) <= decimal_value(digits),
    decreases digits.len(),
{
    if k == digits.len() {
        assert(digits.take(k) == digits);
    } else {
        lemma_decimal_value_prefix(digits.drop_last(), k);
        assert(digits.drop_last().take(k) == digits.take(k));
    }
}

/// The number that a decimal digit stands for.
fn digit_number(c: char) -> (d: u64)
    ensures
        d == digit_value(c),
        d < 10,
{
    if c >= '0' && c <= '9' {
        (c as u32 - '0' as u32) as u64
    } else {
        0
    }
}

/// Reads `items[from..to]` as a decimal numeral. `None` when the number is
/// greater than `limit`.
pub fn read_decimal(items: &Vec<char>, from: usize, to: usize, limit: u64) -> (r: Option<u64>)
    requires
        from <= to <= items.len(),
    ensures
        match r {
            Some(v) => v == decimal_value(items@.subrange(from as int, to as int)) && v <= limit,
            None => decimal_value(items@.subrange(from as int, to as int)) > limit,
        },
{
    let ghost all = items@.subrange(from as int, to as int);
    let mut value: u64 = 0;
    let mut i: usize = from;
    while i < to
        invariant
            from <= i <= to <= items.len(),
            all == items@.subrange(from as int, to as int),
            value == decimal_value(items@.subrange(from as int, i as int)),
            value <= limit,
        decreases to - i,
    {
        let d = digit_number(items[i]);
        proof {
            let next = items@.subrange(from as int, i + 1);
            assert(next.drop_last() == items@.subrange(from as int, i as int));
            assert(next.last() == items@[i as int]);
            assert(all.take(i + 1 - from) == next);
            lemma_decimal_value_prefix(all, i + 1 - from);
        }
        if d > limit || value > (limit - d) / 10 {
            return None;
        }
        value = value * 10 + d;
        i += 1;
    }
    Some(value)
}


/// A digit stands for the number whose digit it is.
pub proof fn lemma_digit_round_trip(d: nat)
    requires
        d < 10,
    ensures
        is_digit(digit_of(d)),
        digit_value(digit_of(d)) == d,
{
}

/// The digit of the number that a digit stands for is that digit.
pub proof fn lemma_digit_of_value(c: char)
    requires
        is_digit(c),
    ensures
        digit_value(c) < 10,
        digit_of(digit_value(c)) == c,
{
}

/// The numeral of a number reads back as the number.
pub proof fn lemma_decimal_round_trip(n: nat)
    ensures
        decimal_value(decimal(n)) == n,
        decimal(n).len() > 0,
    decreases n,
{
    lemma_digit_round_trip(n % 10);
    if n < 10 {
        let one = seq![digit_of(n)];
        assert(one.drop_last() =~= Seq::<char>::empty());
        assert(decimal_value(one.drop_last()) == 0);
    } else {
        lemma_decimal_round_trip(n / 10);
        let all = decimal(n / 10).push(digit_of(n % 10));
        assert(all.drop_last() =~= decimal(n / 10));
    }
}

/// Whether `digits` is a numeral as it is written out: digits only, at
/// least one, and no zero in front of another digit.
pub open spec fn is_numeral(digits: Seq<char>) -> bool {
    &&& digits.len() > 0
    &&& forall|i: int| 0 <= i < digits.len() ==> is_digit(#[trigger] digits[i])
    &&& (digits.len() > 1 ==> digits[0] != '0')
}

/// A numeral that starts with a digit other than zero stands for a number
/// other than zero.
proof fn lemma_numeral_is_positive(digits: Seq<char>)
    requires
        digits.len() > 0,
        forall|i: int| 0 <= i < digits.len() ==> is_digit(#[trigger] digits[i]),
        digits[0] != '0',
    ensures
        decimal_value(digits) > 0,
    decreases digits.len(),
{
    if digits.len() > 1 {
        let front = digits.drop_last();
        assert(front[0] == digits[0]);
        assert forall|i: int| 0 <= i < front.len() implies is_digit(#[trigger] front[i]) by {
            assert(front[i] == digits[i]);
        }
        lemma_numeral_is_positive(front);
    } else {
        assert(digits.drop_last() =~= Seq::<char>::empty());
        assert(digits.last() == digits[0]);
    }
}

/// A numeral is the numeral of the number that it stands for.
pub proof fn lemma_numeral_is_canonical(digits: Seq<char>)
    requires
        is_numeral(digits),
    ensures
        decimal(decimal_value(digits)) == digits,
    decreases digits.len(),
{
    let front = digits.drop_last();
    let last = digits.last();
    lemma_digit_of_value(last);
    if digits.len() == 1 {
        assert(front =~= Seq::<char>::empty());
        assert(decimal_value(front) == 0);
        assert(seq![last] =~= digits);
    } else {
        assert(front[0] == digits[0]);
        assert forall|i: int| 0 <= i < front.len() implies is_digit(#[trigger] front[i]) by {
            assert(front[i] == digits[i]);
        }
        lemma_numeral_is_positive(front);
        lemma_numeral_is_canonical(front);
        let value = decimal_value(digits);
        assert(value == decimal_value(front) * 10 + digit_value(last));
        assert(value / 10 == decimal_value(front));
        assert(value % 10 == digit_value(last));
        assert(front.push(last) =~= digits);
    }
}

} // verus!
