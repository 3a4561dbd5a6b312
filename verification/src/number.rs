//! Numeric words: which words denote a real number, and which an integer.
//!
//! A real number is kept as the word that denotes it. The grammar of such a
//! word is the one by which Rust reads a binary floating-point number from
//! a string:
//!
//! ```text
//! Real     ::= Sign? ( 'inf' | 'infinity' | 'nan' | Decimal )
//! Decimal  ::= Mantissa Exponent?
//! Mantissa ::= Digit+ | Digit+ '.' Digit* | Digit* '.' Digit+
//! Exponent ::= 'e' Sign? Digit+
//! Sign     ::= '+' | '-'
//! Digit    ::= '0' ..= '9'
//! ```
//!
//! Letters match in either case.

use crate::text::{cut, string_of, Span};
use vstd::prelude::*;

verus! {

pub open spec fn is_digit(c: char) -> bool {
    '0' <= c <= '9'
}

pub open spec fn is_sign(c: char) -> bool {
    c == '+' || c == '-'
}

/// Whether `c` is the lower-case letter `letter` or its capital.
pub open spec fn is_letter(c: char, letter: char) -> bool {
    c == letter || c as u32 + 32 == letter as u32
}

/// Whether `s` spells `word`, a word of lower-case letters, in either case.
pub open spec fn spells(s: Seq<char>, word: Seq<char>) -> bool {
    &&& s.len() == word.len()
    &&& forall|i: int| 0 <= i < word.len() ==> is_letter(#[trigger] s[i], word[i])
}

/// Whether `s` holds digits only.
pub open spec fn all_digits(s: Seq<char>) -> bool {
    forall|i: int| 0 <= i < s.len() ==> is_digit(#[trigger] s[i])
}

/// The length of the sign that `s` begins with: 1 or 0.
pub open spec fn sign_len(s: Seq<char>) -> int {
    if s.len() > 0 && is_sign(s[0]) {
        1
    } else {
        0
    }
}

/// Whether `s` is a mantissa: one digit or more, with at most one point
/// before, among or after them.
pub open spec fn is_mantissa(s: Seq<char>) -> bool {
    ||| s.len() > 0 && all_digits(s)
    ||| exists|dot: int|
        {
            &&& 0 <= dot < s.len()
            &&& s.len() > 1
            &&& #[trigger] s[dot] == '.'
            &&& all_digits(s.take(dot))
            &&& all_digits(s.skip(dot + 1))
        }
}

/// Whether `s` is an exponent: the letter `e`, a sign or none, and one digit
/// or more.
pub open spec fn is_exponent(s: Seq<char>) -> bool {
    &&& s.len() > 0
    &&& is_letter(s[0], 'e')
    &&& {
        let digits = s.skip(1 + sign_len(s.skip(1)));
        digits.len() > 0 && all_digits(digits)
    }
}

/// Whether `s` is a mantissa with or without an exponent after it.
pub open spec fn is_decimal(s: Seq<char>) -> bool {
    ||| is_mantissa(s)
    ||| exists|e: int| 0 < e < s.len() && is_mantissa(#[trigger] s.take(e)) && is_exponent(s.skip(e))
}

/// Whether `s` is one of the three words for what is no finite number.
pub open spec fn is_special(s: Seq<char>) -> bool {
    ||| spells(s, seq!['i', 'n', 'f'])
    ||| spells(s, seq!['n', 'a', 'n'])
    ||| spells(s, seq!['i', 'n', 'f', 'i', 'n', 'i', 't', 'y'])
}

/// Whether `s` denotes a real number.
pub open spec fn is_real(s: Seq<char>) -> bool {
    let unsigned = s.skip(sign_len(s));
    is_special(unsigned) || is_decimal(unsigned)
}

/// The number that the digit `c` stands for.
pub open spec fn digit_value(c: char) -> int {
    c as u32 - '0' as u32
}

/// The number that a run of digits denotes in base ten; 0 for the empty run.
pub open spec fn decimal_value(s: Seq<char>) -> int
    decreases s.len(),
{
    if s.len() == 0 {
        0
    } else {
        10 * decimal_value(s.drop_last()) + digit_value(s.last())
    }
}

/// The integer that `s` denotes, if it denotes one that a 16-bit signed
/// integer can hold: a sign or none, then one digit or more.
pub open spec fn integer_of(s: Seq<char>) -> Option<i16> {
    let digits = s.skip(sign_len(s));
    let value = if s.len() > 0 && s[0] == '-' {
        -decimal_value(digits)
    } else {
        decimal_value(digits)
    };
    if digits.len() > 0 && all_digits(digits) && i16::MIN <= value <= i16::MAX {
        Some(value as i16)
    } else {
        None
    }
}

/// The word for one, with one decimal.
pub open spec fn one_text() -> Seq<char> {
    seq!['1', '.', '0']
}

/// A real number, kept as the word that denotes it. Two numbers are equal
/// here when their words are.
#[derive(Debug, PartialEq, Eq)]
pub struct Number {
    text: String,
}

impl View for Number {
    type V = Seq<char>;

    closed spec fn view(&self) -> Seq<char> {
        self.text@
    }
}

impl Clone for Number {
    fn clone(&self) -> (r: Self)
        ensures
            r == *self,
    {
        proof {
            use_type_invariant(self);
        }
        Number { text: self.text.clone() }
    }
}

impl Number {
    #[verifier::type_invariant]
    spec fn well_formed(self) -> bool {
        is_real(self.text@)
    }

    /// The number that `word` denotes, if it denotes one.
    pub fn parse(word: &[char]) -> (r: Option<Number>)
        ensures
            match r {
                Some(number) => is_real(word@) && number@ == word@,
                None => !is_real(word@),
            },
    {
        if denotes_real(word) {
            Some(Number { text: string_of(word) })
        } else {
            None
        }
    }

    /// The number one, written with one decimal.
    pub fn one() -> (r: Number)
        ensures
            r@ == one_text(),
    {
        let word: [char; 3] = ['1', '.', '0'];
        proof {
            lemma_one_is_real();
        }
        assert(word@ == one_text());
        Number { text: string_of(word.as_slice()) }
    }

    /// The word that denotes the number.
    pub fn as_str(&self) -> (r: &str)
        ensures
            r@ == self@,
            is_real(self@),
    {
        proof {
            use_type_invariant(self);
        }
        self.text.as_str()
    }
}

/// The word for one denotes a real number.
pub proof fn lemma_one_is_real()
    ensures
        is_real(one_text()),
{
    let s = one_text();
    assert(s.skip(0) == s);
    assert(s[1] == '.');
    assert(is_mantissa(s));
}

/// A word that denotes an integer denotes a real number.
pub proof fn lemma_integers_are_real(s: Seq<char>)
    requires
        integer_of(s) is Some,
    ensures
        is_real(s),
{
    assert(is_mantissa(s.skip(sign_len(s))));
}

/// A run of digits denotes no negative number.
pub proof fn lemma_decimal_value_is_natural(s: Seq<char>)
    requires
        all_digits(s),
    ensures
        0 <= decimal_value(s),
    decreases s.len(),
{
    if s.len() > 0 {
        assert(is_digit(s[s.len() - 1]));
        assert forall|i: int| 0 <= i < s.drop_last().len() implies is_digit(
            #[trigger] s.drop_last()[i],
        ) by {
            assert(s.drop_last()[i] == s[i]);
        }
        lemma_decimal_value_is_natural(s.drop_last());
    }
}

/// The digits before a position denote no more than all the digits.
pub proof fn lemma_decimal_value_grows(s: Seq<char>, k: int)
    requires
        0 <= k <= s.len(),
        all_digits(s),
    ensures
        0 <= decimal_value(s.take(k)) <= decimal_value(s),
    decreases s.len() - k,
{
    assert forall|i: int| 0 <= i < s.take(k).len() implies is_digit(#[trigger] s.take(k)[i]) by {
        assert(s.take(k)[i] == s[i]);
    }
    lemma_decimal_value_is_natural(s.take(k));
    if k == s.len() {
        assert(s.take(k) == s);
    } else {
        lemma_decimal_value_grows(s, k + 1);
        assert(s.take(k + 1).drop_last() == s.take(k));
        assert(is_digit(s[k]));
    }
}

/// The first position at or after `from` that holds no digit, or the length
/// of `s` if there is none.
spec fn digits_end(s: Seq<char>, from: int) -> int
    decreases s.len() - from,
{
    if from < 0 || from >= s.len() {
        s.len() as int
    } else if !is_digit(s[from]) {
        from
    } else {
        digits_end(s, from + 1)
    }
}

/// Where a scan from `from` finds the end of a mantissa, if it finds one.
spec fn mantissa_end(s: Seq<char>, from: int) -> Option<int> {
    let a = digits_end(s, from);
    if a < s.len() && s[a] == '.' {
        let b = digits_end(s, a + 1);
        if b - from > 1 {
            Some(b)
        } else {
            None
        }
    } else if a > from {
        Some(a)
    } else {
        None
    }
}

/// Whether a scan from `from` finds an exponent that ends where `s` does.
spec fn scans_exponent(s: Seq<char>, from: int) -> bool {
    &&& from + 1 < s.len()
    &&& is_letter(s[from], 'e')
    &&& {
        let d = if is_sign(s[from + 1]) {
            from + 2
        } else {
            from + 1
        };
        d < s.len() && digits_end(s, d) == s.len()
    }
}

/// Whether a scan from `from` finds a mantissa, with or without an exponent,
/// that ends where `s` does.
spec fn scans_decimal(s: Seq<char>, from: int) -> bool {
    match mantissa_end(s, from) {
        Some(b) => b == s.len() || scans_exponent(s, b),
        None => false,
    }
}

/// Between `from` and `digits_end(s, from)` stand digits only, and no digit
/// stands at that end.
proof fn lemma_digits_before_end(s: Seq<char>, from: int)
    requires
        0 <= from,
    ensures
        from <= digits_end(s, from) || digits_end(s, from) == s.len(),
        digits_end(s, from) <= s.len(),
        digits_end(s, from) < s.len() ==> !is_digit(s[digits_end(s, from)]),
        forall|i: int| from <= i < digits_end(s, from) ==> is_digit(#[trigger] s[i]),
    decreases s.len() - from,
{
    if from < s.len() && is_digit(s[from]) {
        lemma_digits_before_end(s, from + 1);
    }
}

/// The digits that begin at `from` end at `end` if digits stand between the
/// two and none stands at `end`.
proof fn lemma_digits_end_at(s: Seq<char>, from: int, end: int)
    requires
        0 <= from <= end <= s.len(),
        forall|i: int| from <= i < end ==> is_digit(#[trigger] s[i]),
        end == s.len() || !is_digit(s[end]),
    ensures
        digits_end(s, from) == end,
    decreases end - from,
{
    if from < end {
        assert(is_digit(s[from]));
        lemma_digits_end_at(s, from + 1, end);
    }
}

/// A scan finds an exponent exactly where one stands.
proof fn lemma_scan_finds_exponent(s: Seq<char>, from: int)
    requires
        0 <= from <= s.len(),
    ensures
        scans_exponent(s, from) == is_exponent(s.skip(from)),
{
    let t = s.skip(from);
    if from + 1 < s.len() && is_letter(s[from], 'e') {
        let d = if is_sign(s[from + 1]) {
            from + 2
        } else {
            from + 1
        };
        assert(t[0] == s[from]);
        assert(t.skip(1)[0] == s[from + 1]);
        let digits = t.skip(1 + sign_len(t.skip(1)));
        assert(digits == s.skip(d));
        if d < s.len() {
            lemma_digits_before_end(s, d);
            if digits_end(s, d) == s.len() {
                assert forall|i: int| 0 <= i < digits.len() implies is_digit(
                    #[trigger] digits[i],
                ) by {
                    assert(digits[i] == s[d + i]);
                }
            } else {
                let i = digits_end(s, d) - d;
                assert(digits[i] == s[d + i]);
            }
        }
    } else if from < s.len() {
        assert(t[0] == s[from]);
        if is_letter(s[from], 'e') {
            assert(t.skip(1).len() == 0);
        }
    }
}

/// Where a mantissa stands at `from` and what follows it, if anything, is
/// the letter of an exponent, a scan finds it.
proof fn lemma_scan_finds_mantissa(s: Seq<char>, from: int, end: int)
    requires
        0 <= from < end <= s.len(),
        is_mantissa(s.subrange(from, end)),
        end == s.len() || is_letter(s[end], 'e'),
    ensures
        mantissa_end(s, from) == Some(end),
{
    let u = s.subrange(from, end);
    if u.len() > 0 && all_digits(u) {
        assert forall|i: int| from <= i < end implies is_digit(#[trigger] s[i]) by {
            assert(u[i - from] == s[i]);
        }
        lemma_digits_end_at(s, from, end);
    } else {
        let dot = choose|dot: int|
            {
                &&& 0 <= dot < u.len()
                &&& u.len() > 1
                &&& #[trigger] u[dot] == '.'
                &&& all_digits(u.take(dot))
                &&& all_digits(u.skip(dot + 1))
            };
        assert(u[dot] == s[from + dot]);
        assert forall|i: int| from <= i < from + dot implies is_digit(#[trigger] s[i]) by {
            assert(u.take(dot)[i - from] == s[i]);
        }
        lemma_digits_end_at(s, from, from + dot);
        assert forall|i: int| from + dot + 1 <= i < end implies is_digit(#[trigger] s[i]) by {
            assert(u.skip(dot + 1)[i - from - dot - 1] == s[i]);
        }
        lemma_digits_end_at(s, from + dot + 1, end);
    }
}

/// What a scan takes for a mantissa is one.
proof fn lemma_scanned_mantissa(s: Seq<char>, from: int)
    requires
        0 <= from <= s.len(),
        mantissa_end(s, from) is Some,
    ensures
        from < mantissa_end(s, from)->0 <= s.len(),
        is_mantissa(s.subrange(from, mantissa_end(s, from)->0)),
{
    lemma_digits_before_end(s, from);
    let a = digits_end(s, from);
    let end = mantissa_end(s, from)->0;
    let u = s.subrange(from, end);
    if a < s.len() && s[a] == '.' {
        lemma_digits_before_end(s, a + 1);
        let dot = a - from;
        assert(u[dot] == '.');
        assert forall|i: int| 0 <= i < u.take(dot).len() implies is_digit(
            #[trigger] u.take(dot)[i],
        ) by {
            assert(u.take(dot)[i] == s[from + i]);
        }
        assert forall|i: int| 0 <= i < u.skip(dot + 1).len() implies is_digit(
            #[trigger] u.skip(dot + 1)[i],
        ) by {
            assert(u.skip(dot + 1)[i] == s[a + 1 + i]);
        }
    } else {
        assert forall|i: int| 0 <= i < u.len() implies is_digit(#[trigger] u[i]) by {
            assert(u[i] == s[from + i]);
        }
    }
}

/// A scan from `from` finds a decimal exactly where what begins at `from` is
/// one.
proof fn lemma_scan_finds_decimal(s: Seq<char>, from: int)
    requires
        0 <= from <= s.len(),
    ensures
        scans_decimal(s, from) == is_decimal(s.skip(from)),
{
    let t = s.skip(from);
    if scans_decimal(s, from) {
        lemma_scanned_mantissa(s, from);
        let end = mantissa_end(s, from)->0;
        assert(t.take(end - from) == s.subrange(from, end));
        if end == s.len() {
            assert(t.take(end - from) == t);
        } else {
            lemma_scan_finds_exponent(s, end);
            assert(t.skip(end - from) == s.skip(end));
        }
    }
    if is_decimal(t) {
        if is_mantissa(t) {
            assert(t == s.subrange(from, s.len() as int));
            lemma_scan_finds_mantissa(s, from, s.len() as int);
        } else {
            let e = choose|e: int|
                0 < e < t.len() && is_mantissa(#[trigger] t.take(e)) && is_exponent(t.skip(e));
            assert(t.take(e) == s.subrange(from, from + e));
            assert(t.skip(e) == s.skip(from + e));
            assert(t.skip(e)[0] == s[from + e]);
            lemma_scan_finds_mantissa(s, from, from + e);
            lemma_scan_finds_exponent(s, from + e);
        }
    }
}

fn is_digit_char(c: char) -> (r: bool)
    ensures
        r == is_digit(c),
{
    '0' <= c && c <= '9'
}

fn is_sign_char(c: char) -> (r: bool)
    ensures
        r == is_sign(c),
{
    c == '+' || c == '-'
}

fn is_letter_char(c: char, letter: char) -> (r: bool)
    requires
        'a' <= letter <= 'z',
    ensures
        r == is_letter(c, letter),
{
    let n: u32 = c as u32;
    c == letter || (n <= 0x7F && n + 32 == letter as u32)
}

/// The position after the digits that begin at `from`.
fn scan_digits(s: &[char], from: usize) -> (end: usize)
    requires
        from <= s.len(),
    ensures
        end == digits_end(s@, from as int),
        from <= end <= s.len(),
{
    let mut end: usize = from;
    while end < s.len() && is_digit_char(s[end])
        invariant
            from <= end <= s.len(),
            digits_end(s@, end as int) == digits_end(s@, from as int),
        decreases s.len() - end,
    {
        end += 1;
    }
    end
}

fn check_exponent(s: &[char], from: usize) -> (r: bool)
    requires
        from <= s.len(),
    ensures
        r == scans_exponent(s@, from as int),
{
    if s.len() - from < 2 || !is_letter_char(s[from], 'e') {
        return false;
    }
    let d: usize = if is_sign_char(s[from + 1]) {
        from + 2
    } else {
        from + 1
    };
    d < s.len() && scan_digits(s, d) == s.len()
}

fn check_decimal(s: &[char], from: usize) -> (r: bool)
    requires
        from <= s.len(),
    ensures
        r == is_decimal(s@.skip(from as int)),
{
    proof {
        lemma_scan_finds_decimal(s@, from as int);
    }
    let a = scan_digits(s, from);
    let end: usize;
    if a < s.len() && s[a] == '.' {
        let b = scan_digits(s, a + 1);
        if b - from <= 1 {
            return false;
        }
        end = b;
    } else if a > from {
        end = a;
    } else {
        return false;
    }
    end == s.len() || check_exponent(s, end)
}

fn check_special(s: &[char], from: usize) -> (r: bool)
    requires
        from <= s.len(),
    ensures
        r == is_special(s@.skip(from as int)),
{
    let ghost t = s@.skip(from as int);
    let n = s.len() - from;
    if n == 3 {
        let inf = is_letter_char(s[from], 'i') && is_letter_char(s[from + 1], 'n')
            && is_letter_char(s[from + 2], 'f');
        let nan = is_letter_char(s[from], 'n') && is_letter_char(s[from + 1], 'a')
            && is_letter_char(s[from + 2], 'n');
        proof {
            assert(t[0] == s@[from as int] && t[1] == s@[from + 1] && t[2] == s@[from + 2]);
            assert(inf == spells(t, seq!['i', 'n', 'f']));
            assert(nan == spells(t, seq!['n', 'a', 'n']));
        }
        inf || nan
    } else if n == 8 {
        let r = is_letter_char(s[from], 'i') && is_letter_char(s[from + 1], 'n') && is_letter_char(
            s[from + 2],
            'f',
        ) && is_letter_char(s[from + 3], 'i') && is_letter_char(s[from + 4], 'n')
            && is_letter_char(s[from + 5], 'i') && is_letter_char(s[from + 6], 't')
            && is_letter_char(s[from + 7], 'y');
        proof {
            assert(t[0] == s@[from as int] && t[1] == s@[from + 1] && t[2] == s@[from + 2] && t[3]
                == s@[from + 3] && t[4] == s@[from + 4] && t[5] == s@[from + 5] && t[6] == s@[from
                + 6] && t[7] == s@[from + 7]);
            assert(r == spells(t, seq!['i', 'n', 'f', 'i', 'n', 'i', 't', 'y']));
        }
        r
    } else {
        false
    }
}

/// Whether the word `s` denotes a real number.
pub fn denotes_real(s: &[char]) -> (r: bool)
    ensures
        r == is_real(s@),
{
    let k: usize = if s.len() > 0 && is_sign_char(s[0]) {
        1
    } else {
        0
    };
    check_special(s, k) || check_decimal(s, k)
}

/// The numbers that the words `from..to` of `line` denote, in order, if each
/// of them denotes one. `spans` marks the words of the line.
pub fn parse_numbers(line: &[char], spans: &Vec<Span>, from: usize, to: usize) -> (r: Option<
    Vec<Number>,
>)
    requires
        from <= to <= spans.len(),
        forall|i: int|
            0 <= i < spans.len() ==> (#[trigger] spans[i]).start <= spans[i].end <= line.len(),
    ensures
        match r {
            Some(numbers) => {
                &&& numbers.len() == to - from
                &&& forall|i: int|
                    0 <= i < to - from ==> (#[trigger] numbers[i])@ == spans[from + i].of(line@)
                &&& forall|k: int| from <= k < to ==> is_real((#[trigger] spans[k]).of(line@))
            },
            None => exists|k: int| from <= k < to && !is_real((#[trigger] spans[k]).of(line@)),
        },
{
    let mut numbers: Vec<Number> = Vec::new();
    let mut k: usize = from;
    while k < to
        invariant
            from <= k <= to <= spans.len(),
            forall|i: int|
                0 <= i < spans.len() ==> (#[trigger] spans[i]).start <= spans[i].end
                    <= line.len(),
            numbers.len() == k - from,
            forall|i: int|
                0 <= i < k - from ==> (#[trigger] numbers[i])@ == spans[from + i].of(line@),
            forall|j: int| from <= j < k ==> is_real((#[trigger] spans[j]).of(line@)),
        decreases to - k,
    {
        match Number::parse(cut(line, spans[k])) {
            Some(number) => {
                numbers.push(number);
            },
            None => {
                return None;
            },
        }
        k += 1;
    }
    Some(numbers)
}

/// The integer that the word `s` denotes, if it denotes one that fits.
pub fn parse_integer(s: &[char]) -> (r: Option<i16>)
    ensures
        r == integer_of(s@),
{
    let k: usize = if s.len() > 0 && is_sign_char(s[0]) {
        1
    } else {
        0
    };
    let negative = s.len() > 0 && s[0] == '-';
    let ghost digits = s@.skip(k as int);
    proof {
        lemma_digits_before_end(s@, k as int);
    }
    if k == s.len() || scan_digits(s, k) != s.len() {
        proof {
            if k < s.len() {
                let i = digits_end(s@, k as int);
                assert(digits[i - k] == s@[i]);
            }
        }
        return None;
    }
    assert forall|i: int| 0 <= i < digits.len() implies is_digit(#[trigger] digits[i]) by {
        assert(digits[i] == s@[k + i]);
    }
    let mut value: i32 = 0;
    let mut i: usize = k;
    while i < s.len()
        invariant
            k <= i <= s.len(),
            k == sign_len(s@),
            digits == s@.skip(k as int),
            all_digits(digits),
            value == decimal_value(digits.take(i - k)),
            0 <= value <= 32768,
        decreases s.len() - i,
    {
        proof {
            assert(digits[i - k] == s@[i as int]);
            assert(is_digit(digits[i - k]));
            assert(digits.take(i - k + 1).drop_last() == digits.take(i - k));
            assert(digits.take(i - k + 1).last() == s@[i as int]);
            lemma_decimal_value_grows(digits, i - k + 1);
        }
        let d: i32 = (s[i] as u32 - '0' as u32) as i32;
        value = 10 * value + d;
        assert(value == decimal_value(digits.take(i - k + 1)));
        if value > 32768 {
            return None;
        }
        i += 1;
    }
    proof {
        assert(digits.take(i - k) == digits);
    }
    if negative {
        Some((-value) as i16)
    } else if value <= 32767 {
        Some(value as i16)
    } else {
        None
    }
}

} // verus!
