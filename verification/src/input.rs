//! Answers typed at the prompts: unsigned numbers read as `str::parse`
//! reads them, numbered choices, and yes/no confirmations.

use vstd::prelude::*;
use crate::text::{chars_of, same_chars, string_of, trim, trimmed};

verus! {

/// Why a text is not an unsigned number; the kinds that `ParseIntError`
/// reports for unsigned targets.
#[derive(Debug, Clone, Copy, PartialEq, Eq, Structural)]
pub enum NumberError {
    /// The text is empty.
    Empty,
    /// The text holds a character that is not a decimal digit.
    InvalidDigit,
    /// The number is larger than the target type holds.
    Overflow,
}

impl NumberError {
    /// The message with which `ParseIntError` displays this kind.
    pub fn message(&self) -> (r: &'static str)
        ensures
            r@ == match self {
                NumberError::Empty => "cannot parse integer from empty string"@,
                NumberError::InvalidDigit => "invalid digit found in string"@,
                NumberError::Overflow => "number too large to fit in target type"@,
            },
    {
        match self {
            NumberError::Empty => "cannot parse integer from empty string",
            NumberError::InvalidDigit => "invalid digit found in string",
            NumberError::Overflow => "number too large to fit in target type",
        }
    }
}

pub open spec fn is_digit(c: char) -> bool {
    '0' <= c <= '9'
}

pub open spec fn digit_value(c: char) -> nat {
    (c as int - '0' as int) as nat
}

/// Reads the digits `d` after the value `acc` read so far, left to right,
/// failing at the first character that is not a digit or at the first digit
/// that takes the value past `max`.
pub open spec fn scan_digits(d: Seq<char>, acc: nat, max: nat) -> Result<nat, NumberError>
    decreases d.len(),
{
    if d.len() == 0 {
        Ok(acc)
    } else if !is_digit(d[0]) {
        Err(NumberError::InvalidDigit)
    } else if acc * 10 + digit_value(d[0]) > max {
        Err(NumberError::Overflow)
    } else {
        scan_digits(d.drop_first(), acc * 10 + digit_value(d[0]), max)
    }
}

/// `s` read as an unsigned decimal number at most `max`, as `str::parse`
/// reads it into an unsigned type whose largest value is `max`: an optional
/// leading `+`, then one or more digits.
pub open spec fn parse_unsigned(s: Seq<char>, max: nat) -> Result<nat, NumberError> {
    if s.len() == 0 {
        Err(NumberError::Empty)
    } else if s.len() == 1 && (s[0] == '+' || s[0] == '-') {
        Err(NumberError::InvalidDigit)
    } else if s[0] == '+' {
        scan_digits(s.drop_first(), 0, max)
    } else {
        scan_digits(s, 0, max)
    }
}

/// Reading digits on from a value within the limit stays within it.
proof fn lemma_scan_bounded(d: Seq<char>, acc: nat, max: nat)
    requires
        acc <= max,
    ensures
        scan_digits(d, acc, max) matches Ok(v) ==> v <= max,
    decreases d.len(),
{
    if d.len() > 0 && is_digit(d[0]) && acc * 10 + digit_value(d[0]) <= max {
        lemma_scan_bounded(d.drop_first(), acc * 10 + digit_value(d[0]), max);
    }
}

/// Reading one more digit after the digits `d`.
proof fn lemma_scan_push(d: Seq<char>, acc: nat, max: nat, c: char)
    requires
        is_digit(c),
    ensures
        scan_digits(d.push(c), acc, max) == match scan_digits(d, acc, max) {
            Ok(v) => if v * 10 + digit_value(c) > max {
                Err(NumberError::Overflow)
            } else {
                Ok(v * 10 + digit_value(c))
            },
            Err(e) => Err(e),
        },
    decreases d.len(),
{
    let t = d.push(c);
    if d.len() == 0 {
        assert(t.drop_first() =~= Seq::<char>::empty());
        assert(t[0] == c);
        assert(scan_digits(t.drop_first(), acc * 10 + digit_value(c), max) == Ok::<nat, NumberError>(
            acc * 10 + digit_value(c),
        ));
    } else {
        assert(t[0] == d[0]);
        assert(t.drop_first() =~= d.drop_first().push(c));
        if is_digit(d[0]) && acc * 10 + digit_value(d[0]) <= max {
            lemma_scan_push(d.drop_first(), acc * 10 + digit_value(d[0]), max, c);
        }
    }
}

/// How a number is built up digit by digit: an empty answer is no number;
/// a single character is its digit's value (or too large for the limit) when
/// it is a digit and no number otherwise; typing one more digit after a
/// number (other than a lone sign) multiplies it by ten and adds the digit,
/// unless that passes the limit; a text that is no number stays no number;
/// and a leading `+` changes nothing.
pub proof fn lemma_number_digits(s: Seq<char>, c: char, max: nat)
    ensures
        parse_unsigned(Seq::<char>::empty(), max) == Err::<nat, NumberError>(NumberError::Empty),
        is_digit(c) ==> parse_unsigned(seq![c], max) == (if digit_value(c) > max {
            Err::<nat, NumberError>(NumberError::Overflow)
        } else {
            Ok::<nat, NumberError>(digit_value(c))
        }),
        !is_digit(c) ==> parse_unsigned(seq![c], max) == Err::<nat, NumberError>(NumberError::InvalidDigit),
        is_digit(c) && s.len() > 0 && !(s.len() == 1 && (s[0] == '+' || s[0] == '-')) ==> parse_unsigned(s.push(c), max)
            == match parse_unsigned(s, max) {
            Ok(v) => if v * 10 + digit_value(c) > max {
                Err::<nat, NumberError>(NumberError::Overflow)
            } else {
                Ok::<nat, NumberError>(v * 10 + digit_value(c))
            },
            Err(e) => Err::<nat, NumberError>(e),
        },
        s.len() > 0 && s[0] != '+' ==> parse_unsigned(seq!['+'] + s, max) == parse_unsigned(s, max),
{
    let one = seq![c];
    assert(one.drop_first() =~= Seq::<char>::empty());
    assert(one[0] == c);
    assert(scan_digits(one.drop_first(), digit_value(c), max) == Ok::<nat, NumberError>(digit_value(c)));
    if is_digit(c) && s.len() > 0 && !(s.len() == 1 && (s[0] == '+' || s[0] == '-')) {
        let t = s.push(c);
        assert(t[0] == s[0]);
        if s[0] == '+' {
            assert(t.drop_first() =~= s.drop_first().push(c));
            lemma_scan_push(s.drop_first(), 0, max, c);
        } else {
            lemma_scan_push(s, 0, max, c);
        }
    }
    if s.len() > 0 && s[0] != '+' {
        let t = seq!['+'] + s;
        assert(t.drop_first() =~= s);
        assert(t[0] == '+');
    }
}

/// A number read is never above the limit it is read against.
pub proof fn lemma_number_within_limit(s: Seq<char>, max: nat)
    ensures
        parse_unsigned(s, max) matches Ok(v) ==> v <= max,
{
    lemma_scan_bounded(s, 0, max);
    if s.len() > 0 {
        lemma_scan_bounded(s.drop_first(), 0, max);
    }
}

/// Reads `s` as an unsigned decimal number at most `max`.
pub fn parse_number(s: &[char], max: usize) -> (r: Result<usize, NumberError>)
    ensures
        match r {
            Ok(v) => parse_unsigned(s@, max as nat) == Ok::<nat, NumberError>(v as nat),
            Err(e) => parse_unsigned(s@, max as nat) == Err::<nat, NumberError>(e),
        },
{
    let n = s.len();
    if n == 0 {
        return Err(NumberError::Empty);
    }
    if n == 1 && (s[0] == '+' || s[0] == '-') {
        return Err(NumberError::InvalidDigit);
    }
    let mut k: usize = if s[0] == '+' { 1 } else { 0 };
    let ghost digits = s@.skip(k as int);
    assert(s[0] == '+' ==> digits =~= s@.drop_first());
    assert(s[0] != '+' ==> digits =~= s@);
    let mut acc: usize = 0;
    while k < n
        invariant
            n == s@.len(),
            k <= n,
            acc <= max,
            parse_unsigned(s@, max as nat) == scan_digits(s@.skip(k as int), acc as nat, max as nat),
        decreases n - k,
    {
        let c = s[k];
        assert(s@.skip(k as int)[0] == c);
        assert(s@.skip(k as int).drop_first() =~= s@.skip(k + 1));
        if !('0' <= c && c <= '9') {
            return Err(NumberError::InvalidDigit);
        }
        let d = (c as u32 - '0' as u32) as u128;
        let next = (acc as u128) * 10 + d;
        if next > max as u128 {
            return Err(NumberError::Overflow);
        }
        acc = next as usize;
        k = k + 1;
    }
    assert(s@.skip(n as int).len() == 0);
    Ok(acc)
}

/// Reads an answer as a number: the answer without surrounding white
/// space, as an unsigned number at most `max`.
pub fn read_number(answer: &str, max: usize) -> (r: Result<usize, NumberError>)
    ensures
        match r {
            Ok(v) => parse_unsigned(trim(answer@), max as nat) == Ok::<nat, NumberError>(v as nat),
            Err(e) => parse_unsigned(trim(answer@), max as nat) == Err::<nat, NumberError>(e),
        },
{
    let text = trimmed(chars_of(answer).as_slice());
    parse_number(text.as_slice(), max)
}

/// The number typed as an answer, when it lies in `low..=high`.
pub open spec fn choice_in(answer: Seq<char>, low: nat, high: nat) -> Result<Option<nat>, NumberError> {
    match parse_unsigned(trim(answer), usize::MAX as nat) {
        Ok(v) => Ok(if low <= v <= high { Some(v) } else { None }),
        Err(e) => Err(e),
    }
}

/// A choice takes exactly the numbers from `low` to `high`, both ends
/// included: whenever the answer reads as the number `v`, the choice is `v`
/// when `low <= v <= high` and none otherwise; an answer that is not a
/// number gives the reason it is not.
pub proof fn lemma_choice_bounds(answer: Seq<char>, low: nat, high: nat)
    ensures
        forall|v: nat|
            parse_unsigned(trim(answer), usize::MAX as nat) == Ok::<nat, NumberError>(v) ==> {
                &&& (low <= v && v <= high) ==> choice_in(answer, low, high) == Ok::<Option<nat>, NumberError>(Some(v))
                &&& !(low <= v && v <= high) ==> choice_in(answer, low, high) == Ok::<Option<nat>, NumberError>(None)
            },
        forall|e: NumberError|
            parse_unsigned(trim(answer), usize::MAX as nat) == Err::<nat, NumberError>(e) ==> choice_in(answer, low, high)
                == Err::<Option<nat>, NumberError>(e),
        parse_unsigned(trim(answer), usize::MAX as nat) == Ok::<nat, NumberError>(high) ==> choice_in(answer, low, high)
            == (if low <= high {
            Ok::<Option<nat>, NumberError>(Some(high))
        } else {
            Ok::<Option<nat>, NumberError>(None)
        }),
        parse_unsigned(trim(answer), usize::MAX as nat) == Ok::<nat, NumberError>(low) ==> choice_in(answer, low, high)
            == (if low <= high {
            Ok::<Option<nat>, NumberError>(Some(low))
        } else {
            Ok::<Option<nat>, NumberError>(None)
        }),
{
}

/// Reads an answer as a choice among `low..=high`: the number when it is one
/// of them, `None` for any other number, and the reason when the answer is
/// not a number.
pub fn read_choice(answer: &str, low: usize, high: usize) -> (r: Result<Option<usize>, NumberError>)
    ensures
        match r {
            Ok(Some(v)) => choice_in(answer@, low as nat, high as nat) == Ok::<Option<nat>, NumberError>(Some(v as nat)),
            Ok(None) => choice_in(answer@, low as nat, high as nat) == Ok::<Option<nat>, NumberError>(None),
            Err(e) => choice_in(answer@, low as nat, high as nat) == Err::<Option<nat>, NumberError>(e),
        },
{
    match read_number(answer, usize::MAX) {
        Ok(v) => {
            if low <= v && v <= high {
                Ok(Some(v))
            } else {
                Ok(None)
            }
        },
        Err(e) => Err(e),
    }
}

/// The answer without surrounding white space is exactly `word`.
pub open spec fn answer_is(answer: Seq<char>, word: Seq<char>) -> bool {
    trim(answer) == word
}

/// Whether the answer without surrounding white space is exactly `word`.
pub fn answered(answer: &str, word: &str) -> (r: bool)
    ensures
        r == answer_is(answer@, word@),
{
    let text = trimmed(chars_of(answer).as_slice());
    same_chars(text.as_slice(), chars_of(word).as_slice())
}

/// The lower-case form of `s` that `str::to_lowercase` gives.
pub uninterp spec fn lowercase(s: Seq<char>) -> Seq<char>;

/// The lower-case form of a string.
///
/// Trusted: the body calls `str::to_lowercase`, whose result depends on the
/// characters of `s` alone (Unicode's lower-case mapping); the contract names
/// that result and claims nothing else of it.
#[verifier::external_body]
pub(crate) fn to_lowercase(s: &str) -> (r: String)
    ensures
        r@ == lowercase(s@),
{
    s.to_lowercase()
}

/// The answer, without surrounding white space and in lower case, is "y".
pub open spec fn is_yes(answer: Seq<char>) -> bool {
    lowercase(trim(answer)) == "y"@
}

/// Whether the answer confirms: without surrounding white space and in lower
/// case it is "y".
pub fn is_confirmed(answer: &str) -> (r: bool)
    ensures
        r == is_yes(answer@),
{
    let text = string_of(trimmed(chars_of(answer).as_slice()).as_slice());
    let lower = to_lowercase(text.as_str());
    same_chars(chars_of(lower.as_str()).as_slice(), chars_of("y").as_slice())
}

} // verus!
