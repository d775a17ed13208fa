//! The grammar, as functions from the text that is left to an outcome.
//!
//! An outcome is either the text that remains behind what was recognized,
//! paired with what was recognized, or a failure. A rule never looks
//! behind the text it is given, so the outcome of a rule is a function of
//! that text alone.

use vstd::prelude::*;
use crate::number::float_literal_bits;
use crate::value::{
    members_map, ErrorKind, Failure, JsonModel, JsonValue, NumberType, ParseError,
};

verus! {

/// The outcome of a rule: the text that remains and what was recognized,
/// or the failure.
pub type Outcome<T> = Result<(Seq<char>, T), Failure>;

/// A failure of the given kind at the given text.
pub open spec fn fail<T>(kind: ErrorKind, input: Seq<char>) -> Outcome<T> {
    Err(Failure { kind, input })
}

/// Whitespace is a space or a newline.
pub open spec fn is_space(c: char) -> bool {
    c == ' ' || c == '\n'
}

/// A digit is one of `0` to `9`.
pub open spec fn is_digit(c: char) -> bool {
    '0' <= c && c <= '9'
}

/// The number that a decimal digit stands for.
pub open spec fn digit_value(c: char) -> nat {
    (c as u32 - '0' as u32) as nat
}

/// `s` without the whitespace at its front.
pub open spec fn skip_spaces(s: Seq<char>) -> Seq<char>
    decreases s.len(),
{
    if s.len() > 0 && is_space(s[0]) {
        skip_spaces(s.skip(1))
    } else {
        s
    }
}

/// How many digits stand at the front of `s`.
pub open spec fn leading_digits(s: Seq<char>) -> nat
    decreases s.len(),
{
    if s.len() > 0 && is_digit(s[0]) {
        1 + leading_digits(s.skip(1))
    } else {
        0
    }
}

/// How many characters stand before the first `"` of `s`; the length of
/// `s` when it holds none.
pub open spec fn quote_free_len(s: Seq<char>) -> nat
    decreases s.len(),
{
    if s.len() > 0 && s[0] != '"' {
        1 + quote_free_len(s.skip(1))
    } else {
        0
    }
}

/// Whether every character of `s` is a digit.
pub open spec fn all_digits(s: Seq<char>) -> bool {
    forall|i: int| 0 <= i < s.len() ==> is_digit(#[trigger] s[i])
}

/// The number that a sequence of decimal digits denotes.
pub open spec fn decimal_value(digits: Seq<char>) -> nat
    decreases digits.len(),
{
    if digits.len() == 0 {
        0
    } else {
        decimal_value(digits.drop_last()) * 10 + digit_value(digits.last())
    }
}

/// Whether `s` starts with `c`.
pub open spec fn starts_with(s: Seq<char>, c: char) -> bool {
    s.len() > 0 && s[0] == c
}

/// The text of a sign: `-` for a negative number, nothing otherwise.
pub open spec fn sign_text(negative: bool) -> Seq<char> {
    if negative {
        seq!['-']
    } else {
        Seq::empty()
    }
}

/// `s` without its minus sign, if it starts with one.
pub open spec fn after_sign(s: Seq<char>) -> Seq<char> {
    if starts_with(s, '-') {
        s.skip(1)
    } else {
        s
    }
}

/// A string token: a `"`, then every character up to the next `"`, taken
/// as it stands, then that `"`. A missing opening quote fails at `s`, a
/// missing closing quote at the text behind the opening quote.
pub open spec fn string_token(s: Seq<char>) -> Outcome<Seq<char>> {
    let body = s.skip(1);
    let n = quote_free_len(body) as int;
    if !starts_with(s, '"') {
        fail(ErrorKind::DelimiterMissing, s)
    } else if n == body.len() {
        fail(ErrorKind::DelimiterMissing, body)
    } else {
        Ok((body.skip(n + 1), body.take(n)))
    }
}

/// A string: a string token, as a value.
pub open spec fn string_rule(s: Seq<char>) -> Outcome<JsonModel> {
    match string_token(s) {
        Ok((rest, text)) => Ok((rest, JsonModel::String(text))),
        Err(failure) => Err(failure),
    }
}

/// An integer: an optional `-`, then one or more digits. It fails at the
/// text behind the sign, for want of a digit or because the digits exceed
/// `i32::MAX`.
pub open spec fn integer_rule(s: Seq<char>) -> Outcome<JsonModel> {
    let digits = after_sign(s);
    let n = leading_digits(digits) as int;
    let magnitude = decimal_value(digits.take(n)) as int;
    if n == 0 {
        fail(ErrorKind::DigitsMissing, digits)
    } else if magnitude > i32::MAX {
        fail(ErrorKind::NumericOverflow, digits)
    } else {
        let number = if starts_with(s, '-') {
            -magnitude
        } else {
            magnitude
        };
        Ok((digits.skip(n), JsonModel::Number(NumberType::Integer(number as i32))))
    }
}

/// The length of the float literal at the front of `s`: an optional `-`,
/// one or more digits, a `.`, one or more digits. Where there is none, the
/// failure says what was missing and where.
pub open spec fn float_literal_len(s: Seq<char>) -> Result<nat, Failure> {
    let whole = after_sign(s);
    let n = leading_digits(whole) as int;
    let point = whole.skip(n);
    let fraction = point.skip(1);
    let m = leading_digits(fraction) as int;
    if n == 0 {
        Err(Failure { kind: ErrorKind::DigitsMissing, input: whole })
    } else if !starts_with(point, '.') {
        Err(Failure { kind: ErrorKind::DelimiterMissing, input: point })
    } else if m == 0 {
        Err(Failure { kind: ErrorKind::DigitsMissing, input: fraction })
    } else {
        Ok((s.len() - fraction.len() + m) as nat)
    }
}

/// Whether all of `s` is one float literal.
pub open spec fn is_float_literal(s: Seq<char>) -> bool {
    float_literal_len(s) == Ok::<nat, Failure>(s.len())
}

/// A float: a float literal, read as a 32-bit float.
pub open spec fn float_rule(s: Seq<char>) -> Outcome<JsonModel> {
    match float_literal_len(s) {
        Ok(len) => Ok(
            (
                s.skip(len as int),
                JsonModel::Number(NumberType::Float(float_literal_bits(s.take(len as int)))),
            ),
        ),
        Err(failure) => Err(failure),
    }
}

/// The characters of `true`.
pub open spec fn word_true() -> Seq<char> {
    seq!['t', 'r', 'u', 'e']
}

/// The characters of `false`.
pub open spec fn word_false() -> Seq<char> {
    seq!['f', 'a', 'l', 's', 'e']
}

/// The characters of `null`.
pub open spec fn word_null() -> Seq<char> {
    seq!['n', 'u', 'l', 'l']
}

/// A boolean: exactly `true` or `false`.
pub open spec fn bool_rule(s: Seq<char>) -> Outcome<JsonModel> {
    if word_true().is_prefix_of(s) {
        Ok((s.skip(4), JsonModel::Boolean(true)))
    } else if word_false().is_prefix_of(s) {
        Ok((s.skip(5), JsonModel::Boolean(false)))
    } else {
        fail(ErrorKind::LiteralMissing, s)
    }
}

/// Null: exactly `null`.
pub open spec fn null_rule(s: Seq<char>) -> Outcome<JsonModel> {
    if word_null().is_prefix_of(s) {
        Ok((s.skip(4), JsonModel::Null))
    } else {
        fail(ErrorKind::LiteralMissing, s)
    }
}

/// Whether `rest` is what is left of `s` once some of its characters,
/// possibly none, were read from its front.
pub open spec fn is_rest_of(rest: Seq<char>, s: Seq<char>) -> bool {
    rest.len() <= s.len() && rest == s.skip(s.len() - rest.len())
}

/// Whether an outcome, where it is a success, leaves a rest of `s` that is
/// shorter than `s`.
pub open spec fn consumes<T>(outcome: Outcome<T>, s: Seq<char>) -> bool {
    outcome matches Ok((rest, _)) ==> is_rest_of(rest, s) && rest.len() < s.len()
}

/// Whether an executable result is what a rule's outcome says: the same
/// remaining text and a value with the same view, or the same failure.
pub open spec fn yields<'a>(
    result: Result<(&'a str, JsonValue), ParseError<'a>>,
    outcome: Outcome<JsonModel>,
) -> bool {
    match result {
        Ok((rest, value)) => outcome == Ok::<(Seq<char>, JsonModel), Failure>((rest@, value@)),
        Err(error) => outcome == Err::<(Seq<char>, JsonModel), Failure>(error@),
    }
}

/// What skipping whitespace leaves is no longer than what it was given.
pub proof fn lemma_skip_spaces_len(s: Seq<char>)
    ensures
        skip_spaces(s).len() <= s.len(),
    decreases s.len(),
{
    if s.len() > 0 && is_space(s[0]) {
        lemma_skip_spaces_len(s.skip(1));
    }
}

/// No more characters stand before the first `"` than there are.
pub proof fn lemma_quote_free_len(s: Seq<char>)
    ensures
        quote_free_len(s) <= s.len(),
    decreases s.len(),
{
    if s.len() > 0 && s[0] != '"' {
        lemma_quote_free_len(s.skip(1));
    }
}

/// No more digits stand at the front than there are characters.
pub proof fn lemma_leading_digits_len(s: Seq<char>)
    ensures
        leading_digits(s) <= s.len(),
    decreases s.len(),
{
    if s.len() > 0 && is_digit(s[0]) {
        lemma_leading_digits_len(s.skip(1));
    }
}

/// Cutting a text short cuts its leading digits short, and does nothing
/// else to them.
pub proof fn lemma_leading_digits_take(s: Seq<char>, k: int)
    requires
        0 <= k <= s.len(),
    ensures
        leading_digits(s.take(k)) == if leading_digits(s) <= k {
            leading_digits(s)
        } else {
            k as nat
        },
    decreases s.len(),
{
    if k > 0 && is_digit(s[0]) {
        assert(s.take(k).skip(1) =~= s.skip(1).take(k - 1));
        lemma_leading_digits_take(s.skip(1), k - 1);
    }
}

/// The float literal at the front of a text is, taken alone, a float
/// literal.
pub proof fn lemma_float_literal_alone(s: Seq<char>)
    requires
        float_literal_len(s) is Ok,
    ensures
        float_literal_len(s)->Ok_0 <= s.len(),
        is_float_literal(s.take(float_literal_len(s)->Ok_0 as int)),
{
    let whole = after_sign(s);
    let n = leading_digits(whole) as int;
    let point = whole.skip(n);
    let fraction = point.skip(1);
    let m = leading_digits(fraction) as int;
    let len = float_literal_len(s)->Ok_0 as int;
    lemma_leading_digits_len(whole);
    lemma_leading_digits_len(fraction);
    let sign: int = if starts_with(s, '-') {
        1
    } else {
        0
    };
    assert(len == sign + n + 1 + m);
    let cut = s.take(len);
    let cut_whole = after_sign(cut);
    assert(cut_whole =~= whole.take(len - sign));
    lemma_leading_digits_take(whole, len - sign);
    let cut_point = cut_whole.skip(n);
    assert(cut_point =~= point.take(1 + m));
    let cut_fraction = cut_point.skip(1);
    assert(cut_fraction =~= fraction.take(m));
    lemma_leading_digits_take(fraction, m);
}

/// A value: the first of string, float, integer, boolean, array, object
/// and null that accepts the text. When none does, the failure is at `s`.
pub open spec fn value_rule(s: Seq<char>) -> Outcome<JsonModel>
    decreases s.len(), 1int,
{
    if string_rule(s) is Ok {
        string_rule(s)
    } else if float_rule(s) is Ok {
        float_rule(s)
    } else if integer_rule(s) is Ok {
        integer_rule(s)
    } else if bool_rule(s) is Ok {
        bool_rule(s)
    } else if array_rule(s) is Ok {
        array_rule(s)
    } else if object_rule(s) is Ok {
        object_rule(s)
    } else if null_rule(s) is Ok {
        null_rule(s)
    } else {
        fail(ErrorKind::NoAlternativeMatched, s)
    }
}

/// A key and its value: a string token, a `:`, optional whitespace, a
/// value. A missing `:` fails at the text behind the key.
pub open spec fn key_value_rule(s: Seq<char>) -> Outcome<(Seq<char>, JsonModel)>
    decreases s.len(), 2int,
{
    match string_token(s) {
        Err(failure) => Err(failure),
        Ok((colon, key)) => {
            if !starts_with(colon, ':') {
                fail(ErrorKind::DelimiterMissing, colon)
            } else {
                proof {
                    lemma_quote_free_len(s.skip(1));
                    lemma_skip_spaces_len(colon.skip(1));
                }
                match value_rule(skip_spaces(colon.skip(1))) {
                    Err(failure) => Err(failure),
                    Ok((rest, value)) => Ok((rest, (key, value))),
                }
            }
        },
    }
}

/// The values of a list, and the text behind the list: a value, then for
/// as long as a `,`, optional whitespace and a value follow, that value.
/// A list may be empty, and a `,` that no value follows is not part of it.
///
/// The comparisons of lengths make the definition well-founded; a value
/// that was recognized always leaves less text than there was
/// ([`crate::laws::lemma_value_consumes`]).
pub open spec fn elements_rule(s: Seq<char>) -> (Seq<JsonModel>, Seq<char>)
    decreases s.len(), 2int,
{
    match value_rule(s) {
        Err(_) => (Seq::empty(), s),
        Ok((rest, first)) => {
            if rest.len() < s.len() {
                let (more, end) = more_elements(rest);
                (seq![first] + more, end)
            } else {
                (seq![first], rest)
            }
        },
    }
}

/// The values of a list behind its first, and the text behind the list.
pub open spec fn more_elements(s: Seq<char>) -> (Seq<JsonModel>, Seq<char>)
    decreases s.len(), 0int,
{
    if !starts_with(s, ',') {
        (Seq::empty(), s)
    } else {
        proof {
            lemma_skip_spaces_len(s.skip(1));
        }
        match value_rule(skip_spaces(s.skip(1))) {
            Err(_) => (Seq::empty(), s),
            Ok((rest, next)) => {
                if rest.len() < s.len() {
                    let (more, end) = more_elements(rest);
                    (seq![next] + more, end)
                } else {
                    (seq![next], rest)
                }
            },
        }
    }
}

/// An array: a `[`, optional whitespace, a list of values, optional
/// whitespace, a `]`. A missing `]` fails at the text where it was
/// expected.
pub open spec fn array_rule(s: Seq<char>) -> Outcome<JsonModel>
    decreases s.len(), 0int,
{
    if !starts_with(s, '[') {
        fail(ErrorKind::DelimiterMissing, s)
    } else {
        proof {
            lemma_skip_spaces_len(s.skip(1));
        }
        let (items, behind) = elements_rule(skip_spaces(s.skip(1)));
        let closing = skip_spaces(behind);
        if !starts_with(closing, ']') {
            fail(ErrorKind::StructureUnterminated, closing)
        } else {
            Ok((closing.skip(1), JsonModel::Array(items)))
        }
    }
}

/// The members of a list of keys with their values, and the text behind
/// the list. The list is built as [`elements_rule`] builds its own.
pub open spec fn members_rule(s: Seq<char>) -> (Seq<(Seq<char>, JsonModel)>, Seq<char>)
    decreases s.len(), 3int,
{
    match key_value_rule(s) {
        Err(_) => (Seq::empty(), s),
        Ok((rest, first)) => {
            if rest.len() < s.len() {
                let (more, end) = more_members(rest);
                (seq![first] + more, end)
            } else {
                (seq![first], rest)
            }
        },
    }
}

/// The members of a list behind its first, and the text behind the list.
pub open spec fn more_members(s: Seq<char>) -> (Seq<(Seq<char>, JsonModel)>, Seq<char>)
    decreases s.len(), 0int,
{
    if !starts_with(s, ',') {
        (Seq::empty(), s)
    } else {
        proof {
            lemma_skip_spaces_len(s.skip(1));
        }
        match key_value_rule(skip_spaces(s.skip(1))) {
            Err(_) => (Seq::empty(), s),
            Ok((rest, next)) => {
                if rest.len() < s.len() {
                    let (more, end) = more_members(rest);
                    (seq![next] + more, end)
                } else {
                    (seq![next], rest)
                }
            },
        }
    }
}

/// An object: a `{`, optional whitespace, a list of members, optional
/// whitespace, a `}`. Of two members with one key the later one stays. A
/// missing `}` fails at the text where it was expected.
pub open spec fn object_rule(s: Seq<char>) -> Outcome<JsonModel>
    decreases s.len(), 0int,
{
    if !starts_with(s, '{') {
        fail(ErrorKind::DelimiterMissing, s)
    } else {
        proof {
            lemma_skip_spaces_len(s.skip(1));
        }
        let (members, behind) = members_rule(skip_spaces(s.skip(1)));
        let closing = skip_spaces(behind);
        if !starts_with(closing, '}') {
            fail(ErrorKind::StructureUnterminated, closing)
        } else {
            Ok((closing.skip(1), JsonModel::Object(members_map(members))))
        }
    }
}

} // verus!
