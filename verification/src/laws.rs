//! What holds of the grammar as a whole.

use vstd::prelude::*;
use crate::grammar::{
    after_sign, all_digits, array_rule, bool_rule, consumes, decimal_value, elements_rule,
    float_literal_len, float_rule, integer_rule, is_digit, is_float_literal, is_rest_of,
    key_value_rule, leading_digits, lemma_leading_digits_len, lemma_quote_free_len,
    members_rule, more_elements, more_members, null_rule, object_rule, quote_free_len,
    sign_text, skip_spaces, starts_with, string_rule, string_token, value_rule, word_false,
    word_null, word_true, Outcome,
};
use crate::number::float_literal_bits;
use crate::value::{JsonModel, NumberType};

verus! {

/// Dropping characters from the front of a text leaves a rest of it.
pub proof fn lemma_skip_is_rest(s: Seq<char>, n: int)
    requires
        0 <= n <= s.len(),
    ensures
        is_rest_of(s.skip(n), s),
{
}

/// A rest of a rest is a rest.
pub proof fn lemma_rest_of_rest(a: Seq<char>, b: Seq<char>, c: Seq<char>)
    requires
        is_rest_of(a, b),
        is_rest_of(b, c),
    ensures
        is_rest_of(a, c),
{
    assert(c.skip(c.len() - b.len()).skip(b.len() - a.len()) =~= c.skip(c.len() - a.len()));
}

/// Skipping whitespace leaves a rest of the text.
pub proof fn lemma_skip_spaces_is_rest(s: Seq<char>)
    ensures
        is_rest_of(skip_spaces(s), s),
    decreases s.len(),
{
    if s.len() > 0 && crate::grammar::is_space(s[0]) {
        lemma_skip_spaces_is_rest(s.skip(1));
        lemma_skip_is_rest(s, 1);
        lemma_rest_of_rest(skip_spaces(s), s.skip(1), s);
    } else {
        assert(s.skip(0) =~= s);
    }
}

/// A string that was recognized took at least its two quotes.
pub proof fn lemma_string_consumes(s: Seq<char>)
    ensures
        consumes(string_token(s), s),
        consumes(string_rule(s), s),
{
    if string_token(s) is Ok {
        let body = s.skip(1);
        lemma_quote_free_len(body);
        let n = quote_free_len(body) as int;
        lemma_skip_is_rest(body, n + 1);
        lemma_skip_is_rest(s, 1);
        lemma_rest_of_rest(body.skip(n + 1), body, s);
    }
}

/// An integer that was recognized took at least one digit.
pub proof fn lemma_integer_consumes(s: Seq<char>)
    ensures
        consumes(integer_rule(s), s),
{
    if integer_rule(s) is Ok {
        let digits = after_sign(s);
        lemma_leading_digits_len(digits);
        lemma_skip_is_rest(digits, leading_digits(digits) as int);
        if starts_with(s, '-') {
            lemma_skip_is_rest(s, 1);
        } else {
            assert(s.skip(0) =~= s);
        }
        lemma_rest_of_rest(digits.skip(leading_digits(digits) as int), digits, s);
    }
}

/// A float that was recognized took at least two digits and a point.
pub proof fn lemma_float_consumes(s: Seq<char>)
    ensures
        consumes(float_rule(s), s),
{
    if float_rule(s) is Ok {
        let whole = after_sign(s);
        let fraction = whole.skip(leading_digits(whole) as int).skip(1);
        lemma_leading_digits_len(whole);
        lemma_leading_digits_len(fraction);
        lemma_skip_is_rest(s, float_literal_len(s)->Ok_0 as int);
    }
}

/// A literal that was recognized was taken whole.
pub proof fn lemma_literal_consumes(s: Seq<char>)
    ensures
        consumes(bool_rule(s), s),
        consumes(null_rule(s), s),
{
    if bool_rule(s) is Ok {
        let n = s.len() - bool_rule(s)->Ok_0.0.len();
        lemma_skip_is_rest(s, n);
    }
    if null_rule(s) is Ok {
        lemma_skip_is_rest(s, 4);
    }
}

/// Reading on from what a value left leaves still less: of two values
/// read one behind the other, the second starts where the first ended and
/// ends behind it.
pub proof fn lemma_reading_on(s: Seq<char>)
    requires
        value_rule(s) is Ok,
        value_rule(value_rule(s)->Ok_0.0) is Ok,
    ensures
        ({
            let first = value_rule(s)->Ok_0.0;
            let second = value_rule(first)->Ok_0.0;
            &&& is_rest_of(first, s)
            &&& is_rest_of(second, first)
            &&& is_rest_of(second, s)
            &&& second.len() < first.len() < s.len()
        }),
{
    let first = value_rule(s)->Ok_0.0;
    let second = value_rule(first)->Ok_0.0;
    lemma_value_consumes(s);
    lemma_value_consumes(first);
    lemma_rest_of_rest(second, first, s);
}

/// Digits in front of a text that does not go on with a digit are all the
/// digits at its front.
pub proof fn lemma_leading_digits_of_run(digits: Seq<char>, rest: Seq<char>)
    requires
        all_digits(digits),
        rest.len() > 0 ==> !is_digit(rest[0]),
    ensures
        leading_digits(digits + rest) == digits.len(),
    decreases digits.len(),
{
    if digits.len() > 0 {
        assert(is_digit(digits[0]));
        assert((digits + rest).skip(1) =~= digits.skip(1) + rest);
        assert(all_digits(digits.skip(1))) by {
            assert forall|i: int| 0 <= i < digits.skip(1).len() implies is_digit(
                #[trigger] digits.skip(1)[i],
            ) by {
                assert(is_digit(digits[i + 1]));
            }
        }
        lemma_leading_digits_of_run(digits.skip(1), rest);
    } else {
        assert(digits + rest =~= rest);
    }
}

/// The literals `true` and `false` are read as the booleans they name,
/// whatever stands behind them, and all of that remains.
pub proof fn lemma_bool_literals(rest: Seq<char>)
    ensures
        bool_rule(word_true() + rest) == Ok::<_, crate::value::Failure>(
            (rest, JsonModel::Boolean(true)),
        ),
        bool_rule(word_false() + rest) == Ok::<_, crate::value::Failure>(
            (rest, JsonModel::Boolean(false)),
        ),
        value_rule(word_true() + rest) == bool_rule(word_true() + rest),
        value_rule(word_false() + rest) == bool_rule(word_false() + rest),
{
    let yes = word_true() + rest;
    let no = word_false() + rest;
    assert(word_true().is_prefix_of(yes));
    assert(yes.skip(4) =~= rest);
    assert(word_false().is_prefix_of(no));
    assert(!word_true().is_prefix_of(no)) by {
        if word_true().is_prefix_of(no) {
            assert(no.subrange(0, 4)[0] == 't');
        }
    }
    assert(no.skip(5) =~= rest);
    assert(yes[0] == 't');
    assert(no[0] == 'f');
    assert(leading_digits(after_sign(yes)) == 0);
    assert(leading_digits(after_sign(no)) == 0);
}

/// The literal `null` is read as null, whatever stands behind it, and all
/// of that remains.
pub proof fn lemma_null_literal(rest: Seq<char>)
    ensures
        null_rule(word_null() + rest) == Ok::<_, crate::value::Failure>((rest, JsonModel::Null)),
        value_rule(word_null() + rest) == null_rule(word_null() + rest),
{
    let s = word_null() + rest;
    assert(word_null().is_prefix_of(s));
    assert(s.skip(4) =~= rest);
    assert(s[0] == 'n');
    assert(leading_digits(after_sign(s)) == 0);
    assert(!word_true().is_prefix_of(s)) by {
        if word_true().is_prefix_of(s) {
            assert(s.subrange(0, 4)[0] == 't');
        }
    }
    assert(!word_false().is_prefix_of(s)) by {
        if word_false().is_prefix_of(s) {
            assert(s.subrange(0, 5)[0] == 'f');
        }
    }
}

/// An integer literal, an optional `-` and digits, is read as the number
/// that its digits denote, with the sign it has, provided the digits do
/// not exceed `i32::MAX` and no digit follows them. All that stands
/// behind the literal remains. A value is read from it in the same way
/// unless a point and a digit follow, which make the text a float.
pub proof fn lemma_integer_literals(negative: bool, digits: Seq<char>, rest: Seq<char>)
    requires
        digits.len() > 0,
        all_digits(digits),
        decimal_value(digits) <= i32::MAX,
        rest.len() > 0 ==> !is_digit(rest[0]),
    ensures
        ({
            let number = if negative {
                -(decimal_value(digits) as int)
            } else {
                decimal_value(digits) as int
            };
            let read: Outcome<JsonModel> = Ok(
                (rest, JsonModel::Number(NumberType::Integer(number as i32))),
            );
            &&& integer_rule(sign_text(negative) + digits + rest) == read
            &&& !(starts_with(rest, '.') && rest.len() > 1 && is_digit(rest[1])) ==> value_rule(
                sign_text(negative) + digits + rest,
            ) == read
        }),
{
    let s = sign_text(negative) + digits + rest;
    let unsigned = digits + rest;
    lemma_leading_digits_of_run(digits, rest);
    assert(is_digit(digits[0]));
    assert(unsigned[0] == digits[0]);
    if negative {
        assert(s[0] == '-');
        assert(s.skip(1) =~= unsigned);
    } else {
        assert(s =~= unsigned);
        assert(s[0] != '-');
    }
    assert(after_sign(s) == unsigned);
    let n = digits.len() as int;
    assert(unsigned.take(n) =~= digits);
    assert(unsigned.skip(n) =~= rest);
    assert(s[0] != '"');
    let point = unsigned.skip(n);
    if !(starts_with(rest, '.') && rest.len() > 1 && is_digit(rest[1])) {
        if starts_with(point, '.') {
            assert(point.skip(1) =~= rest.skip(1));
            assert(leading_digits(point.skip(1)) == 0);
        }
        assert(float_rule(s) is Err);
    }
}

/// A float literal, an optional `-`, digits, a point and digits, is read
/// as the float that the literal denotes, provided no digit follows it.
/// All that stands behind the literal remains, and a value is read from
/// it in the same way.
pub proof fn lemma_float_literals(
    negative: bool,
    whole: Seq<char>,
    fraction: Seq<char>,
    rest: Seq<char>,
)
    requires
        whole.len() > 0,
        all_digits(whole),
        fraction.len() > 0,
        all_digits(fraction),
        rest.len() > 0 ==> !is_digit(rest[0]),
    ensures
        ({
            let literal = sign_text(negative) + whole + seq!['.'] + fraction;
            let read: Outcome<JsonModel> = Ok(
                (rest, JsonModel::Number(NumberType::Float(float_literal_bits(literal)))),
            );
            &&& is_float_literal(literal)
            &&& float_rule(literal + rest) == read
            &&& value_rule(literal + rest) == read
        }),
{
    let literal = sign_text(negative) + whole + seq!['.'] + fraction;
    let s = literal + rest;
    let unsigned = whole + (seq!['.'] + (fraction + rest));
    assert(is_digit(whole[0]));
    assert(unsigned[0] == whole[0]);
    if negative {
        assert(s[0] == '-');
        assert(s.skip(1) =~= unsigned);
    } else {
        assert(s =~= unsigned);
        assert(s[0] != '-');
    }
    assert(after_sign(s) == unsigned);
    assert(!is_digit('.'));
    lemma_leading_digits_of_run(whole, seq!['.'] + (fraction + rest));
    let n = whole.len() as int;
    let point = unsigned.skip(n);
    assert(point =~= seq!['.'] + (fraction + rest));
    assert(point[0] == '.');
    assert(point.skip(1) =~= fraction + rest);
    lemma_leading_digits_of_run(fraction, rest);
    let len = literal.len() as int;
    assert(float_literal_len(s) == Ok::<nat, crate::value::Failure>(len as nat));
    assert(s.take(len) =~= literal);
    assert(s.skip(len) =~= rest);
    crate::grammar::lemma_float_literal_alone(s);
    assert(s[0] != '"');
}

/// Parsing never goes back: where a value is recognized, what remains is
/// a rest of the text and shorter than it. Reading on from what remains
/// therefore never meets text that was read before.
pub proof fn lemma_value_consumes(s: Seq<char>)
    ensures
        consumes(value_rule(s), s),
    decreases s.len(), 1int,
{
    lemma_string_consumes(s);
    lemma_float_consumes(s);
    lemma_integer_consumes(s);
    lemma_literal_consumes(s);
    lemma_array_consumes(s);
    lemma_object_consumes(s);
}

/// Where a key with its value is recognized, what remains is a rest of the
/// text and shorter than it.
pub proof fn lemma_key_value_consumes(s: Seq<char>)
    ensures
        consumes(key_value_rule(s), s),
    decreases s.len(), 2int,
{
    lemma_string_consumes(s);
    if key_value_rule(s) is Ok {
        let colon = string_token(s)->Ok_0.0;
        let start = skip_spaces(colon.skip(1));
        lemma_skip_is_rest(colon, 1);
        lemma_skip_spaces_is_rest(colon.skip(1));
        lemma_value_consumes(start);
        let rest = key_value_rule(s)->Ok_0.0;
        lemma_rest_of_rest(rest, start, colon.skip(1));
        lemma_rest_of_rest(rest, colon.skip(1), colon);
        lemma_rest_of_rest(rest, colon, s);
    }
}

/// What a list of values leaves is a rest of the text.
pub proof fn lemma_elements_leave_rest(s: Seq<char>)
    ensures
        is_rest_of(elements_rule(s).1, s),
    decreases s.len(), 2int,
{
    lemma_value_consumes(s);
    match value_rule(s) {
        Err(_) => {
            assert(s.skip(0) =~= s);
        },
        Ok((rest, _)) => {
            lemma_more_elements_leave_rest(rest);
            lemma_rest_of_rest(more_elements(rest).1, rest, s);
        },
    }
}

/// What the values behind the first leave is a rest of the text.
pub proof fn lemma_more_elements_leave_rest(s: Seq<char>)
    ensures
        is_rest_of(more_elements(s).1, s),
    decreases s.len(), 0int,
{
    assert(s.skip(0) =~= s);
    if starts_with(s, ',') {
        let start = skip_spaces(s.skip(1));
        lemma_skip_is_rest(s, 1);
        lemma_skip_spaces_is_rest(s.skip(1));
        lemma_value_consumes(start);
        match value_rule(start) {
            Err(_) => {},
            Ok((rest, _)) => {
                lemma_rest_of_rest(rest, start, s.skip(1));
                lemma_rest_of_rest(rest, s.skip(1), s);
                lemma_more_elements_leave_rest(rest);
                lemma_rest_of_rest(more_elements(rest).1, rest, s);
            },
        }
    }
}

/// Where an array is recognized, what remains is a rest of the text and
/// shorter than it.
pub proof fn lemma_array_consumes(s: Seq<char>)
    ensures
        consumes(array_rule(s), s),
    decreases s.len(), 0int,
{
    if array_rule(s) is Ok {
        let start = skip_spaces(s.skip(1));
        lemma_skip_is_rest(s, 1);
        lemma_skip_spaces_is_rest(s.skip(1));
        lemma_elements_leave_rest(start);
        let behind = elements_rule(start).1;
        let closing = skip_spaces(behind);
        lemma_skip_spaces_is_rest(behind);
        lemma_skip_is_rest(closing, 1);
        let rest = closing.skip(1);
        lemma_rest_of_rest(rest, closing, behind);
        lemma_rest_of_rest(rest, behind, start);
        lemma_rest_of_rest(rest, start, s.skip(1));
        lemma_rest_of_rest(rest, s.skip(1), s);
    }
}

/// What a list of members leaves is a rest of the text.
pub proof fn lemma_members_leave_rest(s: Seq<char>)
    ensures
        is_rest_of(members_rule(s).1, s),
    decreases s.len(), 3int,
{
    lemma_key_value_consumes(s);
    match key_value_rule(s) {
        Err(_) => {
            assert(s.skip(0) =~= s);
        },
        Ok((rest, _)) => {
            lemma_more_members_leave_rest(rest);
            lemma_rest_of_rest(more_members(rest).1, rest, s);
        },
    }
}

/// What the members behind the first leave is a rest of the text.
pub proof fn lemma_more_members_leave_rest(s: Seq<char>)
    ensures
        is_rest_of(more_members(s).1, s),
    decreases s.len(), 0int,
{
    assert(s.skip(0) =~= s);
    if starts_with(s, ',') {
        let start = skip_spaces(s.skip(1));
        lemma_skip_is_rest(s, 1);
        lemma_skip_spaces_is_rest(s.skip(1));
        lemma_key_value_consumes(start);
        match key_value_rule(start) {
            Err(_) => {},
            Ok((rest, _)) => {
                lemma_rest_of_rest(rest, start, s.skip(1));
                lemma_rest_of_rest(rest, s.skip(1), s);
                lemma_more_members_leave_rest(rest);
                lemma_rest_of_rest(more_members(rest).1, rest, s);
            },
        }
    }
}

/// Where an object is recognized, what remains is a rest of the text and
/// shorter than it.
pub proof fn lemma_object_consumes(s: Seq<char>)
    ensures
        consumes(object_rule(s), s),
    decreases s.len(), 0int,
{
    if object_rule(s) is Ok {
        let start = skip_spaces(s.skip(1));
        lemma_skip_is_rest(s, 1);
        lemma_skip_spaces_is_rest(s.skip(1));
        lemma_members_leave_rest(start);
        let behind = members_rule(start).1;
        let closing = skip_spaces(behind);
        lemma_skip_spaces_is_rest(behind);
        lemma_skip_is_rest(closing, 1);
        let rest = closing.skip(1);
        lemma_rest_of_rest(rest, closing, behind);
        lemma_rest_of_rest(rest, behind, start);
        lemma_rest_of_rest(rest, start, s.skip(1));
        lemma_rest_of_rest(rest, s.skip(1), s);
    }
}

} // verus!
