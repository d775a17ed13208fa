//! A rule's outcome depends on what it read, and on little of what
//! follows.
//!
//! Where a rule succeeds on a text, it succeeds in the same way on every
//! text that starts with the characters it read, as long as the first
//! character behind them cannot continue a number or a list.

use vstd::prelude::*;
use crate::grammar::{
    after_sign, array_rule, bool_rule, elements_rule, float_literal_len, float_rule,
    integer_rule, is_digit, is_space, key_value_rule, leading_digits, members_rule,
    more_elements, more_members, null_rule, object_rule, quote_free_len, skip_spaces,
    starts_with, string_rule, string_token, value_rule, word_true, Outcome,
};
use crate::laws::{
    lemma_elements_leave_rest, lemma_key_value_consumes, lemma_members_leave_rest,
    lemma_more_elements_leave_rest, lemma_more_members_leave_rest, lemma_string_consumes,
    lemma_value_consumes,
};
use crate::value::Failure;

verus! {

/// How many whitespace characters stand at the front of `s`.
pub open spec fn leading_spaces(s: Seq<char>) -> int {
    s.len() - skip_spaces(s).len()
}

/// The whitespace at the front of a text is a run of whitespace
/// characters, and what stands behind the run is no whitespace.
pub proof fn lemma_spaces_run(s: Seq<char>)
    ensures
        0 <= leading_spaces(s) <= s.len(),
        skip_spaces(s) == s.skip(leading_spaces(s)),
        forall|i: int| 0 <= i < leading_spaces(s) ==> is_space(#[trigger] s[i]),
        leading_spaces(s) < s.len() ==> !is_space(s[leading_spaces(s)]),
    decreases s.len(),
{
    if s.len() > 0 && is_space(s[0]) {
        let behind = s.skip(1);
        lemma_spaces_run(behind);
        let k = leading_spaces(behind);
        assert(behind.skip(k) =~= s.skip(k + 1));
        assert forall|i: int| 0 <= i < k + 1 implies is_space(#[trigger] s[i]) by {
            if i > 0 {
                assert(s[i] == behind[i - 1]);
            }
        }
        if k + 1 < s.len() {
            assert(s[k + 1] == behind[k]);
        }
    } else {
        assert(s.skip(0) =~= s);
    }
}

/// A run of `k` whitespace characters that ends the text, or that
/// something else follows, is the whitespace at the front of the text.
pub proof fn lemma_spaces_run_is(s: Seq<char>, k: int)
    requires
        0 <= k <= s.len(),
        forall|i: int| 0 <= i < k ==> is_space(#[trigger] s[i]),
        k < s.len() ==> !is_space(s[k]),
    ensures
        skip_spaces(s) == s.skip(k),
        leading_spaces(s) == k,
    decreases k,
{
    if k > 0 {
        let behind = s.skip(1);
        assert(is_space(s[0]));
        assert forall|i: int| 0 <= i < k - 1 implies is_space(#[trigger] behind[i]) by {
            assert(behind[i] == s[i + 1]);
        }
        lemma_spaces_run_is(behind, k - 1);
        assert(behind.skip(k - 1) =~= s.skip(k));
    } else {
        assert(s.skip(0) =~= s);
    }
}

/// The digits at the front of a text are a run of digits, and what stands
/// behind the run is no digit.
pub proof fn lemma_digits_run(s: Seq<char>)
    ensures
        leading_digits(s) <= s.len(),
        forall|i: int| 0 <= i < leading_digits(s) ==> is_digit(#[trigger] s[i]),
        leading_digits(s) < s.len() ==> !is_digit(s[leading_digits(s) as int]),
    decreases s.len(),
{
    if s.len() > 0 && is_digit(s[0]) {
        let behind = s.skip(1);
        lemma_digits_run(behind);
        let k = leading_digits(behind) as int;
        assert forall|i: int| 0 <= i < k + 1 implies is_digit(#[trigger] s[i]) by {
            if i > 0 {
                assert(s[i] == behind[i - 1]);
            }
        }
        if k + 1 < s.len() {
            assert(s[k + 1] == behind[k]);
        }
    }
}

/// A run of `k` digits that ends the text, or that something else
/// follows, is the digits at the front of the text.
pub proof fn lemma_digits_run_is(s: Seq<char>, k: int)
    requires
        0 <= k <= s.len(),
        forall|i: int| 0 <= i < k ==> is_digit(#[trigger] s[i]),
        k < s.len() ==> !is_digit(s[k]),
    ensures
        leading_digits(s) == k,
    decreases k,
{
    if k > 0 {
        let behind = s.skip(1);
        assert(is_digit(s[0]));
        assert forall|i: int| 0 <= i < k - 1 implies is_digit(#[trigger] behind[i]) by {
            assert(behind[i] == s[i + 1]);
        }
        if k - 1 < behind.len() {
            assert(behind[k - 1] == s[k]);
        }
        lemma_digits_run_is(behind, k - 1);
    }
}

/// The characters before the first `"` of a text hold no `"`, and the
/// first `"`, if there is one, follows them.
pub proof fn lemma_quote_run(s: Seq<char>)
    ensures
        quote_free_len(s) <= s.len(),
        forall|i: int| 0 <= i < quote_free_len(s) ==> #[trigger] s[i] != '"',
        quote_free_len(s) < s.len() ==> s[quote_free_len(s) as int] == '"',
    decreases s.len(),
{
    if s.len() > 0 && s[0] != '"' {
        let behind = s.skip(1);
        lemma_quote_run(behind);
        let k = quote_free_len(behind) as int;
        assert forall|i: int| 0 <= i < k + 1 implies #[trigger] s[i] != '"' by {
            if i > 0 {
                assert(s[i] == behind[i - 1]);
            }
        }
        if k + 1 < s.len() {
            assert(s[k + 1] == behind[k]);
        }
    }
}

/// A run of `k` characters other than `"` that a `"` follows is what
/// stands before the first `"` of the text.
pub proof fn lemma_quote_run_is(s: Seq<char>, k: int)
    requires
        0 <= k < s.len(),
        forall|i: int| 0 <= i < k ==> #[trigger] s[i] != '"',
        s[k] == '"',
    ensures
        quote_free_len(s) == k,
    decreases k,
{
    if k > 0 {
        let behind = s.skip(1);
        assert(s[0] != '"');
        assert forall|i: int| 0 <= i < k - 1 implies #[trigger] behind[i] != '"' by {
            assert(behind[i] == s[i + 1]);
        }
        assert(behind[k - 1] == s[k]);
        lemma_quote_run_is(behind, k - 1);
    }
}

/// The characters that were read when `rest` was left of `s`, followed by
/// `tail` in place of `rest`.
pub open spec fn with_tail(s: Seq<char>, rest: Seq<char>, tail: Seq<char>) -> Seq<char> {
    s.take(s.len() - rest.len()) + tail
}

/// Whether a value can end in front of `tail`: the text ends there, or
/// goes on with whitespace, a `,`, a `]` or a `}`.
pub open spec fn ends_value(tail: Seq<char>) -> bool {
    tail.len() == 0 || is_space(tail[0]) || tail[0] == ',' || tail[0] == ']' || tail[0] == '}'
}

/// Whether a list can end in front of `tail`: the text ends there, or
/// goes on with whitespace, a `]` or a `}`.
pub open spec fn ends_list(tail: Seq<char>) -> bool {
    tail.len() == 0 || is_space(tail[0]) || tail[0] == ']' || tail[0] == '}'
}

/// What a rule that succeeded on `s` yields on the characters it read
/// followed by `tail`: the same, with `tail` remaining.
pub open spec fn same_with_tail<T>(
    on_s: Outcome<T>,
    on_tailed: Outcome<T>,
    tail: Seq<char>,
) -> bool {
    on_s matches Ok((_, found)) && on_tailed == Ok::<(Seq<char>, T), Failure>((tail, found))
}

/// The text on which a rule that succeeded on `s` is tried again.
pub open spec fn tailed<T>(s: Seq<char>, on_s: Outcome<T>, tail: Seq<char>) -> Seq<char> {
    with_tail(s, on_s->Ok_0.0, tail)
}

/// A string is read in the same way whatever follows its closing quote.
pub proof fn lemma_string_tail(s: Seq<char>, tail: Seq<char>)
    requires
        string_token(s) is Ok,
    ensures
        same_with_tail(string_token(s), string_token(tailed(s, string_token(s), tail)), tail),
        same_with_tail(string_rule(s), string_rule(tailed(s, string_rule(s), tail)), tail),
{
    let body = s.skip(1);
    let q = quote_free_len(body) as int;
    lemma_quote_run(body);
    let changed = tailed(s, string_token(s), tail);
    assert(changed =~= s.take(q + 2) + tail);
    let changed_body = changed.skip(1);
    assert forall|i: int| 0 <= i < q implies #[trigger] changed_body[i] != '"' by {
        assert(changed_body[i] == body[i]);
    }
    assert(changed_body[q] == body[q]);
    lemma_quote_run_is(changed_body, q);
    assert(changed_body.skip(q + 1) =~= tail);
    assert(changed_body.take(q) =~= body.take(q));
}

/// An integer is read in the same way whatever follows its digits, as
/// long as that is no digit.
pub proof fn lemma_integer_tail(s: Seq<char>, tail: Seq<char>)
    requires
        integer_rule(s) is Ok,
        tail.len() > 0 ==> !is_digit(tail[0]),
    ensures
        same_with_tail(integer_rule(s), integer_rule(tailed(s, integer_rule(s), tail)), tail),
{
    let digits = after_sign(s);
    let n = leading_digits(digits) as int;
    lemma_digits_run(digits);
    let sign: int = if starts_with(s, '-') {
        1
    } else {
        0
    };
    let changed = tailed(s, integer_rule(s), tail);
    assert(changed =~= s.take(sign + n) + tail);
    assert(changed[0] == s[0]);
    let changed_digits = after_sign(changed);
    assert(changed_digits =~= digits.take(n) + tail);
    assert forall|i: int| 0 <= i < n implies is_digit(#[trigger] changed_digits[i]) by {
        assert(changed_digits[i] == digits[i]);
    }
    lemma_digits_run_is(changed_digits, n);
    assert(changed_digits.take(n) =~= digits.take(n));
    assert(changed_digits.skip(n) =~= tail);
}

/// A float is read in the same way whatever follows its digits, as long
/// as that is no digit.
pub proof fn lemma_float_tail(s: Seq<char>, tail: Seq<char>)
    requires
        float_rule(s) is Ok,
        tail.len() > 0 ==> !is_digit(tail[0]),
    ensures
        same_with_tail(float_rule(s), float_rule(tailed(s, float_rule(s), tail)), tail),
{
    let whole = after_sign(s);
    let n = leading_digits(whole) as int;
    let point = whole.skip(n);
    let fraction = point.skip(1);
    let m = leading_digits(fraction) as int;
    lemma_digits_run(whole);
    lemma_digits_run(fraction);
    let sign: int = if starts_with(s, '-') {
        1
    } else {
        0
    };
    let len = sign + n + 1 + m;
    assert(float_literal_len(s) == Ok::<nat, Failure>(len as nat));
    let changed = tailed(s, float_rule(s), tail);
    assert(changed =~= s.take(len) + tail);
    assert(changed[0] == s[0]);
    let changed_whole = after_sign(changed);
    assert(changed_whole =~= whole.take(n + 1 + m) + tail);
    assert forall|i: int| 0 <= i < n implies is_digit(#[trigger] changed_whole[i]) by {
        assert(changed_whole[i] == whole[i]);
    }
    assert(changed_whole[n] == whole[n]);
    assert(whole[n] == point[0]);
    lemma_digits_run_is(changed_whole, n);
    let changed_point = changed_whole.skip(n);
    assert(changed_point[0] == '.');
    let changed_fraction = changed_point.skip(1);
    assert(changed_fraction =~= fraction.take(m) + tail);
    assert forall|i: int| 0 <= i < m implies is_digit(#[trigger] changed_fraction[i]) by {
        assert(changed_fraction[i] == fraction[i]);
    }
    lemma_digits_run_is(changed_fraction, m);
    assert(float_literal_len(changed) == Ok::<nat, Failure>(len as nat));
    assert(changed.take(len) =~= s.take(len));
    assert(changed.skip(len) =~= tail);
}

/// Text in which an integer is read and no float stays so whatever
/// follows the digits, as long as that is neither a digit nor a point.
pub proof fn lemma_no_float_tail(s: Seq<char>, tail: Seq<char>)
    requires
        integer_rule(s) is Ok,
        tail.len() > 0 ==> !is_digit(tail[0]) && tail[0] != '.',
    ensures
        float_rule(tailed(s, integer_rule(s), tail)) is Err,
{
    let digits = after_sign(s);
    let n = leading_digits(digits) as int;
    lemma_digits_run(digits);
    let sign: int = if starts_with(s, '-') {
        1
    } else {
        0
    };
    let changed = tailed(s, integer_rule(s), tail);
    assert(changed =~= s.take(sign + n) + tail);
    assert(changed[0] == s[0]);
    let changed_digits = after_sign(changed);
    assert(changed_digits =~= digits.take(n) + tail);
    assert forall|i: int| 0 <= i < n implies is_digit(#[trigger] changed_digits[i]) by {
        assert(changed_digits[i] == digits[i]);
    }
    lemma_digits_run_is(changed_digits, n);
    assert(changed_digits.skip(n) =~= tail);
}

/// A literal is read in the same way whatever follows it.
pub proof fn lemma_literal_tail(s: Seq<char>, tail: Seq<char>)
    ensures
        bool_rule(s) is Ok ==> same_with_tail(
            bool_rule(s),
            bool_rule(tailed(s, bool_rule(s), tail)),
            tail,
        ),
        null_rule(s) is Ok ==> same_with_tail(
            null_rule(s),
            null_rule(tailed(s, null_rule(s), tail)),
            tail,
        ),
{
    if bool_rule(s) is Ok {
        let changed = tailed(s, bool_rule(s), tail);
        if word_true().is_prefix_of(s) {
            assert(changed =~= s.take(4) + tail);
            assert(changed.subrange(0, 4) =~= s.subrange(0, 4));
            assert(changed.skip(4) =~= tail);
        } else {
            assert(changed =~= s.take(5) + tail);
            assert(changed.subrange(0, 5) =~= s.subrange(0, 5));
            assert(changed.skip(5) =~= tail);
            assert(!word_true().is_prefix_of(changed)) by {
                assert(s.subrange(0, 5)[0] == 'f');
                if word_true().is_prefix_of(changed) {
                    assert(changed.subrange(0, 4)[0] == 't');
                }
            }
        }
    }
    if null_rule(s) is Ok {
        let changed = tailed(s, null_rule(s), tail);
        assert(changed =~= s.take(4) + tail);
        assert(changed.subrange(0, 4) =~= s.subrange(0, 4));
        assert(changed.skip(4) =~= tail);
    }
}

/// What each kind of value starts with. Text that starts with none of
/// these characters holds no value at its front.
pub proof fn lemma_first_character(s: Seq<char>)
    ensures
        string_rule(s) is Ok ==> starts_with(s, '"'),
        float_rule(s) is Ok ==> s.len() > 0 && (s[0] == '-' || is_digit(s[0])),
        integer_rule(s) is Ok ==> s.len() > 0 && (s[0] == '-' || is_digit(s[0])),
        bool_rule(s) is Ok ==> s.len() > 0 && (s[0] == 't' || s[0] == 'f'),
        null_rule(s) is Ok ==> starts_with(s, 'n'),
        array_rule(s) is Ok ==> starts_with(s, '['),
        object_rule(s) is Ok ==> starts_with(s, '{'),
        key_value_rule(s) is Ok ==> starts_with(s, '"'),
{
    if float_rule(s) is Ok || integer_rule(s) is Ok {
        let digits = after_sign(s);
        assert(leading_digits(digits) > 0);
        assert(is_digit(digits[0]));
    }
    if bool_rule(s) is Ok {
        if word_true().is_prefix_of(s) {
            assert(s.subrange(0, 4)[0] == 't');
        } else {
            assert(s.subrange(0, 5)[0] == 'f');
        }
    }
    if null_rule(s) is Ok {
        assert(s.subrange(0, 4)[0] == 'n');
    }
}

/// Where a value or a list can end, no value and no member starts.
pub proof fn lemma_nothing_starts_at_an_end(tail: Seq<char>)
    requires
        ends_value(tail),
    ensures
        value_rule(tail) is Err,
        key_value_rule(tail) is Err,
{
    lemma_first_character(tail);
}

/// A value is read in the same way whatever follows it, as long as a
/// value can end there.
pub proof fn lemma_value_tail(s: Seq<char>, tail: Seq<char>)
    requires
        value_rule(s) is Ok,
        ends_value(tail),
    ensures
        same_with_tail(value_rule(s), value_rule(tailed(s, value_rule(s), tail)), tail),
    decreases s.len(), 1int,
{
    let changed = tailed(s, value_rule(s), tail);
    lemma_value_consumes(s);
    assert(changed[0] == s[0]);
    lemma_first_character(s);
    lemma_first_character(changed);
    if string_rule(s) is Ok {
        lemma_string_tail(s, tail);
    } else if float_rule(s) is Ok {
        lemma_float_tail(s, tail);
    } else if integer_rule(s) is Ok {
        lemma_no_float_tail(s, tail);
        lemma_integer_tail(s, tail);
    } else if bool_rule(s) is Ok {
        lemma_literal_tail(s, tail);
    } else if array_rule(s) is Ok {
        lemma_array_tail(s, tail);
    } else if object_rule(s) is Ok {
        lemma_object_tail(s, tail);
    } else {
        lemma_literal_tail(s, tail);
    }
}

/// A key with its value is read in the same way whatever follows it, as
/// long as a value can end there.
pub proof fn lemma_key_value_tail(s: Seq<char>, tail: Seq<char>)
    requires
        key_value_rule(s) is Ok,
        ends_value(tail),
    ensures
        same_with_tail(
            key_value_rule(s),
            key_value_rule(tailed(s, key_value_rule(s), tail)),
            tail,
        ),
    decreases s.len(), 2int,
{
    let colon = string_token(s)->Ok_0.0;
    lemma_string_consumes(s);
    let j = s.len() - colon.len();
    let behind_colon = colon.skip(1);
    lemma_spaces_run(behind_colon);
    let k = leading_spaces(behind_colon);
    let start = skip_spaces(behind_colon);
    let rest = value_rule(start)->Ok_0.0;
    lemma_value_consumes(start);
    let m = start.len() - rest.len();
    let n = j + 1 + k + m;
    let changed = tailed(s, key_value_rule(s), tail);
    assert(rest =~= s.skip(n));
    assert(changed =~= s.take(n) + tail);
    let colon_tail = colon.take(1 + k + m) + tail;
    assert(changed =~= s.take(j) + colon_tail);
    lemma_string_tail(s, colon_tail);
    assert(colon_tail[0] == colon[0]);
    let changed_behind = colon_tail.skip(1);
    assert(changed_behind =~= behind_colon.take(k + m) + tail);
    assert forall|i: int| 0 <= i < k implies is_space(#[trigger] changed_behind[i]) by {
        assert(changed_behind[i] == behind_colon[i]);
    }
    assert(changed_behind[k] == behind_colon[k]);
    lemma_spaces_run_is(changed_behind, k);
    let changed_start = changed_behind.skip(k);
    assert(changed_start =~= start.take(m) + tail);
    lemma_value_tail(start, tail);
}

/// A list of values is read in the same way whatever follows it, as long as
/// a list can end there.
pub proof fn lemma_elements_tail(s: Seq<char>, tail: Seq<char>)
    requires
        ends_list(tail),
    ensures
        elements_rule(with_tail(s, elements_rule(s).1, tail)) == (elements_rule(s).0, tail),
    decreases s.len(), 3int,
{
    lemma_elements_leave_rest(s);
    let changed = with_tail(s, elements_rule(s).1, tail);
    match value_rule(s) {
        Err(_) => {
            assert(changed =~= tail);
            lemma_nothing_starts_at_an_end(tail);
        },
        Ok((rest, first)) => {
            lemma_value_consumes(s);
            lemma_more_elements_leave_rest(rest);
            let end = more_elements(rest).1;
            let m = s.len() - rest.len();
            let j = rest.len() - end.len();
            let item_tail = rest.take(j) + tail;
            assert(changed =~= s.take(m) + item_tail);
            if j > 0 {
                assert(starts_with(rest, ','));
                assert(item_tail[0] == ',');
            } else {
                assert(item_tail =~= tail);
            }
            lemma_value_tail(s, item_tail);
            lemma_more_elements_tail(rest, tail);
        },
    }
}

/// The values behind the first are read in the same way whatever follows
/// them, as long as a list can end there.
pub proof fn lemma_more_elements_tail(s: Seq<char>, tail: Seq<char>)
    requires
        ends_list(tail),
    ensures
        more_elements(with_tail(s, more_elements(s).1, tail)) == (more_elements(s).0, tail),
    decreases s.len(), 0int,
{
    lemma_more_elements_leave_rest(s);
    let changed = with_tail(s, more_elements(s).1, tail);
    if !starts_with(s, ',') {
        assert(changed =~= tail);
    } else {
        let behind_comma = s.skip(1);
        lemma_spaces_run(behind_comma);
        let k = leading_spaces(behind_comma);
        let start = skip_spaces(behind_comma);
        match value_rule(start) {
            Err(_) => {
                assert(changed =~= tail);
            },
            Ok((rest, next)) => {
                lemma_value_consumes(start);
                lemma_more_elements_leave_rest(rest);
                let end = more_elements(rest).1;
                let m = start.len() - rest.len();
                let j = rest.len() - end.len();
                let n = 1 + k + m + j;
                assert(rest =~= s.skip(1 + k + m));
                assert(changed =~= s.take(n) + tail);
                assert(changed[0] == ',');
                let changed_behind = changed.skip(1);
                assert(changed_behind =~= behind_comma.take(k + m + j) + tail);
                assert forall|i: int| 0 <= i < k implies is_space(
                    #[trigger] changed_behind[i],
                ) by {
                    assert(changed_behind[i] == behind_comma[i]);
                }
                assert(changed_behind[k] == behind_comma[k]);
                lemma_spaces_run_is(changed_behind, k);
                let changed_start = changed_behind.skip(k);
                let item_tail = rest.take(j) + tail;
                assert(changed_start =~= start.take(m) + item_tail);
                if j > 0 {
                    assert(starts_with(rest, ','));
                    assert(item_tail[0] == ',');
                } else {
                    assert(item_tail =~= tail);
                }
                lemma_value_tail(start, item_tail);
                lemma_more_elements_tail(rest, tail);
            },
        }
    }
}

/// An array is read in the same way whatever follows its closing `]`.
pub proof fn lemma_array_tail(s: Seq<char>, tail: Seq<char>)
    requires
        array_rule(s) is Ok,
    ensures
        same_with_tail(array_rule(s), array_rule(tailed(s, array_rule(s), tail)), tail),
    decreases s.len(), 0int,
{
    let inner = s.skip(1);
    lemma_spaces_run(inner);
    let k = leading_spaces(inner);
    let start = skip_spaces(inner);
    let behind = elements_rule(start).1;
    lemma_elements_leave_rest(start);
    let e = start.len() - behind.len();
    lemma_spaces_run(behind);
    let c = leading_spaces(behind);
    let closing = skip_spaces(behind);
    assert(closing[0] == ']');
    assert(behind[c] == closing[0]);
    let n = 1 + k + e + c + 1;
    let changed = tailed(s, array_rule(s), tail);
    assert(closing.skip(1) =~= s.skip(n));
    assert(changed =~= s.take(n) + tail);
    assert(changed[0] == s[0]);
    let changed_inner = changed.skip(1);
    assert(changed_inner =~= inner.take(k + e + c + 1) + tail);
    assert forall|i: int| 0 <= i < k implies is_space(#[trigger] changed_inner[i]) by {
        assert(changed_inner[i] == inner[i]);
    }
    assert(changed_inner[k] == inner[k]);
    lemma_spaces_run_is(changed_inner, k);
    let changed_start = changed_inner.skip(k);
    let list_tail = behind.take(c + 1) + tail;
    assert(changed_start =~= start.take(e) + list_tail);
    assert(list_tail[0] == behind[0]);
    if c > 0 {
        assert(is_space(behind[0]));
    }
    lemma_elements_tail(start, list_tail);
    assert forall|i: int| 0 <= i < c implies is_space(#[trigger] list_tail[i]) by {
        assert(list_tail[i] == behind[i]);
    }
    assert(list_tail[c] == behind[c]);
    lemma_spaces_run_is(list_tail, c);
    let changed_closing = list_tail.skip(c);
    assert(changed_closing[0] == ']');
    assert(changed_closing.skip(1) =~= tail);
}

/// A list of members is read in the same way whatever follows it, as long as
/// a list can end there.
pub proof fn lemma_members_tail(s: Seq<char>, tail: Seq<char>)
    requires
        ends_list(tail),
    ensures
        members_rule(with_tail(s, members_rule(s).1, tail)) == (members_rule(s).0, tail),
    decreases s.len(), 3int,
{
    lemma_members_leave_rest(s);
    let changed = with_tail(s, members_rule(s).1, tail);
    match key_value_rule(s) {
        Err(_) => {
            assert(changed =~= tail);
            lemma_nothing_starts_at_an_end(tail);
        },
        Ok((rest, first)) => {
            lemma_key_value_consumes(s);
            lemma_more_members_leave_rest(rest);
            let end = more_members(rest).1;
            let m = s.len() - rest.len();
            let j = rest.len() - end.len();
            let item_tail = rest.take(j) + tail;
            assert(changed =~= s.take(m) + item_tail);
            if j > 0 {
                assert(starts_with(rest, ','));
                assert(item_tail[0] == ',');
            } else {
                assert(item_tail =~= tail);
            }
            lemma_key_value_tail(s, item_tail);
            lemma_more_members_tail(rest, tail);
        },
    }
}

/// The members behind the first are read in the same way whatever follows
/// them, as long as a list can end there.
pub proof fn lemma_more_members_tail(s: Seq<char>, tail: Seq<char>)
    requires
        ends_list(tail),
    ensures
        more_members(with_tail(s, more_members(s).1, tail)) == (more_members(s).0, tail),
    decreases s.len(), 0int,
{
    lemma_more_members_leave_rest(s);
    let changed = with_tail(s, more_members(s).1, tail);
    if !starts_with(s, ',') {
        assert(changed =~= tail);
    } else {
        let behind_comma = s.skip(1);
        lemma_spaces_run(behind_comma);
        let k = leading_spaces(behind_comma);
        let start = skip_spaces(behind_comma);
        match key_value_rule(start) {
            Err(_) => {
                assert(changed =~= tail);
            },
            Ok((rest, next)) => {
                lemma_key_value_consumes(start);
                lemma_more_members_leave_rest(rest);
                let end = more_members(rest).1;
                let m = start.len() - rest.len();
                let j = rest.len() - end.len();
                let n = 1 + k + m + j;
                assert(rest =~= s.skip(1 + k + m));
                assert(changed =~= s.take(n) + tail);
                assert(changed[0] == ',');
                let changed_behind = changed.skip(1);
                assert(changed_behind =~= behind_comma.take(k + m + j) + tail);
                assert forall|i: int| 0 <= i < k implies is_space(
                    #[trigger] changed_behind[i],
                ) by {
                    assert(changed_behind[i] == behind_comma[i]);
                }
                assert(changed_behind[k] == behind_comma[k]);
                lemma_spaces_run_is(changed_behind, k);
                let changed_start = changed_behind.skip(k);
                let item_tail = rest.take(j) + tail;
                assert(changed_start =~= start.take(m) + item_tail);
                if j > 0 {
                    assert(starts_with(rest, ','));
                    assert(item_tail[0] == ',');
                } else {
                    assert(item_tail =~= tail);
                }
                lemma_key_value_tail(start, item_tail);
                lemma_more_members_tail(rest, tail);
            },
        }
    }
}

/// An object is read in the same way whatever follows its closing `}`.
pub proof fn lemma_object_tail(s: Seq<char>, tail: Seq<char>)
    requires
        object_rule(s) is Ok,
    ensures
        same_with_tail(object_rule(s), object_rule(tailed(s, object_rule(s), tail)), tail),
    decreases s.len(), 0int,
{
    let inner = s.skip(1);
    lemma_spaces_run(inner);
    let k = leading_spaces(inner);
    let start = skip_spaces(inner);
    let behind = members_rule(start).1;
    lemma_members_leave_rest(start);
    let e = start.len() - behind.len();
    lemma_spaces_run(behind);
    let c = leading_spaces(behind);
    let closing = skip_spaces(behind);
    assert(closing[0] == '}');
    assert(behind[c] == closing[0]);
    let n = 1 + k + e + c + 1;
    let changed = tailed(s, object_rule(s), tail);
    assert(closing.skip(1) =~= s.skip(n));
    assert(changed =~= s.take(n) + tail);
    assert(changed[0] == s[0]);
    let changed_inner = changed.skip(1);
    assert(changed_inner =~= inner.take(k + e + c + 1) + tail);
    assert forall|i: int| 0 <= i < k implies is_space(#[trigger] changed_inner[i]) by {
        assert(changed_inner[i] == inner[i]);
    }
    assert(changed_inner[k] == inner[k]);
    lemma_spaces_run_is(changed_inner, k);
    let changed_start = changed_inner.skip(k);
    let list_tail = behind.take(c + 1) + tail;
    assert(changed_start =~= start.take(e) + list_tail);
    assert(list_tail[0] == behind[0]);
    if c > 0 {
        assert(is_space(behind[0]));
    }
    lemma_members_tail(start, list_tail);
    assert forall|i: int| 0 <= i < c implies is_space(#[trigger] list_tail[i]) by {
        assert(list_tail[i] == behind[i]);
    }
    assert(list_tail[c] == behind[c]);
    lemma_spaces_run_is(list_tail, c);
    let changed_closing = list_tail.skip(c);
    assert(changed_closing[0] == '}');
    assert(changed_closing.skip(1) =~= tail);
}

} // verus!
