//! Whitespace where the grammar skips it does not change what is read.
//!
//! The grammar skips whitespace behind `[`, `{`, `,` and `:`, and in front
//! of `]` and `}`. A place of a text at which a rule does so is a pad
//! place of the text; the main result, [`lemma_value_padding`], says that
//! putting any run of spaces and newlines into a pad place of a value
//! leaves the value and the text behind it as they were.
//!
//! Whitespace is not skipped in front of a `,` or a `:`, nor in front of
//! the first value of a text, so those are no pad places.

use vstd::prelude::*;
use crate::grammar::{
    array_rule, elements_rule, is_space, key_value_rule, lemma_quote_free_len,
    lemma_skip_spaces_len, members_rule, more_elements, more_members, object_rule,
    skip_spaces, starts_with, string_token, value_rule,
};
use crate::laws::{
    lemma_elements_leave_rest, lemma_key_value_consumes, lemma_members_leave_rest,
    lemma_more_elements_leave_rest, lemma_more_members_leave_rest, lemma_string_consumes,
    lemma_value_consumes,
};
use crate::locality::{
    leading_spaces, lemma_elements_tail, lemma_first_character, lemma_key_value_tail,
    lemma_members_tail, lemma_spaces_run, lemma_spaces_run_is, lemma_string_tail,
    lemma_value_tail,
};

verus! {

/// Whether every character of `w` is whitespace.
pub open spec fn is_spaces(w: Seq<char>) -> bool {
    forall|i: int| 0 <= i < w.len() ==> is_space(#[trigger] w[i])
}

/// `s` with `w` put in before its character at `p`.
pub open spec fn padded(s: Seq<char>, p: int, w: Seq<char>) -> Seq<char> {
    s.take(p) + w + s.skip(p)
}

/// Whether `p` is a pad place of the value at the front of `s`: a place
/// inside an array or an object at which whitespace is skipped.
pub open spec fn value_pad(s: Seq<char>, p: int) -> bool
    decreases s.len(), 1int,
{
    if array_rule(s) is Ok {
        array_pad(s, p)
    } else if object_rule(s) is Ok {
        object_pad(s, p)
    } else {
        false
    }
}

/// Whether `p` is a pad place of the key with its value at the front of
/// `s`: a place behind the `:`, up to the value, or a pad place of the
/// value.
pub open spec fn key_value_pad(s: Seq<char>, p: int) -> bool
    decreases s.len(), 2int,
{
    match string_token(s) {
        Err(_) => false,
        Ok((colon, _)) => {
            if !starts_with(colon, ':') {
                false
            } else {
                proof {
                    lemma_quote_free_len(s.skip(1));
                    lemma_skip_spaces_len(colon.skip(1));
                }
                let start = skip_spaces(colon.skip(1));
                let behind_colon = s.len() - colon.len() + 1;
                let at_value = behind_colon + leading_spaces(colon.skip(1));
                value_rule(start) is Ok && (behind_colon <= p <= at_value || value_pad(
                    start,
                    p - at_value,
                ))
            }
        },
    }
}

/// Whether `p` is a pad place of the list of values at the front of `s`: a
/// pad place of one of them, or a place behind a `,` of the list, up to
/// what follows the `,`.
pub open spec fn elements_pad(s: Seq<char>, p: int) -> bool
    decreases s.len(), 3int,
{
    match value_rule(s) {
        Err(_) => false,
        Ok((rest, _)) => value_pad(s, p) || (rest.len() < s.len() && more_elements_pad(
            rest,
            p - (s.len() - rest.len()),
        )),
    }
}

/// Whether `p` is a pad place of the values of a list behind its first.
pub open spec fn more_elements_pad(s: Seq<char>, p: int) -> bool
    decreases s.len(), 0int,
{
    if !starts_with(s, ',') {
        false
    } else {
        proof {
            lemma_skip_spaces_len(s.skip(1));
        }
        let start = skip_spaces(s.skip(1));
        let at_item = 1 + leading_spaces(s.skip(1));
        match value_rule(start) {
            Err(_) => false,
            Ok((rest, _)) => 1 <= p <= at_item || value_pad(start, p - at_item) || (rest.len()
                < s.len() && more_elements_pad(rest, p - (s.len() - rest.len()))),
        }
    }
}

/// Whether `p` is a pad place of the array at the front of `s`: a place
/// behind the `[`, up to what follows it, a pad place of the list, or a
/// place behind the list, up to the `]`.
pub open spec fn array_pad(s: Seq<char>, p: int) -> bool
    decreases s.len(), 0int,
{
    if !starts_with(s, '[') {
        false
    } else {
        proof {
            lemma_skip_spaces_len(s.skip(1));
        }
        let start = skip_spaces(s.skip(1));
        let at_list = 1 + leading_spaces(s.skip(1));
        let behind = elements_rule(start).1;
        let behind_list = s.len() - behind.len();
        array_rule(s) is Ok && (1 <= p <= at_list || elements_pad(start, p - at_list)
            || behind_list <= p <= behind_list + leading_spaces(behind))
    }
}

/// Whether `p` is a pad place of the list of members at the front of `s`: a
/// pad place of one of them, or a place behind a `,` of the list, up to
/// what follows the `,`.
pub open spec fn members_pad(s: Seq<char>, p: int) -> bool
    decreases s.len(), 3int,
{
    match key_value_rule(s) {
        Err(_) => false,
        Ok((rest, _)) => key_value_pad(s, p) || (rest.len() < s.len() && more_members_pad(
            rest,
            p - (s.len() - rest.len()),
        )),
    }
}

/// Whether `p` is a pad place of the members of a list behind its first.
pub open spec fn more_members_pad(s: Seq<char>, p: int) -> bool
    decreases s.len(), 0int,
{
    if !starts_with(s, ',') {
        false
    } else {
        proof {
            lemma_skip_spaces_len(s.skip(1));
        }
        let start = skip_spaces(s.skip(1));
        let at_item = 1 + leading_spaces(s.skip(1));
        match key_value_rule(start) {
            Err(_) => false,
            Ok((rest, _)) => 1 <= p <= at_item || key_value_pad(start, p - at_item) || (rest.len()
                < s.len() && more_members_pad(rest, p - (s.len() - rest.len()))),
        }
    }
}

/// Whether `p` is a pad place of the object at the front of `s`: a place
/// behind the `{`, up to what follows it, a pad place of the list, or a
/// place behind the list, up to the `}`.
pub open spec fn object_pad(s: Seq<char>, p: int) -> bool
    decreases s.len(), 0int,
{
    if !starts_with(s, '{') {
        false
    } else {
        proof {
            lemma_skip_spaces_len(s.skip(1));
        }
        let start = skip_spaces(s.skip(1));
        let at_list = 1 + leading_spaces(s.skip(1));
        let behind = members_rule(start).1;
        let behind_list = s.len() - behind.len();
        object_rule(s) is Ok && (1 <= p <= at_list || members_pad(start, p - at_list)
            || behind_list <= p <= behind_list + leading_spaces(behind))
    }
}

/// The characters of a padded text.
pub proof fn lemma_padded(s: Seq<char>, p: int, w: Seq<char>)
    requires
        0 <= p <= s.len(),
    ensures
        padded(s, p, w).len() == s.len() + w.len(),
        forall|i: int| 0 <= i < p ==> #[trigger] padded(s, p, w)[i] == s[i],
        forall|i: int| p <= i < p + w.len() ==> #[trigger] padded(s, p, w)[i] == w[i - p],
        forall|i: int|
            p + w.len() <= i < s.len() + w.len() ==> #[trigger] padded(s, p, w)[i] == s[i
                - w.len()],
{
}

/// Padding behind the first `j` characters leaves them, and pads what is
/// behind them.
pub proof fn lemma_padded_split(s: Seq<char>, p: int, w: Seq<char>, j: int)
    requires
        0 <= j <= p <= s.len(),
    ensures
        padded(s, p, w) == s.take(j) + padded(s.skip(j), p - j, w),
        padded(s, p, w).skip(j) == padded(s.skip(j), p - j, w),
{
    assert(padded(s, p, w) =~= s.take(j) + padded(s.skip(j), p - j, w));
    assert(padded(s, p, w).skip(j) =~= padded(s.skip(j), p - j, w));
}

/// Whitespace put into the whitespace at the front of a text is skipped
/// with it.
pub proof fn lemma_padding_in_spaces(s: Seq<char>, p: int, w: Seq<char>)
    requires
        0 <= p <= leading_spaces(s),
        is_spaces(w),
    ensures
        skip_spaces(padded(s, p, w)) == skip_spaces(s),
{
    lemma_spaces_run(s);
    lemma_padded(s, p, w);
    let k = leading_spaces(s);
    let changed = padded(s, p, w);
    assert forall|i: int| 0 <= i < k + w.len() implies is_space(#[trigger] changed[i]) by {
        if i < p {
            assert(is_space(s[i]));
        } else if i < p + w.len() {
            assert(is_space(w[i - p]));
        } else {
            assert(is_space(s[i - w.len()]));
        }
    }
    lemma_spaces_run_is(changed, k + w.len());
    assert(changed.skip(k + w.len()) =~= s.skip(k));
}

/// Padding behind the whitespace at the front of a text pads what
/// skipping the whitespace leaves.
pub proof fn lemma_padding_behind_spaces(s: Seq<char>, p: int, w: Seq<char>)
    requires
        leading_spaces(s) < p <= s.len(),
    ensures
        skip_spaces(padded(s, p, w)) == padded(skip_spaces(s), p - leading_spaces(s), w),
{
    lemma_spaces_run(s);
    lemma_padded(s, p, w);
    let k = leading_spaces(s);
    let changed = padded(s, p, w);
    assert forall|i: int| 0 <= i < k implies is_space(#[trigger] changed[i]) by {
        assert(is_space(s[i]));
    }
    lemma_spaces_run_is(changed, k);
    lemma_padded_split(s, p, w, k);
}

/// Whitespace in a pad place of a value does not change what is read: the
/// padded text holds the same value at its front, and the same text
/// remains behind it. A pad place lies behind the first character of the
/// value and before its last.
pub proof fn lemma_value_padding(s: Seq<char>, p: int, w: Seq<char>)
    requires
        value_pad(s, p),
        is_spaces(w),
    ensures
        value_rule(s) is Ok,
        1 <= p < s.len() - value_rule(s)->Ok_0.0.len(),
        value_rule(padded(s, p, w)) == value_rule(s),
    decreases s.len(), 1int,
{
    lemma_first_character(s);
    if array_rule(s) is Ok {
        lemma_array_padding(s, p, w);
    } else {
        lemma_object_padding(s, p, w);
    }
    lemma_padded(s, p, w);
    assert(padded(s, p, w)[0] == s[0]);
    lemma_first_character(padded(s, p, w));
}

/// Whitespace in a pad place of a key with its value does not change what
/// is read.
pub proof fn lemma_key_value_padding(s: Seq<char>, p: int, w: Seq<char>)
    requires
        key_value_pad(s, p),
        is_spaces(w),
    ensures
        key_value_rule(s) is Ok,
        1 <= p < s.len() - key_value_rule(s)->Ok_0.0.len(),
        key_value_rule(padded(s, p, w)) == key_value_rule(s),
    decreases s.len(), 2int,
{
    let colon = string_token(s)->Ok_0.0;
    lemma_string_consumes(s);
    let j = s.len() - colon.len();
    let behind_colon = colon.skip(1);
    lemma_spaces_run(behind_colon);
    let k = leading_spaces(behind_colon);
    let start = skip_spaces(behind_colon);
    lemma_value_consumes(start);
    lemma_key_value_consumes(s);
    if !(j + 1 <= p <= j + 1 + k) {
        lemma_value_padding(start, p - (j + 1 + k), w);
    }
    let changed = padded(s, p, w);
    let changed_colon = padded(colon, p - j, w);
    assert(colon =~= s.skip(j));
    lemma_padded_split(s, p, w, j);
    lemma_padded(colon, p - j, w);
    lemma_string_tail(s, changed_colon);
    assert(changed_colon[0] == ':');
    lemma_padded_split(colon, p - j, w, 1);
    let changed_behind = changed_colon.skip(1);
    if j + 1 <= p <= j + 1 + k {
        lemma_padding_in_spaces(behind_colon, p - j - 1, w);
    } else {
        lemma_padding_behind_spaces(behind_colon, p - j - 1, w);
    }
}

/// Whitespace in a pad place of a list of values does not change what is
/// read.
pub proof fn lemma_elements_padding(s: Seq<char>, p: int, w: Seq<char>)
    requires
        elements_pad(s, p),
        is_spaces(w),
    ensures
        1 <= p < s.len() - elements_rule(s).1.len(),
        elements_rule(padded(s, p, w)) == elements_rule(s),
    decreases s.len(), 3int,
{
    let rest = value_rule(s)->Ok_0.0;
    lemma_value_consumes(s);
    lemma_more_elements_leave_rest(rest);
    let m = s.len() - rest.len();
    if value_pad(s, p) {
        lemma_value_padding(s, p, w);
    } else {
        lemma_more_elements_padding(rest, p - m, w);
        let changed_rest = padded(rest, p - m, w);
        assert(rest =~= s.skip(m));
        lemma_padded_split(s, p, w, m);
        lemma_padded(rest, p - m, w);
        assert(changed_rest[0] == ',');
        lemma_value_tail(s, changed_rest);
    }
}

/// Whitespace in a pad place of the values behind the first does not
/// change what is read.
pub proof fn lemma_more_elements_padding(s: Seq<char>, p: int, w: Seq<char>)
    requires
        more_elements_pad(s, p),
        is_spaces(w),
    ensures
        1 <= p < s.len() - more_elements(s).1.len(),
        more_elements(padded(s, p, w)) == more_elements(s),
    decreases s.len(), 0int,
{
    let behind_comma = s.skip(1);
    lemma_spaces_run(behind_comma);
    let k = leading_spaces(behind_comma);
    let start = skip_spaces(behind_comma);
    let rest = value_rule(start)->Ok_0.0;
    lemma_value_consumes(start);
    lemma_more_elements_leave_rest(rest);
    let m = start.len() - rest.len();
    assert(start =~= s.skip(1 + k));
    assert(rest =~= s.skip(1 + k + m));
    if 1 <= p <= 1 + k {
    } else if value_pad(start, p - (1 + k)) {
        lemma_value_padding(start, p - (1 + k), w);
    } else {
        lemma_more_elements_padding(rest, p - (1 + k + m), w);
    }
    lemma_padded(s, p, w);
    let changed = padded(s, p, w);
    assert(changed[0] == ',');
    lemma_padded_split(s, p, w, 1);
    if 1 <= p <= 1 + k {
        lemma_padding_in_spaces(behind_comma, p - 1, w);
    } else {
        lemma_padding_behind_spaces(behind_comma, p - 1, w);
        if !value_pad(start, p - (1 + k)) {
            let changed_rest = padded(rest, p - (1 + k + m), w);
            assert(rest =~= start.skip(m));
            lemma_padded_split(start, p - (1 + k), w, m);
            lemma_padded(rest, p - (1 + k + m), w);
            assert(changed_rest[0] == ',');
            lemma_value_tail(start, changed_rest);
        }
    }
}

/// Whitespace in a pad place of an array does not change what is read.
pub proof fn lemma_array_padding(s: Seq<char>, p: int, w: Seq<char>)
    requires
        array_pad(s, p),
        is_spaces(w),
    ensures
        array_rule(s) is Ok,
        1 <= p < s.len() - array_rule(s)->Ok_0.0.len(),
        array_rule(padded(s, p, w)) == array_rule(s),
    decreases s.len(), 0int,
{
    let inner = s.skip(1);
    lemma_spaces_run(inner);
    let k = leading_spaces(inner);
    let start = skip_spaces(inner);
    let behind = elements_rule(start).1;
    lemma_elements_leave_rest(start);
    let e = start.len() - behind.len();
    lemma_spaces_run(behind);
    let c = leading_spaces(behind);
    let closing = skip_spaces(behind);
    assert(start =~= s.skip(1 + k));
    assert(behind =~= s.skip(1 + k + e));
    assert(closing =~= s.skip(1 + k + e + c));
    assert(closing.skip(1) =~= s.skip(1 + k + e + c + 1));
    assert(s.len() - behind.len() == 1 + k + e);
    if 1 <= p <= 1 + k {
        lemma_padded_split(s, p, w, 1);
        lemma_padding_in_spaces(inner, p - 1, w);
        assert(array_rule(padded(s, p, w)) == array_rule(s));
    } else if elements_pad(start, p - (1 + k)) {
        lemma_elements_padding(start, p - (1 + k), w);
        lemma_padded_split(s, p, w, 1);
        lemma_padding_behind_spaces(inner, p - 1, w);
        assert(array_rule(padded(s, p, w)) == array_rule(s));
    } else {
        assert(1 + k + e <= p <= 1 + k + e + c);
        lemma_array_padding_before_closing(s, p, w);
    }
}

/// Whitespace behind the list of an array, up to its closing character, does
/// not change what is read.
proof fn lemma_array_padding_before_closing(s: Seq<char>, p: int, w: Seq<char>)
    requires
        array_rule(s) is Ok,
        is_spaces(w),
        ({
            let behind = elements_rule(skip_spaces(s.skip(1))).1;
            s.len() - behind.len() <= p <= s.len() - behind.len() + leading_spaces(behind)
        }),
        1 + leading_spaces(s.skip(1)) < p,
    ensures
        array_rule(padded(s, p, w)) == array_rule(s),
    decreases s.len(), 0int,
{
    let inner = s.skip(1);
    lemma_spaces_run(inner);
    let k = leading_spaces(inner);
    let start = skip_spaces(inner);
    let behind = elements_rule(start).1;
    lemma_elements_leave_rest(start);
    let e = start.len() - behind.len();
    lemma_spaces_run(behind);
    let c = leading_spaces(behind);
    let closing = skip_spaces(behind);
    assert(start =~= s.skip(1 + k));
    assert(behind =~= s.skip(1 + k + e));
    lemma_padded_split(s, p, w, 1);
    lemma_padding_behind_spaces(inner, p - 1, w);
    let q = p - (1 + k + e);
    let changed_behind = padded(behind, q, w);
    assert(behind =~= start.skip(e));
    lemma_padded_split(start, p - (1 + k), w, e);
    lemma_padded(behind, q, w);
    assert(behind[c] == closing[0]);
    assert(changed_behind.len() > 0);
    assert(is_space(changed_behind[0]) || changed_behind[0] == closing[0]) by {
        if q > 0 {
            assert(is_space(behind[0]));
            assert(changed_behind[0] == behind[0]);
        } else if w.len() > 0 {
            assert(is_space(w[0]));
            assert(changed_behind[0] == w[0]);
        } else {
            assert(changed_behind[0] == behind[0]);
        }
    }
    lemma_elements_tail(start, changed_behind);
    lemma_padding_in_spaces(behind, q, w);
}

/// Whitespace in a pad place of a list of members does not change what is
/// read.
pub proof fn lemma_members_padding(s: Seq<char>, p: int, w: Seq<char>)
    requires
        members_pad(s, p),
        is_spaces(w),
    ensures
        1 <= p < s.len() - members_rule(s).1.len(),
        members_rule(padded(s, p, w)) == members_rule(s),
    decreases s.len(), 3int,
{
    let rest = key_value_rule(s)->Ok_0.0;
    lemma_key_value_consumes(s);
    lemma_more_members_leave_rest(rest);
    let m = s.len() - rest.len();
    if key_value_pad(s, p) {
        lemma_key_value_padding(s, p, w);
    } else {
        lemma_more_members_padding(rest, p - m, w);
        let changed_rest = padded(rest, p - m, w);
        assert(rest =~= s.skip(m));
        lemma_padded_split(s, p, w, m);
        lemma_padded(rest, p - m, w);
        assert(changed_rest[0] == ',');
        lemma_key_value_tail(s, changed_rest);
    }
}

/// Whitespace in a pad place of the members behind the first does not
/// change what is read.
pub proof fn lemma_more_members_padding(s: Seq<char>, p: int, w: Seq<char>)
    requires
        more_members_pad(s, p),
        is_spaces(w),
    ensures
        1 <= p < s.len() - more_members(s).1.len(),
        more_members(padded(s, p, w)) == more_members(s),
    decreases s.len(), 0int,
{
    let behind_comma = s.skip(1);
    lemma_spaces_run(behind_comma);
    let k = leading_spaces(behind_comma);
    let start = skip_spaces(behind_comma);
    let rest = key_value_rule(start)->Ok_0.0;
    lemma_key_value_consumes(start);
    lemma_more_members_leave_rest(rest);
    let m = start.len() - rest.len();
    assert(start =~= s.skip(1 + k));
    assert(rest =~= s.skip(1 + k + m));
    if 1 <= p <= 1 + k {
    } else if key_value_pad(start, p - (1 + k)) {
        lemma_key_value_padding(start, p - (1 + k), w);
    } else {
        lemma_more_members_padding(rest, p - (1 + k + m), w);
    }
    lemma_padded(s, p, w);
    let changed = padded(s, p, w);
    assert(changed[0] == ',');
    lemma_padded_split(s, p, w, 1);
    if 1 <= p <= 1 + k {
        lemma_padding_in_spaces(behind_comma, p - 1, w);
    } else {
        lemma_padding_behind_spaces(behind_comma, p - 1, w);
        if !key_value_pad(start, p - (1 + k)) {
            let changed_rest = padded(rest, p - (1 + k + m), w);
            assert(rest =~= start.skip(m));
            lemma_padded_split(start, p - (1 + k), w, m);
            lemma_padded(rest, p - (1 + k + m), w);
            assert(changed_rest[0] == ',');
            lemma_key_value_tail(start, changed_rest);
        }
    }
}

/// Whitespace in a pad place of an object does not change what is read.
pub proof fn lemma_object_padding(s: Seq<char>, p: int, w: Seq<char>)
    requires
        object_pad(s, p),
        is_spaces(w),
    ensures
        object_rule(s) is Ok,
        1 <= p < s.len() - object_rule(s)->Ok_0.0.len(),
        object_rule(padded(s, p, w)) == object_rule(s),
    decreases s.len(), 0int,
{
    let inner = s.skip(1);
    lemma_spaces_run(inner);
    let k = leading_spaces(inner);
    let start = skip_spaces(inner);
    let behind = members_rule(start).1;
    lemma_members_leave_rest(start);
    let e = start.len() - behind.len();
    lemma_spaces_run(behind);
    let c = leading_spaces(behind);
    let closing = skip_spaces(behind);
    assert(start =~= s.skip(1 + k));
    assert(behind =~= s.skip(1 + k + e));
    assert(closing =~= s.skip(1 + k + e + c));
    assert(closing.skip(1) =~= s.skip(1 + k + e + c + 1));
    assert(s.len() - behind.len() == 1 + k + e);
    if 1 <= p <= 1 + k {
        lemma_padded_split(s, p, w, 1);
        lemma_padding_in_spaces(inner, p - 1, w);
        assert(object_rule(padded(s, p, w)) == object_rule(s));
    } else if members_pad(start, p - (1 + k)) {
        lemma_members_padding(start, p - (1 + k), w);
        lemma_padded_split(s, p, w, 1);
        lemma_padding_behind_spaces(inner, p - 1, w);
        assert(object_rule(padded(s, p, w)) == object_rule(s));
    } else {
        assert(1 + k + e <= p <= 1 + k + e + c);
        lemma_object_padding_before_closing(s, p, w);
    }
}

/// Whitespace behind the list of an object, up to its closing character, does
/// not change what is read.
proof fn lemma_object_padding_before_closing(s: Seq<char>, p: int, w: Seq<char>)
    requires
        object_rule(s) is Ok,
        is_spaces(w),
        ({
            let behind = members_rule(skip_spaces(s.skip(1))).1;
            s.len() - behind.len() <= p <= s.len() - behind.len() + leading_spaces(behind)
        }),
        1 + leading_spaces(s.skip(1)) < p,
    ensures
        object_rule(padded(s, p, w)) == object_rule(s),
    decreases s.len(), 0int,
{
    let inner = s.skip(1);
    lemma_spaces_run(inner);
    let k = leading_spaces(inner);
    let start = skip_spaces(inner);
    let behind = members_rule(start).1;
    lemma_members_leave_rest(start);
    let e = start.len() - behind.len();
    lemma_spaces_run(behind);
    let c = leading_spaces(behind);
    let closing = skip_spaces(behind);
    assert(start =~= s.skip(1 + k));
    assert(behind =~= s.skip(1 + k + e));
    lemma_padded_split(s, p, w, 1);
    lemma_padding_behind_spaces(inner, p - 1, w);
    let q = p - (1 + k + e);
    let changed_behind = padded(behind, q, w);
    assert(behind =~= start.skip(e));
    lemma_padded_split(start, p - (1 + k), w, e);
    lemma_padded(behind, q, w);
    assert(behind[c] == closing[0]);
    assert(changed_behind.len() > 0);
    assert(is_space(changed_behind[0]) || changed_behind[0] == closing[0]) by {
        if q > 0 {
            assert(is_space(behind[0]));
            assert(changed_behind[0] == behind[0]);
        } else if w.len() > 0 {
            assert(is_space(w[0]));
            assert(changed_behind[0] == w[0]);
        } else {
            assert(changed_behind[0] == behind[0]);
        }
    }
    lemma_members_tail(start, changed_behind);
    lemma_padding_in_spaces(behind, q, w);
}

/// An array or an object has pad places: the place behind its opening
/// character is one, and the place in front of its closing character is
/// another.
pub proof fn lemma_pad_places(s: Seq<char>)
    requires
        array_rule(s) is Ok || object_rule(s) is Ok,
    ensures
        value_rule(s) is Ok,
        value_pad(s, 1),
        value_pad(s, s.len() - value_rule(s)->Ok_0.0.len() - 1),
{
    lemma_first_character(s);
    let inner = s.skip(1);
    lemma_spaces_run(inner);
    let k = leading_spaces(inner);
    let start = skip_spaces(inner);
    assert(start =~= s.skip(1 + k));
    if array_rule(s) is Ok {
        let behind = elements_rule(start).1;
        lemma_elements_leave_rest(start);
        lemma_spaces_run(behind);
        let e = start.len() - behind.len();
        let c = leading_spaces(behind);
        assert(behind =~= s.skip(1 + k + e));
        assert(skip_spaces(behind).skip(1) =~= s.skip(1 + k + e + c + 1));
    } else {
        let behind = members_rule(start).1;
        lemma_members_leave_rest(start);
        lemma_spaces_run(behind);
        let e = start.len() - behind.len();
        let c = leading_spaces(behind);
        assert(behind =~= s.skip(1 + k + e));
        assert(skip_spaces(behind).skip(1) =~= s.skip(1 + k + e + c + 1));
    }
}

} // verus!
