//! Reading a string slice from the front, one character at a time.
//!
//! A `&str` is stored as UTF-8, so the only cheap way to walk it is by
//! bytes. The functions here do that, and their contracts speak of
//! characters only: callers never see a byte offset.

use vstd::prelude::*;
use vstd::utf8::*;
use vstd::string::*;

verus! {

/// The code by which the grammar tells a character apart: the character's
/// own code when it is ASCII, and `0x80` for every other character.
pub open spec fn ascii_code(c: char) -> u8 {
    if (c as u32) < 0x80 {
        (c as u32) as u8
    } else {
        0x80u8
    }
}

/// The UTF-8 encoding of a concatenation is the concatenation of the
/// encodings.
pub proof fn lemma_encode_concat(a: Seq<char>, b: Seq<char>)
    ensures
        encode_utf8(a + b) == encode_utf8(a) + encode_utf8(b),
    decreases a.len(),
{
    if a.len() == 0 {
        assert(a + b =~= b);
        assert(encode_utf8(a) + encode_utf8(b) =~= encode_utf8(b));
    } else {
        assert((a + b).drop_first() =~= a.drop_first() + b);
        lemma_encode_concat(a.drop_first(), b);
        assert(encode_utf8(a + b) =~= encode_utf8(a) + encode_utf8(b));
    }
}

/// In the encoding of `a + b`, the place where the encoding of `b` starts
/// lies between two characters.
pub proof fn lemma_boundary_at_concat(a: Seq<char>, b: Seq<char>)
    ensures
        is_char_boundary(encode_utf8(a + b), encode_utf8(a).len() as int),
{
    broadcast use group_utf8_lib;

    let bytes = encode_utf8(a + b);
    let n = encode_utf8(a).len() as int;
    lemma_encode_concat(a, b);
    if b.len() > 0 {
        encode_utf8_first_scalar(b);
        assert(bytes[n] == encode_utf8(b)[0]);
        assert(!is_continuation_byte(bytes[n]));
    } else {
        assert(encode_utf8(b).len() == 0);
        assert(n == bytes.len());
    }
}

/// Two character sequences with the same encoding are the same sequence.
pub proof fn lemma_encode_injective(a: Seq<char>, b: Seq<char>)
    requires
        encode_utf8(a) == encode_utf8(b),
    ensures
        a == b,
{
    encode_utf8_decode_utf8(a);
    encode_utf8_decode_utf8(b);
}

/// Splits off the first character of `s`.
///
/// Returns `None` when `s` is empty, and otherwise the code of the first
/// character together with the text behind it.
pub fn split_first(s: &str) -> (r: Option<(u8, &str)>)
    ensures
        match r {
            None => s@.len() == 0,
            Some((code, rest)) => s@.len() > 0 && code == ascii_code(s@[0]) && rest@ == s@.skip(1),
        },
{
    let bytes = s.as_bytes();
    if bytes.len() == 0 {
        proof {
            if s@.len() > 0 {
                encode_utf8_first_scalar(s@);
            }
        }
        return None;
    }
    let lead: u8 = bytes[0];
    let width: usize = if lead < 0x80 {
        1
    } else if lead < 0xe0 {
        2
    } else if lead < 0xf0 {
        3
    } else {
        4
    };
    proof {
        broadcast use group_utf8_lib;

        assert(s@.len() > 0);
        encode_utf8_first_scalar(s@);
        assert(width == length_of_first_scalar(bytes@));
        reveal_with_fuel(is_char_boundary, 2);
        assert(is_char_boundary(bytes@, width as int));
    }
    let (_, rest) = s.split_at(width);
    proof {
        broadcast use group_utf8_lib;

        encode_utf8_first_scalar(s@);
        assert(s@.skip(1) =~= s@.drop_first());
        assert(rest.spec_bytes() =~= encode_utf8(s@.skip(1)));
        lemma_encode_injective(rest@, s@.skip(1));
        let c = s@[0] as u32;
        assert(lead == encode_scalar(c)[0]);
        if c < 0x80 {
            assert(lead == c as u8) by {
                assert(c as u8 == leading_byte_width_1(c)) by (bit_vector)
                    requires
                        c < 0x80,
                ;
            }
        } else {
            assert(lead >= 0x80) by {
                assert(encode_scalar(c)[0] >= 0x80) by {
                    lemma_lead_of_wide(c);
                }
            }
        }
    }
    let code: u8 = if lead < 0x80 {
        lead
    } else {
        0x80
    };
    Some((code, rest))
}

/// The first byte of the encoding of a character beyond ASCII is not an
/// ASCII byte.
proof fn lemma_lead_of_wide(c: u32)
    requires
        c >= 0x80,
        is_scalar(c),
    ensures
        encode_scalar(c)[0] >= 0x80,
{
    assert(leading_byte_width_2(c) >= 0x80 && leading_byte_width_3(c) >= 0x80
        && leading_byte_width_4(c) >= 0x80) by (bit_vector);
}

/// Whether two texts hold the same characters.
pub fn same_text(a: &str, b: &str) -> (same: bool)
    ensures
        same == (a@ == b@),
{
    let left = a.as_bytes();
    let right = b.as_bytes();
    if left.len() != right.len() {
        return false;
    }
    let mut i: usize = 0;
    while i < left.len()
        invariant
            i <= left@.len(),
            left@.len() == right@.len(),
            left@ == a.spec_bytes(),
            right@ == b.spec_bytes(),
            forall|j: int| 0 <= j < i ==> left@[j] == right@[j],
        decreases left@.len() - i,
    {
        if left[i] != right[i] {
            return false;
        }
        i += 1;
    }
    proof {
        assert(left@ =~= right@);
        lemma_encode_injective(a@, b@);
    }
    true
}

/// The part of `whole` that stands before `rest`, where `rest` is what is
/// left of `whole` after some of its characters were read.
pub(crate) fn prefix_before<'a>(whole: &'a str, rest: &str) -> (front: &'a str)
    requires
        rest@.len() <= whole@.len(),
        rest@ == whole@.skip(whole@.len() - rest@.len()),
    ensures
        front@ == whole@.take(whole@.len() - rest@.len()),
{
    let ghost k = whole@.len() - rest@.len();
    proof {
        assert(whole@ =~= whole@.take(k) + whole@.skip(k));
        lemma_encode_concat(whole@.take(k), whole@.skip(k));
        lemma_boundary_at_concat(whole@.take(k), whole@.skip(k));
        assert(whole.spec_bytes() == encode_utf8(whole@.take(k)) + encode_utf8(rest@));
        assert(whole.spec_bytes().len() == encode_utf8(whole@.take(k)).len()
            + rest.spec_bytes().len());
    }
    let n = whole.as_bytes().len() - rest.as_bytes().len();
    let (front, _) = whole.split_at(n);
    proof {
        assert(front.spec_bytes() =~= encode_utf8(whole@.take(k)));
        lemma_encode_injective(front@, whole@.take(k));
    }
    front
}

} // verus!
