//! Text helpers.

use vstd::prelude::*;

verus! {

/// The upper-case form of a character as Unicode defines it, which may be
/// more than one character long.
pub uninterp spec fn uppercase_of(c: char) -> Seq<char>;

/// Whether `c` separates two words.
pub open spec fn is_word_break(c: char) -> bool {
    c == ' ' || c == '_' || c == '-'
}

/// `s` with its word breaks dropped and the first character of every word
/// in upper case.
pub open spec fn upper_camel_case(s: Seq<char>) -> Seq<char>
    decreases s.len(),
{
    if s.len() == 0 {
        Seq::empty()
    } else {
        let head = s.drop_last();
        let c = s.last();
        if is_word_break(c) {
            upper_camel_case(head)
        } else if head.len() == 0 || is_word_break(head.last()) {
            upper_camel_case(head) + uppercase_of(c)
        } else {
            upper_camel_case(head).push(c)
        }
    }
}

/// `String::push`: appends one character.
#[verifier::external_body]
fn push_char(s: &mut String, c: char)
    ensures
        final(s)@ == old(s)@.push(c),
{
    s.push(c);
}

/// `char::to_uppercase`, appended to `s`: the characters that Unicode gives
/// as the upper-case form of `c`, which this library does not spell out.
#[verifier::external_body]
fn push_uppercase(s: &mut String, c: char)
    ensures
        final(s)@ == old(s)@ + uppercase_of(c),
{
    s.extend(c.to_uppercase());
}

/// Joins the words of `input`, which spaces, underscores and hyphens
/// separate, each with its first character in upper case.
pub fn to_upper_camel_case(input: &str) -> (out: String)
    ensures
        out@ == upper_camel_case(input@),
{
    let n = input.unicode_len();
    let mut out = String::new();
    let mut at_start = true;
    let mut i: usize = 0;
    while i < n
        invariant
            i <= n,
            n == input@.len(),
            out@ == upper_camel_case(input@.subrange(0, i as int)),
            at_start == (i == 0 || is_word_break(input@[i - 1])),
        decreases n - i,
    {
        let c = input.get_char(i);
        proof {
            let next = input@.subrange(0, i + 1);
            assert(next.drop_last() =~= input@.subrange(0, i as int));
            assert(next.last() == c);
            if i > 0 {
                assert(next.drop_last().last() == input@[i - 1]);
            }
        }
        if c == ' ' || c == '_' || c == '-' {
            at_start = true;
        } else if at_start {
            push_uppercase(&mut out, c);
            at_start = false;
        } else {
            push_char(&mut out, c);
            at_start = false;
        }
        i += 1;
    }
    proof {
        assert(input@.subrange(0, n as int) =~= input@);
    }
    out
}

} // verus!
