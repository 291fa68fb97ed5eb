//! Lenient matching of vocabulary names: separators are dropped and ASCII
//! letter case is ignored.

use vstd::prelude::*;

verus! {

/// The ASCII lower-case form of a character; other characters are kept.
pub open spec fn fold_case(c: char) -> char {
    if 'A' <= c && c <= 'Z' {
        ((c as u8) + 32) as char
    } else {
        c
    }
}

/// Whether `c` is dropped before a name is matched. The ampersand is dropped
/// only where `ampersand` is set.
pub open spec fn is_separator(c: char, ampersand: bool) -> bool {
    c == ' ' || c == '_' || (ampersand && c == '&')
}

/// `s` without its separators.
pub open spec fn cleaned(s: Seq<char>, ampersand: bool) -> Seq<char>
    decreases s.len(),
{
    if s.len() == 0 {
        Seq::empty()
    } else if is_separator(s.last(), ampersand) {
        cleaned(s.drop_last(), ampersand)
    } else {
        cleaned(s.drop_last(), ampersand).push(s.last())
    }
}

/// Whether two names are equal up to ASCII letter case.
pub open spec fn same_name(a: Seq<char>, b: Seq<char>) -> bool {
    a.len() == b.len() && forall|i: int| 0 <= i < a.len() ==> fold_case(#[trigger] a[i]) == fold_case(b[i])
}

pub fn lower(c: char) -> (r: char)
    ensures
        r == fold_case(c),
{
    if 'A' <= c && c <= 'Z' {
        ((c as u8) + 32) as char
    } else {
        c
    }
}

/// Drops the separators of `s`.
pub fn clean(s: &str, ampersand: bool) -> (out: Vec<char>)
    ensures
        out@ == cleaned(s@, ampersand),
{
    let n = s.unicode_len();
    let mut out: Vec<char> = Vec::new();
    let mut i: usize = 0;
    while i < n
        invariant
            i <= n,
            n == s@.len(),
            out@ == cleaned(s@.subrange(0, i as int), ampersand),
        decreases n - i,
    {
        let c = s.get_char(i);
        proof {
            let next = s@.subrange(0, i + 1);
            assert(next.drop_last() =~= s@.subrange(0, i as int));
            assert(next.last() == c);
        }
        if !(c == ' ' || c == '_' || (ampersand && c == '&')) {
            out.push(c);
        }
        i += 1;
    }
    proof {
        assert(s@.subrange(0, n as int) =~= s@);
    }
    out
}

/// Compares a cleaned name with a vocabulary name.
pub fn matches_name(name: &Vec<char>, candidate: &str) -> (b: bool)
    ensures
        b == same_name(name@, candidate@),
{
    let n = candidate.unicode_len();
    if name.len() != n {
        return false;
    }
    let mut i: usize = 0;
    while i < n
        invariant
            i <= n,
            n == candidate@.len(),
            n == name@.len(),
            forall|j: int| 0 <= j < i ==> fold_case(#[trigger] name@[j]) == fold_case(candidate@[j]),
        decreases n - i,
    {
        if lower(name[i]) != lower(candidate.get_char(i)) {
            return false;
        }
        i += 1;
    }
    true
}

} // verus!
