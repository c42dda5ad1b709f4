//! Character classes, case mapping and number parsing, as the standard
//! library defines them.
use vstd::prelude::*;

verus! {

/// `char::is_alphabetic`: the Unicode `Alphabetic` property.
pub uninterp spec fn alphabetic(c: char) -> bool;

/// `char::is_whitespace`: the Unicode `White_Space` property.
pub uninterp spec fn whitespace(c: char) -> bool;

/// The characters `char::to_lowercase` yields for `c`.
pub uninterp spec fn lower_char(c: char) -> Seq<char>;

/// What `str::to_lowercase` returns for the string `s`.
pub uninterp spec fn lower_str(s: Seq<char>) -> Seq<char>;

/// Calls `char::is_alphabetic`, which tells whether `c` has the Unicode
/// `Alphabetic` property; the result is named `alphabetic(c)`.
#[verifier::external_body]
pub(crate) fn is_alphabetic(c: char) -> (r: bool)
    ensures
        r == alphabetic(c),
{
    c.is_alphabetic()
}

/// Calls `char::is_whitespace`, which tells whether `c` has the Unicode
/// `White_Space` property; the result is named `whitespace(c)`.
#[verifier::external_body]
pub(crate) fn is_whitespace(c: char) -> (r: bool)
    ensures
        r == whitespace(c),
{
    c.is_whitespace()
}

/// Collects `char::to_lowercase` of `c`: the lowercase mapping of `c`, one
/// to three characters, `c` itself where it has none; named `lower_char(c)`.
/// The documentation says that at least one character comes out.
#[verifier::external_body]
pub(crate) fn to_lowercase_char(c: char) -> (r: Vec<char>)
    ensures
        r@ == lower_char(c),
        r@.len() >= 1,
{
    c.to_lowercase().collect()
}

/// Calls `str::to_lowercase` on the string made of `s`; the result is named
/// `lower_str(s)`.
#[verifier::external_body]
pub(crate) fn to_lowercase_str(s: &Vec<char>) -> (r: String)
    ensures
        r@ == lower_str(s@),
{
    s.iter().collect::<String>().to_lowercase()
}

/// An ASCII decimal digit.
pub open spec fn is_digit(c: char) -> bool {
    '0' <= c && c <= '9'
}

/// Value of a string of decimal digits.
pub open spec fn digits_value(s: Seq<char>) -> nat
    decreases s.len(),
{
    if s.len() == 0 {
        0
    } else {
        digits_value(s.drop_last()) * 10 + (s.last() as nat - '0' as nat) as nat
    }
}

/// The digits of a number: the string without its leading `+`, if any.
pub open spec fn unsigned_digits(s: Seq<char>) -> Seq<char> {
    if s.len() > 0 && s[0] == '+' {
        s.drop_first()
    } else {
        s
    }
}

/// What `str::parse::<usize>` gives: an optional `+`, then at least one
/// ASCII digit and nothing else, with a value that fits `usize`.
pub open spec fn parsed_usize(s: Seq<char>) -> Option<usize> {
    let d = unsigned_digits(s);
    if d.len() > 0 && (forall|i: int| 0 <= i < d.len() ==> is_digit(#[trigger] d[i])) && digits_value(d) <= usize::MAX {
        Some(digits_value(d) as usize)
    } else {
        None
    }
}

/// Calls `str::parse::<usize>` on the string made of `s`.  As documented
/// for `usize::from_str_radix`, it accepts an optional `+` followed by one
/// or more ASCII digits and fails on anything else and on overflow.
#[verifier::external_body]
pub(crate) fn parse_usize(s: &Vec<char>) -> (r: Option<usize>)
    ensures
        r == parsed_usize(s@),
{
    s.iter().collect::<String>().parse::<usize>().ok()
}

/// The characters of a string slice.
pub fn chars_of(s: &str) -> (r: Vec<char>)
    ensures
        r@ == s@,
{
    let mut r: Vec<char> = Vec::new();
    for c in it: s.chars()
        invariant
            it.seq() == s@,
            r@ == it.seq().take(it.index()),
    {
        r.push(c);
        proof {
            assert(r@ =~= it.seq().take(it.index() + 1));
        }
    }
    proof {
        assert(s@.take(s@.len() as int) =~= s@);
    }
    r
}

} // verus!
