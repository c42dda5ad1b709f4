//! Decisions of the interactive mode: the letters a typed line gives,
//! whether it is accepted as a trace, and which window size a line names.
use vstd::prelude::*;
use crate::text::{alphabetic, whitespace, is_alphabetic, is_whitespace, chars_of, parse_usize, parsed_usize};

verus! {

/// `s` without its leading white space.
pub open spec fn trim_start(s: Seq<char>) -> Seq<char>
    decreases s.len(),
{
    if s.len() > 0 && whitespace(s[0]) {
        trim_start(s.drop_first())
    } else {
        s
    }
}

/// `s` without its trailing white space.
pub open spec fn trim_end(s: Seq<char>) -> Seq<char>
    decreases s.len(),
{
    if s.len() > 0 && whitespace(s.last()) {
        trim_end(s.drop_last())
    } else {
        s
    }
}

/// `str::trim`: `s` without leading and trailing white space.
pub open spec fn trimmed(s: Seq<char>) -> Seq<char> {
    trim_end(trim_start(s))
}

proof fn lemma_trim_start(s: Seq<char>, lo: int)
    requires
        0 <= lo <= s.len(),
        forall|i: int| 0 <= i < lo ==> whitespace(#[trigger] s[i]),
        lo == s.len() || !whitespace(s[lo]),
    ensures
        trim_start(s) == s.subrange(lo, s.len() as int),
    decreases lo,
{
    if lo == 0 {
        assert(s.subrange(0, s.len() as int) =~= s);
    } else {
        let d = s.drop_first();
        assert forall|i: int| 0 <= i < lo - 1 implies whitespace(#[trigger] d[i]) by {
            assert(d[i] == s[i + 1]);
        }
        if lo < s.len() {
            assert(d[lo - 1] == s[lo]);
        }
        lemma_trim_start(d, lo - 1);
        assert(d.subrange(lo - 1, d.len() as int) =~= s.subrange(lo, s.len() as int));
    }
}

proof fn lemma_trim_end(s: Seq<char>, hi: int)
    requires
        0 <= hi <= s.len(),
        forall|i: int| hi <= i < s.len() ==> whitespace(#[trigger] s[i]),
        hi == 0 || !whitespace(s[hi - 1]),
    ensures
        trim_end(s) == s.take(hi),
    decreases s.len() - hi,
{
    if hi == s.len() {
        assert(s.take(hi) =~= s);
    } else {
        let d = s.drop_last();
        assert forall|i: int| hi <= i < d.len() implies whitespace(#[trigger] d[i]) by {
            assert(d[i] == s[i]);
        }
        if hi > 0 {
            assert(d[hi - 1] == s[hi - 1]);
        }
        assert(whitespace(s[s.len() - 1]));
        lemma_trim_end(d, hi);
        assert(d.take(hi) =~= s.take(hi));
    }
}

/// The characters of `s`, trimmed as by `str::trim`.
fn trim_chars(s: &Vec<char>) -> (r: Vec<char>)
    ensures
        r@ == trimmed(s@),
{
    let mut lo: usize = 0;
    while lo < s.len() && is_whitespace(s[lo])
        invariant
            lo <= s.len(),
            forall|i: int| 0 <= i < lo ==> whitespace(#[trigger] s@[i]),
        decreases s.len() - lo,
    {
        lo = lo + 1;
    }
    proof {
        lemma_trim_start(s@, lo as int);
    }
    let mut hi: usize = s.len();
    while hi > lo && is_whitespace(s[hi - 1])
        invariant
            lo <= hi <= s.len(),
            forall|i: int| hi <= i < s.len() ==> whitespace(#[trigger] s@[i]),
        decreases hi - lo,
    {
        hi = hi - 1;
    }
    let ghost t = s@.subrange(lo as int, s.len() as int);
    proof {
        assert forall|i: int| hi - lo <= i < t.len() implies whitespace(#[trigger] t[i]) by {
            assert(t[i] == s@[i + lo]);
        }
        if hi > lo {
            assert(t[hi - lo - 1] == s@[hi - 1]);
        }
        lemma_trim_end(t, hi - lo);
    }
    let mut r: Vec<char> = Vec::new();
    let mut i: usize = lo;
    while i < hi
        invariant
            lo <= i <= hi <= s.len(),
            r@ == s@.subrange(lo as int, i as int),
        decreases hi - i,
    {
        r.push(s[i]);
        i = i + 1;
        assert(r@ =~= s@.subrange(lo as int, i as int));
    }
    assert(r@ =~= t.take(hi - lo));
    r
}

/// What a typed line (already trimmed) gives: its letters up to the first
/// character that is neither a letter nor a space, and whether there is
/// such a character.
pub open spec fn line_letters(s: Seq<char>) -> (Seq<char>, bool)
    decreases s.len(),
{
    if s.len() == 0 {
        (Seq::empty(), false)
    } else {
        let p = line_letters(s.drop_last());
        if p.1 {
            p
        } else if alphabetic(s.last()) {
            (p.0.push(s.last()), false)
        } else if s.last() == ' ' {
            p
        } else {
            (p.0, true)
        }
    }
}

proof fn lemma_line_letters_stop(s: Seq<char>, i: int)
    requires
        0 <= i <= s.len(),
        line_letters(s.take(i)).1,
    ensures
        line_letters(s) == line_letters(s.take(i)),
    decreases s.len() - i,
{
    if i == s.len() {
        assert(s.take(i) =~= s);
    } else {
        assert(s.drop_last().take(i) =~= s.take(i));
        lemma_line_letters_stop(s.drop_last(), i);
    }
}

/// How a typed line was judged: the letters it gives, whether it held a
/// character that is neither a letter nor a space, and whether it gives
/// fewer than three letters.  The line is a trace when neither holds.
#[derive(Debug, Clone)]
pub struct LineCheck {
    pub letters: Vec<char>,
    pub bad_character: bool,
    pub too_short: bool,
}

/// Judges one typed line on its own: its letters are those of the trimmed
/// line up to its first character that is neither a letter nor a space.
pub fn accept_trace_line(line: &str) -> (r: LineCheck)
    ensures
        r.letters@ == line_letters(trimmed(line@)).0,
        r.bad_character == line_letters(trimmed(line@)).1,
        r.too_short == (r.letters@.len() < 3),
{
    let chars = chars_of(line);
    let t = trim_chars(&chars);
    let mut letters: Vec<char> = Vec::new();
    let mut valid = true;
    let mut i: usize = 0;
    proof {
        assert(t@.take(0) =~= Seq::<char>::empty());
    }
    while i < t.len() && valid
        invariant
            i <= t.len(),
            letters@ == line_letters(t@.take(i as int)).0,
            valid == !line_letters(t@.take(i as int)).1,
        decreases t.len() - i,
    {
        let c = t[i];
        proof {
            assert(t@.take(i + 1).drop_last() =~= t@.take(i as int));
            assert(t@.take(i + 1).last() == c);
        }
        if is_alphabetic(c) {
            letters.push(c);
        } else if c != ' ' {
            valid = false;
        }
        i = i + 1;
    }
    proof {
        if valid {
            assert(t@.take(i as int) =~= t@);
        } else {
            lemma_line_letters_stop(t@, i as int);
        }
    }
    let too_short = letters.len() < 3;
    LineCheck { letters, bad_character: !valid, too_short }
}

/// The window size a typed line names, for a trace of `trace_length`
/// accesses: the trimmed line read as a `usize` that is at least 2 and at
/// most `trace_length - start`.
pub open spec fn window_choice(trace_length: usize, start: usize, s: Seq<char>) -> Option<usize> {
    match parsed_usize(trimmed(s)) {
        Some(v) => if v > trace_length - start || v <= 1 {
            None
        } else {
            Some(v)
        },
        None => None,
    }
}

/// Reads a window size from a typed line; `None` when the line is not a
/// number or the number is out of range.
pub fn parse_window_size(trace_length: usize, start: usize, line: &str) -> (r: Option<usize>)
    requires
        start <= trace_length,
    ensures
        r == window_choice(trace_length, start, line@),
{
    let chars = chars_of(line);
    let t = trim_chars(&chars);
    match parse_usize(&t) {
        Some(v) => {
            if v > trace_length - start || v <= 1 {
                None
            } else {
                Some(v)
            }
        },
        None => None,
    }
}

} // verus!
