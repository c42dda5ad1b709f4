//! What reading a trace does, stated over the input text: one access per
//! letter, one word per whitespace-separated piece, one access per line of
//! a trace file, and the letters a typed line gives.
use vstd::prelude::*;
use crate::text::{alphabetic, whitespace, lower_char, lower_str, parsed_usize};
use crate::trace::{
    letter_trace, pieces, piece_state, text_word_trace, TraceError, count_spaces, first_space, field_before, field_after,
    number_line, word_line, number_trace, word_file_trace,
};
use crate::text::{unsigned_digits, is_digit};
use crate::prompt::{line_letters, trimmed, trim_start, trim_end, window_choice};

verus! {

/// The alphabetic characters of `s`, in order.
pub open spec fn alphabetic_chars(s: Seq<char>) -> Seq<char> {
    s.filter(|c: char| alphabetic(c))
}

proof fn lemma_alphabetic_push(s: Seq<char>, c: char)
    ensures
        alphabetic_chars(s.push(c)) == (if alphabetic(c) {
            alphabetic_chars(s).push(c)
        } else {
            alphabetic_chars(s)
        }),
{
    s.lemma_filter_push(c, |c: char| alphabetic(c));
}

/// A text read as a trace of letters has one access per alphabetic
/// character of the text, in order: access `k` (from 0) is at time `k + 1`
/// and is the code of the first character of the lowercase of the `k`-th
/// alphabetic character.
pub proof fn law_letter_trace_one_access_per_letter(s: Seq<char>)
    ensures
        letter_trace(s).len() == alphabetic_chars(s).len(),
        forall|k: int|
            0 <= k < letter_trace(s).len() ==> #[trigger] letter_trace(s)[k] == (
                (k + 1) as usize,
                (lower_char(alphabetic_chars(s)[k])[0] as u32) as usize,
            ),
    decreases s.len(),
{
    if s.len() > 0 {
        let p = s.drop_last();
        let c = s.last();
        law_letter_trace_one_access_per_letter(p);
        assert(p.push(c) =~= s);
        lemma_alphabetic_push(p, c);
        let lp = letter_trace(p);
        let ls = letter_trace(s);
        assert forall|k: int| 0 <= k < ls.len() implies #[trigger] ls[k] == (
            (k + 1) as usize,
            (lower_char(alphabetic_chars(s)[k])[0] as u32) as usize,
        ) by {
            if k < lp.len() {
                assert(ls[k] == lp[k]);
                assert(alphabetic_chars(s)[k] == alphabetic_chars(p)[k]);
            }
        }
    }
}

/// A typed line (trimmed) is refused for a bad character exactly when it
/// holds a character that is neither alphabetic nor a space.  The letters
/// it gives are all its alphabetic characters, of any case, when there is
/// none; otherwise the alphabetic characters before the first such
/// character.
pub proof fn law_line_letters_are_the_letters(t: Seq<char>)
    ensures
        line_letters(t).1 <==> exists|i: int| 0 <= i < t.len() && !alphabetic(#[trigger] t[i]) && t[i] != ' ',
        !line_letters(t).1 ==> line_letters(t).0 == alphabetic_chars(t),
        line_letters(t).1 ==> exists|i: int|
            0 <= i < t.len() && !alphabetic(#[trigger] t[i]) && t[i] != ' ' && (forall|j: int|
                0 <= j < i ==> alphabetic(#[trigger] t[j]) || t[j] == ' ') && line_letters(t).0 == alphabetic_chars(
                t.take(i),
            ),
    decreases t.len(),
{
    if t.len() > 0 {
        let p = t.drop_last();
        let c = t.last();
        let n = t.len() - 1;
        law_line_letters_are_the_letters(p);
        assert(p.push(c) =~= t);
        assert(t[n] == c);
        lemma_alphabetic_push(p, c);
        assert(t.take(n) =~= p);
        if line_letters(p).1 {
            let i = choose|i: int|
                0 <= i < p.len() && !alphabetic(#[trigger] p[i]) && p[i] != ' ' && (forall|j: int|
                    0 <= j < i ==> alphabetic(#[trigger] p[j]) || p[j] == ' ') && line_letters(p).0
                    == alphabetic_chars(p.take(i));
            assert(t[i] == p[i]);
            assert(t.take(i) =~= p.take(i));
            assert forall|j: int| 0 <= j < i implies alphabetic(#[trigger] t[j]) || t[j] == ' ' by {
                assert(t[j] == p[j]);
            }
        } else {
            assert forall|i: int| 0 <= i < n implies !(!alphabetic(#[trigger] t[i]) && t[i] != ' ') by {
                assert(t[i] == p[i]);
                if !alphabetic(p[i]) && p[i] != ' ' {
                    assert(exists|i: int| 0 <= i < p.len() && !alphabetic(#[trigger] p[i]) && p[i] != ' ');
                }
            }
            if !alphabetic(c) && c != ' ' {
                assert forall|j: int| 0 <= j < n implies alphabetic(#[trigger] t[j]) || t[j] == ' ' by {
                    assert(!(!alphabetic(t[j]) && t[j] != ' '));
                }
            }
        }
    }
}

/// The number of spaces in `s`.
pub open spec fn spaces_in(s: Seq<char>) -> nat {
    s.filter(|c: char| c == ' ').len()
}

proof fn lemma_count_spaces(s: Seq<char>)
    ensures
        count_spaces(s) == spaces_in(s),
    decreases s.len(),
{
    if s.len() > 0 {
        lemma_count_spaces(s.drop_last());
        assert(s.drop_last().push(s.last()) =~= s);
        s.drop_last().lemma_filter_push(s.last(), |c: char| c == ' ');
    }
}

proof fn lemma_spaces_none(s: Seq<char>)
    requires
        forall|m: int| 0 <= m < s.len() ==> s[m] != ' ',
    ensures
        spaces_in(s) == 0,
    decreases s.len(),
{
    if s.len() > 0 {
        let p = s.drop_last();
        assert forall|m: int| 0 <= m < p.len() implies p[m] != ' ' by {
            assert(p[m] == s[m]);
        }
        lemma_spaces_none(p);
        assert(p.push(s.last()) =~= s);
        p.lemma_filter_push(s.last(), |c: char| c == ' ');
    }
}

/// Splitting at a space `j`: the spaces before, the one, the spaces after.
proof fn lemma_spaces_split(s: Seq<char>, j: int)
    requires
        0 <= j < s.len(),
        s[j] == ' ',
    ensures
        spaces_in(s) == spaces_in(s.take(j)) + 1 + spaces_in(s.skip(j + 1)),
{
    let pred = |c: char| c == ' ';
    assert(s =~= s.take(j) + seq![' '] + s.skip(j + 1));
    Seq::filter_distributes_over_add(s.take(j) + seq![' '], s.skip(j + 1), pred);
    Seq::filter_distributes_over_add(s.take(j), seq![' '], pred);
    Seq::<char>::empty().lemma_filter_push(' ', pred);
    assert(seq![' '] =~= Seq::<char>::empty().push(' '));
    reveal(Seq::filter);
    assert(Seq::<char>::empty().filter(pred) =~= Seq::<char>::empty());
}

proof fn lemma_spaces_some(s: Seq<char>, m: int)
    requires
        0 <= m < s.len(),
        s[m] == ' ',
    ensures
        spaces_in(s) >= 1,
{
    lemma_spaces_split(s, m);
}

/// The first space of `s`, once there is one.
proof fn lemma_first_space_is(s: Seq<char>, j: int)
    requires
        0 <= j < s.len(),
        s[j] == ' ',
        forall|m: int| 0 <= m < j ==> s[m] != ' ',
    ensures
        first_space(s) == j,
    decreases j,
{
    if j > 0 {
        assert(s[0] != ' ');
        let d = s.drop_first();
        assert forall|m: int| 0 <= m < j - 1 implies d[m] != ' ' by {
            assert(d[m] == s[m + 1]);
        }
        lemma_first_space_is(d, j - 1);
    }
}

proof fn lemma_some_first_space(s: Seq<char>, m: int)
    requires
        0 <= m < s.len(),
        s[m] == ' ',
    ensures
        0 <= first_space(s) <= m,
        s[first_space(s) as int] == ' ',
        forall|x: int| 0 <= x < first_space(s) ==> s[x] != ' ',
    decreases m,
{
    if s[0] != ' ' {
        let d = s.drop_first();
        assert(d[m - 1] == s[m]);
        lemma_some_first_space(d, m - 1);
        assert forall|x: int| 0 <= x < first_space(s) implies s[x] != ' ' by {
            if x > 0 {
                assert(s[x] == d[x - 1]);
            }
        }
    }
}

/// A number as `str::parse` reads it holds no space.
proof fn lemma_parsed_no_space(x: Seq<char>)
    requires
        parsed_usize(x) is Some,
    ensures
        forall|m: int| 0 <= m < x.len() ==> x[m] != ' ',
{
    let d = unsigned_digits(x);
    assert forall|m: int| 0 <= m < x.len() implies x[m] != ' ' by {
        if x.len() > 0 && x[0] == '+' {
            if m > 0 {
                assert(x[m] == d[m - 1]);
                assert(is_digit(d[m - 1]));
            }
        } else {
            assert(x[m] == d[m]);
            assert(is_digit(d[m]));
        }
    }
}

/// `s` holds exactly one space, at `j`.
proof fn lemma_one_space(s: Seq<char>, j: int)
    requires
        0 <= j < s.len(),
        s[j] == ' ',
        forall|m: int| 0 <= m < s.len() && m != j ==> s[m] != ' ',
    ensures
        count_spaces(s) == 1,
        first_space(s) == j,
{
    lemma_spaces_split(s, j);
    let a = s.take(j);
    let b = s.skip(j + 1);
    assert forall|m: int| 0 <= m < a.len() implies #[trigger] a[m] != ' ' by {
        assert(a[m] == s[m]);
    }
    assert forall|m: int| 0 <= m < b.len() implies #[trigger] b[m] != ' ' by {
        assert(b[m] == s[m + j + 1]);
    }
    lemma_spaces_none(s.take(j));
    lemma_spaces_none(s.skip(j + 1));
    lemma_count_spaces(s);
    lemma_first_space_is(s, j);
}

/// With exactly one space, it is at `first_space` and nowhere else.
proof fn lemma_count_one(s: Seq<char>)
    requires
        count_spaces(s) == 1,
    ensures
        0 <= first_space(s) < s.len(),
        s[first_space(s) as int] == ' ',
        forall|m: int| 0 <= m < s.len() && m != first_space(s) ==> s[m] != ' ',
{
    lemma_count_spaces(s);
    if forall|m: int| 0 <= m < s.len() ==> s[m] != ' ' {
        lemma_spaces_none(s);
    }
    let m0 = choose|m: int| 0 <= m < s.len() && s[m] == ' ';
    lemma_some_first_space(s, m0);
    let j = first_space(s) as int;
    lemma_spaces_split(s, j);
    assert forall|m: int| 0 <= m < s.len() && m != j implies s[m] != ' ' by {
        if s[m] == ' ' {
            if m < j {
            } else {
                assert(s.skip(j + 1)[m - j - 1] == s[m]);
                lemma_spaces_some(s.skip(j + 1), m - j - 1);
            }
        }
    }
}

/// `s` is the number `a.0`, one space, and the number `a.1`.
pub open spec fn number_access(s: Seq<char>, a: (usize, usize)) -> bool {
    exists|j: int|
        0 <= j < s.len() && #[trigger] s[j] == ' ' && parsed_usize(s.take(j)) == Some(a.0) && parsed_usize(s.skip(j + 1))
            == Some(a.1)
}

/// `s` is the number `a.0`, one space, and a word without spaces whose
/// lowercase is `a.1`.
pub open spec fn word_entry(s: Seq<char>, a: (usize, Seq<char>)) -> bool {
    exists|j: int|
        0 <= j < s.len() && #[trigger] s[j] == ' ' && no_space_after(s, j) && parsed_usize(s.take(j)) == Some(a.0) && a.1
            == lower_str(s.skip(j + 1))
}

/// A line of a trace file of numbers that reads: a number, one space, a
/// number.
pub open spec fn number_fields(s: Seq<char>) -> bool {
    exists|j: int|
        0 <= j < s.len() && #[trigger] s[j] == ' ' && parsed_usize(s.take(j)) is Some && parsed_usize(s.skip(j + 1)) is Some
}

/// No space in `s` after position `j`.
pub open spec fn no_space_after(s: Seq<char>, j: int) -> bool {
    forall|m: int| j < m < s.len() ==> s[m] != ' '
}

/// A line of a trace file of words that reads: a number, one space, then
/// a word without spaces.
pub open spec fn word_fields(s: Seq<char>) -> bool {
    exists|j: int|
        0 <= j < s.len() && #[trigger] s[j] == ' ' && parsed_usize(s.take(j)) is Some && no_space_after(s, j)
}

/// The error a refused line gives.
pub open spec fn line_error(s: Seq<char>, line: usize) -> TraceError {
    if spaces_in(s) != 1 {
        TraceError::FieldCount { line, spaces: spaces_in(s) as usize }
    } else {
        TraceError::BadNumber { line }
    }
}

proof fn lemma_number_line(s: Seq<char>, line: usize)
    ensures
        number_line(s, line) is Ok <==> number_fields(s),
        number_line(s, line) matches Ok(p) ==> number_access(s, p),
        number_line(s, line) matches Err(e) ==> e == line_error(s, line),
{
    lemma_count_spaces(s);
    if number_fields(s) {
        let j = choose|j: int|
            0 <= j < s.len() && #[trigger] s[j] == ' ' && parsed_usize(s.take(j)) is Some && parsed_usize(
                s.skip(j + 1),
            ) is Some;
        lemma_parsed_no_space(s.take(j));
        lemma_parsed_no_space(s.skip(j + 1));
        assert forall|m: int| 0 <= m < s.len() && m != j implies s[m] != ' ' by {
            if m < j {
                assert(s.take(j)[m] == s[m]);
            } else {
                assert(s.skip(j + 1)[m - j - 1] == s[m]);
            }
        }
        lemma_one_space(s, j);
    }
    if count_spaces(s) == 1 {
        lemma_count_one(s);
        let j = first_space(s) as int;
        assert(field_before(s) == s.take(j));
        assert(field_after(s) == s.skip(j + 1));
    }
}

proof fn lemma_word_line(s: Seq<char>, line: usize)
    ensures
        word_line(s, line) is Ok <==> word_fields(s),
        word_line(s, line) matches Ok(p) ==> word_entry(s, p),
        word_line(s, line) matches Err(e) ==> e == line_error(s, line),
{
    lemma_count_spaces(s);
    if word_fields(s) {
        let j = choose|j: int|
            0 <= j < s.len() && #[trigger] s[j] == ' ' && parsed_usize(s.take(j)) is Some && no_space_after(s, j);
        lemma_parsed_no_space(s.take(j));
        assert forall|m: int| 0 <= m < s.len() && m != j implies s[m] != ' ' by {
            if m < j {
                assert(s.take(j)[m] == s[m]);
            }
        }
        lemma_one_space(s, j);
    }
    if count_spaces(s) == 1 {
        lemma_count_one(s);
        let j = first_space(s) as int;
        assert(field_before(s) == s.take(j));
        assert(field_after(s) == s.skip(j + 1));
    }
}

/// A trace file of numbers reads exactly when every line is a number, one
/// space and a number; then it has one access per line, in order, made of
/// the two numbers of the line.  Otherwise the error names the first line
/// that does not read: the number of spaces in it when that is not one, a
/// bad number when it is.
pub proof fn law_trace_file_one_access_per_line(lines: Seq<Seq<char>>)
    requires
        lines.len() <= usize::MAX,
    ensures
        number_trace(lines) is Ok <==> forall|i: int| 0 <= i < lines.len() ==> number_fields(#[trigger] lines[i]),
        number_trace(lines) matches Ok(t) ==> {
            &&& t.len() == lines.len()
            &&& forall|i: int| 0 <= i < lines.len() ==> number_access(#[trigger] lines[i], t[i])
        },
        number_trace(lines) matches Err(e) ==> exists|i: int|
            0 <= i < lines.len() && !number_fields(#[trigger] lines[i]) && (forall|k: int|
                0 <= k < i ==> number_fields(#[trigger] lines[k])) && e == line_error(lines[i], (i + 1) as usize),
    decreases lines.len(),
{
    if lines.len() > 0 {
        let p = lines.drop_last();
        let n = lines.len() - 1;
        law_trace_file_one_access_per_line(p);
        assert(lines[n] == lines.last());
        lemma_number_line(lines.last(), lines.len() as usize);
        assert forall|i: int| 0 <= i < n implies #[trigger] lines[i] == p[i] by {
        }
        if number_trace(p) is Ok {
            let t = number_trace(p)->Ok_0;
            if number_line(lines.last(), lines.len() as usize) is Ok {
                let q = number_line(lines.last(), lines.len() as usize)->Ok_0;
                let t2 = t.push(q);
                assert(number_trace(lines) == Ok::<Seq<(usize, usize)>, TraceError>(t2));
                assert forall|i: int| 0 <= i < lines.len() implies number_access(#[trigger] lines[i], t2[i]) by {
                    if i < n {
                        assert(t2[i] == t[i]);
                        assert(lines[i] == p[i]);
                    } else {
                        assert(t2[i] == q);
                    }
                }
            } else {
                assert(!number_fields(lines[n]));
            }
        } else {
            let i = choose|i: int|
                0 <= i < p.len() && !number_fields(#[trigger] p[i]) && (forall|k: int|
                    0 <= k < i ==> number_fields(#[trigger] p[k])) && number_trace(p)->Err_0 == line_error(
                    p[i],
                    (i + 1) as usize,
                );
            assert(lines[i] == p[i]);
            assert forall|k: int| 0 <= k < i implies number_fields(#[trigger] lines[k]) by {
                assert(lines[k] == p[k]);
            }
        }
        if forall|i: int| 0 <= i < lines.len() ==> number_fields(#[trigger] lines[i]) {
            assert forall|i: int| 0 <= i < p.len() implies number_fields(#[trigger] p[i]) by {
                assert(lines[i] == p[i]);
            }
            assert(number_fields(lines[n]));
        }
    }
}

/// A trace file of words reads exactly when every line is a number, one
/// space and a word without spaces; then it has one entry per line, in
/// order: the number of the line with the lowercase of its word.
/// Otherwise the error names the first line that does not read.
pub proof fn law_trace_words_one_entry_per_line(lines: Seq<Seq<char>>)
    requires
        lines.len() <= usize::MAX,
    ensures
        word_file_trace(lines) is Ok <==> forall|i: int| 0 <= i < lines.len() ==> word_fields(#[trigger] lines[i]),
        word_file_trace(lines) matches Ok(t) ==> {
            &&& t.len() == lines.len()
            &&& forall|i: int| 0 <= i < lines.len() ==> word_entry(#[trigger] lines[i], t[i])
        },
        word_file_trace(lines) matches Err(e) ==> exists|i: int|
            0 <= i < lines.len() && !word_fields(#[trigger] lines[i]) && (forall|k: int|
                0 <= k < i ==> word_fields(#[trigger] lines[k])) && e == line_error(lines[i], (i + 1) as usize),
    decreases lines.len(),
{
    if lines.len() > 0 {
        let p = lines.drop_last();
        let n = lines.len() - 1;
        law_trace_words_one_entry_per_line(p);
        assert(lines[n] == lines.last());
        lemma_word_line(lines.last(), lines.len() as usize);
        assert forall|i: int| 0 <= i < n implies #[trigger] lines[i] == p[i] by {
        }
        if word_file_trace(p) is Ok {
            let t = word_file_trace(p)->Ok_0;
            if word_line(lines.last(), lines.len() as usize) is Ok {
                let q = word_line(lines.last(), lines.len() as usize)->Ok_0;
                let t2 = t.push(q);
                assert(word_file_trace(lines) == Ok::<Seq<(usize, Seq<char>)>, TraceError>(t2));
                assert forall|i: int| 0 <= i < lines.len() implies word_entry(#[trigger] lines[i], t2[i]) by {
                    if i < n {
                        assert(t2[i] == t[i]);
                        assert(lines[i] == p[i]);
                    } else {
                        assert(t2[i] == q);
                    }
                }
            } else {
                assert(!word_fields(lines[n]));
            }
        } else {
            let i = choose|i: int|
                0 <= i < p.len() && !word_fields(#[trigger] p[i]) && (forall|k: int|
                    0 <= k < i ==> word_fields(#[trigger] p[k])) && word_file_trace(p)->Err_0 == line_error(
                    p[i],
                    (i + 1) as usize,
                );
            assert(lines[i] == p[i]);
            assert forall|k: int| 0 <= k < i implies word_fields(#[trigger] lines[k]) by {
                assert(lines[k] == p[k]);
            }
        }
        if forall|i: int| 0 <= i < lines.len() ==> word_fields(#[trigger] lines[i]) {
            assert forall|i: int| 0 <= i < p.len() implies word_fields(#[trigger] p[i]) by {
                assert(lines[i] == p[i]);
            }
            assert(word_fields(lines[n]));
        }
    }
}

/// The pieces of `s` are the ranges `b`: each a maximal run of
/// characters that are not white space, in order, and together holding
/// every character that is not white space.
pub open spec fn piece_ranges(s: Seq<char>, b: Seq<(int, int)>) -> bool {
    &&& forall|k: int| 0 <= k < b.len() ==> 0 <= (#[trigger] b[k]).0 < b[k].1 <= s.len()
    &&& forall|k: int, m: int|
        #![trigger b[k], s[m]]
        0 <= k < b.len() && b[k].0 <= m < b[k].1 ==> !whitespace(s[m])
    &&& forall|k: int| 0 <= k < b.len() ==> (#[trigger] b[k]).0 == 0 || whitespace(s[b[k].0 - 1])
    &&& forall|k: int| 0 <= k < b.len() ==> (#[trigger] b[k]).1 == s.len() || whitespace(s[b[k].1])
    &&& forall|k1: int, k2: int| 0 <= k1 < k2 < b.len() ==> (#[trigger] b[k1]).1 < (#[trigger] b[k2]).0
    &&& forall|m: int|
        0 <= m < s.len() && !whitespace(#[trigger] s[m]) ==> exists|k: int| 0 <= k < b.len() && (#[trigger] b[k]).0 <= m < b[k].1
}

/// The ranges of the finished pieces, and the start of the open one (-1
/// when none is open).
spec fn bounds_state(s: Seq<char>) -> (Seq<(int, int)>, int)
    decreases s.len(),
{
    if s.len() == 0 {
        (Seq::empty(), -1)
    } else {
        let r = bounds_state(s.drop_last());
        let i = s.len() - 1;
        if whitespace(s.last()) {
            if r.1 >= 0 {
                (r.0.push((r.1, i)), -1)
            } else {
                (r.0, -1)
            }
        } else {
            (r.0, if r.1 >= 0 { r.1 } else { i })
        }
    }
}

spec fn state_matches(s: Seq<char>) -> bool {
    let ps = piece_state(s);
    let r = bounds_state(s);
    let b = r.0;
    let st = r.1;
    &&& ps.1 <==> st >= 0
    &&& b.len() == ps.0.len()
    &&& forall|k: int| 0 <= k < b.len() ==> 0 <= (#[trigger] b[k]).0 < b[k].1 < s.len() && whitespace(s[b[k].1])
    &&& forall|k: int, m: int|
        #![trigger b[k], s[m]]
        0 <= k < b.len() && b[k].0 <= m < b[k].1 ==> !whitespace(s[m])
    &&& forall|k: int| 0 <= k < b.len() ==> (#[trigger] b[k]).0 == 0 || whitespace(s[b[k].0 - 1])
    &&& forall|k1: int, k2: int| 0 <= k1 < k2 < b.len() ==> (#[trigger] b[k1]).1 < (#[trigger] b[k2]).0
    &&& forall|k: int| 0 <= k < b.len() ==> #[trigger] ps.0[k] == alphabetic_chars(s.subrange(b[k].0, b[k].1))
    &&& ps.1 ==> {
        &&& 0 <= st < s.len()
        &&& forall|m: int| st <= m < s.len() ==> !whitespace(#[trigger] s[m])
        &&& st == 0 || whitespace(s[st - 1])
        &&& forall|k: int| 0 <= k < b.len() ==> (#[trigger] b[k]).1 < st
        &&& ps.2 == alphabetic_chars(s.subrange(st, s.len() as int))
    }
    &&& !ps.1 ==> s.len() == 0 || whitespace(s.last())
    &&& forall|m: int|
        0 <= m < s.len() && !whitespace(#[trigger] s[m]) ==> (exists|k: int|
            0 <= k < b.len() && (#[trigger] b[k]).0 <= m < b[k].1) || (ps.1 && st <= m)
}

proof fn lemma_state_matches(s: Seq<char>)
    ensures
        state_matches(s),
    decreases s.len(),
{
    if s.len() > 0 {
        let p = s.drop_last();
        let c = s.last();
        let i = p.len() as int;
        lemma_state_matches(p);
        assert(p.push(c) =~= s);
        assert forall|m: int| 0 <= m < i implies #[trigger] s[m] == p[m] by {
        }
        assert(s[i] == c);
        let pp = piece_state(p);
        let rp = bounds_state(p);
        let ps = piece_state(s);
        let r = bounds_state(s);
        let b = r.0;
        assert forall|k: int| 0 <= k < rp.0.len() implies s.subrange((#[trigger] rp.0[k]).0, rp.0[k].1) == p.subrange(
            rp.0[k].0,
            rp.0[k].1,
        ) by {
            assert(s.subrange(rp.0[k].0, rp.0[k].1) =~= p.subrange(rp.0[k].0, rp.0[k].1));
        }
        if whitespace(c) {
            if pp.1 {
                let st = rp.1;
                assert(b == rp.0.push((st, i)));
                assert(s.subrange(st, i) =~= p.subrange(st, i));
                assert(p.subrange(st, i) =~= p.subrange(st, p.len() as int));
                assert forall|k: int| 0 <= k < b.len() implies #[trigger] ps.0[k] == alphabetic_chars(
                    s.subrange(b[k].0, b[k].1),
                ) by {
                    if k < rp.0.len() {
                        assert(b[k] == rp.0[k]);
                    }
                }
                assert forall|k: int, m: int|
                    #![trigger b[k], s[m]]
                    0 <= k < b.len() && b[k].0 <= m < b[k].1 implies !whitespace(s[m]) by {
                    if k < rp.0.len() {
                        assert(b[k] == rp.0[k]);
                        assert(p[m] == s[m]);
                    } else {
                        assert(p[m] == s[m]);
                    }
                }
                assert forall|m: int|
                    0 <= m < s.len() && !whitespace(#[trigger] s[m]) implies (exists|k: int|
                        0 <= k < b.len() && (#[trigger] b[k]).0 <= m < b[k].1) || (ps.1 && r.1 <= m) by {
                    assert(m < i);
                    assert(p[m] == s[m]);
                    if exists|k: int| 0 <= k < rp.0.len() && (#[trigger] rp.0[k]).0 <= m < rp.0[k].1 {
                        let k = choose|k: int| 0 <= k < rp.0.len() && (#[trigger] rp.0[k]).0 <= m < rp.0[k].1;
                        assert(b[k] == rp.0[k]);
                    } else {
                        assert(b[rp.0.len() as int] == (st, i));
                    }
                }
                assert forall|k1: int, k2: int| 0 <= k1 < k2 < b.len() implies (#[trigger] b[k1]).1 < (#[trigger] b[k2]).0 by {
                    if k2 < rp.0.len() {
                        assert(b[k1] == rp.0[k1] && b[k2] == rp.0[k2]);
                    } else {
                        assert(b[k1] == rp.0[k1]);
                    }
                }
                assert forall|k: int| 0 <= k < b.len() implies 0 <= (#[trigger] b[k]).0 < b[k].1 < s.len() && whitespace(
                    s[b[k].1],
                ) && (b[k].0 == 0 || whitespace(s[b[k].0 - 1])) by {
                    if k < rp.0.len() {
                        assert(b[k] == rp.0[k]);
                        assert(s[b[k].1] == p[b[k].1]);
                        if b[k].0 > 0 {
                            assert(s[b[k].0 - 1] == p[b[k].0 - 1]);
                        }
                    } else {
                        if st > 0 {
                            assert(s[st - 1] == p[st - 1]);
                        }
                    }
                }
            } else {
                assert(b == rp.0);
                assert forall|k: int| 0 <= k < b.len() implies #[trigger] ps.0[k] == alphabetic_chars(
                    s.subrange(b[k].0, b[k].1),
                ) by {
                }
                assert forall|k: int, m: int|
                    #![trigger b[k], s[m]]
                    0 <= k < b.len() && b[k].0 <= m < b[k].1 implies !whitespace(s[m]) by {
                    assert(p[m] == s[m]);
                    assert(b[k] == rp.0[k]);
                }
                assert forall|m: int|
                    0 <= m < s.len() && !whitespace(#[trigger] s[m]) implies (exists|k: int|
                        0 <= k < b.len() && (#[trigger] b[k]).0 <= m < b[k].1) || (ps.1 && r.1 <= m) by {
                    assert(m < i);
                    assert(p[m] == s[m]);
                }
                assert forall|k: int| 0 <= k < b.len() implies 0 <= (#[trigger] b[k]).0 < b[k].1 < s.len() && whitespace(
                    s[b[k].1],
                ) && (b[k].0 == 0 || whitespace(s[b[k].0 - 1])) by {
                    assert(s[b[k].1] == p[b[k].1]);
                    if b[k].0 > 0 {
                        assert(s[b[k].0 - 1] == p[b[k].0 - 1]);
                    }
                }
            }
        } else {
            assert(b == rp.0);
            let st = r.1;
            lemma_alphabetic_push(s.subrange(st, i), c);
            assert(s.subrange(st, i).push(c) =~= s.subrange(st, s.len() as int));
            if pp.1 {
                assert(s.subrange(st, i) =~= p.subrange(st, p.len() as int));
                if st > 0 {
                    assert(s[st - 1] == p[st - 1]);
                }
            } else {
                assert(st == i);
                assert(s.subrange(st, i) =~= Seq::<char>::empty());
                reveal(Seq::filter);
                assert(alphabetic_chars(Seq::<char>::empty()) =~= Seq::<char>::empty());
                if i > 0 {
                    assert(p.last() == p[i - 1]);
                }
            }
            assert forall|m: int| st <= m < s.len() implies !whitespace(#[trigger] s[m]) by {
                if m < i {
                    assert(p[m] == s[m]);
                }
            }
            assert forall|k: int| 0 <= k < b.len() implies #[trigger] ps.0[k] == alphabetic_chars(
                s.subrange(b[k].0, b[k].1),
            ) by {
            }
            assert forall|k: int, m: int|
                #![trigger b[k], s[m]]
                0 <= k < b.len() && b[k].0 <= m < b[k].1 implies !whitespace(s[m]) by {
                assert(p[m] == s[m]);
                assert(b[k] == rp.0[k]);
            }
            assert forall|m: int|
                0 <= m < s.len() && !whitespace(#[trigger] s[m]) implies (exists|k: int|
                    0 <= k < b.len() && (#[trigger] b[k]).0 <= m < b[k].1) || (ps.1 && r.1 <= m) by {
                if m < i {
                    assert(p[m] == s[m]);
                }
            }
            assert forall|k: int| 0 <= k < b.len() implies 0 <= (#[trigger] b[k]).0 < b[k].1 < s.len() && whitespace(
                s[b[k].1],
            ) && (b[k].0 == 0 || whitespace(s[b[k].0 - 1])) by {
                assert(s[b[k].1] == p[b[k].1]);
                if b[k].0 > 0 {
                    assert(s[b[k].0 - 1] == p[b[k].0 - 1]);
                }
            }
        }
    } else {
        assert(piece_state(s) == (Seq::<Seq<char>>::empty(), false, Seq::<char>::empty()));
    }
}

/// A text read as a trace of words has one word per whitespace-separated
/// piece of the text, in order: word `k` (from 0) is at time `k + 1` and is
/// the lowercase of exactly the alphabetic characters of piece `k`, whatever
/// other characters the piece holds and wherever they stand.
pub proof fn law_word_trace_one_word_per_piece(s: Seq<char>)
    ensures
        exists|b: Seq<(int, int)>|
            #[trigger] piece_ranges(s, b) && text_word_trace(s).len() == b.len() && forall|k: int|
                0 <= k < b.len() ==> #[trigger] text_word_trace(s)[k] == (
                    (k + 1) as usize,
                    lower_str(alphabetic_chars(s.subrange(b[k].0, b[k].1))),
                ),
{
    lemma_state_matches(s);
    let ps = piece_state(s);
    let r = bounds_state(s);
    let b = if ps.1 { r.0.push((r.1, s.len() as int)) } else { r.0 };
    let ws = text_word_trace(s);
    assert(pieces(s) == (if ps.1 { ps.0.push(ps.2) } else { ps.0 }));
    assert(pieces(s).len() == b.len());
    assert forall|k: int| 0 <= k < b.len() implies #[trigger] pieces(s)[k] == alphabetic_chars(s.subrange(b[k].0, b[k].1)) by {
        if k < r.0.len() {
            assert(b[k] == r.0[k]);
            assert(pieces(s)[k] == ps.0[k]);
        }
    }
    assert forall|k: int| 0 <= k < b.len() implies #[trigger] ws[k] == (
        (k + 1) as usize,
        lower_str(alphabetic_chars(s.subrange(b[k].0, b[k].1))),
    ) by {
        assert(pieces(s)[k] == alphabetic_chars(s.subrange(b[k].0, b[k].1)));
    }
    assert(piece_ranges(s, b)) by {
        assert forall|k: int| 0 <= k < b.len() implies 0 <= (#[trigger] b[k]).0 < b[k].1 <= s.len() && (b[k].0 == 0
            || whitespace(s[b[k].0 - 1])) && (b[k].1 == s.len() || whitespace(s[b[k].1])) by {
            if k < r.0.len() {
                assert(b[k] == r.0[k]);
            }
        }
        assert forall|k: int, m: int|
            #![trigger b[k], s[m]]
            0 <= k < b.len() && b[k].0 <= m < b[k].1 implies !whitespace(s[m]) by {
            if k < r.0.len() {
                assert(b[k] == r.0[k]);
            }
        }
        assert forall|k1: int, k2: int| 0 <= k1 < k2 < b.len() implies (#[trigger] b[k1]).1 < (#[trigger] b[k2]).0 by {
            assert(b[k1] == r.0[k1]);
            if k2 < r.0.len() {
                assert(b[k2] == r.0[k2]);
            }
        }
        assert forall|m: int| 0 <= m < s.len() && !whitespace(#[trigger] s[m]) implies exists|k: int|
            0 <= k < b.len() && (#[trigger] b[k]).0 <= m < b[k].1 by {
            if exists|k: int| 0 <= k < r.0.len() && (#[trigger] r.0[k]).0 <= m < r.0[k].1 {
                let k = choose|k: int| 0 <= k < r.0.len() && (#[trigger] r.0[k]).0 <= m < r.0[k].1;
                assert(b[k] == r.0[k]);
            } else {
                assert(b[r.0.len() as int] == (r.1, s.len() as int));
            }
        }
    }
}

proof fn lemma_trim_start_at(s: Seq<char>) -> (lo: int)
    ensures
        0 <= lo <= s.len(),
        trim_start(s) == s.subrange(lo, s.len() as int),
        forall|m: int| 0 <= m < lo ==> whitespace(#[trigger] s[m]),
        lo < s.len() ==> !whitespace(s[lo]),
    decreases s.len(),
{
    if s.len() > 0 && whitespace(s[0]) {
        let d = s.drop_first();
        let l = lemma_trim_start_at(d);
        assert(d.subrange(l, d.len() as int) =~= s.subrange(l + 1, s.len() as int));
        assert forall|m: int| 0 <= m < l + 1 implies whitespace(#[trigger] s[m]) by {
            if m > 0 {
                assert(s[m] == d[m - 1]);
            }
        }
        if l + 1 < s.len() {
            assert(s[l + 1] == d[l]);
        }
        l + 1
    } else {
        assert(s.subrange(0, s.len() as int) =~= s);
        0
    }
}

proof fn lemma_trim_end_at(s: Seq<char>) -> (hi: int)
    ensures
        0 <= hi <= s.len(),
        trim_end(s) == s.take(hi),
        forall|m: int| hi <= m < s.len() ==> whitespace(#[trigger] s[m]),
        hi > 0 ==> !whitespace(s[hi - 1]),
    decreases s.len(),
{
    if s.len() > 0 && whitespace(s.last()) {
        let d = s.drop_last();
        let h = lemma_trim_end_at(d);
        assert(d.take(h) =~= s.take(h));
        assert forall|m: int| h <= m < s.len() implies whitespace(#[trigger] s[m]) by {
            if m < d.len() {
                assert(s[m] == d[m]);
            }
        }
        if h > 0 {
            assert(s[h - 1] == d[h - 1]);
        }
        h
    } else {
        assert(s.take(s.len() as int) =~= s);
        s.len() as int
    }
}

/// Trimming a line drops exactly its leading and trailing white space:
/// what stays is a stretch of the line that neither starts nor ends with
/// white space, with only white space before and after it.
pub proof fn law_trimmed_drops_outer_white_space(s: Seq<char>)
    ensures
        exists|lo: int, hi: int|
            #![trigger s.subrange(lo, hi)]
            0 <= lo <= hi <= s.len() && trimmed(s) == s.subrange(lo, hi) && (forall|m: int|
                0 <= m < lo ==> whitespace(#[trigger] s[m])) && (forall|m: int|
                hi <= m < s.len() ==> whitespace(#[trigger] s[m])) && (lo < hi ==> !whitespace(s[lo]) && !whitespace(
                s[hi - 1],
            )),
{
    let lo = lemma_trim_start_at(s);
    let t = s.subrange(lo, s.len() as int);
    let h = lemma_trim_end_at(t);
    let hi = lo + h;
    assert(t.take(h) =~= s.subrange(lo, hi));
    assert forall|m: int| hi <= m < s.len() implies whitespace(#[trigger] s[m]) by {
        assert(s[m] == t[m - lo]);
    }
    if lo < hi {
        assert(s[lo] == t[0]);
        assert(s[hi - 1] == t[h - 1]);
        if h > 0 && whitespace(t[0]) {
            assert(t[0] == s[lo]);
        }
    }
    assert(trimmed(s) == s.subrange(lo, hi));
}

/// A typed window size is taken exactly when the trimmed line reads as a
/// number from 2 up to the length of the trace less `start`; it is then
/// that number.
pub proof fn law_window_size_in_range(trace_length: usize, start: usize, s: Seq<char>)
    requires
        start <= trace_length,
    ensures
        forall|v: usize|
            #[trigger] window_choice(trace_length, start, s) == Some(v) <==> (parsed_usize(trimmed(s)) == Some(v) && 2
                <= v <= trace_length - start),
        window_choice(trace_length, start, s) is None <==> (parsed_usize(trimmed(s)) is None || parsed_usize(
            trimmed(s),
        )->0 < 2 || parsed_usize(trimmed(s))->0 > trace_length - start),
{
}

} // verus!
