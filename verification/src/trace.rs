//! Reading traces: files of `"time element"` lines, plain text read as a
//! trace of letters or of words, and a trace typed in by a user.
use vstd::prelude::*;
use crate::text::{
    alphabetic, whitespace, lower_char, lower_str, parsed_usize, is_alphabetic, is_whitespace,
    to_lowercase_char, to_lowercase_str, parse_usize, chars_of,
};

verus! {

/// Why a trace file was refused; lines count from 1.
#[derive(Debug, Clone, Copy, PartialEq, Eq, Structural)]
pub enum TraceError {
    /// The line does not hold exactly two fields separated by one space
    /// (`spaces` is the number of spaces in it).
    FieldCount { line: usize, spaces: usize },
    /// A field that must be a number is not one.
    BadNumber { line: usize },
}

/// Number of spaces in `s`.
pub open spec fn count_spaces(s: Seq<char>) -> nat
    decreases s.len(),
{
    if s.len() == 0 {
        0
    } else {
        count_spaces(s.drop_last()) + (if s.last() == ' ' {
            1nat
        } else {
            0nat
        })
    }
}

/// Index of the first space in `s` (`s.len()` if none).
pub open spec fn first_space(s: Seq<char>) -> nat
    decreases s.len(),
{
    if s.len() == 0 {
        0
    } else if s[0] == ' ' {
        0
    } else {
        1 + first_space(s.drop_first())
    }
}

/// The text before the first space.
pub open spec fn field_before(s: Seq<char>) -> Seq<char> {
    s.take(first_space(s) as int)
}

/// The text after the first space.
pub open spec fn field_after(s: Seq<char>) -> Seq<char> {
    s.skip(first_space(s) + 1int)
}

/// Line number `line` of a trace file of numbers, read.
pub open spec fn number_line(s: Seq<char>, line: usize) -> Result<(usize, usize), TraceError> {
    if count_spaces(s) != 1 {
        Err(TraceError::FieldCount { line, spaces: count_spaces(s) as usize })
    } else {
        match (parsed_usize(field_before(s)), parsed_usize(field_after(s))) {
            (Some(t), Some(e)) => Ok((t, e)),
            _ => Err(TraceError::BadNumber { line }),
        }
    }
}

/// Line number `line` of a trace file of words, read: the word is lowercased.
pub open spec fn word_line(s: Seq<char>, line: usize) -> Result<(usize, Seq<char>), TraceError> {
    if count_spaces(s) != 1 {
        Err(TraceError::FieldCount { line, spaces: count_spaces(s) as usize })
    } else {
        match parsed_usize(field_before(s)) {
            Some(t) => Ok((t, lower_str(field_after(s)))),
            None => Err(TraceError::BadNumber { line }),
        }
    }
}

/// A trace file of numbers, read line by line; the first bad line refuses it.
pub open spec fn number_trace(lines: Seq<Seq<char>>) -> Result<Seq<(usize, usize)>, TraceError>
    decreases lines.len(),
{
    if lines.len() == 0 {
        Ok(Seq::empty())
    } else {
        match number_trace(lines.drop_last()) {
            Ok(t) => match number_line(lines.last(), lines.len() as usize) {
                Ok(p) => Ok(t.push(p)),
                Err(e) => Err(e),
            },
            Err(e) => Err(e),
        }
    }
}

/// A trace file of words, read line by line; the first bad line refuses it.
pub open spec fn word_file_trace(lines: Seq<Seq<char>>) -> Result<Seq<(usize, Seq<char>)>, TraceError>
    decreases lines.len(),
{
    if lines.len() == 0 {
        Ok(Seq::empty())
    } else {
        match word_file_trace(lines.drop_last()) {
            Ok(t) => match word_line(lines.last(), lines.len() as usize) {
                Ok(p) => Ok(t.push(p)),
                Err(e) => Err(e),
            },
            Err(e) => Err(e),
        }
    }
}

/// The text of each line.
pub open spec fn line_texts(split: Seq<&str>) -> Seq<Seq<char>> {
    split.map_values(|s: &str| s@)
}

/// Counts the spaces of a line and finds the first.
fn split_line(s: &Vec<char>) -> (r: (usize, usize))
    ensures
        r.0 == count_spaces(s@),
        r.1 == first_space(s@),
{
    let mut spaces: usize = 0;
    let mut first: usize = s.len();
    let mut i: usize = 0;
    proof {
        lemma_first_space_le(s@);
    }
    while i < s.len()
        invariant
            i <= s.len(),
            spaces == count_spaces(s@.take(i as int)),
            spaces <= i,
            first == (if first_space(s@) < i { first_space(s@) } else { s.len() as nat }),
            first_space(s@) <= s@.len(),
        decreases s.len() - i,
    {
        proof {
            assert(s@.take(i + 1).drop_last() =~= s@.take(i as int));
            if first_space(s@) >= i {
                lemma_first_space(s@, i as int);
            }
        }
        if s[i] == ' ' {
            spaces = spaces + 1;
            if first == s.len() {
                first = i;
            }
        }
        i = i + 1;
    }
    proof {
        assert(s@.take(i as int) =~= s@);
    }
    (spaces, first)
}

proof fn lemma_first_space(s: Seq<char>, i: int)
    requires
        0 <= i < s.len(),
        first_space(s) >= i,
    ensures
        first_space(s) <= s.len(),
        s[i] == ' ' ==> first_space(s) == i,
        s[i] != ' ' ==> first_space(s) > i,
    decreases s.len(),
{
    if i > 0 {
        assert(s[0] != ' ');
        lemma_first_space(s.drop_first(), i - 1);
    } else {
        lemma_first_space_le(s);
    }
}

proof fn lemma_first_space_le(s: Seq<char>)
    ensures
        first_space(s) <= s.len(),
    decreases s.len(),
{
    if s.len() > 0 && s[0] != ' ' {
        lemma_first_space_le(s.drop_first());
    }
}

fn slice_chars(s: &Vec<char>, lo: usize, hi: usize) -> (r: Vec<char>)
    requires
        lo <= hi <= s.len(),
    ensures
        r@ == s@.subrange(lo as int, hi as int),
{
    let mut r: Vec<char> = Vec::new();
    let mut i = lo;
    while i < hi
        invariant
            lo <= i <= hi <= s.len(),
            r@ == s@.subrange(lo as int, i as int),
        decreases hi - i,
    {
        r.push(s[i]);
        i = i + 1;
        assert(r@ =~= s@.subrange(lo as int, i as int));
    }
    r
}

/// The two fields of a line with exactly one space.
fn fields_of(s: &Vec<char>, first: usize) -> (r: (Vec<char>, Vec<char>))
    requires
        first == first_space(s@),
        first < s.len(),
    ensures
        r.0@ == field_before(s@),
        r.1@ == field_after(s@),
{
    let a = slice_chars(s, 0, first);
    let b = slice_chars(s, first + 1, s.len());
    assert(a@ =~= field_before(s@));
    assert(b@ =~= field_after(s@));
    (a, b)
}

/// Reads a trace file of `"time element"` lines, both numbers.
pub fn get_trace_file(split: Vec<&str>) -> (r: Result<Vec<(usize, usize)>, TraceError>)
    ensures
        match r {
            Ok(t) => number_trace(line_texts(split@)) == Ok::<Seq<(usize, usize)>, TraceError>(t@),
            Err(e) => number_trace(line_texts(split@)) == Err::<Seq<(usize, usize)>, TraceError>(e),
        },
{
    let mut trace: Vec<(usize, usize)> = Vec::new();
    let mut i: usize = 0;
    while i < split.len()
        invariant
            i <= split.len(),
            number_trace(line_texts(split@).take(i as int)) == Ok::<Seq<(usize, usize)>, TraceError>(trace@),
        decreases split.len() - i,
    {
        let ghost lines = line_texts(split@);
        proof {
            assert(lines.take(i + 1).drop_last() =~= lines.take(i as int));
            assert(lines.take(i + 1).last() == split@[i as int]@);
        }
        let line = chars_of(split[i]);
        let (spaces, first) = split_line(&line);
        if spaces != 1 {
            proof {
                lemma_number_trace_stops(lines, i as int);
            }
            return Err(TraceError::FieldCount { line: i + 1, spaces });
        }
        proof {
            if first >= line.len() {
                lemma_no_space(line@);
            }
        }
        let (a, b) = fields_of(&line, first);
        let time = parse_usize(&a);
        let element = parse_usize(&b);
        match (time, element) {
            (Some(t), Some(e)) => {
                trace.push((t, e));
            },
            _ => {
                proof {
                    lemma_number_trace_stops(lines, i as int);
                }
                return Err(TraceError::BadNumber { line: i + 1 });
            },
        }
        i = i + 1;
    }
    proof {
        assert(line_texts(split@).take(i as int) =~= line_texts(split@));
    }
    Ok(trace)
}

proof fn lemma_no_space(s: Seq<char>)
    requires
        first_space(s) >= s.len(),
    ensures
        count_spaces(s) == 0,
    decreases s.len(),
{
    if s.len() > 0 {
        assert(s[0] != ' ');
        assert forall|i: int| 0 <= i < s.len() implies s[i] != ' ' by {
            lemma_no_space_at(s, i);
        }
        lemma_no_spaces_count(s);
    }
}

proof fn lemma_no_space_at(s: Seq<char>, i: int)
    requires
        first_space(s) >= s.len(),
        0 <= i < s.len(),
    ensures
        s[i] != ' ',
    decreases s.len(),
{
    if i > 0 {
        lemma_no_space_at(s.drop_first(), i - 1);
    }
}

proof fn lemma_no_spaces_count(s: Seq<char>)
    requires
        forall|i: int| 0 <= i < s.len() ==> s[i] != ' ',
    ensures
        count_spaces(s) == 0,
    decreases s.len(),
{
    if s.len() > 0 {
        lemma_no_spaces_count(s.drop_last());
    }
}

/// A refused line refuses the whole file: once the prefix reads, the file
/// reads to the first line that fails.
proof fn lemma_number_trace_stops(lines: Seq<Seq<char>>, i: int)
    requires
        0 <= i < lines.len(),
        number_trace(lines.take(i)) is Ok,
        number_line(lines[i], (i + 1) as usize) is Err,
    ensures
        number_trace(lines) == Err::<Seq<(usize, usize)>, TraceError>(
            number_line(lines[i], (i + 1) as usize)->Err_0,
        ),
    decreases lines.len(),
{
    assert(lines.take(i + 1).drop_last() =~= lines.take(i));
    if i + 1 < lines.len() {
        assert(lines.drop_last().take(i) =~= lines.take(i));
        assert(lines.drop_last()[i] == lines[i]);
        lemma_number_trace_stops(lines.drop_last(), i);
    } else {
        assert(lines.take(i + 1) =~= lines);
        assert(lines.drop_last() =~= lines.take(i));
    }
}

proof fn lemma_word_trace_stops(lines: Seq<Seq<char>>, i: int)
    requires
        0 <= i < lines.len(),
        word_file_trace(lines.take(i)) is Ok,
        word_line(lines[i], (i + 1) as usize) is Err,
    ensures
        word_file_trace(lines) == Err::<Seq<(usize, Seq<char>)>, TraceError>(
            word_line(lines[i], (i + 1) as usize)->Err_0,
        ),
    decreases lines.len(),
{
    assert(lines.take(i + 1).drop_last() =~= lines.take(i));
    if i + 1 < lines.len() {
        assert(lines.drop_last().take(i) =~= lines.take(i));
        assert(lines.drop_last()[i] == lines[i]);
        lemma_word_trace_stops(lines.drop_last(), i);
    } else {
        assert(lines.take(i + 1) =~= lines);
        assert(lines.drop_last() =~= lines.take(i));
    }
}

/// The words of a trace of words, as character sequences.
pub open spec fn word_texts(t: Seq<(usize, String)>) -> Seq<(usize, Seq<char>)> {
    t.map_values(|p: (usize, String)| (p.0, p.1@))
}

/// Reads a trace file of `"time word"` lines; words are lowercased.
pub fn get_trace_words(split: Vec<&str>) -> (r: Result<Vec<(usize, String)>, TraceError>)
    ensures
        match r {
            Ok(t) => word_file_trace(line_texts(split@)) == Ok::<Seq<(usize, Seq<char>)>, TraceError>(word_texts(t@)),
            Err(e) => word_file_trace(line_texts(split@)) == Err::<Seq<(usize, Seq<char>)>, TraceError>(e),
        },
{
    let mut trace: Vec<(usize, String)> = Vec::new();
    let mut i: usize = 0;
    proof {
        assert(line_texts(split@).take(0) =~= Seq::<Seq<char>>::empty());
        assert(word_texts(trace@) =~= Seq::<(usize, Seq<char>)>::empty());
    }
    while i < split.len()
        invariant
            i <= split.len(),
            word_file_trace(line_texts(split@).take(i as int)) == Ok::<Seq<(usize, Seq<char>)>, TraceError>(
                word_texts(trace@),
            ),
        decreases split.len() - i,
    {
        let ghost lines = line_texts(split@);
        proof {
            assert(lines.take(i + 1).drop_last() =~= lines.take(i as int));
            assert(lines.take(i + 1).last() == split@[i as int]@);
        }
        let line = chars_of(split[i]);
        let (spaces, first) = split_line(&line);
        if spaces != 1 {
            proof {
                lemma_word_trace_stops(lines, i as int);
            }
            return Err(TraceError::FieldCount { line: i + 1, spaces });
        }
        proof {
            if first >= line.len() {
                lemma_no_space(line@);
            }
        }
        let (a, b) = fields_of(&line, first);
        match parse_usize(&a) {
            Some(t) => {
                let w = to_lowercase_str(&b);
                let ghost old_trace = trace@;
                trace.push((t, w));
                proof {
                    assert(word_texts(trace@) =~= word_texts(old_trace).push((t, w@)));
                }
            },
            None => {
                proof {
                    lemma_word_trace_stops(lines, i as int);
                }
                return Err(TraceError::BadNumber { line: i + 1 });
            },
        }
        i = i + 1;
    }
    proof {
        assert(line_texts(split@).take(i as int) =~= line_texts(split@));
    }
    Ok(trace)
}

/// Plain text read as a trace of letters: every alphabetic character, in
/// order, lowercased (first character of its lowercase mapping), at times
/// 1, 2, 3, ...
pub open spec fn letter_trace(s: Seq<char>) -> Seq<(usize, usize)>
    decreases s.len(),
{
    if s.len() == 0 {
        Seq::empty()
    } else {
        let prev = letter_trace(s.drop_last());
        if alphabetic(s.last()) {
            prev.push(((prev.len() + 1) as usize, (lower_char(s.last())[0] as u32) as usize))
        } else {
            prev
        }
    }
}

proof fn lemma_letter_trace_len(s: Seq<char>)
    ensures
        letter_trace(s).len() <= s.len(),
    decreases s.len(),
{
    if s.len() > 0 {
        lemma_letter_trace_len(s.drop_last());
    }
}

/// Reads plain text as a trace of letters.
pub fn letter_trace_of(contents: &str) -> (r: Vec<(usize, usize)>)
    ensures
        r@ == letter_trace(contents@),
{
    let chars = chars_of(contents);
    let mut trace: Vec<(usize, usize)> = Vec::new();
    let mut i: usize = 0;
    proof {
        assert(chars@.take(0) =~= Seq::<char>::empty());
    }
    while i < chars.len()
        invariant
            i <= chars.len(),
            chars@ == contents@,
            trace@ == letter_trace(chars@.take(i as int)),
            trace@.len() <= i,
        decreases chars.len() - i,
    {
        let c = chars[i];
        proof {
            assert(chars@.take(i + 1).drop_last() =~= chars@.take(i as int));
            assert(chars@.take(i + 1).last() == c);
        }
        if is_alphabetic(c) {
            let lower = to_lowercase_char(c);
            let code = lower[0] as u32 as usize;
            let time = trace.len() + 1;
            trace.push((time, code));
        }
        i = i + 1;
    }
    proof {
        assert(chars@.take(i as int) =~= chars@);
    }
    trace
}

/// Whitespace splitting with the alphabetic characters of each piece kept:
/// the pieces finished so far, whether a piece is open, and the letters of
/// the open piece.
pub open spec fn piece_state(s: Seq<char>) -> (Seq<Seq<char>>, bool, Seq<char>)
    decreases s.len(),
{
    if s.len() == 0 {
        (Seq::empty(), false, Seq::empty())
    } else {
        let (done, open, cur) = piece_state(s.drop_last());
        let c = s.last();
        if whitespace(c) {
            if open {
                (done.push(cur), false, Seq::empty())
            } else {
                (done, false, Seq::empty())
            }
        } else {
            (done, true, if alphabetic(c) { cur.push(c) } else { cur })
        }
    }
}

/// The letters of each whitespace-separated piece of `s`, in order (a piece
/// with no letter gives an empty word).
pub open spec fn pieces(s: Seq<char>) -> Seq<Seq<char>> {
    let (done, open, cur) = piece_state(s);
    if open {
        done.push(cur)
    } else {
        done
    }
}

/// Plain text read as a trace of words: piece `k` (from 1) of the text,
/// its letters lowercased, at time `k`.
pub open spec fn text_word_trace(s: Seq<char>) -> Seq<(usize, Seq<char>)> {
    Seq::new(pieces(s).len(), |k: int| ((k + 1) as usize, lower_str(pieces(s)[k])))
}

proof fn lemma_piece_state_len(s: Seq<char>)
    ensures
        piece_state(s).0.len() <= s.len(),
        piece_state(s).1 ==> piece_state(s).0.len() < s.len(),
    decreases s.len(),
{
    if s.len() > 0 {
        lemma_piece_state_len(s.drop_last());
    }
}

/// Reads plain text as a trace of words.
pub fn word_trace_of(contents: &str) -> (r: Vec<(usize, String)>)
    ensures
        word_texts(r@) == text_word_trace(contents@),
{
    let chars = chars_of(contents);
    let mut trace: Vec<(usize, String)> = Vec::new();
    let mut open = false;
    let mut cur: Vec<char> = Vec::new();
    let mut i: usize = 0;
    proof {
        assert(chars@.take(0) =~= Seq::<char>::empty());
    }
    while i < chars.len()
        invariant
            i <= chars.len(),
            chars@ == contents@,
            piece_state(chars@.take(i as int)) == (
                Seq::new(trace@.len(), |k: int| piece_state(chars@.take(i as int)).0[k]),
                open,
                cur@,
            ),
            word_texts(trace@) == Seq::new(
                trace@.len(),
                |k: int| ((k + 1) as usize, lower_str(piece_state(chars@.take(i as int)).0[k])),
            ),
            piece_state(chars@.take(i as int)).0.len() == trace@.len(),
            trace@.len() <= i,
            open ==> trace@.len() < i,
        decreases chars.len() - i,
    {
        let c = chars[i];
        let ghost pre = chars@.take(i as int);
        proof {
            assert(chars@.take(i + 1).drop_last() =~= pre);
            assert(chars@.take(i + 1).last() == c);
        }
        if is_whitespace(c) {
            if open {
                let w = to_lowercase_str(&cur);
                let ghost old_trace = trace@;
                let time = trace.len() + 1;
                trace.push((time, w));
                proof {
                    let st = piece_state(chars@.take(i + 1));
                    assert(st.0 == piece_state(pre).0.push(cur@));
                    lemma_words_push(old_trace, piece_state(pre).0, cur@, w);
                }
            }
            open = false;
            cur = Vec::new();
        } else {
            open = true;
            if is_alphabetic(c) {
                cur.push(c);
            }
        }
        i = i + 1;
        proof {
            let st = piece_state(chars@.take(i as int));
            assert(st.0 =~= Seq::new(trace@.len(), |k: int| st.0[k]));
            assert(word_texts(trace@) =~= Seq::new(
                trace@.len(),
                |k: int| ((k + 1) as usize, lower_str(st.0[k])),
            ));
        }
    }
    proof {
        assert(chars@.take(i as int) =~= chars@);
    }
    let ghost done = piece_state(chars@).0;
    if open {
        let w = to_lowercase_str(&cur);
        let ghost old_trace = trace@;
        let time = trace.len() + 1;
        trace.push((time, w));
        proof {
            lemma_words_push(old_trace, done, cur@, w);
        }
    }
    proof {
        assert(word_texts(trace@) =~= text_word_trace(contents@));
    }
    trace
}

proof fn lemma_words_push(trace: Seq<(usize, String)>, done: Seq<Seq<char>>, cur: Seq<char>, w: String)
    requires
        word_texts(trace) == Seq::new(trace.len(), |k: int| ((k + 1) as usize, lower_str(done[k]))),
        done.len() == trace.len(),
        w@ == lower_str(cur),
    ensures
        word_texts(trace.push(((trace.len() + 1) as usize, w))) == Seq::new(
            trace.len() + 1,
            |k: int| ((k + 1) as usize, lower_str(done.push(cur)[k])),
        ),
{
    let t2 = trace.push(((trace.len() + 1) as usize, w));
    assert forall|k: int| 0 <= k < trace.len() + 1 implies #[trigger] word_texts(t2)[k] == ((k + 1) as usize, lower_str(done.push(cur)[k])) by {
        if k < trace.len() {
            assert(t2[k] == trace[k]);
            assert(word_texts(trace)[k] == ((k + 1) as usize, lower_str(done[k])));
        }
    }
    assert(word_texts(t2) =~= Seq::new(trace.len() + 1, |k: int| ((k + 1) as usize, lower_str(done.push(cur)[k]))));
}

} // verus!
