use lib::trace::{get_trace_file, get_trace_words, letter_trace_of, word_trace_of, TraceError};

#[test]
fn trace_file_lines_are_read() {
    let r = get_trace_file(vec!["1 97", "2 98", "3 97"]);
    assert_eq!(r, Ok(vec![(1, 97), (2, 98), (3, 97)]));
}

#[test]
fn trace_file_accepts_a_plus_sign() {
    assert_eq!(get_trace_file(vec!["+1 +5"]), Ok(vec![(1, 5)]));
}

#[test]
fn trace_file_with_three_fields_is_refused() {
    let r = get_trace_file(vec!["1 97", "2 98 99"]);
    assert_eq!(r, Err(TraceError::FieldCount { line: 2, spaces: 2 }));
}

#[test]
fn trace_file_with_one_field_is_refused() {
    let r = get_trace_file(vec!["197"]);
    assert_eq!(r, Err(TraceError::FieldCount { line: 1, spaces: 0 }));
}

#[test]
fn trace_file_trailing_empty_line_is_refused() {
    let r = get_trace_file(vec!["1 5", "2 6", ""]);
    assert_eq!(r, Err(TraceError::FieldCount { line: 3, spaces: 0 }));
}

#[test]
fn trace_file_with_a_bad_number_is_refused() {
    assert_eq!(get_trace_file(vec!["1 x"]), Err(TraceError::BadNumber { line: 1 }));
    assert_eq!(get_trace_file(vec!["1 2", "-1 2"]), Err(TraceError::BadNumber { line: 2 }));
    assert_eq!(get_trace_file(vec!["1 "]), Err(TraceError::BadNumber { line: 1 }));
}

#[test]
fn first_bad_line_decides_the_error() {
    let r = get_trace_file(vec!["a b", "1 2 3"]);
    assert_eq!(r, Err(TraceError::BadNumber { line: 1 }));
}

#[test]
fn trace_words_are_lowercased() {
    let r = get_trace_words(vec!["1 Hello", "2 WORLD", "3 hello"]);
    assert_eq!(
        r,
        Ok(vec![(1, "hello".to_string()), (2, "world".to_string()), (3, "hello".to_string())])
    );
}

#[test]
fn trace_words_errors() {
    assert_eq!(get_trace_words(vec!["1 a b"]), Err(TraceError::FieldCount { line: 1, spaces: 2 }));
    assert_eq!(get_trace_words(vec!["x a"]), Err(TraceError::BadNumber { line: 1 }));
    assert_eq!(get_trace_words(vec!["4 "]), Ok(vec![(4, String::new())]));
}

#[test]
fn text_is_read_as_lowercase_letters() {
    let t = letter_trace_of("Ab, c!\n9d");
    assert_eq!(t, vec![(1, 97), (2, 98), (3, 99), (4, 100)]);
    assert_eq!(letter_trace_of("123 !?"), vec![]);
    assert_eq!(letter_trace_of("É"), vec![(1, 'é' as usize)]);
}

#[test]
fn text_is_read_as_words() {
    let t = word_trace_of("Hello, World!  hello\n42 x");
    let words: Vec<(usize, &str)> = t.iter().map(|(i, w)| (*i, w.as_str())).collect();
    assert_eq!(words, vec![(1, "hello"), (2, "world"), (3, "hello"), (4, ""), (5, "x")]);
    assert_eq!(word_trace_of("   "), vec![]);
}
