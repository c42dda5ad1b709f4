use lib::prompt::{accept_trace_line, parse_window_size};

#[test]
fn a_line_of_letters_is_accepted() {
    let r = accept_trace_line("  ab c\n");
    assert_eq!(r.letters, vec!['a', 'b', 'c']);
    assert!(!r.bad_character);
    assert!(!r.too_short);
}

#[test]
fn a_bad_character_stops_the_line() {
    let r = accept_trace_line("ab1cd\n");
    assert_eq!(r.letters, vec!['a', 'b']);
    assert!(r.bad_character);
    assert!(r.too_short);
}

#[test]
fn a_short_trace_is_refused() {
    let r = accept_trace_line("a b");
    assert_eq!(r.letters, vec!['a', 'b']);
    assert!(!r.bad_character);
    assert!(r.too_short);
}

#[test]
fn each_line_is_judged_on_its_own() {
    let first = accept_trace_line("ab\n");
    assert!(first.too_short);
    let second = accept_trace_line("c\n");
    assert!(second.too_short);
    assert_eq!(second.letters, vec!['c']);
    let third = accept_trace_line("xyz\n");
    assert!(!third.too_short && !third.bad_character);
    assert_eq!(third.letters, vec!['x', 'y', 'z']);
}

#[test]
fn a_bad_character_after_three_letters_still_refuses() {
    let r = accept_trace_line("abc!");
    assert!(r.bad_character);
    assert!(!r.too_short);
    assert_eq!(r.letters, vec!['a', 'b', 'c']);
}

#[test]
fn tabs_inside_a_line_are_bad_characters() {
    let r = accept_trace_line("\tabc\tdef\t\n");
    assert!(r.bad_character);
    assert_eq!(r.letters, vec!['a', 'b', 'c']);
}

#[test]
fn window_sizes_are_checked() {
    assert_eq!(parse_window_size(10, 1, " 5\n"), Some(5));
    assert_eq!(parse_window_size(10, 1, "9"), Some(9));
    assert_eq!(parse_window_size(10, 1, "10"), None);
    assert_eq!(parse_window_size(10, 1, "1"), None);
    assert_eq!(parse_window_size(10, 1, "0"), None);
    assert_eq!(parse_window_size(10, 1, "+3\n"), Some(3));
    assert_eq!(parse_window_size(10, 1, "three"), None);
    assert_eq!(parse_window_size(10, 1, "-3"), None);
    assert_eq!(parse_window_size(10, 1, ""), None);
    assert_eq!(parse_window_size(3, 1, "2"), Some(2));
}
