use textutil::uniq::{lines_match, UniqState};

#[test]
fn groups_report_their_counts() {
    let mut state = UniqState::new();
    // First line differs from the initial empty representative but the
    // zero count means nothing is reported yet.
    assert_eq!(state.observe(String::from("a\n")), None);
    assert_eq!(state.observe(String::from("a\n")), None);
    let emitted = state.observe(String::from("b\n"));
    assert_eq!(emitted, Some((2, String::from("a\n"))));
    assert_eq!(state.finish(), Some((1, String::from("b\n"))));
}

#[test]
fn trailing_whitespace_is_ignored_when_comparing() {
    let mut state = UniqState::new();
    assert_eq!(state.observe(String::from("a\n")), None);
    assert_eq!(state.observe(String::from("a \t\n")), None);
    let emitted = state.observe(String::from("b\n"));
    // The representative stays the first line of the group, verbatim.
    assert_eq!(emitted, Some((2, String::from("a\n"))));
}

#[test]
fn leading_blank_lines_join_the_initial_group() {
    // A blank first line compares equal to the initial empty
    // representative, so it only lengthens that group.
    let mut state = UniqState::new();
    assert_eq!(state.observe(String::from("\n")), None);
    assert_eq!(state.observe(String::from("x\n")), Some((1, String::from(""))));
    assert_eq!(state.finish(), Some((1, String::from("x\n"))));
}

#[test]
fn empty_input_reports_nothing() {
    let state = UniqState::new();
    assert_eq!(state.finish(), None);
}

#[test]
fn lines_match_trims_only_the_end() {
    assert!(lines_match("a", "a"));
    assert!(lines_match("a \n", "a"));
    assert!(lines_match("", "  \t\n"));
    assert!(!lines_match(" a", "a"));
    assert!(!lines_match("ab", "a"));
}
