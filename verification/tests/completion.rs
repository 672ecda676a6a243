use oslo::completion::matches_prefix;
use oslo::matching::{matchers, matches_by_piece, matches_ignoring_case, Match};

#[test]
fn case_sensitivity_actually_decides_the_match() {
    assert!(matches_prefix("README.md", "RE", false));
    assert!(matches_prefix("README.md", "re", false), "off means insensitive");
    assert!(!matches_prefix("README.md", "xy", false));
    assert!(matches_prefix("README.md", "RE", true));
    assert!(!matches_prefix("README.md", "re", true), "turning it on must matter");
}

#[test]
fn a_longer_typed_word_is_not_a_prefix() {
    assert!(!matches_prefix("ls", "lsof", false));
    assert!(matches_prefix("lsof", "ls", false));
    assert!(matches_prefix("anything", "", false));
}

#[test]
fn pieces_reach_what_an_abbreviation_stands_for() {
    assert!(matches_by_piece("/usr/share/bin", "/u/s/b"));
    assert!(matches_by_piece("foo-bar", "f-b"));
    assert!(matches_by_piece("foo-bar", "F-B"));
    assert!(!matches_by_piece("foo-bar", "fb"), "no separator typed");
    assert!(!matches_by_piece("foo", "f-b"), "more pieces typed than there are");
    assert!(matches_by_piece("a--c", "a--c"));
}

#[test]
fn the_ways_are_tried_in_order() {
    assert_eq!(matchers(), [Match::Exact, Match::Ignoring, Match::Pieces]);
    assert!(Match::Exact.matches("README.md", "RE"));
    assert!(!Match::Exact.matches("README.md", "re"));
    assert!(Match::Ignoring.matches("README.md", "re"));
    assert!(matches_ignoring_case("Über", "üb"));
}
