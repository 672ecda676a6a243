use oslo::ask::chrome::{Fit, Place};
use oslo::ask::log::Level;
use oslo::ask::table::parse;
use oslo::ask::{with_caret, Answer};
use oslo::ask::confirm::{confirm_step, ConfirmStep};
use oslo::term::Key;

#[test]
fn fields_are_split_and_trimmed() {
    let (rows, raw) = parse("a, b ,c\nd,e,f", ',');
    assert_eq!(rows[0], vec!["a", "b", "c"]);
    assert_eq!(rows[1], vec!["d", "e", "f"]);
    assert_eq!(raw[0], "a, b ,c");
}

#[test]
fn blank_lines_are_not_rows() {
    let (rows, _) = parse("a,b\n\n\nc,d\n", ',');
    assert_eq!(rows.len(), 2);
}

#[test]
fn rows_may_have_different_lengths() {
    let (rows, _) = parse("a,b,c\nd", ',');
    assert_eq!(rows[1], vec!["d"]);
}

#[test]
fn a_carriage_return_before_a_newline_is_not_part_of_the_row() {
    let (rows, raw) = parse("a;b\r\n  \r\nc\r", ';');
    assert_eq!(raw, vec!["a;b".to_string(), "c\r".to_string()]);
    assert_eq!(rows[1], vec!["c"]);
}

#[test]
fn the_names_are_the_ones_a_config_writes() {
    assert_eq!(Fit::parse("content"), Some(Fit::Content));
    assert_eq!(Fit::parse("full"), Some(Fit::Full));
    assert_eq!(Fit::parse("fully"), None);
    assert_eq!(Place::parse("left"), Some(Place::Start));
    assert_eq!(Place::parse("top"), Some(Place::Start));
    assert_eq!(Place::parse("centre"), Some(Place::Center));
    assert_eq!(Place::parse("bottom"), Some(Place::End));
    assert_eq!(Place::parse("middleish"), None);
}

#[test]
fn placement_shares_out_the_slack() {
    assert_eq!(Place::Start.offset(9), 0);
    assert_eq!(Place::Center.offset(9), 4);
    assert_eq!(Place::End.offset(9), 9);
}

#[test]
fn levels_are_ordered() {
    assert!(Level::Debug < Level::Info);
    assert!(Level::Info < Level::Warn);
    assert!(Level::Warn < Level::Error);
    assert!(Level::Error < Level::Fatal);
}

#[test]
fn level_names_are_read_case_insensitively() {
    assert_eq!(Level::parse("INFO"), Some(Level::Info));
    assert_eq!(Level::parse("warning"), Some(Level::Warn));
    assert_eq!(Level::parse("err"), Some(Level::Error));
    assert_eq!(Level::parse("loud"), None);
}

#[test]
fn the_statuses_are_distinct() {
    assert_eq!(Answer::Given(()).status(), 0);
    assert_eq!(Answer::<()>::Cancelled.status(), 1);
    assert_eq!(Answer::<()>::NoTerminal.status(), 2);
}

#[test]
fn only_an_answer_is_given() {
    assert_eq!(Answer::Given(5).given(), Some(5));
    assert_eq!(Answer::<i32>::Cancelled.given(), None);
}

#[test]
fn the_default_is_no() {
    assert!(!oslo::ask::confirm::Confirm::default().default);
}

#[test]
fn the_keys_choose_and_enter_answers() {
    assert_eq!(confirm_step(false, Key::Char('y')), ConfirmStep::Choosing(true));
    assert_eq!(confirm_step(true, Key::Char('N')), ConfirmStep::Choosing(false));
    assert_eq!(confirm_step(true, Key::Left), ConfirmStep::Choosing(false));
    assert_eq!(confirm_step(false, Key::Accept), ConfirmStep::Done(Answer::Given(false)));
    assert_eq!(confirm_step(true, Key::Cancel), ConfirmStep::Done(Answer::Cancelled));
    assert_eq!(confirm_step(true, Key::Char('x')), ConfirmStep::Choosing(true));
}

/// Escapes stripped, so a test can assert on what is on screen.
fn plain(rendered: &str) -> String {
    let mut out = String::new();
    let mut chars = rendered.chars().peekable();
    while let Some(c) = chars.next() {
        if c != '\x1b' {
            out.push(c);
            continue;
        }
        if chars.peek() == Some(&'[') {
            chars.next();
            for c in chars.by_ref() {
                if c.is_ascii_alphabetic() {
                    break;
                }
            }
        }
    }
    out
}

#[test]
fn the_caret_marks_the_character_it_is_on() {
    let drawn = with_caret("abc", 1);
    assert!(drawn.contains("\x1b[7m"), "not reversed: {drawn:?}");
    assert_eq!(plain(&drawn), "abc", "the text changed: {drawn:?}");
}

#[test]
fn at_the_end_the_caret_is_a_space() {
    let drawn = with_caret("ab", 2);
    assert_eq!(plain(&drawn), "ab ", "{drawn:?}");
    assert_eq!(plain(&with_caret("ab", 99)), "ab ");
    assert_eq!(plain(&with_caret("", 0)), " ");
}

#[test]
fn the_caret_counts_characters_not_bytes() {
    assert_eq!(plain(&with_caret("héllo", 1)), "héllo");
    assert_eq!(plain(&with_caret("→x", 0)), "→x");
}

#[test]
fn the_caret_is_exactly_one_reversed_character() {
    assert_eq!(with_caret("héllo", 1), "h\x1b[7mé\x1b[0mllo");
    assert_eq!(with_caret("ab", 5), "ab\x1b[7m \x1b[0m");
}
