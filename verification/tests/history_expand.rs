use oslo::history_expand::{expand, Expansion, HistoryError};

fn history() -> Vec<String> {
    ["echo alpha beta gamma", "ls -l /tmp", "echo A B"]
        .iter()
        .map(|s| s.to_string())
        .collect()
}

fn expanded(line: &str) -> String {
    match expand(line, &history()) {
        Ok(Expansion::Expanded(s)) => s,
        other => panic!("{line:?} expected an expansion, got {other:?}"),
    }
}

fn err(line: &str) -> HistoryError {
    match expand(line, &history()) {
        Err(e) => e,
        other => panic!("{line:?} expected an error, got {other:?}"),
    }
}

#[test]
fn events_and_designators_match_bash() {
    let cases = [
        ("!!", "echo A B"),
        ("!-1", "echo A B"),
        ("!-3", "echo alpha beta gamma"),
        ("!1", "echo alpha beta gamma"),
        ("!3", "echo A B"),
        ("!ls", "ls -l /tmp"),
        ("!echo", "echo A B"),
        ("!?tmp?", "ls -l /tmp"),
        ("!?tmp", "ls -l /tmp"),
        ("sudo !!", "sudo echo A B"),
        ("echo pre !$ post", "echo pre B post"),
        ("echo pre !^ post", "echo pre A post"),
        ("echo pre !* post", "echo pre A B post"),
        ("echo <!!:0>", "echo <echo>"),
        ("echo <!1:2>", "echo <beta>"),
        ("echo <!1:1-2>", "echo <alpha beta>"),
        ("echo <!1:1*>", "echo <alpha beta gamma>"),
        ("echo <!1:1->", "echo <alpha beta>"),
        ("echo <!1:$>", "echo <gamma>"),
        ("echo [!!]", "echo [echo A B]"),
        ("echo [!$", "echo [B"),
        ("echo [a!$]", "echo [aB]"),
        ("echo \"!$\"", "echo \"B\""),
        ("echo 'x' !$", "echo 'x' B"),
        ("!ls | !!", "ls -l /tmp | echo A B"),
        ("echo X!^X", "echo XAX"),
    ];
    for (input, want) in cases {
        assert_eq!(expanded(input), want, "expanding {input:?}");
    }
}

#[test]
fn lines_without_a_reference_are_left_alone() {
    let cases = [
        "echo hello",
        "echo a! b",
        "echo a!=b",
        "test 1 != 2",
        "echo 5!",
        "echo !",
        "echo '!!'",
        "echo '!$'",
        "echo \\!",
        "echo \"\\!\"",
        "! true",
        "if ! grep -q x f; then echo no; fi",
        "echo a!(b)",
        "ls [!a]*",
        "echo [!$]",
        "echo [!1]",
    ];
    for input in cases {
        assert_eq!(
            expand(input, &history()),
            Ok(Expansion::Unchanged),
            "{input:?} must be left alone"
        );
    }
}

#[test]
fn a_backslash_survives_into_the_shells_own_quote_removal() {
    assert_eq!(expand("echo \\!", &history()), Ok(Expansion::Unchanged));
    assert_eq!(expanded("echo \\a !!"), "echo \\a echo A B");
}

#[test]
fn quick_substitution_edits_the_previous_line() {
    assert_eq!(expanded("^A^Z"), "echo Z B");
    assert_eq!(expanded("^A^Z^"), "echo Z B");
    assert_eq!(expanded("^A^Z^ | cat"), "echo Z B | cat");
    assert_eq!(expand("echo a^b^c", &history()), Ok(Expansion::Unchanged));
    assert_eq!(
        err("^nope^x"),
        HistoryError::SubstitutionFailed("^nope^x".to_string())
    );
}

#[test]
fn unresolvable_references_are_errors_not_guesses() {
    assert_eq!(
        err("!nosuch"),
        HistoryError::EventNotFound("!nosuch".to_string())
    );
    assert_eq!(err("!99"), HistoryError::EventNotFound("!99".to_string()));
    assert_eq!(err("!0"), HistoryError::EventNotFound("!0".to_string()));
    assert_eq!(err("!-9"), HistoryError::EventNotFound("!-9".to_string()));
    assert_eq!(
        err("!?zzz?"),
        HistoryError::EventNotFound("!?zzz".to_string())
    );
    assert_eq!(
        err("echo !!:9"),
        HistoryError::BadWordSpecifier(":9".to_string())
    );
    assert_eq!(
        err("echo !!:h"),
        HistoryError::BadWordSpecifier(":h".to_string())
    );
}

#[test]
fn an_empty_history_cannot_satisfy_any_reference() {
    assert_eq!(
        expand("!!", &[]),
        Err(HistoryError::EventNotFound("!!".to_string()))
    );
    assert_eq!(
        expand("^a^b", &[]),
        Err(HistoryError::EventNotFound("!!".to_string()))
    );
    assert_eq!(expand("echo hi", &[]), Ok(Expansion::Unchanged));
}

#[test]
fn error_text_names_the_reference_that_failed() {
    assert_eq!(
        HistoryError::EventNotFound("!x".into()).message(),
        "!x: event not found"
    );
    assert_eq!(
        HistoryError::BadWordSpecifier(":9".into()).message(),
        ":9: bad word specifier"
    );
    assert_eq!(
        HistoryError::SubstitutionFailed("^a^b".into()).message(),
        "^a^b: substitution failed"
    );
}

#[test]
fn a_second_bang_inside_the_first_expansion_is_not_expanded_again() {
    let h = vec!["echo !!".to_string()];
    assert_eq!(
        expand("!!", &h),
        Ok(Expansion::Expanded("echo !!".to_string()))
    );
}

#[test]
fn a_word_range_past_the_end_is_refused() {
    assert_eq!(
        err("echo !1:2-9"),
        HistoryError::BadWordSpecifier(":2-9".to_string())
    );
}
