use oslo::editor::{key_outcome_from, key_table, line_from, line_table, word_bounds, Handlers, KeyOutcome};
use oslo::settings::{Table, Value};

fn str_value(s: &str) -> Value {
    Value::Str(s.to_string())
}

fn table(fields: Vec<(&str, Value)>) -> Value {
    Value::Table(Table {
        items: Vec::new(),
        fields: fields.into_iter().map(|(k, v)| (k.to_string(), v)).collect(),
    })
}

fn field(value: &Value, name: &str) -> Option<Value> {
    match value {
        Value::Table(t) => t
            .fields
            .iter()
            .position(|(k, _)| k == name)
            .map(|i| match &t.fields[i].1 {
                Value::Str(s) => Value::Str(s.clone()),
                Value::Number(n) => Value::Number(*n),
                Value::Bool(b) => Value::Bool(*b),
                Value::Nil => Value::Nil,
                _ => Value::Other,
            }),
        _ => None,
    }
}

fn string_at(value: &Value, name: &str) -> Option<String> {
    match field(value, name) {
        Some(Value::Str(s)) => Some(s),
        _ => None,
    }
}

#[test]
fn a_handler_can_answer_with_a_string_or_a_table() {
    assert_eq!(
        line_from(&str_value("sudo ls")),
        Some(("sudo ls".to_string(), None))
    );
    let answer = table(vec![("text", str_value("sudo ls")), ("cursor", Value::Number(Some(4)))]);
    assert_eq!(line_from(&answer), Some(("sudo ls".to_string(), Some(4))));
}

#[test]
fn anything_that_is_not_a_line_leaves_it_alone() {
    assert_eq!(line_from(&Value::Nil), None);
    assert_eq!(line_from(&Value::Number(Some(4))), None);
    assert_eq!(line_from(&Value::Bool(true)), None);
    let empty = table(vec![]);
    assert_eq!(line_from(&empty), None);
}

#[test]
fn the_key_hook_is_told_the_key_and_the_line() {
    let k = key_table("char", Some('o'), "echo", 4);
    assert_eq!(string_at(&k, "name").as_deref(), Some("char"));
    assert_eq!(string_at(&k, "char").as_deref(), Some("o"));
    assert_eq!(string_at(&k, "text").as_deref(), Some("echo"));
    assert_eq!(string_at(&k, "word").as_deref(), Some("echo"));
    assert!(
        matches!(field(&k, "cursor"), Some(Value::Number(Some(4)))),
        "and everything a binding's handler already gets"
    );
    let k = key_table("ctrl-k", None, "", 0);
    assert_eq!(string_at(&k, "name").as_deref(), Some("ctrl-k"));
    assert!(matches!(field(&k, "char"), Some(Value::Nil)));
}

#[test]
fn an_unrecognised_key_hook_answer_leaves_the_key_alone() {
    assert!(matches!(
        key_outcome_from(&Value::Bool(false)),
        KeyOutcome::Swallow
    ));
    for answer in [
        Value::Nil,
        Value::Bool(true),
        Value::Number(Some(4)),
        table(vec![]),
    ] {
        assert!(
            matches!(key_outcome_from(&answer), KeyOutcome::Pass),
            "an answer that is not a line must not change what the key does"
        );
    }
    let KeyOutcome::Line(line) = key_outcome_from(&str_value("sudo ls")) else {
        panic!("a string is the whole line, as it is for a binding");
    };
    assert_eq!(line.text, "sudo ls");
}

#[test]
fn the_word_under_the_cursor_is_reported() {
    let line = "git commit --amend";
    assert_eq!(word_bounds(line, 0), (0, 3), "at the start of the first word");
    assert_eq!(word_bounds(line, 3), (0, 3), "at its end");
    assert_eq!(word_bounds(line, 8), (4, 10), "inside the second");
    assert_eq!(word_bounds(line, 18), (11, 18), "at the end of the line");
    assert_eq!(word_bounds(line, 999), (11, 18));
}

#[test]
fn a_table_answer_can_run_the_line_and_clamps_its_cursor() {
    let answer = table(vec![
        ("text", str_value("make")),
        ("cursor", Value::Number(Some(-3))),
        ("submit", Value::Bool(true)),
    ]);
    let KeyOutcome::Line(line) = key_outcome_from(&answer) else {
        panic!("a table with text is a line");
    };
    assert_eq!(line.cursor, Some(0));
    assert!(line.submit);
}

#[test]
fn the_line_table_reports_the_word_in_bytes() {
    let t = line_table("é ls -la", 5);
    assert_eq!(string_at(&t, "word").as_deref(), Some("ls"));
    assert!(matches!(field(&t, "word_start"), Some(Value::Number(Some(3)))));
}

#[test]
fn a_registered_handler_is_found_under_its_key() {
    let mut h = Handlers::new();
    assert!(h.handler("ctrl-s").is_none());
    h.register("ctrl-s", Value::Other);
    h.register("alt-x", Value::Str("run".to_string()));
    assert!(matches!(h.handler("ctrl-s"), Some(Value::Other)));
    assert!(matches!(h.handler("alt-x"), Some(Value::Str(s)) if s == "run"));
    assert!(h.handler("ctrl-t").is_none());
}

#[test]
fn registering_a_key_again_replaces_its_handler() {
    let mut h = Handlers::new();
    h.register("ctrl-s", Value::Other);
    h.register("ctrl-s", Value::Bool(true));
    assert!(matches!(h.handler("ctrl-s"), Some(Value::Bool(true))));
}

#[test]
fn clearing_forgets_every_handler() {
    let mut h = Handlers::new();
    h.register("ctrl-s", Value::Other);
    h.register("alt-x", Value::Other);
    h.clear();
    assert!(h.handler("ctrl-s").is_none());
    assert!(h.handler("alt-x").is_none());
}
