use oslo::readline::{parse_sequence, Bound, KeyCode, KeyEvent, Modifiers, Registry};

fn one(spec: &str) -> KeyEvent {
    let events = parse_sequence(spec).expect("parses");
    assert_eq!(events.len(), 1, "{spec} is one key");
    events[0]
}

#[test]
fn the_specs_shipped_by_real_integrations_parse() {
    assert_eq!(one(r#""\C-r""#), KeyEvent::ctrl('r'));
    assert_eq!(one(r#""\C-d""#), KeyEvent::ctrl('d'));
    assert_eq!(one(r"\C-r"), KeyEvent::ctrl('r'));
}

#[test]
fn escape_sequences_are_the_keys_they_stand_for() {
    assert_eq!(one(r#""\e[A""#), KeyEvent(KeyCode::Up, Modifiers::none()));
    assert_eq!(one(r#""\e[B""#), KeyEvent(KeyCode::Down, Modifiers::none()));
    assert_eq!(one(r#""\e[C""#), KeyEvent(KeyCode::Right, Modifiers::none()));
    assert_eq!(one(r#""\e[D""#), KeyEvent(KeyCode::Left, Modifiers::none()));
    assert_eq!(one(r#""\e[3~""#), KeyEvent(KeyCode::Delete, Modifiers::none()));
    assert_eq!(one(r#""\eOA""#), KeyEvent(KeyCode::Up, Modifiers::none()));
}

#[test]
fn meta_is_alt() {
    assert_eq!(one(r#""\M-a""#), KeyEvent::alt('a'));
    assert_eq!(one(r#""\ea""#), KeyEvent::alt('a'));
}

#[test]
fn the_keys_a_terminal_cannot_tell_apart_resolve_to_what_it_sends() {
    assert_eq!(one(r#""\C-i""#), KeyEvent(KeyCode::Tab, Modifiers::none()));
    assert_eq!(one(r#""\C-m""#), KeyEvent(KeyCode::Enter, Modifiers::none()));
    assert_eq!(one(r#""\C-[""#), KeyEvent(KeyCode::Esc, Modifiers::none()));
    assert_eq!(one(r#""\C-?""#), KeyEvent(KeyCode::Backspace, Modifiers::none()));
    assert_eq!(one(r#""\t""#), KeyEvent(KeyCode::Tab, Modifiers::none()));
}

#[test]
fn a_sequence_is_more_than_one_key() {
    let events = parse_sequence(r#""\C-x\C-r""#).expect("parses");
    assert_eq!(events, vec![KeyEvent::ctrl('x'), KeyEvent::ctrl('r')]);
    let events = parse_sequence(r#""ab""#).expect("parses");
    assert_eq!(
        events,
        vec![
            KeyEvent(KeyCode::Char('a'), Modifiers::none()),
            KeyEvent(KeyCode::Char('b'), Modifiers::none()),
        ]
    );
}

#[test]
fn an_empty_spec_is_not_a_key() {
    assert_eq!(parse_sequence(""), None);
    assert_eq!(parse_sequence(r#""""#), None);
}

#[test]
fn binding_is_by_key_not_by_spelling() {
    let mut registry = Registry::new();
    registry.clear();
    registry.bind(r#""\C-t""#, Bound::Command("first".into())).expect("binds");
    registry.bind(r"\C-t", Bound::Command("second".into())).expect("rebinds");
    let entries = registry.entries();
    let ours: Vec<_> = entries
        .iter()
        .filter(|e| e.keys == vec![KeyEvent::ctrl('t')])
        .collect();
    assert_eq!(ours.len(), 1, "one binding for one key");
    assert_eq!(ours[0].bound, Bound::Command("second".into()));

    assert!(registry.unbind(r#""\C-t""#));
    assert!(!registry.unbind(r#""\C-t""#), "already gone");
    registry.clear();
}

#[test]
fn every_change_moves_the_generation() {
    let mut registry = Registry::new();
    registry.clear();
    let start = registry.generation();
    registry.bind(r#""\C-t""#, Bound::Command("x".into())).expect("binds");
    assert!(registry.generation() > start);
    let after_bind = registry.generation();
    registry.unbind(r#""\C-t""#);
    assert!(registry.generation() > after_bind);
    registry.clear();
}

#[test]
fn a_request_round_trips() {
    let mut registry = Registry::new();
    assert_eq!(registry.take_request(), None);
    registry.request("__atuin_history", "git comm", 8);
    let taken = registry.take_request().expect("a request");
    assert_eq!(taken.command, "__atuin_history");
    assert_eq!(taken.line, "git comm");
    assert_eq!(taken.point, 8);
    assert_eq!(registry.take_request(), None, "taken exactly once");
}

#[test]
fn a_spelling_that_is_not_a_key_is_refused_with_its_name() {
    let mut registry = Registry::new();
    assert_eq!(
        registry.bind(r#""\C""#, Bound::Function("x".into())),
        Err(r#""\C": cannot parse key sequence"#.to_string())
    );
    assert!(registry.entries().is_empty());
    assert_eq!(registry.generation(), 0);
}

#[test]
fn function_keys_and_alt_control_chords_parse() {
    assert_eq!(one(r#""\e[15~""#), KeyEvent(KeyCode::F(5), Modifiers::none()));
    assert_eq!(one(r#""\eOP""#), KeyEvent(KeyCode::F(1), Modifiers::none()));
    let chord = one(r#""\M-\C-x""#);
    assert_eq!(chord.0, KeyCode::Char('x'));
    assert!(chord.1.ctrl && chord.1.alt && !chord.1.shift);
    assert_eq!(KeyEvent::ctrl('\x01'), KeyEvent(KeyCode::Char('A'), Modifiers { ctrl: true, alt: false, shift: false }));
}
