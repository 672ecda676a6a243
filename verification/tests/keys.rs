use oslo::keys::{action, is_key_name, Action};

#[test]
fn keys_are_named_the_way_people_say_them() {
    for name in [
        "shift-tab", "backtab", "s-tab", "tab", "enter", "esc", "ctrl-r", "alt-f", "f2", "f12",
        "up", "pagedown", "space",
    ] {
        assert!(is_key_name(name), "{name} should be a key name");
    }
    assert!(is_key_name("Ctrl-R"));
    assert!(is_key_name("  enter  "));
}

#[test]
fn a_name_oslo_cannot_place_is_refused() {
    for name in ["", "ctrl-", "ctrl-shift-r", "f13", "wiggle", "alt-"] {
        assert!(!is_key_name(name), "{name:?} should not be a key name");
    }
}

#[test]
fn action_names_resolve() {
    assert_eq!(action("toggle-language"), Some(Action::ToggleLanguage));
    assert_eq!(action("toggle-mode"), Some(Action::ToggleLanguage));
    assert_eq!(action("clear-screen"), Some(Action::ClearScreen));
    assert_eq!(action("history-search"), Some(Action::HistorySearchBackward));
    assert_eq!(action("accept-suggestion"), Some(Action::AcceptSuggestion));
    assert_eq!(action("accept-word"), Some(Action::AcceptSuggestionWord));
    assert_eq!(action("interrupt"), Some(Action::Interrupt));
    assert_eq!(action("complete"), Some(Action::Complete));
    assert_eq!(action("do-a-barrel-roll"), None);
}

#[test]
fn the_reserved_handler_name_is_an_action() {
    assert_eq!(action(oslo::editor::ACTION), Some(Action::LuaHandler));
    assert_eq!(action("lua-handler"), None);
}
