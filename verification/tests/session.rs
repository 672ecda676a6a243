use oslo::edit::session::{Assist, Bound, KeyHook, NoAssist, Session, Step};
use oslo::term::Key;

/// Feed a sequence of keys and hand back the line.
fn run(start: &str, keys: &[Key]) -> (Session, Vec<Step>) {
    let mut session = Session::new(start, start.chars().count());
    let mut assist = NoAssist;
    let steps = keys
        .iter()
        .map(|k| session.apply(*k, &mut assist))
        .collect();
    (session, steps)
}

fn typed(text: &str) -> Vec<Key> {
    text.chars().map(Key::Char).collect()
}

#[test]
fn typing_builds_a_line() {
    let (s, _) = run("", &typed("echo hi"));
    assert_eq!(s.buffer.text(), "echo hi");
    assert_eq!(s.buffer.cursor(), 7);
}

#[test]
fn editing_keys_reach_the_buffer() {
    let (s, _) = run("echo hello", &[Key::Ctrl('w')]);
    assert_eq!(s.buffer.text(), "echo ", "C-w took the last word");

    let (s, _) = run("echo hello", &[Key::Home, Key::Ctrl('k')]);
    assert_eq!(s.buffer.text(), "", "C-k from the start takes everything");

    let (s, _) = run("abc", &[Key::Left, Key::Backspace]);
    assert_eq!(s.buffer.text(), "ac");
}

#[test]
fn ctrl_d_is_eof_only_when_the_line_is_empty() {
    let mut empty = Session::new("", 0);
    assert_eq!(empty.apply(Key::Delete, &mut NoAssist), Step::Eof);

    let mut has_text = Session::new("ls", 0);
    assert_eq!(
        has_text.apply(Key::Delete, &mut NoAssist),
        Step::Continue { redraw: true }
    );
    assert_eq!(has_text.buffer.text(), "s", "it deleted forward");
}

#[test]
fn enter_accepts_and_ctrl_c_interrupts() {
    let mut s = Session::new("ls", 2);
    assert_eq!(s.apply(Key::Accept, &mut NoAssist), Step::Accept);
    assert_eq!(s.apply(Key::Abort, &mut NoAssist), Step::Interrupted);
}

#[test]
fn a_key_that_changes_nothing_does_not_ask_for_a_redraw() {
    let mut s = Session::new("", 0);
    for key in [Key::Ctrl('q'), Key::Alt('z'), Key::Ignored, Key::Cancel] {
        assert_eq!(
            s.apply(key, &mut NoAssist),
            Step::Continue { redraw: false },
            "{key:?} asked for a repaint"
        );
    }
    assert_eq!(
        s.apply(Key::Ctrl('k'), &mut NoAssist),
        Step::Continue { redraw: false }
    );
}

#[test]
fn escape_alone_does_nothing_in_emacs_mode() {
    let mut s = Session::new("half typed", 10);
    assert_eq!(
        s.apply(Key::Cancel, &mut NoAssist),
        Step::Continue { redraw: false }
    );
    assert_eq!(s.buffer.text(), "half typed", "the line survived Esc");
}

/// An `Assist` that answers with fixed lines.
#[derive(Default)]
struct Canned {
    history: Vec<String>,
    at: usize,
    typed: Option<String>,
    completion: Option<(String, usize)>,
    hint: Option<String>,
    hook: Option<KeyHook>,
    bound: Option<(Key, Bound)>,
}

impl Assist for Canned {
    fn watches_keys(&self) -> bool {
        self.hook.is_some()
    }
    fn key_hook(&self, _key: Key, _line: &str, _cursor: usize) -> Option<KeyHook> {
        self.hook.clone()
    }
    fn binding(&self, key: Key) -> Option<Bound> {
        match &self.bound {
            Some((k, b)) if *k == key => Some(b.clone()),
            _ => None,
        }
    }
    fn hint_text(&self, _line: &str, _cursor: usize) -> Option<String> {
        self.hint.clone()
    }
    fn abbreviation(&self, _line: &str, _cursor: usize) -> Option<(String, usize)> {
        None
    }
    fn complete(&mut self, _l: &str, _c: usize, _b: bool) -> Option<(String, usize)> {
        self.completion.clone()
    }
    fn history_prev(&mut self, line: &str) -> Option<String> {
        let entry = self.history.get(self.at)?.clone();
        if self.at == 0 {
            self.typed = Some(line.to_string());
        }
        self.at += 1;
        Some(entry)
    }
    fn history_next(&mut self) -> Option<String> {
        match self.at {
            0 => None,
            1 => {
                self.at = 0;
                self.typed.take()
            }
            _ => {
                self.at -= 1;
                self.history.get(self.at - 1).cloned()
            }
        }
    }
    fn search_history(&mut self, _line: &str) -> Option<String> {
        None
    }
    fn lua_key(&mut self, _name: &str, _line: &str, _cursor: usize) -> Option<(String, usize, bool)> {
        None
    }
}

#[test]
fn history_walks_through_the_assist() {
    let mut a = Canned {
        history: vec!["cargo test".into(), "ls -la".into()],
        ..Canned::default()
    };
    let mut s = Session::new("", 0);
    s.apply(Key::Up, &mut a);
    assert_eq!(s.buffer.text(), "cargo test");
    assert_eq!(s.buffer.cursor(), 10, "the cursor lands at the end");
    s.apply(Key::Up, &mut a);
    assert_eq!(s.buffer.text(), "ls -la");
    s.apply(Key::Down, &mut a);
    assert_eq!(s.buffer.text(), "cargo test");
}

#[test]
fn coming_back_out_of_history_restores_the_typed_line() {
    let mut a = Canned {
        history: vec!["cargo test".into()],
        ..Canned::default()
    };
    let mut s = Session::new("half-writ", 9);
    s.apply(Key::Up, &mut a);
    assert_eq!(s.buffer.text(), "cargo test");
    s.apply(Key::Down, &mut a);
    assert_eq!(s.buffer.text(), "half-writ", "the composed line came back");
}

#[test]
fn history_that_runs_out_changes_nothing() {
    let mut a = Canned::default();
    let mut s = Session::new("typed", 5);
    assert_eq!(s.apply(Key::Up, &mut a), Step::Continue { redraw: false });
    assert_eq!(s.buffer.text(), "typed");
}

#[test]
fn completion_replaces_the_line() {
    let mut a = Canned {
        completion: Some(("git checkout ".to_string(), 13)),
        ..Canned::default()
    };
    let mut s = Session::new("git ch", 6);
    assert_eq!(
        s.apply(Key::ToggleScope, &mut a),
        Step::Continue { redraw: true }
    );
    assert_eq!(s.buffer.text(), "git checkout ");
    assert_eq!(s.buffer.cursor(), 13);
}

#[test]
fn ctrl_l_clears_the_screen_without_touching_the_line() {
    let mut s = Session::new("half typed", 4);
    assert_eq!(s.apply(Key::Ctrl('l'), &mut NoAssist), Step::ClearScreen);
    assert_eq!(s.buffer.text(), "half typed");
    assert_eq!(s.buffer.cursor(), 4, "and the cursor stayed put");
}

/// Right at the end of the line takes the ghost suggestion; a word at a time takes one word
/// with its space.
#[test]
fn right_at_the_end_takes_the_suggestion() {
    let mut a = Canned {
        hint: Some("ho hi".to_string()),
        ..Canned::default()
    };
    let mut s = Session::new("ec", 2);
    assert_eq!(s.apply(Key::Right, &mut a), Step::Continue { redraw: true });
    assert_eq!(s.buffer.text(), "echo hi");

    let mut a = Canned {
        hint: Some(" --example foo".to_string()),
        bound: Some((Key::Alt('f'), Bound::AcceptHintWord)),
        ..Canned::default()
    };
    let mut s = Session::new("cargo run", 9);
    assert_eq!(s.apply(Key::Alt('f'), &mut a), Step::Continue { redraw: true });
    assert_eq!(s.buffer.text(), "cargo run --example ");
}

/// The hook sees every key first and may swallow it or replace the line; a binding beats the
/// keymap.
#[test]
fn the_hook_and_the_bindings_come_first() {
    let mut a = Canned {
        hook: Some(KeyHook::Swallow),
        ..Canned::default()
    };
    let mut s = Session::new("ls", 2);
    assert_eq!(s.apply(Key::Char('x'), &mut a), Step::Continue { redraw: false });
    assert_eq!(s.buffer.text(), "ls");

    let mut a = Canned {
        hook: Some(KeyHook::Line { text: "make".to_string(), cursor: 99, submit: true }),
        ..Canned::default()
    };
    assert_eq!(s.apply(Key::Char('x'), &mut a), Step::Accept);
    assert_eq!(s.buffer.text(), "make");
    assert_eq!(s.buffer.cursor(), 4);

    let mut a = Canned {
        bound: Some((Key::Accept, Bound::Interrupt)),
        ..Canned::default()
    };
    assert_eq!(s.apply(Key::Accept, &mut a), Step::Interrupted);
}

/// The word keys and yank: a killed word comes back where it was.
#[test]
fn a_killed_word_yanks_back() {
    let (s, _) = run("one two", &[Key::Alt('\x7f'), Key::Ctrl('y')]);
    assert_eq!(s.buffer.text(), "one two");
    let (s, _) = run("one two", &[Key::Alt('b'), Key::Alt('u')]);
    assert_eq!(s.buffer.text(), "one TWO");
    let (s, _) = run("ab", &[Key::Ctrl('t')]);
    assert_eq!(s.buffer.text(), "ba");
}
