//! The line-editing state machine: one key in, the line changed, and what the read loop should do.
//!
//! Everything shell-specific (the `key` hook, bindings from the config, ghost hints, abbreviations,
//! completion and history) comes through [`Assist`], which the shell implements; this decides in
//! what order those are asked and what their answers do to the line. It knows nothing about
//! terminals: the loop that reads keys and draws the row is the caller's.

use vstd::prelude::*;
use super::buffer::{
    converted, space_word_start_of, word_end_of, word_start_of, Buffer, BufferView, Case,
};
use super::keymap::{action, spec_action, Action};
use crate::term::Key;
use crate::text::{self, spec_is_whitespace, trim_start_at};

verus! {

/// What a `key` hook asked the editor to do with the keystroke it just saw.
#[derive(Debug, Clone, PartialEq, Eq)]
pub enum KeyHook {
    /// Consume the keystroke: the editor never sees it, and the line is untouched.
    Swallow,
    /// Put this line in place instead, and run it if `submit`.
    Line { text: String, cursor: usize, submit: bool },
}

/// A binding the config asked for, which the session performs instead of its default.
#[derive(Debug, Clone, PartialEq, Eq)]
pub enum Bound {
    /// Switch the prompt between shell and Lua.
    ToggleLanguage,
    ClearScreen,
    SearchHistory,
    /// Take the whole ghost suggestion.
    AcceptHint,
    /// Take one word of it.
    AcceptHintWord,
    Interrupt,
    Complete,
    /// A Lua function, by the key's name.
    Lua(String),
}

/// What a keypress did to the session.
#[derive(Debug, Clone, Copy, PartialEq, Eq, Structural)]
pub enum Step {
    /// Keep editing. `redraw` is false for a key that changed nothing, so an unbound chord does
    /// not repaint the row.
    Continue { redraw: bool },
    /// Enter.
    Accept,
    /// Ctrl-C.
    Interrupted,
    /// Ctrl-D on an empty line.
    Eof,
    /// Ctrl-L: the screen should be cleared before the next draw.
    ClearScreen,
    /// The prompt should switch between shell and Lua.
    ToggleLanguage,
}

pub open spec fn text_of(s: Option<String>) -> Option<Seq<char>> {
    match s {
        Some(t) => Some(t@),
        None => None,
    }
}

pub open spec fn placed_of(s: Option<(String, usize)>) -> Option<(Seq<char>, nat)> {
    match s {
        Some((t, c)) => Some((t@, c as nat)),
        None => None,
    }
}

pub open spec fn lua_of(s: Option<(String, usize, bool)>) -> Option<(Seq<char>, nat, bool)> {
    match s {
        Some((t, c, submit)) => Some((t@, c as nat, submit)),
        None => None,
    }
}

/// What the shell brings to the editor. Each method's answer is named by a spec function, so
/// what the editor does with it can be stated; the shell's own answers are its business, and an
/// implementation that is verified names them by overriding these.
pub trait Assist {
    /// Whether a `key` hook is attached at all.
    closed spec fn watching(&self) -> bool {
        arbitrary()
    }

    /// The hook's answer for `key` on the line `line` with the cursor at `cursor`.
    closed spec fn hook_for(&self, key: Key, line: Seq<char>, cursor: nat) -> Option<KeyHook> {
        arbitrary()
    }

    /// The config's binding for `key`.
    closed spec fn binding_for(&self, key: Key) -> Option<Bound> {
        arbitrary()
    }

    /// The ghost suggestion that would be drawn now.
    closed spec fn hint_for(&self, line: Seq<char>, cursor: nat) -> Option<Seq<char>> {
        arbitrary()
    }

    /// The line an abbreviation before the cursor expands to, and the cursor in it.
    closed spec fn abbreviation_for(&self, line: Seq<char>, cursor: nat) -> Option<(Seq<char>, nat)> {
        arbitrary()
    }

    /// The completed line and its cursor.
    closed spec fn completion_for(&self, line: Seq<char>, cursor: nat, back: bool) -> Option<(Seq<char>, nat)> {
        arbitrary()
    }

    /// The line one step back in history.
    closed spec fn previous_for(&self, line: Seq<char>) -> Option<Seq<char>> {
        arbitrary()
    }

    /// The line one step forward in history, or the one being composed.
    closed spec fn next_line(&self) -> Option<Seq<char>> {
        arbitrary()
    }

    /// The line a history search settles on.
    closed spec fn found_for(&self, line: Seq<char>) -> Option<Seq<char>> {
        arbitrary()
    }

    /// What the Lua function bound to the key called `name` answers.
    closed spec fn lua_for(&self, name: Seq<char>, line: Seq<char>, cursor: nat) -> Option<(Seq<char>, nat, bool)> {
        arbitrary()
    }

    fn watches_keys(&self) -> (r: bool)
        ensures
            r == self.watching(),
    ;

    fn key_hook(&self, key: Key, line: &str, cursor: usize) -> (r: Option<KeyHook>)
        ensures
            r == self.hook_for(key, line@, cursor as nat),
    ;

    fn binding(&self, key: Key) -> (r: Option<Bound>)
        ensures
            r == self.binding_for(key),
    ;

    fn hint_text(&self, line: &str, cursor: usize) -> (r: Option<String>)
        ensures
            text_of(r) == self.hint_for(line@, cursor as nat),
    ;

    fn abbreviation(&self, line: &str, cursor: usize) -> (r: Option<(String, usize)>)
        ensures
            placed_of(r) == self.abbreviation_for(line@, cursor as nat),
    ;

    fn complete(&mut self, line: &str, cursor: usize, back: bool) -> (r: Option<(String, usize)>)
        ensures
            placed_of(r) == old(self).completion_for(line@, cursor as nat, back),
    ;

    fn history_prev(&mut self, line: &str) -> (r: Option<String>)
        ensures
            text_of(r) == old(self).previous_for(line@),
    ;

    fn history_next(&mut self) -> (r: Option<String>)
        ensures
            text_of(r) == old(self).next_line(),
    ;

    fn search_history(&mut self, line: &str) -> (r: Option<String>)
        ensures
            text_of(r) == old(self).found_for(line@),
    ;

    fn lua_key(&mut self, name: &str, line: &str, cursor: usize) -> (r: Option<(String, usize, bool)>)
        ensures
            lua_of(r) == old(self).lua_for(name@, line@, cursor as nat),
    ;
}

/// An editor with nothing plugged in: no hook, no bindings, no hints, no history.
pub struct NoAssist;

impl Assist for NoAssist {
    open spec fn watching(&self) -> bool {
        false
    }

    open spec fn hook_for(&self, key: Key, line: Seq<char>, cursor: nat) -> Option<KeyHook> {
        None
    }

    open spec fn binding_for(&self, key: Key) -> Option<Bound> {
        None
    }

    open spec fn hint_for(&self, line: Seq<char>, cursor: nat) -> Option<Seq<char>> {
        None
    }

    open spec fn abbreviation_for(&self, line: Seq<char>, cursor: nat) -> Option<(Seq<char>, nat)> {
        None
    }

    open spec fn completion_for(&self, line: Seq<char>, cursor: nat, back: bool) -> Option<(Seq<char>, nat)> {
        None
    }

    open spec fn previous_for(&self, line: Seq<char>) -> Option<Seq<char>> {
        None
    }

    open spec fn next_line(&self) -> Option<Seq<char>> {
        None
    }

    open spec fn found_for(&self, line: Seq<char>) -> Option<Seq<char>> {
        None
    }

    open spec fn lua_for(&self, name: Seq<char>, line: Seq<char>, cursor: nat) -> Option<(Seq<char>, nat, bool)> {
        None
    }

    fn watches_keys(&self) -> (r: bool) {
        false
    }

    fn key_hook(&self, key: Key, line: &str, cursor: usize) -> (r: Option<KeyHook>) {
        None
    }

    fn binding(&self, key: Key) -> (r: Option<Bound>) {
        None
    }

    fn hint_text(&self, line: &str, cursor: usize) -> (r: Option<String>) {
        None
    }

    fn abbreviation(&self, line: &str, cursor: usize) -> (r: Option<(String, usize)>) {
        None
    }

    fn complete(&mut self, line: &str, cursor: usize, back: bool) -> (r: Option<(String, usize)>) {
        None
    }

    fn history_prev(&mut self, line: &str) -> (r: Option<String>) {
        None
    }

    fn history_next(&mut self) -> (r: Option<String>) {
        None
    }

    fn search_history(&mut self, line: &str) -> (r: Option<String>) {
        None
    }

    fn lua_key(&mut self, name: &str, line: &str, cursor: usize) -> (r: Option<(String, usize, bool)>) {
        None
    }
}

/// The line `text` in place, with the cursor at `cursor` or the end if that is past it; the kill
/// is kept.
pub open spec fn placed(b: BufferView, text: Seq<char>, cursor: nat) -> BufferView {
    BufferView {
        text,
        cursor: if cursor <= text.len() {
            cursor as int
        } else {
            text.len() as int
        },
        kill: b.kill,
    }
}

/// Where the run of non-whitespace from `i` ends.
pub open spec fn word_stop(s: Seq<char>, i: int) -> int
    decreases s.len() - i,
{
    if 0 <= i < s.len() && !spec_is_whitespace(s[i]) {
        word_stop(s, i + 1)
    } else {
        i
    }
}

proof fn lemma_word_stop(s: Seq<char>, i: int)
    requires
        0 <= i <= s.len(),
    ensures
        i <= word_stop(s, i) <= s.len(),
        i <= trim_start_at(s, i) <= s.len(),
    decreases s.len() - i,
{
    if i < s.len() {
        lemma_word_stop(s, i + 1);
    }
}

/// The first word of a suggestion with the whitespace around it, so accepting it leaves the
/// cursor ready for the next word.
pub open spec fn spec_first_word(h: Seq<char>) -> Seq<char> {
    h.take(trim_start_at(h, word_stop(h, trim_start_at(h, 0))))
}

/// The ghost suggestion, all of it or its first word, taken into the line at its end; `false`
/// when there is nothing to take (or it would not fit in memory).
pub open spec fn hint_taken<A: Assist>(b: BufferView, a: A, whole: bool) -> (BufferView, bool) {
    match a.hint_for(b.text, b.cursor as nat) {
        None => (b, false),
        Some(h) => {
            let take = if whole {
                h
            } else {
                spec_first_word(h)
            };
            if take.len() > 0 && b.text.len() + take.len() <= usize::MAX {
                (
                    BufferView {
                        text: b.text + take,
                        cursor: (b.text.len() + take.len()) as int,
                        kill: b.kill,
                    },
                    true,
                )
            } else {
                (b, false)
            }
        },
    }
}

/// A line handed back by the shell, with the cursor where it asked, or nothing when it had none.
pub open spec fn offered(b: BufferView, answer: Option<(Seq<char>, nat)>) -> (BufferView, Step) {
    match answer {
        Some((l, c)) => (placed(b, l, c), Step::Continue { redraw: true }),
        None => (b, Step::Continue { redraw: false }),
    }
}

/// A line from history, with the cursor at its end.
pub open spec fn recalled(b: BufferView, answer: Option<Seq<char>>) -> (BufferView, Step) {
    match answer {
        Some(l) => (placed(b, l, l.len()), Step::Continue { redraw: true }),
        None => (b, Step::Continue { redraw: false }),
    }
}

/// What a Lua binding's answer does: the line it gave, and Accept when it asked to run it.
pub open spec fn lua_done(b: BufferView, answer: Option<(Seq<char>, nat, bool)>) -> (BufferView, Step) {
    match answer {
        Some((l, c, submit)) => (placed(b, l, c), if submit {
            Step::Accept
        } else {
            Step::Continue { redraw: true }
        }),
        None => (b, Step::Continue { redraw: false }),
    }
}

/// What a binding from the config does.
pub open spec fn spec_perform<A: Assist>(b: BufferView, bound: Bound, a: A) -> (BufferView, Step) {
    match bound {
        Bound::ToggleLanguage => (b, Step::ToggleLanguage),
        Bound::ClearScreen => (b, Step::ClearScreen),
        Bound::Interrupt => (b, Step::Interrupted),
        Bound::Complete => offered(b, a.completion_for(b.text, b.cursor as nat, false)),
        Bound::SearchHistory => recalled(b, a.found_for(b.text)),
        Bound::AcceptHint => (hint_taken(b, a, true).0, Step::Continue { redraw: hint_taken(b, a, true).1 }),
        Bound::AcceptHintWord => (hint_taken(b, a, false).0, Step::Continue { redraw: hint_taken(b, a, false).1 }),
        Bound::Lua(name) => lua_done(b, a.lua_for(name@, b.text, b.cursor as nat)),
    }
}

/// What an edit of the buffer alone leaves, and whether it changed anything; moves always ask
/// for a redraw.
pub open spec fn spec_edit(act: Action, b: BufferView) -> (BufferView, bool) {
    let t = b.text;
    let c = b.cursor;
    let len = t.len() as int;
    match act {
        Action::Left => (BufferView { cursor: if c > 0 { c - 1 } else { 0 }, ..b }, true),
        Action::Right => (BufferView { cursor: if c < len { c + 1 } else { c }, ..b }, true),
        Action::WordLeft => (BufferView { cursor: word_start_of(t, c), ..b }, true),
        Action::WordRight => (BufferView { cursor: word_end_of(t, c), ..b }, true),
        Action::Home => (BufferView { cursor: 0, ..b }, true),
        Action::End => (BufferView { cursor: len, ..b }, true),
        Action::Backspace => if c > 0 {
            (BufferView { text: t.remove(c - 1), cursor: c - 1, ..b }, true)
        } else {
            (b, false)
        },
        Action::KillToEnd => if c < len {
            (BufferView { text: t.subrange(0, c), cursor: c, kill: t.subrange(c, len) }, true)
        } else {
            (b, false)
        },
        Action::KillToStart => if c > 0 {
            (BufferView { text: t.subrange(c, len), cursor: 0, kill: t.subrange(0, c) }, true)
        } else {
            (b, false)
        },
        Action::KillWordLeft => {
            let f = word_start_of(t, c);
            if f < c {
                (BufferView { text: t.subrange(0, f) + t.subrange(c, len), cursor: f, kill: t.subrange(f, c) }, true)
            } else {
                (b, false)
            }
        },
        Action::KillWordRight => {
            let e = word_end_of(t, c);
            if c < e {
                (BufferView { text: t.subrange(0, c) + t.subrange(e, len), cursor: c, kill: t.subrange(c, e) }, true)
            } else {
                (b, false)
            }
        },
        Action::KillSpaceWordLeft => {
            let f = space_word_start_of(t, c);
            if f < c {
                (BufferView { text: t.subrange(0, f) + t.subrange(c, len), cursor: f, kill: t.subrange(f, c) }, true)
            } else {
                (b, false)
            }
        },
        Action::Yank => if b.kill.len() > 0 {
            (BufferView { text: t.subrange(0, c) + b.kill + t.subrange(c, len), cursor: c + b.kill.len(), ..b }, true)
        } else {
            (b, false)
        },
        Action::Transpose => {
            let right = if c >= len { len - 1 } else { c };
            if len >= 2 && right > 0 {
                (BufferView {
                    text: t.update(right - 1, t[right]).update(right, t[right - 1]),
                    cursor: if right + 1 < len { right + 1 } else { len },
                    ..b
                }, true)
            } else {
                (b, false)
            }
        },
        Action::Upper => cased(b, Case::Upper),
        Action::Lower => cased(b, Case::Lower),
        Action::Capitalise => cased(b, Case::Title),
        _ => (b, false),
    }
}

/// The word from the cursor converted, and the cursor past it.
pub open spec fn cased(b: BufferView, how: Case) -> (BufferView, bool) {
    let t = b.text;
    let c = b.cursor;
    let to = word_end_of(t, c);
    if c < to {
        (BufferView {
            text: Seq::new(t.len(), |i: int| if c <= i < to { converted(t, c, i, how) } else { t[i] }),
            cursor: to,
            ..b
        }, true)
    } else {
        (b, false)
    }
}

/// What a key does through the keymap.
pub open spec fn spec_keymap<A: Assist>(b: BufferView, act: Action, a: A) -> (BufferView, Step) {
    match act {
        Action::Insert(c) => if c == ' ' && a.abbreviation_for(b.text, b.cursor as nat) is Some {
            offered(b, a.abbreviation_for(b.text, b.cursor as nat))
        } else {
            (BufferView { text: b.text.insert(b.cursor, c), cursor: b.cursor + 1, ..b }, Step::Continue { redraw: true })
        },
        Action::Delete => if b.text.len() == 0 {
            (b, Step::Eof)
        } else if b.cursor < b.text.len() {
            (BufferView { text: b.text.remove(b.cursor), ..b }, Step::Continue { redraw: true })
        } else {
            (b, Step::Continue { redraw: false })
        },
        Action::Complete => offered(b, a.completion_for(b.text, b.cursor as nat, false)),
        Action::CompleteBack => offered(b, a.completion_for(b.text, b.cursor as nat, true)),
        Action::HistoryPrev => recalled(b, a.previous_for(b.text)),
        Action::HistoryNext => recalled(b, a.next_line()),
        Action::SearchHistory => recalled(b, a.found_for(b.text)),
        Action::Accept => (b, Step::Accept),
        Action::Abort => (b, Step::Interrupted),
        Action::Redraw => (b, Step::ClearScreen),
        Action::Escape | Action::Nothing => (b, Step::Continue { redraw: false }),
        _ => (spec_edit(act, b).0, Step::Continue { redraw: spec_edit(act, b).1 }),
    }
}

/// What one key does to the line, asked of `a` as it stands before the key: the hook sees the
/// key first and may swallow it or replace the line; then a binding from the config wins over
/// everything else; then Right at the end of the line takes the ghost suggestion; and anything
/// else goes through the keymap.
pub open spec fn spec_apply<A: Assist>(b: BufferView, key: Key, a: A) -> (BufferView, Step) {
    if a.watching() && a.hook_for(key, b.text, b.cursor as nat) is Some {
        match a.hook_for(key, b.text, b.cursor as nat) {
            Some(KeyHook::Line { text, cursor, submit }) => (placed(b, text@, cursor as nat), if submit {
                Step::Accept
            } else {
                Step::Continue { redraw: true }
            }),
            _ => (b, Step::Continue { redraw: false }),
        }
    } else if a.binding_for(key) is Some {
        spec_perform(b, a.binding_for(key)->0, a)
    } else if key == Key::Right && hint_taken(b, a, true).1 {
        (hint_taken(b, a, true).0, Step::Continue { redraw: true })
    } else {
        spec_keymap(b, spec_action(key), a)
    }
}

/// How reading a line ended.
#[derive(Debug, Clone, PartialEq, Eq)]
pub enum Outcome {
    Line(String),
    /// The language toggle was pressed: the read loop switches and reopens with the same text and
    /// cursor, so a toggle works mid-line.
    ToggleLanguage { text: String, cursor: usize },
    /// Ctrl-C: this line is abandoned, the shell carries on.
    Interrupted,
    /// Ctrl-D on an empty line, or the input ended.
    Eof,
}

/// The line being edited.
#[derive(Debug)]
pub struct Session {
    pub buffer: Buffer,
}

impl Session {
    /// A line the edits can be made to: the cursor on it, and room in memory for one more
    /// character and for the kill to be put back.
    pub open spec fn wf(&self) -> bool {
        &&& self.buffer.wf()
        &&& self.buffer@.text.len() + self.buffer@.kill.len() < usize::MAX
    }

    /// A session on `text` with the cursor at `cursor`, or at the end if that is past it.
    pub fn new(text: &str, cursor: usize) -> (s: Session)
        ensures
            s.buffer.wf(),
            s.buffer@.text == text@,
            s.buffer@.cursor == (if cursor <= text@.len() { cursor as int } else { text@.len() as int }),
            s.buffer@.kill == Seq::<char>::empty(),
    {
        let mut buffer = Buffer::new();
        buffer.set(text, cursor);
        Session { buffer }
    }

    fn set_line(&mut self, line: &str, cursor: usize)
        requires
            old(self).buffer.wf(),
        ensures
            final(self).buffer.wf(),
            final(self).buffer@ == placed(old(self).buffer@, line@, cursor as nat),
    {
        self.buffer.set(line, cursor);
    }

    fn offer(&mut self, answer: Option<(String, usize)>) -> (r: Step)
        requires
            old(self).buffer.wf(),
        ensures
            final(self).buffer.wf(),
            (final(self).buffer@, r) == offered(old(self).buffer@, placed_of(answer)),
    {
        match answer {
            Some((line, cursor)) => {
                self.set_line(line.as_str(), cursor);
                Step::Continue { redraw: true }
            },
            None => Step::Continue { redraw: false },
        }
    }

    fn recall(&mut self, answer: Option<String>) -> (r: Step)
        requires
            old(self).buffer.wf(),
        ensures
            final(self).buffer.wf(),
            (final(self).buffer@, r) == recalled(old(self).buffer@, text_of(answer)),
    {
        match answer {
            Some(line) => {
                let end = text::chars_of(line.as_str()).len();
                self.set_line(line.as_str(), end);
                Step::Continue { redraw: true }
            },
            None => Step::Continue { redraw: false },
        }
    }

    /// Take the ghost suggestion into the line, all of it or one word; `false` when there was
    /// nothing to take.
    fn take_hint<A: Assist>(&mut self, whole: bool, assist: &A) -> (r: bool)
        requires
            old(self).buffer.wf(),
        ensures
            final(self).buffer.wf(),
            (final(self).buffer@, r) == hint_taken(old(self).buffer@, *assist, whole),
    {
        let line = self.buffer.text();
        let cursor = self.buffer.cursor();
        let hint = match assist.hint_text(line.as_str(), cursor) {
            Some(h) => h,
            None => return false,
        };
        let take = if whole {
            hint
        } else {
            first_word(hint.as_str())
        };
        let n = text::chars_of(take.as_str()).len();
        let len = self.buffer.len();
        if n == 0 || n > usize::MAX - len {
            return false;
        }
        let ghost b0 = self.buffer@;
        self.buffer.move_end();
        self.buffer.insert_str(take.as_str());
        proof {
            assert(b0.text.subrange(0, b0.text.len() as int) =~= b0.text);
            assert(b0.text.subrange(b0.text.len() as int, b0.text.len() as int) =~= Seq::<char>::empty());
            assert(self.buffer@.text =~= b0.text + take@);
        }
        true
    }

    /// Carry out a binding the config asked for.
    fn perform<A: Assist>(&mut self, bound: Bound, assist: &mut A) -> (r: Step)
        requires
            old(self).buffer.wf(),
        ensures
            final(self).buffer.wf(),
            (final(self).buffer@, r) == spec_perform(old(self).buffer@, bound, *old(assist)),
    {
        match bound {
            Bound::ToggleLanguage => Step::ToggleLanguage,
            Bound::ClearScreen => Step::ClearScreen,
            Bound::Interrupt => Step::Interrupted,
            Bound::Complete => {
                let line = self.buffer.text();
                let cursor = self.buffer.cursor();
                let answer = assist.complete(line.as_str(), cursor, false);
                self.offer(answer)
            },
            Bound::SearchHistory => {
                let line = self.buffer.text();
                let answer = assist.search_history(line.as_str());
                self.recall(answer)
            },
            Bound::AcceptHint => {
                let yes = self.take_hint(true, &*assist);
                Step::Continue { redraw: yes }
            },
            Bound::AcceptHintWord => {
                let yes = self.take_hint(false, &*assist);
                Step::Continue { redraw: yes }
            },
            Bound::Lua(name) => {
                let line = self.buffer.text();
                let cursor = self.buffer.cursor();
                match assist.lua_key(name.as_str(), line.as_str(), cursor) {
                    Some((l, c, submit)) => {
                        self.set_line(l.as_str(), c);
                        if submit {
                            Step::Accept
                        } else {
                            Step::Continue { redraw: true }
                        }
                    },
                    None => Step::Continue { redraw: false },
                }
            },
        }
    }

    /// An edit of the buffer alone.
    fn edit(&mut self, act: Action) -> (r: bool)
        requires
            old(self).wf(),
        ensures
            final(self).buffer.wf(),
            (final(self).buffer@, r) == spec_edit(act, old(self).buffer@),
    {
        let ghost b0 = self.buffer@;
        match act {
            Action::Left => {
                self.buffer.move_left();
                true
            },
            Action::Right => {
                self.buffer.move_right();
                true
            },
            Action::WordLeft => {
                self.buffer.move_word_left();
                true
            },
            Action::WordRight => {
                self.buffer.move_word_right();
                true
            },
            Action::Home => {
                self.buffer.move_home();
                true
            },
            Action::End => {
                self.buffer.move_end();
                true
            },
            Action::Backspace => self.buffer.backspace(),
            Action::KillToEnd => self.buffer.kill_to_end(),
            Action::KillToStart => self.buffer.kill_to_start(),
            Action::KillWordLeft => self.buffer.kill_word_left(),
            Action::KillWordRight => self.buffer.kill_word_right(),
            Action::KillSpaceWordLeft => self.buffer.kill_space_word_left(),
            Action::Yank => self.buffer.yank(),
            Action::Transpose => self.buffer.transpose(),
            Action::Upper => {
                let r = self.buffer.case_word(Case::Upper);
                proof {
                    if r {
                        assert(self.buffer@.text =~= cased(b0, Case::Upper).0.text);
                    }
                }
                r
            },
            Action::Lower => {
                let r = self.buffer.case_word(Case::Lower);
                proof {
                    if r {
                        assert(self.buffer@.text =~= cased(b0, Case::Lower).0.text);
                    }
                }
                r
            },
            Action::Capitalise => {
                let r = self.buffer.case_word(Case::Title);
                proof {
                    if r {
                        assert(self.buffer@.text =~= cased(b0, Case::Title).0.text);
                    }
                }
                r
            },
            _ => false,
        }
    }

    /// What a key does through the keymap.
    fn through_keymap<A: Assist>(&mut self, act: Action, assist: &mut A) -> (r: Step)
        requires
            old(self).wf(),
        ensures
            final(self).buffer.wf(),
            (final(self).buffer@, r) == spec_keymap(old(self).buffer@, act, *old(assist)),
    {
        match act {
            Action::Insert(c) => {
                if c == ' ' {
                    let line = self.buffer.text();
                    let cursor = self.buffer.cursor();
                    let answer = assist.abbreviation(line.as_str(), cursor);
                    if answer.is_some() {
                        return self.offer(answer);
                    }
                }
                self.buffer.insert(c);
                Step::Continue { redraw: true }
            },
            Action::Delete => {
                if self.buffer.is_empty() {
                    Step::Eof
                } else {
                    let yes = self.buffer.delete();
                    Step::Continue { redraw: yes }
                }
            },
            Action::Complete | Action::CompleteBack => {
                let back = match act {
                    Action::CompleteBack => true,
                    _ => false,
                };
                let line = self.buffer.text();
                let cursor = self.buffer.cursor();
                let answer = assist.complete(line.as_str(), cursor, back);
                self.offer(answer)
            },
            Action::HistoryPrev => {
                let line = self.buffer.text();
                let answer = assist.history_prev(line.as_str());
                self.recall(answer)
            },
            Action::HistoryNext => {
                let answer = assist.history_next();
                self.recall(answer)
            },
            Action::SearchHistory => {
                let line = self.buffer.text();
                let answer = assist.search_history(line.as_str());
                self.recall(answer)
            },
            Action::Accept => Step::Accept,
            Action::Abort => Step::Interrupted,
            Action::Redraw => Step::ClearScreen,
            Action::Escape | Action::Nothing => Step::Continue { redraw: false },
            _ => {
                let yes = self.edit(act);
                Step::Continue { redraw: yes }
            },
        }
    }

    /// Apply one key.
    ///
    /// The `key` hook sees the keystroke first, ordinary characters included, and may swallow it
    /// or put a whole line in its place. A binding from the config then wins over everything
    /// else. Right at the end of the line takes the ghost suggestion, and moves the cursor
    /// everywhere else. Ctrl-D ends input only on an empty line and deletes forward otherwise;
    /// Esc on its own does nothing, because a shell prompt has nothing to cancel to.
    pub fn apply<A: Assist>(&mut self, key: Key, assist: &mut A) -> (r: Step)
        requires
            old(self).wf(),
        ensures
            final(self).buffer.wf(),
            (final(self).buffer@, r) == spec_apply(old(self).buffer@, key, *old(assist)),
    {
        if assist.watches_keys() {
            let line = self.buffer.text();
            let cursor = self.buffer.cursor();
            match assist.key_hook(key, line.as_str(), cursor) {
                Some(KeyHook::Swallow) => return Step::Continue { redraw: false },
                Some(KeyHook::Line { text, cursor, submit }) => {
                    self.set_line(text.as_str(), cursor);
                    return if submit {
                        Step::Accept
                    } else {
                        Step::Continue { redraw: true }
                    };
                },
                None => {},
            }
        }
        match assist.binding(key) {
            Some(bound) => return self.perform(bound, assist),
            None => {},
        }
        let right = match key {
            Key::Right => true,
            _ => false,
        };
        if right {
            let ghost b0 = self.buffer@;
            let taken = self.take_hint(true, &*assist);
            if taken {
                return Step::Continue { redraw: true };
            }
            proof {
                assert(self.buffer@ == b0);
            }
        }
        let act = action(key);
        self.through_keymap(act, assist)
    }
}

/// The first word of a suggestion, with the whitespace before and after it.
fn first_word(hint: &str) -> (r: String)
    ensures
        r@ == spec_first_word(hint@),
{
    let cs = text::chars_of(hint);
    let n = cs.len();
    proof {
        lemma_word_stop(cs@, 0);
    }
    let mut a: usize = 0;
    while a < n && text::is_whitespace(cs[a])
        invariant
            a <= n,
            n == cs@.len(),
            trim_start_at(cs@, a as int) == trim_start_at(cs@, 0),
        decreases n - a,
    {
        a += 1;
    }
    proof {
        lemma_word_stop(cs@, a as int);
    }
    let mut e: usize = a;
    while e < n && !text::is_whitespace(cs[e])
        invariant
            a <= e <= n,
            n == cs@.len(),
            word_stop(cs@, e as int) == word_stop(cs@, a as int),
        decreases n - e,
    {
        e += 1;
    }
    proof {
        lemma_word_stop(cs@, e as int);
    }
    let mut f: usize = e;
    while f < n && text::is_whitespace(cs[f])
        invariant
            e <= f <= n,
            n == cs@.len(),
            trim_start_at(cs@, f as int) == trim_start_at(cs@, e as int),
        decreases n - f,
    {
        f += 1;
    }
    let taken = text::slice_vec(cs.as_slice(), 0, f);
    proof {
        assert(taken@ =~= cs@.take(f as int));
    }
    text::string_of(taken.as_slice())
}

/// Ctrl-D ends input only on an empty line; on a line with text it deletes forward, and a key
/// that is the shell's own gives way to nothing but a hook or a binding.
pub proof fn law_ctrl_d_ends_input_only_on_an_empty_line<A: Assist>(b: BufferView, a: A)
    requires
        !(a.watching() && a.hook_for(Key::Delete, b.text, b.cursor as nat) is Some),
        a.binding_for(Key::Delete) is None,
    ensures
        (spec_apply(b, Key::Delete, a).1 == Step::Eof) <==> b.text.len() == 0,
{
}

/// Esc on its own leaves the line exactly as it was and asks for no redraw, unless a hook or a
/// binding claims it.
pub proof fn law_escape_alone_does_nothing<A: Assist>(b: BufferView, a: A)
    requires
        !(a.watching() && a.hook_for(Key::Cancel, b.text, b.cursor as nat) is Some),
        a.binding_for(Key::Cancel) is None,
    ensures
        spec_apply(b, Key::Cancel, a) == (b, Step::Continue { redraw: false }),
{
}

/// A binding from the config beats every default meaning of its key, once no hook has claimed
/// the key.
pub proof fn law_a_binding_beats_the_keymap<A: Assist>(b: BufferView, key: Key, a: A)
    requires
        !(a.watching() && a.hook_for(key, b.text, b.cursor as nat) is Some),
        a.binding_for(key) is Some,
    ensures
        spec_apply(b, key, a) == spec_perform(b, a.binding_for(key)->0, a),
{
}

/// A hook that answers sees the key before anything else: a swallowed key changes nothing.
pub proof fn law_the_hook_sees_every_key_first<A: Assist>(b: BufferView, key: Key, a: A)
    requires
        a.watching(),
        a.hook_for(key, b.text, b.cursor as nat) == Some(KeyHook::Swallow),
    ensures
        spec_apply(b, key, a) == (b, Step::Continue { redraw: false }),
{
}

} // verus!
