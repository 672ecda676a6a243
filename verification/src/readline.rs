//! `bind`: letting shell code — and the plugins written in it — own a keystroke.
//!
//! Shell integrations are distributed as shell source you `eval`, and each claims keys the way
//! bash's readline does (`bind -x '"\C-r": __atuin_history'`). `bind` is ordinary shell code and
//! runs whenever it is reached, while the editor is built once, so bindings live in a [`Registry`]
//! that carries a generation counter; the read loop re-applies them when it changes.
//!
//! A `bind -x` key runs its command with the line in hand. The editor cannot run shell code, so it
//! records a [`Request`] and ends the line, and the read loop runs the command and re-enters.
//!
//! Keys are modelled as the line editor models them: a key code and the modifiers held with it,
//! normalised the way the editor's constructors normalise a character (`\x01` is Ctrl-A, Tab is
//! Tab whatever else is held, Shift is dropped from a printable character).

use vstd::prelude::*;
use crate::history_expand::digits_end;
use crate::text::{self, spec_ascii_lower, spec_is_control, spec_trim};

verus! {

/// The key part of a key event.
#[derive(Debug, Clone, Copy, PartialEq, Eq, Structural)]
pub enum KeyCode {
    UnknownEscSeq,
    Backspace,
    BackTab,
    BracketedPasteStart,
    BracketedPasteEnd,
    Char(char),
    Delete,
    Down,
    End,
    Enter,
    Esc,
    F(u8),
    Home,
    Insert,
    Left,
    Null,
    PageDown,
    PageUp,
    Right,
    Tab,
    Up,
}

/// The modifier keys held along with a key.
#[derive(Debug, Clone, Copy, PartialEq, Eq, Structural)]
pub struct Modifiers {
    pub ctrl: bool,
    pub alt: bool,
    pub shift: bool,
}

/// A key and its modifiers.
#[derive(Debug, Clone, Copy, PartialEq, Eq, Structural)]
pub struct KeyEvent(pub KeyCode, pub Modifiers);

pub open spec fn no_mods() -> Modifiers {
    Modifiers { ctrl: false, alt: false, shift: false }
}

impl Modifiers {
    /// No modifier.
    pub fn none() -> (m: Modifiers)
        ensures
            m == no_mods(),
    {
        Modifiers { ctrl: false, alt: false, shift: false }
    }
}

/// The event for character `c` with `mods`: a printable character is itself (without Shift); a
/// control character is the key it stands for — `\x01`..`\x1f` the Ctrl chord of `@`..`_`,
/// except Backspace, Tab, Enter and Esc, which are those keys — and DEL is Backspace.
pub open spec fn new_event(c: char, mods: Modifiers) -> KeyEvent {
    let u = c as u32;
    let ctrl = Modifiers { ctrl: true, ..mods };
    if !spec_is_control(c) {
        KeyEvent(KeyCode::Char(c), Modifiers { shift: false, ..mods })
    } else if u == 0x08 || u == 0x7f {
        KeyEvent(KeyCode::Backspace, mods)
    } else if u == 0x09 {
        if mods.shift {
            KeyEvent(KeyCode::BackTab, Modifiers { shift: false, ..mods })
        } else {
            KeyEvent(KeyCode::Tab, mods)
        }
    } else if u == 0x0d {
        KeyEvent(KeyCode::Enter, mods)
    } else if u == 0x1b {
        KeyEvent(KeyCode::Esc, mods)
    } else if u <= 0x1f {
        KeyEvent(KeyCode::Char(((u + 0x40) as u32) as char), ctrl)
    } else if u == 0x9b {
        KeyEvent(KeyCode::Esc, Modifiers { shift: true, ..mods })
    } else {
        KeyEvent(KeyCode::Null, mods)
    }
}

pub open spec fn ctrl_event(c: char) -> KeyEvent {
    new_event(c, Modifiers { ctrl: true, alt: false, shift: false })
}

pub open spec fn alt_event(c: char) -> KeyEvent {
    new_event(c, Modifiers { ctrl: false, alt: true, shift: false })
}

impl KeyEvent {
    /// The event a character typed with `mods` is.
    pub fn new(c: char, mods: Modifiers) -> (e: KeyEvent)
        ensures
            e == new_event(c, mods),
    {
        let u = c as u32;
        if !text::is_control(c) {
            KeyEvent(KeyCode::Char(c), Modifiers { shift: false, ..mods })
        } else if u == 0x08 || u == 0x7f {
            KeyEvent(KeyCode::Backspace, mods)
        } else if u == 0x09 {
            if mods.shift {
                KeyEvent(KeyCode::BackTab, Modifiers { shift: false, ..mods })
            } else {
                KeyEvent(KeyCode::Tab, mods)
            }
        } else if u == 0x0d {
            KeyEvent(KeyCode::Enter, mods)
        } else if u == 0x1b {
            KeyEvent(KeyCode::Esc, mods)
        } else if u <= 0x1f {
            KeyEvent(KeyCode::Char(text::char_from_ascii(u + 0x40)), Modifiers { ctrl: true, ..mods })
        } else if u == 0x9b {
            KeyEvent(KeyCode::Esc, Modifiers { shift: true, ..mods })
        } else {
            KeyEvent(KeyCode::Null, mods)
        }
    }

    /// `c` with Ctrl.
    pub fn ctrl(c: char) -> (e: KeyEvent)
        ensures
            e == ctrl_event(c),
    {
        KeyEvent::new(c, Modifiers { ctrl: true, alt: false, shift: false })
    }

    /// `c` with Alt.
    pub fn alt(c: char) -> (e: KeyEvent)
        ensures
            e == alt_event(c),
    {
        KeyEvent::new(c, Modifiers { ctrl: false, alt: true, shift: false })
    }
}

/// `\C-x`. Ctrl-I, Ctrl-M and Ctrl-[ are the keys a terminal cannot tell apart from Tab, Enter
/// and Esc, so they are those keys, and Ctrl-? is Backspace.
pub open spec fn control(c: char) -> KeyEvent {
    let l = spec_ascii_lower(c);
    if l == 'i' {
        KeyEvent(KeyCode::Tab, no_mods())
    } else if l == 'm' {
        KeyEvent(KeyCode::Enter, no_mods())
    } else if l == '[' {
        KeyEvent(KeyCode::Esc, no_mods())
    } else if l == '?' {
        KeyEvent(KeyCode::Backspace, no_mods())
    } else {
        ctrl_event(l)
    }
}

/// The key a `\e[` number names: `\e[3~` is Delete, and its family is written the same way.
pub open spec fn number_key(n: Seq<char>) -> Option<KeyCode> {
    if n.len() == 1 {
        let a = n[0];
        if a == '1' || a == '7' {
            Some(KeyCode::Home)
        } else if a == '2' {
            Some(KeyCode::Insert)
        } else if a == '3' {
            Some(KeyCode::Delete)
        } else if a == '4' || a == '8' {
            Some(KeyCode::End)
        } else if a == '5' {
            Some(KeyCode::PageUp)
        } else if a == '6' {
            Some(KeyCode::PageDown)
        } else {
            None
        }
    } else if n.len() == 2 && n[0] == '1' {
        let b = n[1];
        if b == '5' {
            Some(KeyCode::F(5))
        } else if b == '7' {
            Some(KeyCode::F(6))
        } else if b == '8' {
            Some(KeyCode::F(7))
        } else if b == '9' {
            Some(KeyCode::F(8))
        } else {
            None
        }
    } else if n.len() == 2 && n[0] == '2' {
        let b = n[1];
        if b == '0' {
            Some(KeyCode::F(9))
        } else if b == '1' {
            Some(KeyCode::F(10))
        } else if b == '3' {
            Some(KeyCode::F(11))
        } else if b == '4' {
            Some(KeyCode::F(12))
        } else {
            None
        }
    } else {
        None
    }
}

/// The key a letter after `\e[` or `\eO` names.
pub open spec fn letter_key(c: char) -> Option<KeyCode> {
    if c == 'A' {
        Some(KeyCode::Up)
    } else if c == 'B' {
        Some(KeyCode::Down)
    } else if c == 'C' {
        Some(KeyCode::Right)
    } else if c == 'D' {
        Some(KeyCode::Left)
    } else if c == 'H' {
        Some(KeyCode::Home)
    } else if c == 'F' {
        Some(KeyCode::End)
    } else if c == 'P' {
        Some(KeyCode::F(1))
    } else if c == 'Q' {
        Some(KeyCode::F(2))
    } else if c == 'R' {
        Some(KeyCode::F(3))
    } else if c == 'S' {
        Some(KeyCode::F(4))
    } else {
        None
    }
}

/// The rest of a `\e...` starting at `j`: the key it spells, or `None` when it spells none (the
/// caller then reads a plain Esc), and where reading stopped.
pub open spec fn escape_at(s: Seq<char>, j: int) -> (Option<KeyEvent>, int) {
    if j >= s.len() {
        (None, j)
    } else if s[j] != '[' && s[j] != 'O' {
        (Some(alt_event(s[j])), j + 1)
    } else if j + 1 >= s.len() {
        (None, j + 1)
    } else {
        let code = s[j + 1];
        if letter_key(code) is Some {
            (Some(KeyEvent(letter_key(code).unwrap(), no_mods())), j + 2)
        } else if '0' <= code <= '9' {
            let e = digits_end(s, j + 1);
            let after = if e < s.len() && s[e] == '~' {
                e + 1
            } else {
                e
            };
            match number_key(s.subrange(j + 1, e)) {
                Some(k) => (Some(KeyEvent(k, no_mods())), after),
                None => (None, after),
            }
        } else {
            (None, j + 2)
        }
    }
}

/// Skip a `-` at `j`, which `\C-x` and `\M-x` write as part of the syntax.
pub open spec fn past_dash(s: Seq<char>, j: int) -> int {
    if 0 <= j < s.len() && s[j] == '-' {
        j + 1
    } else {
        j
    }
}

/// The key written at `s[i..]` and where the next one starts, or `None` when the spelling is cut
/// short or means nothing.
pub open spec fn token_at(s: Seq<char>, i: int) -> Option<(KeyEvent, int)> {
    let c = s[i];
    if c != '\\' {
        Some((KeyEvent(KeyCode::Char(c), no_mods()), i + 1))
    } else if i + 1 >= s.len() {
        None
    } else {
        let d = s[i + 1];
        let j = i + 2;
        if d == 'C' || d == 'c' {
            let k = past_dash(s, j);
            if k >= s.len() {
                None
            } else {
                Some((control(s[k]), k + 1))
            }
        } else if d == 'M' || d == 'm' {
            let k = past_dash(s, j);
            if k < s.len() && s[k] == '\\' {
                if k + 1 >= s.len() {
                    None
                } else if s[k + 1] == 'C' || s[k + 1] == 'c' {
                    let m = past_dash(s, k + 2);
                    if m >= s.len() {
                        None
                    } else {
                        let e = control(s[m]);
                        Some((KeyEvent(e.0, Modifiers { alt: true, ..e.1 }), m + 1))
                    }
                } else {
                    None
                }
            } else if k >= s.len() {
                None
            } else {
                Some((alt_event(s[k]), k + 1))
            }
        } else if d == 'e' || d == 'E' {
            let (r, n) = escape_at(s, j);
            match r {
                Some(e) => Some((e, n)),
                None => Some((KeyEvent(KeyCode::Esc, no_mods()), n)),
            }
        } else if d == 't' {
            Some((KeyEvent(KeyCode::Tab, no_mods()), j))
        } else if d == 'n' || d == 'r' {
            Some((KeyEvent(KeyCode::Enter, no_mods()), j))
        } else if d == 'd' {
            Some((KeyEvent(KeyCode::Delete, no_mods()), j))
        } else {
            Some((KeyEvent(KeyCode::Char(d), no_mods()), j))
        }
    }
}

pub proof fn lemma_token_advances(s: Seq<char>, i: int)
    requires
        0 <= i < s.len(),
    ensures
        token_at(s, i) matches Some((_, n)) ==> i < n <= s.len(),
{
    let j = i + 2;
    if j < s.len() && ('0' <= s[j + 1] <= '9') {
        crate::history_expand::lemma_digits_end(s, j + 1);
    }
}

/// The keys written from `i` on, or `None` when one of them is not a key.
pub open spec fn keys_from(s: Seq<char>, i: int) -> Option<Seq<KeyEvent>>
    decreases s.len() - i,
{
    if !(0 <= i < s.len()) {
        Some(seq![])
    } else {
        match token_at(s, i) {
            None => None,
            Some((e, n)) => {
                proof {
                    lemma_token_advances(s, i);
                }
                match keys_from(s, n) {
                    Some(rest) => Some(seq![e] + rest),
                    None => None,
                }
            },
        }
    }
}

/// `spec` without surrounding double quotes, which are optional.
pub open spec fn unquoted(s: Seq<char>) -> Seq<char> {
    if s.len() >= 2 && s[0] == '"' && s[s.len() - 1] == '"' {
        s.subrange(1, s.len() - 1)
    } else {
        s
    }
}

/// The keys a readline key-sequence spelling stands for.
pub open spec fn spec_parse_sequence(spec: Seq<char>) -> Option<Seq<KeyEvent>> {
    let body = unquoted(spec_trim(spec));
    if body.len() == 0 {
        None
    } else {
        match keys_from(body, 0) {
            Some(ks) => if ks.len() > 0 {
                Some(ks)
            } else {
                None
            },
            None => None,
        }
    }
}

fn control_x(c: char) -> (e: KeyEvent)
    ensures
        e == control(c),
{
    let l = text::ascii_lower(c);
    if l == 'i' {
        KeyEvent(KeyCode::Tab, Modifiers::none())
    } else if l == 'm' {
        KeyEvent(KeyCode::Enter, Modifiers::none())
    } else if l == '[' {
        KeyEvent(KeyCode::Esc, Modifiers::none())
    } else if l == '?' {
        KeyEvent(KeyCode::Backspace, Modifiers::none())
    } else {
        KeyEvent::ctrl(l)
    }
}

fn letter_key_x(c: char) -> (r: Option<KeyCode>)
    ensures
        r == letter_key(c),
{
    if c == 'A' {
        Some(KeyCode::Up)
    } else if c == 'B' {
        Some(KeyCode::Down)
    } else if c == 'C' {
        Some(KeyCode::Right)
    } else if c == 'D' {
        Some(KeyCode::Left)
    } else if c == 'H' {
        Some(KeyCode::Home)
    } else if c == 'F' {
        Some(KeyCode::End)
    } else if c == 'P' {
        Some(KeyCode::F(1))
    } else if c == 'Q' {
        Some(KeyCode::F(2))
    } else if c == 'R' {
        Some(KeyCode::F(3))
    } else if c == 'S' {
        Some(KeyCode::F(4))
    } else {
        None
    }
}

fn number_key_x(s: &[char], from: usize, to: usize) -> (r: Option<KeyCode>)
    requires
        from <= to <= s@.len(),
    ensures
        r == number_key(s@.subrange(from as int, to as int)),
{
    let ghost n = s@.subrange(from as int, to as int);
    if to - from == 1 {
        let a = s[from];
        assert(n[0] == a);
        if a == '1' || a == '7' {
            Some(KeyCode::Home)
        } else if a == '2' {
            Some(KeyCode::Insert)
        } else if a == '3' {
            Some(KeyCode::Delete)
        } else if a == '4' || a == '8' {
            Some(KeyCode::End)
        } else if a == '5' {
            Some(KeyCode::PageUp)
        } else if a == '6' {
            Some(KeyCode::PageDown)
        } else {
            None
        }
    } else if to - from == 2 {
        let a = s[from];
        let b = s[from + 1];
        assert(n[0] == a && n[1] == b);
        if a == '1' {
            if b == '5' {
                Some(KeyCode::F(5))
            } else if b == '7' {
                Some(KeyCode::F(6))
            } else if b == '8' {
                Some(KeyCode::F(7))
            } else if b == '9' {
                Some(KeyCode::F(8))
            } else {
                None
            }
        } else if a == '2' {
            if b == '0' {
                Some(KeyCode::F(9))
            } else if b == '1' {
                Some(KeyCode::F(10))
            } else if b == '3' {
                Some(KeyCode::F(11))
            } else if b == '4' {
                Some(KeyCode::F(12))
            } else {
                None
            }
        } else {
            None
        }
    } else {
        None
    }
}

fn escape_x(s: &[char], j: usize) -> (r: (Option<KeyEvent>, usize))
    requires
        j <= s@.len(),
    ensures
        (r.0, r.1 as int) == escape_at(s@, j as int),
        j <= r.1 <= s@.len(),
{
    if j >= s.len() {
        return (None, j);
    }
    let b = s[j];
    if b != '[' && b != 'O' {
        return (Some(KeyEvent::alt(b)), j + 1);
    }
    if j + 1 >= s.len() {
        return (None, j + 1);
    }
    let code = s[j + 1];
    match letter_key_x(code) {
        Some(k) => return (Some(KeyEvent(k, Modifiers::none())), j + 2),
        None => {},
    }
    if '0' <= code && code <= '9' {
        proof {
            crate::history_expand::lemma_digits_end(s@, j + 1);
        }
        let e = crate::history_expand::digits_end_x(s, j + 1);
        let after = if e < s.len() && s[e] == '~' {
            e + 1
        } else {
            e
        };
        match number_key_x(s, j + 1, e) {
            Some(k) => (Some(KeyEvent(k, Modifiers::none())), after),
            None => (None, after),
        }
    } else {
        (None, j + 2)
    }
}

fn past_dash_x(s: &[char], j: usize) -> (r: usize)
    requires
        j <= s@.len(),
    ensures
        r == past_dash(s@, j as int),
        j <= r <= s@.len(),
{
    if j < s.len() && s[j] == '-' {
        j + 1
    } else {
        j
    }
}

fn token_x(s: &[char], i: usize) -> (r: Option<(KeyEvent, usize)>)
    requires
        i < s@.len(),
    ensures
        match r {
            Some((e, n)) => token_at(s@, i as int) == Some((e, n as int)),
            None => token_at(s@, i as int) is None,
        },
{
    let c = s[i];
    if c != '\\' {
        return Some((KeyEvent(KeyCode::Char(c), Modifiers::none()), i + 1));
    }
    if i + 1 >= s.len() {
        return None;
    }
    let d = s[i + 1];
    let j = i + 2;
    if d == 'C' || d == 'c' {
        let k = past_dash_x(s, j);
        if k >= s.len() {
            None
        } else {
            Some((control_x(s[k]), k + 1))
        }
    } else if d == 'M' || d == 'm' {
        let k = past_dash_x(s, j);
        if k < s.len() && s[k] == '\\' {
            if k + 1 >= s.len() {
                None
            } else if s[k + 1] == 'C' || s[k + 1] == 'c' {
                let m = past_dash_x(s, k + 2);
                if m >= s.len() {
                    None
                } else {
                    let e = control_x(s[m]);
                    Some((KeyEvent(e.0, Modifiers { alt: true, ..e.1 }), m + 1))
                }
            } else {
                None
            }
        } else if k >= s.len() {
            None
        } else {
            Some((KeyEvent::alt(s[k]), k + 1))
        }
    } else if d == 'e' || d == 'E' {
        let (r, n) = escape_x(s, j);
        match r {
            Some(e) => Some((e, n)),
            None => Some((KeyEvent(KeyCode::Esc, Modifiers::none()), n)),
        }
    } else if d == 't' {
        Some((KeyEvent(KeyCode::Tab, Modifiers::none()), j))
    } else if d == 'n' || d == 'r' {
        Some((KeyEvent(KeyCode::Enter, Modifiers::none()), j))
    } else if d == 'd' {
        Some((KeyEvent(KeyCode::Delete, Modifiers::none()), j))
    } else {
        Some((KeyEvent(KeyCode::Char(d), Modifiers::none()), j))
    }
}

fn keys_x(s: &[char]) -> (r: Option<Vec<KeyEvent>>)
    ensures
        match r {
            Some(v) => keys_from(s@, 0) == Some(v@),
            None => keys_from(s@, 0) is None,
        },
{
    let mut out: Vec<KeyEvent> = Vec::new();
    let mut i: usize = 0;
    while i < s.len()
        invariant
            i <= s@.len(),
            keys_from(s@, 0) == match keys_from(s@, i as int) {
                Some(rest) => Some(out@ + rest),
                None => None::<Seq<KeyEvent>>,
            },
        decreases s.len() - i,
    {
        proof {
            lemma_token_advances(s@, i as int);
        }
        match token_x(s, i) {
            None => return None,
            Some((e, n)) => {
                let ghost before = out@;
                out.push(e);
                proof {
                    match keys_from(s@, n as int) {
                        Some(rest) => {
                            assert(before + (seq![e] + rest) =~= out@ + rest);
                        },
                        None => {},
                    }
                }
                i = n;
            },
        }
    }
    proof {
        assert(out@ + seq![] =~= out@);
    }
    Some(out)
}

/// The keys a readline key-sequence spelling stands for.
///
/// The forms that appear in the wild: `"\C-r"` (Ctrl-R), `"\e[A"` (the sequence an Up arrow
/// sends, read as that key), `"\M-a"` (Alt-A), `"\C-x\C-r"` (two keys), `"\t"` and `"\n"`.
/// Surrounding double quotes are optional. `None` for an empty spelling or one that is cut short.
pub fn parse_sequence(spec: &str) -> (r: Option<Vec<KeyEvent>>)
    ensures
        match r {
            Some(v) => spec_parse_sequence(spec@) == Some(v@),
            None => spec_parse_sequence(spec@) is None,
        },
{
    let all = text::chars_of(spec);
    let t = text::trim(all.as_slice());
    let body = if t.len() >= 2 && t[0] == '"' && t[t.len() - 1] == '"' {
        text::slice_vec(t.as_slice(), 1, t.len() - 1)
    } else {
        t
    };
    if body.len() == 0 {
        return None;
    }
    match keys_x(body.as_slice()) {
        Some(v) => if v.len() > 0 {
            Some(v)
        } else {
            None
        },
        None => None,
    }
}

/// What a bound key does.
#[derive(Debug, Clone, PartialEq, Eq)]
pub enum Bound {
    /// `bind -x`: run this shell command, with the line in `$READLINE_LINE`.
    Command(String),
    /// `bind '"\C-x": text'`: a readline function name or a macro, recorded so a listing can
    /// report it.
    Function(String),
}

/// One binding, as `bind` recorded it.
#[derive(Debug, Clone)]
pub struct Entry {
    /// The key sequence, already parsed.
    pub keys: Vec<KeyEvent>,
    /// The spec exactly as written, so `bind -r` can match it and a listing can echo it.
    pub spec: String,
    pub bound: Bound,
}

/// A binding as its keys, its spelling, and whether it runs a command together with its text.
pub type EntryView = (Seq<KeyEvent>, Seq<char>, (bool, Seq<char>));

pub open spec fn bound_view(b: Bound) -> (bool, Seq<char>) {
    match b {
        Bound::Command(s) => (true, s@),
        Bound::Function(s) => (false, s@),
    }
}

pub open spec fn entry_view(e: Entry) -> EntryView {
    (e.keys@, e.spec@, bound_view(e.bound))
}

/// A key was pressed and its command has not run yet.
#[derive(Debug, Clone, PartialEq, Eq)]
pub struct Request {
    pub command: String,
    /// The buffer as it stood when the key was pressed.
    pub line: String,
    /// The cursor, as a byte offset — what `$READLINE_POINT` counts.
    pub point: usize,
}

/// Every binding `bind` has made, the generation that moves on every change, and the request a
/// pressed key left for the read loop.
pub struct Registry {
    entries: Vec<Entry>,
    generation: usize,
    pending: Option<Request>,
}

/// The registry's bindings with `keys` left out, in their order.
pub open spec fn without(es: Seq<EntryView>, keys: Seq<KeyEvent>) -> Seq<EntryView>
    decreases es.len(),
{
    if es.len() == 0 {
        seq![]
    } else if es.last().0 == keys {
        without(es.drop_last(), keys)
    } else {
        without(es.drop_last(), keys).push(es.last())
    }
}

/// The generation after one more change; it wraps rather than overflowing.
pub open spec fn next_generation(g: usize) -> usize {
    if g == usize::MAX {
        0
    } else {
        (g + 1) as usize
    }
}

pub open spec fn request_view(r: Option<Request>) -> Option<(Seq<char>, Seq<char>, usize)> {
    match r {
        Some(q) => Some((q.command@, q.line@, q.point)),
        None => None,
    }
}

fn keys_equal(a: &[KeyEvent], b: &[KeyEvent]) -> (r: bool)
    ensures
        r == (a@ == b@),
{
    if a.len() != b.len() {
        return false;
    }
    let mut i: usize = 0;
    while i < a.len()
        invariant
            a.len() == b.len(),
            i <= a.len(),
            forall|j: int| 0 <= j < i ==> a@[j] == b@[j],
        decreases a.len() - i,
    {
        if a[i] != b[i] {
            return false;
        }
        i += 1;
    }
    assert(a@ =~= b@);
    true
}

fn copy_keys(a: &[KeyEvent]) -> (r: Vec<KeyEvent>)
    ensures
        r@ == a@,
{
    let mut r: Vec<KeyEvent> = Vec::new();
    let mut i: usize = 0;
    while i < a.len()
        invariant
            i <= a.len(),
            r@ == a@.subrange(0, i as int),
        decreases a.len() - i,
    {
        r.push(a[i]);
        i += 1;
        assert(r@ =~= a@.subrange(0, i as int));
    }
    assert(r@ =~= a@);
    r
}

fn copy_string(s: &String) -> (r: String)
    ensures
        r@ == s@,
{
    let v = text::chars_of(s.as_str());
    text::string_of(v.as_slice())
}

fn copy_entry(e: &Entry) -> (r: Entry)
    ensures
        entry_view(r) == entry_view(*e),
{
    let bound = match &e.bound {
        Bound::Command(s) => Bound::Command(copy_string(s)),
        Bound::Function(s) => Bound::Function(copy_string(s)),
    };
    Entry { keys: copy_keys(e.keys.as_slice()), spec: copy_string(&e.spec), bound }
}

impl Registry {
    /// The bindings, in the order they were made.
    pub closed spec fn bindings(&self) -> Seq<EntryView> {
        Seq::new(self.entries@.len(), |i: int| entry_view(self.entries@[i]))
    }

    pub closed spec fn spec_generation(&self) -> usize {
        self.generation
    }

    pub closed spec fn spec_pending(&self) -> Option<(Seq<char>, Seq<char>, usize)> {
        request_view(self.pending)
    }

    /// No bindings, generation zero and nothing pending.
    pub fn new() -> (r: Registry)
        ensures
            r.bindings() == Seq::<EntryView>::empty(),
            r.spec_generation() == 0,
            r.spec_pending() is None,
    {
        let r = Registry { entries: Vec::new(), generation: 0, pending: None };
        assert(r.bindings() =~= Seq::<EntryView>::empty());
        r
    }

    /// The generation, which moves on every change so the read loop knows to re-apply.
    pub fn generation(&self) -> (g: usize)
        ensures
            g == self.spec_generation(),
    {
        self.generation
    }

    fn remove_keys(&mut self, keys: &[KeyEvent])
        ensures
            final(self).bindings() == without(old(self).bindings(), keys@),
            final(self).generation == old(self).generation,
            final(self).pending == old(self).pending,
    {
        let mut kept: Vec<Entry> = Vec::new();
        let mut i: usize = 0;
        while i < self.entries.len()
            invariant
                i <= self.entries@.len(),
                self.entries@ == old(self).entries@,
                Seq::new(kept@.len(), |k: int| entry_view(kept@[k])) == without(
                    old(self).bindings().subrange(0, i as int),
                    keys@,
                ),
            decreases self.entries.len() - i,
        {
            let ghost pre = old(self).bindings().subrange(0, i + 1);
            let ghost before = kept@;
            proof {
                assert(pre.drop_last() =~= old(self).bindings().subrange(0, i as int));
                assert(pre.last() == entry_view(self.entries@[i as int]));
            }
            if !keys_equal(self.entries[i].keys.as_slice(), keys) {
                let e = copy_entry(&self.entries[i]);
                kept.push(e);
                proof {
                    assert(Seq::new(kept@.len(), |k: int| entry_view(kept@[k])) =~= Seq::new(
                        before.len(),
                        |k: int| entry_view(before[k]),
                    ).push(entry_view(self.entries@[i as int])));
                }
            }
            i += 1;
        }
        proof {
            assert(old(self).bindings().subrange(0, self.entries@.len() as int) =~= old(self).bindings());
        }
        self.entries = kept;
        proof {
            assert(self.bindings() =~= Seq::new(kept@.len(), |k: int| entry_view(kept@[k])));
        }
    }

    /// Record a binding, replacing any earlier one for the same keys — however they were spelled.
    /// An error, and no change, when the spelling is not a key sequence.
    pub fn bind(&mut self, spec: &str, bound: Bound) -> (r: Result<(), String>)
        ensures
            match spec_parse_sequence(spec@) {
                Some(keys) => r is Ok
                    && final(self).bindings() == without(old(self).bindings(), keys).push(
                        (keys, spec@, bound_view(bound)),
                    )
                    && final(self).spec_generation() == next_generation(old(self).spec_generation()),
                None => (r matches Err(m) && m@ == err_text(spec@))
                    && final(self).bindings() == old(self).bindings()
                    && final(self).spec_generation() == old(self).spec_generation(),
            },
            final(self).spec_pending() == old(self).spec_pending(),
    {
        match parse_sequence(spec) {
            None => {
                let mut m = String::new();
                text::push_str(&mut m, spec);
                text::push_str(&mut m, ": cannot parse key sequence");
                proof {
                    assert(m@ =~= err_text(spec@));
                }
                Err(m)
            },
            Some(keys) => {
                self.remove_keys(keys.as_slice());
                let ghost kept = self.bindings();
                let mut written = String::new();
                text::push_str(&mut written, spec);
                let e = Entry { keys, spec: written, bound };
                self.entries.push(e);
                self.generation = self.generation.wrapping_add(1);
                proof {
                    assert(written@ =~= spec@);
                    assert(self.bindings() =~= kept.push(entry_view(e)));
                }
                Ok(())
            },
        }
    }

    /// `bind -r`: forget the binding for the keys `spec` spells. True when there was one; the
    /// generation moves only then.
    pub fn unbind(&mut self, spec: &str) -> (r: bool)
        ensures
            match spec_parse_sequence(spec@) {
                Some(keys) => r == (without(old(self).bindings(), keys).len() != old(self).bindings().len())
                    && final(self).bindings() == without(old(self).bindings(), keys)
                    && final(self).spec_generation() == if r {
                        next_generation(old(self).spec_generation())
                    } else {
                        old(self).spec_generation()
                    },
                None => !r && final(self).bindings() == old(self).bindings()
                    && final(self).spec_generation() == old(self).spec_generation(),
            },
            final(self).spec_pending() == old(self).spec_pending(),
    {
        match parse_sequence(spec) {
            None => false,
            Some(keys) => {
                let before = self.entries.len();
                self.remove_keys(keys.as_slice());
                if self.entries.len() != before {
                    self.generation = self.generation.wrapping_add(1);
                    true
                } else {
                    false
                }
            },
        }
    }

    /// Every binding, for applying to the editor or for a listing.
    pub fn entries(&self) -> (r: Vec<Entry>)
        ensures
            r@.len() == self.bindings().len(),
            forall|i: int| 0 <= i < r@.len() ==> entry_view(#[trigger] r@[i]) == self.bindings()[i],
    {
        let mut out: Vec<Entry> = Vec::new();
        let mut i: usize = 0;
        while i < self.entries.len()
            invariant
                i <= self.entries@.len(),
                out@.len() == i,
                forall|k: int| 0 <= k < i ==> entry_view(#[trigger] out@[k]) == self.bindings()[k],
            decreases self.entries.len() - i,
        {
            out.push(copy_entry(&self.entries[i]));
            i += 1;
        }
        out
    }

    /// Forget every binding — used when a config is reloaded.
    pub fn clear(&mut self)
        ensures
            final(self).bindings() == Seq::<EntryView>::empty(),
            final(self).spec_generation() == next_generation(old(self).spec_generation()),
            final(self).spec_pending() == old(self).spec_pending(),
    {
        self.entries = Vec::new();
        self.generation = self.generation.wrapping_add(1);
        assert(self.bindings() =~= Seq::<EntryView>::empty());
    }

    /// Record that a `bind -x` key was pressed; the read loop picks this up.
    pub fn request(&mut self, command: &str, line: &str, point: usize)
        ensures
            final(self).spec_pending() == Some((command@, line@, point)),
            final(self).bindings() == old(self).bindings(),
            final(self).spec_generation() == old(self).spec_generation(),
    {
        let mut c = String::new();
        text::push_str(&mut c, command);
        let mut l = String::new();
        text::push_str(&mut l, line);
        proof {
            assert(c@ =~= command@);
            assert(l@ =~= line@);
        }
        self.pending = Some(Request { command: c, line: l, point });
    }

    /// Take the pending request, if any, leaving none.
    pub fn take_request(&mut self) -> (r: Option<Request>)
        ensures
            request_view(r) == old(self).spec_pending(),
            final(self).spec_pending() is None,
            final(self).bindings() == old(self).bindings(),
            final(self).spec_generation() == old(self).spec_generation(),
    {
        let r = self.pending.take();
        r
    }
}

/// The error a spelling that is not a key sequence is refused with.
pub open spec fn err_text(spec: Seq<char>) -> Seq<char> {
    spec + ": cannot parse key sequence"@
}

proof fn lemma_without_excludes(es: Seq<EntryView>, keys: Seq<KeyEvent>)
    ensures
        forall|i: int| 0 <= i < without(es, keys).len() ==> (#[trigger] without(es, keys)[i]).0 != keys,
        without(es, keys).len() <= es.len(),
    decreases es.len(),
{
    if es.len() > 0 {
        lemma_without_excludes(es.drop_last(), keys);
    }
}

/// Binding is by key, not by spelling: after a binding succeeds, exactly one binding has its
/// keys, and it is the one just made.
pub proof fn law_one_binding_per_key(before: Seq<EntryView>, keys: Seq<KeyEvent>, spec: Seq<char>, bound: (bool, Seq<char>))
    ensures
        ({
            let after = without(before, keys).push((keys, spec, bound));
            &&& after.last() == (keys, spec, bound)
            &&& forall|i: int| 0 <= i < after.len() - 1 ==> (#[trigger] after[i]).0 != keys
        }),
{
    lemma_without_excludes(before, keys);
    let after = without(before, keys).push((keys, spec, bound));
    assert forall|i: int| 0 <= i < after.len() - 1 implies (#[trigger] after[i]).0 != keys by {
        assert(after[i] == without(before, keys)[i]);
    }
}

/// Unbinding what was just bound takes it off: the keys are then bound nowhere.
pub proof fn law_unbind_undoes_bind(before: Seq<EntryView>, keys: Seq<KeyEvent>, spec: Seq<char>, bound: (bool, Seq<char>))
    ensures
        ({
            let after = without(without(before, keys).push((keys, spec, bound)), keys);
            &&& after == without(before, keys)
            &&& after.len() < without(before, keys).push((keys, spec, bound)).len()
        }),
{
    let bound_now = without(before, keys).push((keys, spec, bound));
    assert(bound_now.drop_last() =~= without(before, keys));
    lemma_without_idempotent(before, keys);
}

proof fn lemma_without_idempotent(es: Seq<EntryView>, keys: Seq<KeyEvent>)
    ensures
        without(without(es, keys), keys) == without(es, keys),
    decreases es.len(),
{
    if es.len() > 0 {
        lemma_without_idempotent(es.drop_last(), keys);
        let w = without(es.drop_last(), keys);
        if es.last().0 != keys {
            assert(w.push(es.last()).drop_last() =~= w);
        }
    }
}

} // verus!
