//! Key bindings the config writes itself, as handlers in the config's language.
//!
//! A binding to a function is carried through the settings as an ordinary `(key, action)` pair
//! under a reserved action name; the function itself is kept by whoever runs the config.

use vstd::prelude::*;
use vstd::string::StringSliceAdditionalSpecFns;
use crate::abbr::{bytes_to, cursor_index, expandable, index_from, last_space, last_space_x, word_start};
use crate::settings::{Table, Value, field, opt_text};
use crate::text::{self, spec_is_whitespace, utf8_bytes};

verus! {

/// The action name a function-valued binding is recorded under. It contains a space, so no
/// config can spell it as a real action.
pub const ACTION: &'static str = "lua handler";


/// The index of the first whitespace character at or after `k`.
pub open spec fn next_space(cs: Seq<char>, k: int) -> int
    decreases cs.len() - k,
{
    if !(0 <= k < cs.len()) {
        cs.len() as int
    } else if spec_is_whitespace(cs[k]) {
        k
    } else {
        next_space(cs, k + 1)
    }
}

proof fn lemma_next_space(cs: Seq<char>, k: int)
    requires
        0 <= k <= cs.len(),
    ensures
        k <= next_space(cs, k) <= cs.len(),
    decreases cs.len() - k,
{
    if k < cs.len() && !spec_is_whitespace(cs[k]) {
        lemma_next_space(cs, k + 1);
    }
}

/// The word around the cursor, in bytes: from just after the last whitespace before it to the
/// first whitespace at or after it. Whitespace-separated, which is what a binding rewriting
/// "the word I am on" means; a cursor past the end is read as the end.
pub open spec fn spec_word_bounds(cs: Seq<char>, cursor: nat) -> (nat, nat) {
    let k = cursor_index(cs, cursor);
    (utf8_bytes(cs.subrange(0, word_start(cs, k))), utf8_bytes(cs.subrange(0, next_space(cs, k))))
}

/// The character index `cursor` bytes in, or the end.
pub(crate) fn cursor_char(cs: &[char], cursor: usize, total: usize) -> (k: usize)
    requires
        total == utf8_bytes(cs@),
    ensures
        k == cursor_index(cs@, cursor as nat),
        k <= cs@.len(),
{
    proof {
        crate::abbr::lemma_index_from(cs@, cursor as int, 0);
    }
    let mut k: usize = 0;
    let mut acc: usize = 0;
    assert(cs@.subrange(0, 0) =~= Seq::<char>::empty());
    while k < cs.len() && acc < cursor
        invariant
            k <= cs@.len(),
            total == utf8_bytes(cs@),
            acc == utf8_bytes(cs@.subrange(0, k as int)),
            index_from(cs@, cursor as int, k as int) == index_from(cs@, cursor as int, 0),
        decreases cs.len() - k,
    {
        proof {
            text::lemma_utf8_push(cs@.subrange(0, k as int), cs@[k as int]);
            assert(cs@.subrange(0, k as int).push(cs@[k as int]) =~= cs@.subrange(0, k + 1));
            text::lemma_utf8_prefix(cs@, k + 1);
        }
        acc = acc + text::char_utf8_len(cs[k]);
        k += 1;
    }
    k
}

/// The word around `cursor`, as byte offsets into `text`.
///
/// Asked with a cursor on a character boundary (or past the end) and a word that starts after a
/// one-byte space, the only cursors the line editor hands over.
pub fn word_bounds(text: &str, cursor: usize) -> (r: (usize, usize))
    requires
        expandable(text@, cursor as nat),
    ensures
        r.0 == spec_word_bounds(text@, cursor as nat).0,
        r.1 == spec_word_bounds(text@, cursor as nat).1,
{
    let cs = text::chars_of(text);
    let cs = cs.as_slice();
    let total = text.as_bytes().len();
    let k = cursor_char(cs, cursor, total);
    proof {
        crate::abbr::lemma_last_space(cs@, k as int);
        lemma_next_space(cs@, k as int);
    }
    let start = match last_space_x(cs, k) {
        Some(w) => w + 1,
        None => 0,
    };
    let mut end = k;
    while end < cs.len() && !text::is_whitespace(cs[end])
        invariant
            k <= end <= cs@.len(),
            next_space(cs@, end as int) == next_space(cs@, k as int),
        decreases cs.len() - end,
    {
        end += 1;
    }
    (bytes_to(cs, start, total), bytes_to(cs, end, total))
}

/// What a handler answered: the new line, where to put the cursor, and whether to run it, as
/// though Enter had been pressed.
#[derive(Debug, Clone, PartialEq, Eq)]
pub struct Answer {
    pub text: String,
    pub cursor: Option<usize>,
    pub submit: bool,
}

/// A cursor a handler asked for: a negative one is the start of the line.
pub open spec fn cursor_from(n: i64) -> usize {
    (if n > 0 { n } else { 0 }) as usize
}

/// The line a handler's answer describes: a bare string is the whole line, and a table gives it
/// under `text`, with `cursor` and `submit` beside it. `None` for anything else, so a handler
/// that returns a number by accident leaves the line alone.
pub open spec fn spec_answer(v: Value) -> Option<(Seq<char>, Option<usize>, bool)> {
    match v {
        Value::Str(t) => Some((t@, None, false)),
        Value::Table(t) => match field(t.fields@, "text"@) {
            Value::Str(text) => {
                let cursor = match field(t.fields@, "cursor"@) {
                    Value::Number(Some(n)) => Some(cursor_from(n)),
                    _ => None,
                };
                Some((text@, cursor, field(t.fields@, "submit"@) == Value::Bool(true)))
            },
            _ => None,
        },
        _ => None,
    }
}

fn copy(s: &String) -> (r: String)
    ensures
        r@ == s@,
{
    text::string_of(text::chars_of(s.as_str()).as_slice())
}

/// Read what a handler answered.
pub fn answer_from(answer: &Value) -> (r: Option<Answer>)
    ensures
        match r {
            Some(a) => spec_answer(*answer) == Some((a.text@, a.cursor, a.submit)),
            None => spec_answer(*answer) is None,
        },
{
    match answer {
        Value::Str(text) => Some(Answer { text: copy(text), cursor: None, submit: false }),
        Value::Table(t) => {
            let text = match t.find("text") {
                Some(i) => match &t.fields[i].1 {
                    Value::Str(text) => copy(text),
                    _ => return None,
                },
                None => return None,
            };
            let cursor = match t.find("cursor") {
                Some(i) => match &t.fields[i].1 {
                    Value::Number(Some(n)) => {
                        let m = if *n > 0 {
                            *n
                        } else {
                            0
                        };
                        Some(m as usize)
                    },
                    _ => None,
                },
                None => None,
            };
            let submit = match t.find("submit") {
                Some(i) => match &t.fields[i].1 {
                    Value::Bool(b) => *b,
                    _ => false,
                },
                None => false,
            };
            Some(Answer { text, cursor, submit })
        },
        _ => None,
    }
}

/// What the line should become, read out of what a handler answered.
pub fn line_from(answer: &Value) -> (r: Option<(String, Option<usize>)>)
    ensures
        match r {
            Some((t, c)) => (spec_answer(*answer) matches Some(a) && a.0 == t@ && a.1 == c),
            None => spec_answer(*answer) is None,
        },
{
    match answer_from(answer) {
        Some(a) => Some((a.text, a.cursor)),
        None => None,
    }
}

/// What a `key` hook answered.
#[derive(Debug)]
pub enum KeyOutcome {
    /// Carry on: the key does whatever it would have done.
    Pass,
    /// Consume the key.
    Swallow,
    /// Put this line in place instead.
    Line(Answer),
}

/// Read a `key` hook's answer. Only an explicit `false` swallows a key, and only a line
/// replaces it; anything else passes, because this runs for every keystroke and a handler that
/// falls off the end of an `if` must leave typing working.
pub fn key_outcome_from(answer: &Value) -> (r: KeyOutcome)
    ensures
        *answer == Value::Bool(false) ==> r is Swallow,
        *answer != Value::Bool(false) ==> match r {
            KeyOutcome::Line(a) => spec_answer(*answer) == Some((a.text@, a.cursor, a.submit)),
            KeyOutcome::Pass => spec_answer(*answer) is None,
            KeyOutcome::Swallow => false,
        },
{
    if let Value::Bool(false) = answer {
        return KeyOutcome::Swallow;
    }
    match answer_from(answer) {
        Some(line) => KeyOutcome::Line(line),
        None => KeyOutcome::Pass,
    }
}

/// Whether `f` is the field `name` holding the string `text`.
pub open spec fn text_field(f: (String, Value), name: Seq<char>, text: Seq<char>) -> bool {
    &&& f.0@ == name
    &&& (f.1 matches Value::Str(s) && s@ == text)
}

/// Whether `f` is the field `name` holding the integer `n`.
pub open spec fn number_field(f: (String, Value), name: Seq<char>, n: i64) -> bool {
    f.0@ == name && f.1 == Value::Number(Some(n))
}

/// Whether `fs` are what a handler is told about the line `text` with the cursor `cursor` bytes
/// in: the text, the cursor, the word the cursor is in, and where that word starts, in bytes.
pub open spec fn describes_line(fs: Seq<(String, Value)>, text: Seq<char>, cursor: usize) -> bool {
    let (start, end) = spec_word_bounds(text, cursor as nat);
    let k = cursor_index(text, cursor as nat);
    &&& fs.len() == 4
    &&& text_field(fs[0], "text"@, text)
    &&& number_field(fs[1], "cursor"@, cursor as i64)
    &&& text_field(fs[2], "word"@, text.subrange(word_start(text, k), next_space(text, k)))
    &&& number_field(fs[3], "word_start"@, start as i64)
}

fn named(name: &str) -> (r: String)
    ensures
        r@ == name@,
{
    text::string_of(text::chars_of(name).as_slice())
}

/// The word around the cursor, as characters, and where it starts in bytes.
fn word_at(text: &str, cursor: usize) -> (r: (String, usize))
    requires
        expandable(text@, cursor as nat),
    ensures
        r.0@ == text@.subrange(
            word_start(text@, cursor_index(text@, cursor as nat)),
            next_space(text@, cursor_index(text@, cursor as nat)),
        ),
        r.1 == spec_word_bounds(text@, cursor as nat).0,
{
    let cs = text::chars_of(text);
    let cs = cs.as_slice();
    let total = text.as_bytes().len();
    let k = cursor_char(cs, cursor, total);
    proof {
        crate::abbr::lemma_last_space(cs@, k as int);
        lemma_next_space(cs@, k as int);
    }
    let start = match last_space_x(cs, k) {
        Some(w) => w + 1,
        None => 0,
    };
    let mut end = k;
    while end < cs.len() && !text::is_whitespace(cs[end])
        invariant
            k <= end <= cs@.len(),
            next_space(cs@, end as int) == next_space(cs@, k as int),
        decreases cs.len() - end,
    {
        end += 1;
    }
    let word = text::slice_vec(cs, start, end);
    (text::string_of(word.as_slice()), bytes_to(cs, start, total))
}

/// What a handler is told about the line: a table of the text, the cursor in bytes (matching
/// what the config language's own string functions count), the word the cursor is in, and
/// where that word starts.
pub fn line_table(text: &str, cursor: usize) -> (r: Value)
    requires
        expandable(text@, cursor as nat),
    ensures
        (r matches Value::Table(t) && t.items@.len() == 0 && describes_line(t.fields@, text@, cursor)),
{
    let (word, start) = word_at(text, cursor);
    let mut fields: Vec<(String, Value)> = Vec::new();
    fields.push((named("text"), Value::Str(named(text))));
    fields.push((named("cursor"), Value::Number(Some(cursor as i64))));
    fields.push((named("word"), Value::Str(word)));
    fields.push((named("word_start"), Value::Number(Some(start as i64))));
    Value::Table(Table { items: Vec::new(), fields })
}

/// What the `key` hook is told: the line as a binding sees it, plus `name`, the key's name, and
/// `char`, the character for an ordinary character and `nil` for every other key.
pub fn key_table(name: &str, pressed: Option<char>, text: &str, cursor: usize) -> (r: Value)
    requires
        expandable(text@, cursor as nat),
    ensures
        (r matches Value::Table(t) && t.items@.len() == 0 && t.fields@.len() == 6
            && describes_line(t.fields@.subrange(0, 4), text@, cursor)
            && text_field(t.fields@[4], "name"@, name@)
            && t.fields@[5].0@ == "char"@
            && match pressed {
                Some(c) => text_field(t.fields@[5], "char"@, seq![c]),
                None => t.fields@[5].1 == Value::Nil,
            }),
{
    let (word, start) = word_at(text, cursor);
    let mut fields: Vec<(String, Value)> = Vec::new();
    fields.push((named("text"), Value::Str(named(text))));
    fields.push((named("cursor"), Value::Number(Some(cursor as i64))));
    fields.push((named("word"), Value::Str(word)));
    fields.push((named("word_start"), Value::Number(Some(start as i64))));
    fields.push((named("name"), Value::Str(named(name))));
    let ch = match pressed {
        Some(c) => {
            let mut s = String::new();
            text::push_char(&mut s, c);
            Value::Str(s)
        },
        None => Value::Nil,
    };
    fields.push((named("char"), ch));
    Value::Table(Table { items: Vec::new(), fields })
}

/// The handlers a config bound to keys: each key at most once, with the value it was given.
pub struct Handlers {
    entries: Vec<(String, Value)>,
}

/// The keys and values of `es` as a map, a later entry for a key replacing an earlier one.
pub open spec fn handler_map(es: Seq<(String, Value)>) -> Map<Seq<char>, Value>
    decreases es.len(),
{
    if es.len() == 0 {
        Map::empty()
    } else {
        handler_map(es.drop_last()).insert(es.last().0@, es.last().1)
    }
}

/// No key is bound twice.
pub open spec fn distinct_keys(es: Seq<(String, Value)>) -> bool {
    forall|i: int, j: int| 0 <= i < j < es.len() ==> (#[trigger] es[i]).0@ != (#[trigger] es[j]).0@
}

proof fn lemma_handler_map(es: Seq<(String, Value)>, i: int)
    requires
        distinct_keys(es),
        0 <= i < es.len(),
    ensures
        handler_map(es).contains_key(es[i].0@),
        handler_map(es)[es[i].0@] == es[i].1,
    decreases es.len(),
{
    if i < es.len() - 1 {
        assert(distinct_keys(es.drop_last()));
        lemma_handler_map(es.drop_last(), i);
        assert(es[i].0@ != es[es.len() - 1].0@);
    }
}

proof fn lemma_handler_map_absent(es: Seq<(String, Value)>, k: Seq<char>)
    requires
        forall|i: int| 0 <= i < es.len() ==> (#[trigger] es[i]).0@ != k,
    ensures
        !handler_map(es).contains_key(k),
    decreases es.len(),
{
    if es.len() > 0 {
        assert(es[es.len() - 1].0@ != k);
        assert forall|i: int| 0 <= i < es.drop_last().len() implies (#[trigger] es.drop_last()[i]).0@ != k by {
            assert(es.drop_last()[i] == es[i]);
        }
        lemma_handler_map_absent(es.drop_last(), k);
    }
}

proof fn lemma_handler_map_update(es: Seq<(String, Value)>, i: int, e: (String, Value))
    requires
        distinct_keys(es),
        0 <= i < es.len(),
        e.0@ == es[i].0@,
    ensures
        handler_map(es.update(i, e)) == handler_map(es).insert(e.0@, e.1),
        distinct_keys(es.update(i, e)),
    decreases es.len(),
{
    let u = es.update(i, e);
    assert(distinct_keys(u)) by {
        assert forall|a: int, b: int| 0 <= a < b < u.len() implies (#[trigger] u[a]).0@ != (#[trigger] u[b]).0@ by {
            assert(es[a].0@ != es[b].0@);
        }
    }
    if i == es.len() - 1 {
        assert(u.drop_last() =~= es.drop_last());
        assert forall|j: int| 0 <= j < es.drop_last().len() implies (#[trigger] es.drop_last()[j]).0@ != e.0@ by {
            assert(es[j].0@ != es[es.len() - 1].0@);
        }
        lemma_handler_map_absent(es.drop_last(), e.0@);
        assert(handler_map(u) =~= handler_map(es).insert(e.0@, e.1));
    } else {
        assert(u.drop_last() =~= es.drop_last().update(i, e));
        assert(distinct_keys(es.drop_last()));
        lemma_handler_map_update(es.drop_last(), i, e);
        assert(es[i].0@ != es[es.len() - 1].0@);
        assert(u.last() == es.last());
        assert(handler_map(u) =~= handler_map(es).insert(e.0@, e.1));
    }
}

impl Handlers {
    /// The handler bound to each key.
    pub closed spec fn view(&self) -> Map<Seq<char>, Value> {
        handler_map(self.entries@)
    }

    /// Each key is held once.
    pub closed spec fn wf(&self) -> bool {
        distinct_keys(self.entries@)
    }

    /// No key bound.
    pub fn new() -> (h: Handlers)
        ensures
            h.wf(),
            h.view() == Map::<Seq<char>, Value>::empty(),
    {
        Handlers { entries: Vec::new() }
    }

    /// Record the handler for a key, replacing any earlier one, as assigning twice in the config
    /// would.
    pub fn register(&mut self, key: &str, handler: Value)
        requires
            old(self).wf(),
        ensures
            final(self).wf(),
            final(self).view() == old(self).view().insert(key@, handler),
    {
        let k = text::chars_of(key);
        let mut i: usize = 0;
        while i < self.entries.len()
            invariant
                i <= self.entries@.len(),
                k@ == key@,
                self.entries@ == old(self).entries@,
                distinct_keys(self.entries@),
                forall|j: int| 0 <= j < i ==> (#[trigger] self.entries@[j]).0@ != key@,
            decreases self.entries.len() - i,
        {
            let here = text::chars_of(self.entries[i].0.as_str());
            if text::chars_eq(here.as_slice(), k.as_slice()) {
                let ghost before = self.entries@;
                let e = (text::string_of(k.as_slice()), handler);
                proof {
                    lemma_handler_map_update(before, i as int, e);
                }
                self.entries.set(i, e);
                assert(self.entries@ == before.update(i as int, e));
                return;
            }
            i += 1;
        }
        let ghost before = self.entries@;
        let e = (text::string_of(k.as_slice()), handler);
        self.entries.push(e);
        proof {
            assert(self.entries@.drop_last() =~= before);
            assert(distinct_keys(self.entries@)) by {
                assert forall|a: int, b: int| 0 <= a < b < self.entries@.len() implies (#[trigger] self.entries@[a]).0@
                    != (#[trigger] self.entries@[b]).0@ by {
                    if b < before.len() {
                        assert(self.entries@[a] == before[a] && self.entries@[b] == before[b]);
                        assert(before[a].0@ != before[b].0@);
                    } else {
                        assert(self.entries@[a] == before[a]);
                        assert(before[a].0@ != key@);
                    }
                }
            }
        }
    }

    /// Forget every handler, as reloading the config does, so a key it no longer binds stops
    /// firing the handler it used to have.
    pub fn clear(&mut self)
        ensures
            final(self).wf(),
            final(self).view() == Map::<Seq<char>, Value>::empty(),
    {
        self.entries = Vec::new();
    }

    /// The handler for a key, if the config gave one.
    pub fn handler(&self, key: &str) -> (r: Option<&Value>)
        requires
            self.wf(),
        ensures
            match r {
                Some(v) => self.view().contains_key(key@) && self.view()[key@] == *v,
                None => !self.view().contains_key(key@),
            },
    {
        let k = text::chars_of(key);
        let mut i: usize = 0;
        while i < self.entries.len()
            invariant
                i <= self.entries@.len(),
                k@ == key@,
                distinct_keys(self.entries@),
                forall|j: int| 0 <= j < i ==> (#[trigger] self.entries@[j]).0@ != key@,
            decreases self.entries.len() - i,
        {
            let here = text::chars_of(self.entries[i].0.as_str());
            if text::chars_eq(here.as_slice(), k.as_slice()) {
                proof {
                    lemma_handler_map(self.entries@, i as int);
                }
                return Some(&self.entries[i].1);
            }
            i += 1;
        }
        proof {
            lemma_handler_map_absent(self.entries@, key@);
        }
        None
    }
}

/// A handler is looked up under the key it was registered for, and every other key keeps what
/// it had; registering a key again replaces its handler; and after a clear no key has one.
pub proof fn law_a_registered_handler_is_found(h: Map<Seq<char>, Value>, key: Seq<char>, other: Seq<char>, v: Value, w: Value)
    requires
        other != key,
    ensures
        h.insert(key, v).contains_key(key) && h.insert(key, v)[key] == v,
        h.insert(key, v).contains_key(other) == h.contains_key(other),
        h.contains_key(other) ==> h.insert(key, v)[other] == h[other],
        h.insert(key, v).insert(key, w) == h.insert(key, w),
        !Map::<Seq<char>, Value>::empty().contains_key(key),
{
    assert(h.insert(key, v).insert(key, w) =~= h.insert(key, w));
}

} // verus!
