//! The line being typed: text, cursor, and every edit that can be made to it.
//!
//! The cursor is an index into a `Vec<char>`, from 0 to the length inclusive, so it can never sit
//! inside a character. Two kinds of word exist on purpose: `M-b`, `M-f`, `M-DEL` and `M-d` work
//! over alphanumeric runs, while `C-w` works over whitespace-delimited runs.

use vstd::prelude::*;
use crate::text::{self, alphanumeric, spec_is_whitespace, lowercase, uppercase};

verus! {

/// What kind of character this is, for word motions.
#[derive(Debug, Clone, Copy, PartialEq, Eq, Structural)]
pub enum Class {
    Space,
    /// A letter, digit or underscore: readline's word character.
    Word,
    /// Punctuation and everything else.
    Other,
}

pub open spec fn spec_class(c: char) -> Class {
    if spec_is_whitespace(c) {
        Class::Space
    } else if alphanumeric(c) || c == '_' {
        Class::Word
    } else {
        Class::Other
    }
}

pub open spec fn is_word(c: char) -> bool {
    spec_class(c) == Class::Word
}

pub open spec fn is_space(c: char) -> bool {
    spec_class(c) == Class::Space
}

fn class(c: char) -> (r: Class)
    ensures
        r == spec_class(c),
{
    if text::is_whitespace(c) {
        Class::Space
    } else if text::is_alphanumeric(c) || c == '_' {
        Class::Word
    } else {
        Class::Other
    }
}

/// Step back from `at` while the character before it is not a word character.
pub open spec fn back_over_non_word(t: Seq<char>, at: int) -> int
    decreases at,
{
    if 0 < at <= t.len() && !is_word(t[at - 1]) {
        back_over_non_word(t, at - 1)
    } else {
        at
    }
}

/// Step back from `at` while the character before it is a word character.
pub open spec fn back_over_word(t: Seq<char>, at: int) -> int
    decreases at,
{
    if 0 < at <= t.len() && is_word(t[at - 1]) {
        back_over_word(t, at - 1)
    } else {
        at
    }
}

/// Step forward from `at` while the character at it is not a word character.
pub open spec fn forward_over_non_word(t: Seq<char>, at: int) -> int
    decreases t.len() - at,
{
    if 0 <= at < t.len() && !is_word(t[at]) {
        forward_over_non_word(t, at + 1)
    } else {
        at
    }
}

/// Step forward from `at` while the character at it is a word character.
pub open spec fn forward_over_word(t: Seq<char>, at: int) -> int
    decreases t.len() - at,
{
    if 0 <= at < t.len() && is_word(t[at]) {
        forward_over_word(t, at + 1)
    } else {
        at
    }
}

/// Step back from `at` while the character before it is whitespace.
pub open spec fn back_over_space(t: Seq<char>, at: int) -> int
    decreases at,
{
    if 0 < at <= t.len() && is_space(t[at - 1]) {
        back_over_space(t, at - 1)
    } else {
        at
    }
}

/// Step back from `at` while the character before it is not whitespace.
pub open spec fn back_over_non_space(t: Seq<char>, at: int) -> int
    decreases at,
{
    if 0 < at <= t.len() && !is_space(t[at - 1]) {
        back_over_non_space(t, at - 1)
    } else {
        at
    }
}

/// Where `M-b` lands: back over non-word characters, then over the word itself.
pub open spec fn word_start_of(t: Seq<char>, cursor: int) -> int {
    back_over_word(t, back_over_non_word(t, cursor))
}

/// Where `M-f` lands: forward over non-word characters, then over the word.
pub open spec fn word_end_of(t: Seq<char>, cursor: int) -> int {
    forward_over_word(t, forward_over_non_word(t, cursor))
}

/// Where `C-w` reaches: back over whitespace, then over everything that is not whitespace.
pub open spec fn space_word_start_of(t: Seq<char>, cursor: int) -> int {
    back_over_non_space(t, back_over_space(t, cursor))
}

proof fn lemma_back_bounds(t: Seq<char>, at: int)
    requires
        0 <= at <= t.len(),
    ensures
        0 <= back_over_non_word(t, at) <= at,
        0 <= back_over_word(t, at) <= at,
        0 <= back_over_space(t, at) <= at,
        0 <= back_over_non_space(t, at) <= at,
    decreases at,
{
    if at > 0 {
        lemma_back_bounds(t, at - 1);
    }
}

proof fn lemma_forward_bounds(t: Seq<char>, at: int)
    requires
        0 <= at <= t.len(),
    ensures
        at <= forward_over_non_word(t, at) <= t.len(),
        at <= forward_over_word(t, at) <= t.len(),
    decreases t.len() - at,
{
    if at < t.len() {
        lemma_forward_bounds(t, at + 1);
    }
}

/// The spelling of one character after a case change, keeping it when the conversion is empty.
pub open spec fn first_or(s: Seq<char>, c: char) -> char {
    if s.len() > 0 {
        s[0]
    } else {
        c
    }
}

/// Whether a word character occurs in `t[from..to]`.
pub open spec fn word_seen(t: Seq<char>, from: int, to: int) -> bool {
    exists|j: int| from <= j < to && #[trigger] is_word(t[j])
}

/// The character at `i` after `case_word` converted the run starting at `from`.
pub open spec fn converted(t: Seq<char>, from: int, i: int, how: Case) -> char {
    let c = t[i];
    match how {
        Case::Upper => first_or(uppercase(c), c),
        Case::Lower => first_or(lowercase(c), c),
        Case::Title => if is_word(c) && !word_seen(t, from, i) {
            first_or(uppercase(c), c)
        } else {
            first_or(lowercase(c), c)
        },
    }
}

/// The line under the cursor.
#[derive(Debug)]
pub struct Buffer {
    chars: Vec<char>,
    /// From 0 to `chars.len()` inclusive: the end is a valid cursor.
    cursor: usize,
    /// The last killed text, for `C-y`.
    kill: Vec<char>,
}

/// A buffer seen as its text, its cursor and its kill.
pub ghost struct BufferView {
    pub text: Seq<char>,
    pub cursor: int,
    pub kill: Seq<char>,
}

impl View for Buffer {
    type V = BufferView;

    closed spec fn view(&self) -> BufferView {
        BufferView { text: self.chars@, cursor: self.cursor as int, kill: self.kill@ }
    }
}

impl Buffer {
    /// The cursor lies between the start and the end of the text, both included.
    pub open spec fn wf(&self) -> bool {
        0 <= self@.cursor <= self@.text.len()
    }

    /// An empty line.
    pub fn new() -> (b: Buffer)
        ensures
            b@.text == Seq::<char>::empty(),
            b@.cursor == 0,
            b@.kill == Seq::<char>::empty(),
            b.wf(),
    {
        Buffer { chars: Vec::new(), cursor: 0, kill: Vec::new() }
    }

    /// A buffer holding `text` with the cursor at the end, as reopening a line does.
    pub fn from_text(text: &str) -> (b: Buffer)
        ensures
            b@.text == text@,
            b@.cursor == text@.len(),
            b@.kill == Seq::<char>::empty(),
            b.wf(),
    {
        let chars = text::chars_of(text);
        Buffer { cursor: chars.len(), chars, kill: Vec::new() }
    }

    pub fn text(&self) -> (s: String)
        requires
            self.wf(),
        ensures
            s@ == self@.text,
    {
        text::string_of(self.chars.as_slice())
    }

    /// The text before the cursor, which is what a completion or a hint is computed from.
    pub fn before_cursor(&self) -> (s: String)
        requires
            self.wf(),
        ensures
            s@ == self@.text.subrange(0, self@.cursor),
    {
        let v = text::slice_vec(self.chars.as_slice(), 0, self.cursor);
        text::string_of(v.as_slice())
    }

    pub fn cursor(&self) -> (c: usize)
        requires
            self.wf(),
        ensures
            c == self@.cursor,
            c <= self@.text.len(),
    {
        self.cursor
    }

    pub fn len(&self) -> (n: usize)
        requires
            self.wf(),
        ensures
            n == self@.text.len(),
    {
        self.chars.len()
    }

    /// How long the last kill is, which yanking will put back.
    pub fn killed_len(&self) -> (n: usize)
        ensures
            n == self@.kill.len(),
    {
        self.kill.len()
    }

    pub fn is_empty(&self) -> (r: bool)
        requires
            self.wf(),
        ensures
            r == (self@.text.len() == 0),
    {
        self.chars.len() == 0
    }

    /// Replace everything, putting the cursor at `cursor`, clamped to the end.
    pub fn set(&mut self, text: &str, cursor: usize)
        requires
            old(self).wf(),
        ensures
            final(self).wf(),
            final(self)@.text == text@,
            final(self)@.cursor == (if cursor <= text@.len() { cursor as int } else { text@.len() as int }),
            final(self)@.kill == old(self)@.kill,
    {
        let chars = text::chars_of(text);
        let at = if cursor <= chars.len() { cursor } else { chars.len() };
        self.cursor = 0;
        self.chars = chars;
        self.cursor = at;
    }

    /// Type one character at the cursor.
    pub fn insert(&mut self, c: char)
        requires
            old(self).wf(),
            old(self)@.text.len() < usize::MAX,
        ensures
            final(self).wf(),
            final(self)@.text == old(self)@.text.insert(old(self)@.cursor, c),
            final(self)@.cursor == old(self)@.cursor + 1,
            final(self)@.kill == old(self)@.kill,
    {
        let at = self.cursor;
        self.chars.insert(at, c);
        self.cursor = at + 1;
    }

    /// Insert a run at once: a paste, or an accepted completion.
    pub fn insert_str(&mut self, text: &str)
        requires
            old(self).wf(),
            old(self)@.text.len() + text@.len() <= usize::MAX,
        ensures
            final(self).wf(),
            final(self)@.text == old(self)@.text.subrange(0, old(self)@.cursor) + text@
                + old(self)@.text.subrange(old(self)@.cursor, old(self)@.text.len() as int),
            final(self)@.cursor == old(self)@.cursor + text@.len(),
            final(self)@.kill == old(self)@.kill,
    {
        let incoming = text::chars_of(text);
        self.insert_chars(incoming.as_slice());
    }

    fn insert_chars(&mut self, incoming: &[char])
        requires
            old(self).wf(),
            old(self)@.text.len() + incoming@.len() <= usize::MAX,
        ensures
            final(self).wf(),
            final(self)@.text == old(self)@.text.subrange(0, old(self)@.cursor) + incoming@
                + old(self)@.text.subrange(old(self)@.cursor, old(self)@.text.len() as int),
            final(self)@.cursor == old(self)@.cursor + incoming@.len(),
            final(self)@.kill == old(self)@.kill,
    {
        let at = self.cursor;
        let head = text::slice_vec(self.chars.as_slice(), 0, at);
        let tail = text::slice_vec(self.chars.as_slice(), at, self.chars.len());
        let front = text::concat(head.as_slice(), incoming);
        let whole = text::concat(front.as_slice(), tail.as_slice());
        let end = at + incoming.len();
        self.cursor = 0;
        self.chars = whole;
        self.cursor = end;
    }

    /// Delete the character before the cursor. Answers whether there was one.
    pub fn backspace(&mut self) -> (r: bool)
        requires
            old(self).wf(),
        ensures
            final(self).wf(),
            r == (old(self)@.cursor > 0),
            r ==> final(self)@.text == old(self)@.text.remove(old(self)@.cursor - 1)
                && final(self)@.cursor == old(self)@.cursor - 1,
            !r ==> final(self)@.text == old(self)@.text && final(self)@.cursor == old(self)@.cursor,
            final(self)@.kill == old(self)@.kill,
    {
        if self.cursor == 0 {
            return false;
        }
        let at = self.cursor - 1;
        self.cursor = at;
        self.chars.remove(at);
        true
    }

    /// Delete the character under the cursor.
    pub fn delete(&mut self) -> (r: bool)
        requires
            old(self).wf(),
        ensures
            final(self).wf(),
            r == (old(self)@.cursor < old(self)@.text.len()),
            r ==> final(self)@.text == old(self)@.text.remove(old(self)@.cursor),
            !r ==> final(self)@.text == old(self)@.text,
            final(self)@.cursor == old(self)@.cursor,
            final(self)@.kill == old(self)@.kill,
    {
        if self.cursor >= self.chars.len() {
            return false;
        }
        let at = self.cursor;
        self.chars.remove(at);
        true
    }

    pub fn move_left(&mut self)
        requires
            old(self).wf(),
        ensures
            final(self).wf(),
            final(self)@.text == old(self)@.text,
            final(self)@.cursor == (if old(self)@.cursor > 0 { old(self)@.cursor - 1 } else { 0 }),
            final(self)@.kill == old(self)@.kill,
    {
        if self.cursor > 0 {
            self.cursor = self.cursor - 1;
        }
    }

    pub fn move_right(&mut self)
        requires
            old(self).wf(),
        ensures
            final(self).wf(),
            final(self)@.text == old(self)@.text,
            final(self)@.cursor == (if old(self)@.cursor < old(self)@.text.len() {
                old(self)@.cursor + 1
            } else {
                old(self)@.cursor
            }),
            final(self)@.kill == old(self)@.kill,
    {
        if self.cursor < self.chars.len() {
            self.cursor = self.cursor + 1;
        }
    }

    pub fn move_home(&mut self)
        requires
            old(self).wf(),
        ensures
            final(self).wf(),
            final(self)@.text == old(self)@.text,
            final(self)@.cursor == 0,
            final(self)@.kill == old(self)@.kill,
    {
        self.cursor = 0;
    }

    pub fn move_end(&mut self)
        requires
            old(self).wf(),
        ensures
            final(self).wf(),
            final(self)@.text == old(self)@.text,
            final(self)@.cursor == old(self)@.text.len(),
            final(self)@.kill == old(self)@.kill,
    {
        self.cursor = self.chars.len();
    }

    fn word_start(&self) -> (r: usize)
        requires
            self.wf(),
        ensures
            r == word_start_of(self@.text, self@.cursor),
            r <= self@.cursor,
    {
        let mut at = self.cursor;
        while at > 0 && class(self.chars[at - 1]) != Class::Word
            invariant
                at <= self.cursor <= self.chars.len(),
                back_over_non_word(self.chars@, at as int) == back_over_non_word(
                    self.chars@,
                    self.cursor as int,
                ),
            decreases at,
        {
            at -= 1;
        }
        let mid = at;
        while at > 0 && class(self.chars[at - 1]) == Class::Word
            invariant
                at <= mid <= self.cursor <= self.chars.len(),
                mid == back_over_non_word(self.chars@, self.cursor as int),
                back_over_word(self.chars@, at as int) == back_over_word(self.chars@, mid as int),
            decreases at,
        {
            at -= 1;
        }
        at
    }

    fn word_end(&self) -> (r: usize)
        requires
            self.wf(),
        ensures
            r == word_end_of(self@.text, self@.cursor),
            self@.cursor <= r <= self@.text.len(),
    {
        let mut at = self.cursor;
        let len = self.chars.len();
        while at < len && class(self.chars[at]) != Class::Word
            invariant
                len == self.chars.len(),
                self.cursor <= at <= len,
                forward_over_non_word(self.chars@, at as int) == forward_over_non_word(
                    self.chars@,
                    self.cursor as int,
                ),
            decreases len - at,
        {
            at += 1;
        }
        let mid = at;
        while at < len && class(self.chars[at]) == Class::Word
            invariant
                len == self.chars.len(),
                self.cursor <= mid <= at <= len,
                mid == forward_over_non_word(self.chars@, self.cursor as int),
                forward_over_word(self.chars@, at as int) == forward_over_word(
                    self.chars@,
                    mid as int,
                ),
            decreases len - at,
        {
            at += 1;
        }
        at
    }

    fn space_word_start(&self) -> (r: usize)
        requires
            self.wf(),
        ensures
            r == space_word_start_of(self@.text, self@.cursor),
            r <= self@.cursor,
    {
        let mut at = self.cursor;
        while at > 0 && class(self.chars[at - 1]) == Class::Space
            invariant
                at <= self.cursor <= self.chars.len(),
                back_over_space(self.chars@, at as int) == back_over_space(
                    self.chars@,
                    self.cursor as int,
                ),
            decreases at,
        {
            at -= 1;
        }
        let mid = at;
        while at > 0 && class(self.chars[at - 1]) != Class::Space
            invariant
                at <= mid <= self.cursor <= self.chars.len(),
                mid == back_over_space(self.chars@, self.cursor as int),
                back_over_non_space(self.chars@, at as int) == back_over_non_space(
                    self.chars@,
                    mid as int,
                ),
            decreases at,
        {
            at -= 1;
        }
        at
    }

    /// `M-b`: to the start of the word before the cursor.
    pub fn move_word_left(&mut self)
        requires
            old(self).wf(),
        ensures
            final(self).wf(),
            final(self)@.text == old(self)@.text,
            final(self)@.cursor == word_start_of(old(self)@.text, old(self)@.cursor),
            final(self)@.kill == old(self)@.kill,
    {
        let at = self.word_start();
        self.cursor = at;
    }

    /// `M-f`: to the end of the word after the cursor.
    pub fn move_word_right(&mut self)
        requires
            old(self).wf(),
        ensures
            final(self).wf(),
            final(self)@.text == old(self)@.text,
            final(self)@.cursor == word_end_of(old(self)@.text, old(self)@.cursor),
            final(self)@.kill == old(self)@.kill,
    {
        let at = self.word_end();
        self.cursor = at;
    }

    /// Remove `from..to`, remembering it as the kill.
    fn kill_range(&mut self, from: usize, to: usize) -> (r: bool)
        requires
            old(self).wf(),
            to <= old(self)@.text.len(),
            from <= old(self)@.cursor || from >= to,
        ensures
            final(self).wf(),
            r == (from < to),
            r ==> final(self)@.text == old(self)@.text.subrange(0, from as int)
                + old(self)@.text.subrange(to as int, old(self)@.text.len() as int)
                && final(self)@.cursor == from
                && final(self)@.kill == old(self)@.text.subrange(from as int, to as int),
            !r ==> final(self)@ == old(self)@,
    {
        if from >= to {
            return false;
        }
        let killed = text::slice_vec(self.chars.as_slice(), from, to);
        let head = text::slice_vec(self.chars.as_slice(), 0, from);
        let tail = text::slice_vec(self.chars.as_slice(), to, self.chars.len());
        let rest = text::concat(head.as_slice(), tail.as_slice());
        self.kill = killed;
        self.cursor = from;
        self.chars = rest;
        true
    }

    /// `C-k`: from the cursor to the end of the line.
    pub fn kill_to_end(&mut self) -> (r: bool)
        requires
            old(self).wf(),
        ensures
            final(self).wf(),
            r == (old(self)@.cursor < old(self)@.text.len()),
            r ==> final(self)@.text == old(self)@.text.subrange(0, old(self)@.cursor)
                && final(self)@.cursor == old(self)@.cursor
                && final(self)@.kill == old(self)@.text.subrange(
                old(self)@.cursor,
                old(self)@.text.len() as int,
            ),
            r ==> final(self)@ == cut(old(self)@, old(self)@.cursor, old(self)@.text.len() as int),
            !r ==> final(self)@ == old(self)@,
    {
        let end = self.chars.len();
        let at = self.cursor;
        let r = self.kill_range(at, end);
        proof {
            if r {
                assert(old(self)@.text.subrange(end as int, end as int) =~= Seq::<char>::empty());
                assert(final(self)@.text =~= old(self)@.text.subrange(0, old(self)@.cursor));
            }
        }
        r
    }

    /// `C-u`: from the start of the line to the cursor.
    pub fn kill_to_start(&mut self) -> (r: bool)
        requires
            old(self).wf(),
        ensures
            final(self).wf(),
            r == (old(self)@.cursor > 0),
            r ==> final(self)@.text == old(self)@.text.subrange(
                old(self)@.cursor,
                old(self)@.text.len() as int,
            ) && final(self)@.cursor == 0 && final(self)@.kill == old(self)@.text.subrange(
                0,
                old(self)@.cursor,
            ),
            r ==> final(self)@ == cut(old(self)@, 0, old(self)@.cursor),
            !r ==> final(self)@ == old(self)@,
    {
        let at = self.cursor;
        let r = self.kill_range(0, at);
        proof {
            if r {
                assert(final(self)@.text =~= old(self)@.text.subrange(
                    old(self)@.cursor,
                    old(self)@.text.len() as int,
                ));
            }
        }
        r
    }

    /// `M-DEL`: the alphanumeric word before the cursor.
    pub fn kill_word_left(&mut self) -> (r: bool)
        requires
            old(self).wf(),
        ensures
            final(self).wf(),
            ({
                let from = word_start_of(old(self)@.text, old(self)@.cursor);
                &&& 0 <= from <= old(self)@.cursor
                &&& r == (from < old(self)@.cursor)
                &&& r ==> final(self)@ == cut(old(self)@, from, old(self)@.cursor)
                &&& r ==> final(self)@.text == old(self)@.text.subrange(0, from)
                    + old(self)@.text.subrange(old(self)@.cursor, old(self)@.text.len() as int)
                    && final(self)@.cursor == from
                    && final(self)@.kill == old(self)@.text.subrange(from, old(self)@.cursor)
                &&& !r ==> final(self)@ == old(self)@
            }),
    {
        let from = self.word_start();
        let at = self.cursor;
        self.kill_range(from, at)
    }

    /// `M-d`: the alphanumeric word after the cursor.
    pub fn kill_word_right(&mut self) -> (r: bool)
        requires
            old(self).wf(),
        ensures
            final(self).wf(),
            ({
                let to = word_end_of(old(self)@.text, old(self)@.cursor);
                &&& old(self)@.cursor <= to <= old(self)@.text.len()
                &&& r == (old(self)@.cursor < to)
                &&& r ==> final(self)@ == cut(old(self)@, old(self)@.cursor, to)
                &&& r ==> final(self)@.text == old(self)@.text.subrange(0, old(self)@.cursor)
                    + old(self)@.text.subrange(to, old(self)@.text.len() as int)
                    && final(self)@.cursor == old(self)@.cursor
                    && final(self)@.kill == old(self)@.text.subrange(old(self)@.cursor, to)
                &&& !r ==> final(self)@ == old(self)@
            }),
    {
        let to = self.word_end();
        let at = self.cursor;
        self.kill_range(at, to)
    }

    /// `C-w`: the whitespace-delimited word before the cursor.
    pub fn kill_space_word_left(&mut self) -> (r: bool)
        requires
            old(self).wf(),
        ensures
            final(self).wf(),
            ({
                let from = space_word_start_of(old(self)@.text, old(self)@.cursor);
                &&& 0 <= from <= old(self)@.cursor
                &&& r == (from < old(self)@.cursor)
                &&& r ==> final(self)@ == cut(old(self)@, from, old(self)@.cursor)
                &&& r ==> final(self)@.text == old(self)@.text.subrange(0, from)
                    + old(self)@.text.subrange(old(self)@.cursor, old(self)@.text.len() as int)
                    && final(self)@.cursor == from
                    && final(self)@.kill == old(self)@.text.subrange(from, old(self)@.cursor)
                &&& !r ==> final(self)@ == old(self)@
            }),
    {
        let from = self.space_word_start();
        let at = self.cursor;
        self.kill_range(from, at)
    }

    /// `C-y`: put the last killed text back at the cursor.
    pub fn yank(&mut self) -> (r: bool)
        requires
            old(self).wf(),
            old(self)@.text.len() + old(self)@.kill.len() <= usize::MAX,
        ensures
            final(self).wf(),
            r == (old(self)@.kill.len() > 0),
            r ==> final(self)@.text == old(self)@.text.subrange(0, old(self)@.cursor)
                + old(self)@.kill + old(self)@.text.subrange(
                old(self)@.cursor,
                old(self)@.text.len() as int,
            ) && final(self)@.cursor == old(self)@.cursor + old(self)@.kill.len(),
            r ==> final(self)@ == put_back(old(self)@),
            !r ==> final(self)@ == old(self)@,
            final(self)@.kill == old(self)@.kill,
    {
        if self.kill.len() == 0 {
            return false;
        }
        let killed = text::slice_vec(self.kill.as_slice(), 0, self.kill.len());
        assert(killed@ =~= self.kill@);
        self.insert_chars(killed.as_slice());
        true
    }

    /// `C-t`: swap the two characters around the cursor and step past them. At the end of the
    /// line it swaps the last two.
    pub fn transpose(&mut self) -> (r: bool)
        requires
            old(self).wf(),
        ensures
            final(self).wf(),
            ({
                let t = old(self)@.text;
                let len = t.len() as int;
                let right = if old(self)@.cursor >= len { len - 1 } else { old(self)@.cursor };
                &&& r == (len >= 2 && right > 0)
                &&& r ==> final(self)@.text == t.update(right - 1, t[right]).update(right, t[right - 1])
                    && final(self)@.cursor == (if right + 1 < len { right + 1 } else { len })
                &&& r ==> final(self)@ == swapped_at_cursor(old(self)@)
                &&& !r ==> final(self)@ == old(self)@
                &&& final(self)@.kill == old(self)@.kill
            }),
    {
        let len = self.chars.len();
        if len < 2 {
            return false;
        }
        let right = if self.cursor >= len {
            len - 1
        } else {
            self.cursor
        };
        if right == 0 {
            return false;
        }
        let a = self.chars[right - 1];
        let b = self.chars[right];
        self.chars.set(right - 1, b);
        self.chars.set(right, a);
        self.cursor = if right + 1 < len {
            right + 1
        } else {
            len
        };
        true
    }

    /// Empty the line, keeping the kill.
    pub fn clear(&mut self)
        requires
            old(self).wf(),
        ensures
            final(self).wf(),
            final(self)@.text == Seq::<char>::empty(),
            final(self)@.cursor == 0,
            final(self)@.kill == old(self)@.kill,
    {
        self.cursor = 0;
        self.chars.clear();
    }

    /// Change the case of the word from the cursor and step over it: `M-u`, `M-l`, `M-c`.
    pub fn case_word(&mut self, how: Case) -> (r: bool)
        requires
            old(self).wf(),
        ensures
            final(self).wf(),
            ({
                let t = old(self)@.text;
                let from = old(self)@.cursor;
                let to = word_end_of(t, from);
                &&& r == (from < to)
                &&& r ==> final(self)@.cursor == to
                    && final(self)@.text.len() == t.len()
                    && (forall|i: int| 0 <= i < t.len() ==> #[trigger] final(self)@.text[i] == (
                        if from <= i < to { converted(t, from, i, how) } else { t[i] }))
                &&& !r ==> final(self)@ == old(self)@
                &&& final(self)@.kill == old(self)@.kill
            }),
    {
        let to = self.word_end();
        if to <= self.cursor {
            return false;
        }
        let from = self.cursor;
        let ghost t = self.chars@;
        let mut first = true;
        let mut i = from;
        while i < to
            invariant
                from <= i <= to <= t.len(),
                self.chars@.len() == t.len(),
                self.cursor == from,
                self.kill@ == old(self)@.kill,
                t == old(self)@.text,
                to == word_end_of(t, from as int),
                first == !word_seen(t, from as int, i as int),
                forall|j: int| 0 <= j < t.len() ==> #[trigger] self.chars@[j] == (
                    if from <= j < i { converted(t, from as int, j, how) } else { t[j] }),
            decreases to - i,
        {
            let c = self.chars[i];
            let is_word_char = class(c) == Class::Word;
            let new_c = match how {
                Case::Upper => Self::first_of(text::to_uppercase(c), c),
                Case::Lower => Self::first_of(text::to_lowercase(c), c),
                Case::Title => {
                    if first && is_word_char {
                        Self::first_of(text::to_uppercase(c), c)
                    } else {
                        Self::first_of(text::to_lowercase(c), c)
                    }
                },
            };
            proof {
                if is_word_char {
                    assert(word_seen(t, from as int, i + 1)) by {
                        assert(is_word(t[i as int]));
                    }
                } else {
                    assert(word_seen(t, from as int, i + 1) == word_seen(t, from as int, i as int));
                }
            }
            if is_word_char {
                first = false;
            }
            self.chars.set(i, new_c);
            i += 1;
        }
        self.cursor = to;
        true
    }

    fn first_of(v: Vec<char>, c: char) -> (r: char)
        ensures
            r == first_or(v@, c),
    {
        if v.len() > 0 {
            v[0]
        } else {
            c
        }
    }
}

impl Default for Buffer {
    fn default() -> (b: Buffer)
        ensures
            b@.text == Seq::<char>::empty(),
            b@.cursor == 0,
            b@.kill == Seq::<char>::empty(),
            b.wf(),
    {
        Buffer::new()
    }
}

impl Clone for Buffer {
    fn clone(&self) -> (b: Buffer)
        ensures
            b@ == self@,
    {
        let chars = text::slice_vec(self.chars.as_slice(), 0, self.chars.len());
        let kill = text::slice_vec(self.kill.as_slice(), 0, self.kill.len());
        assert(chars@ =~= self.chars@);
        assert(kill@ =~= self.kill@);
        Buffer { chars, cursor: self.cursor, kill }
    }
}

/// Which way [`Buffer::case_word`] converts.
#[derive(Debug, Clone, Copy, PartialEq, Eq, Structural)]
pub enum Case {
    Upper,
    Lower,
    Title,
}


/// The buffer with `from..to` taken out into the kill, the cursor where it was taken: what every
/// kill that takes something leaves.
pub open spec fn cut(b: BufferView, from: int, to: int) -> BufferView {
    BufferView {
        text: b.text.subrange(0, from) + b.text.subrange(to, b.text.len() as int),
        cursor: from,
        kill: b.text.subrange(from, to),
    }
}

/// The buffer with its kill put back at the cursor, the cursor after it: what a yank leaves.
pub open spec fn put_back(b: BufferView) -> BufferView {
    BufferView {
        text: b.text.subrange(0, b.cursor) + b.kill + b.text.subrange(b.cursor, b.text.len() as int),
        cursor: b.cursor + b.kill.len(),
        kill: b.kill,
    }
}

/// A yank straight after a kill that took something puts it back where it was taken: the text
/// is the text before the kill, with the cursor after what was put back. The kill is not empty,
/// so the yank answers true; and the text and the kill together are exactly as long as the text
/// before, so the yank fits wherever that text did.
pub proof fn law_a_yank_puts_a_kill_back(b: BufferView, from: int, to: int)
    requires
        0 <= from < to <= b.text.len(),
    ensures
        put_back(cut(b, from, to)).text == b.text,
        put_back(cut(b, from, to)).cursor == to,
        cut(b, from, to).kill.len() > 0,
        cut(b, from, to).text.len() + cut(b, from, to).kill.len() == b.text.len(),
{
    let t = b.text;
    let rest = t.subrange(0, from) + t.subrange(to, t.len() as int);
    assert(rest.subrange(0, from) =~= t.subrange(0, from));
    assert(rest.subrange(from, rest.len() as int) =~= t.subrange(to, t.len() as int));
    assert(t.subrange(0, from) + t.subrange(from, to) + t.subrange(to, t.len() as int) =~= t);
}

proof fn lemma_run_back_over_non_word(t: Seq<char>, at: int)
    requires
        0 <= at <= t.len(),
    ensures
        0 <= back_over_non_word(t, at) <= at,
        forall|j: int| back_over_non_word(t, at) <= j < at ==> !is_word(#[trigger] t[j]),
        back_over_non_word(t, at) == 0 || is_word(t[back_over_non_word(t, at) - 1]),
    decreases at,
{
    if at > 0 && !is_word(t[at - 1]) {
        lemma_run_back_over_non_word(t, at - 1);
    }
}

proof fn lemma_run_back_over_word(t: Seq<char>, at: int)
    requires
        0 <= at <= t.len(),
    ensures
        0 <= back_over_word(t, at) <= at,
        forall|j: int| back_over_word(t, at) <= j < at ==> is_word(#[trigger] t[j]),
        back_over_word(t, at) == 0 || !is_word(t[back_over_word(t, at) - 1]),
    decreases at,
{
    if at > 0 && is_word(t[at - 1]) {
        lemma_run_back_over_word(t, at - 1);
    }
}

proof fn lemma_run_forward_over_non_word(t: Seq<char>, at: int)
    requires
        0 <= at <= t.len(),
    ensures
        at <= forward_over_non_word(t, at) <= t.len(),
        forall|j: int| at <= j < forward_over_non_word(t, at) ==> !is_word(#[trigger] t[j]),
        forward_over_non_word(t, at) == t.len() || is_word(t[forward_over_non_word(t, at)]),
    decreases t.len() - at,
{
    if at < t.len() && !is_word(t[at]) {
        lemma_run_forward_over_non_word(t, at + 1);
    }
}

proof fn lemma_run_forward_over_word(t: Seq<char>, at: int)
    requires
        0 <= at <= t.len(),
    ensures
        at <= forward_over_word(t, at) <= t.len(),
        forall|j: int| at <= j < forward_over_word(t, at) ==> is_word(#[trigger] t[j]),
        forward_over_word(t, at) == t.len() || !is_word(t[forward_over_word(t, at)]),
    decreases t.len() - at,
{
    if at < t.len() && is_word(t[at]) {
        lemma_run_forward_over_word(t, at + 1);
    }
}

proof fn lemma_run_back_over_space(t: Seq<char>, at: int)
    requires
        0 <= at <= t.len(),
    ensures
        0 <= back_over_space(t, at) <= at,
        forall|j: int| back_over_space(t, at) <= j < at ==> is_space(#[trigger] t[j]),
        back_over_space(t, at) == 0 || !is_space(t[back_over_space(t, at) - 1]),
    decreases at,
{
    if at > 0 && is_space(t[at - 1]) {
        lemma_run_back_over_space(t, at - 1);
    }
}

proof fn lemma_run_back_over_non_space(t: Seq<char>, at: int)
    requires
        0 <= at <= t.len(),
    ensures
        0 <= back_over_non_space(t, at) <= at,
        forall|j: int| back_over_non_space(t, at) <= j < at ==> !is_space(#[trigger] t[j]),
        back_over_non_space(t, at) == 0 || is_space(t[back_over_non_space(t, at) - 1]),
    decreases at,
{
    if at > 0 && !is_space(t[at - 1]) {
        lemma_run_back_over_non_space(t, at - 1);
    }
}

/// Word characters from `a` to `b`, then none up to `c`.
pub open spec fn words_then_others(t: Seq<char>, a: int, b: int, c: int) -> bool {
    &&& forall|j: int| a <= j < b ==> is_word(#[trigger] t[j])
    &&& forall|j: int| b <= j < c ==> !is_word(#[trigger] t[j])
}

/// No word characters from `a` to `b`, then only word characters up to `c`.
pub open spec fn others_then_words(t: Seq<char>, a: int, b: int, c: int) -> bool {
    &&& forall|j: int| a <= j < b ==> !is_word(#[trigger] t[j])
    &&& forall|j: int| b <= j < c ==> is_word(#[trigger] t[j])
}

/// No whitespace from `a` to `b`, then only whitespace up to `c`.
pub open spec fn non_spaces_then_spaces(t: Seq<char>, a: int, b: int, c: int) -> bool {
    &&& forall|j: int| a <= j < b ==> !is_space(#[trigger] t[j])
    &&& forall|j: int| b <= j < c ==> is_space(#[trigger] t[j])
}

/// `M-b` goes back to the start of the nearest word before the cursor: when a word character lies
/// before it, the cursor moves strictly left, onto a word character that starts a run of them,
/// and everything from the end of that run up to the cursor is not a word character; when none
/// does, it goes to the start of the line.
pub proof fn law_back_a_word_lands_on_the_nearest_word_start(t: Seq<char>, cursor: int)
    requires
        0 <= cursor <= t.len(),
    ensures
        ({
            let r = word_start_of(t, cursor);
            &&& 0 <= r <= cursor
            &&& (exists|j: int| 0 <= j < cursor && is_word(#[trigger] t[j])) ==> {
                &&& r < cursor
                &&& is_word(t[r])
                &&& r == 0 || !is_word(t[r - 1])
                &&& exists|e: int| r < e <= cursor && #[trigger] words_then_others(t, r, e, cursor)
            }
            &&& !(exists|j: int| 0 <= j < cursor && is_word(#[trigger] t[j])) ==> r == 0
        }),
{
    let m = back_over_non_word(t, cursor);
    lemma_run_back_over_non_word(t, cursor);
    lemma_run_back_over_word(t, m);
    let r = back_over_word(t, m);
    if exists|j: int| 0 <= j < cursor && is_word(#[trigger] t[j]) {
        let j0 = choose|j: int| 0 <= j < cursor && is_word(#[trigger] t[j]);
        assert(m > 0) by {
            if m == 0 {
                assert(!is_word(t[j0]));
            }
        }
        assert(is_word(t[m - 1]));
        assert(r < m);
        assert(is_word(t[r]));
        assert(words_then_others(t, r, m, cursor));
    } else {
        assert(m == 0) by {
            if m > 0 {
                assert(is_word(t[m - 1]));
            }
        }
    }
}

/// `M-f` goes forward to the end of the nearest word after the cursor: when a word character
/// lies at or after it, the cursor moves strictly right, to just past a run of word characters
/// that ends there, with nothing but non-word characters between the cursor and that run; when
/// none does, it goes to the end of the line.
pub proof fn law_forward_a_word_lands_on_the_nearest_word_end(t: Seq<char>, cursor: int)
    requires
        0 <= cursor <= t.len(),
    ensures
        ({
            let r = word_end_of(t, cursor);
            &&& cursor <= r <= t.len()
            &&& (exists|j: int| cursor <= j < t.len() && is_word(#[trigger] t[j])) ==> {
                &&& cursor < r
                &&& is_word(t[r - 1])
                &&& r == t.len() || !is_word(t[r])
                &&& exists|s: int| cursor <= s < r && #[trigger] others_then_words(t, cursor, s, r)
            }
            &&& !(exists|j: int| cursor <= j < t.len() && is_word(#[trigger] t[j])) ==> r == t.len()
        }),
{
    let m = forward_over_non_word(t, cursor);
    lemma_run_forward_over_non_word(t, cursor);
    lemma_run_forward_over_word(t, m);
    let r = forward_over_word(t, m);
    if exists|j: int| cursor <= j < t.len() && is_word(#[trigger] t[j]) {
        let j0 = choose|j: int| cursor <= j < t.len() && is_word(#[trigger] t[j]);
        assert(m < t.len()) by {
            if m == t.len() {
                assert(!is_word(t[j0]));
            }
        }
        assert(is_word(t[m]));
        assert(m < r);
        assert(is_word(t[r - 1]));
        assert(others_then_words(t, cursor, m, r));
    } else {
        assert(m == t.len()) by {
            if m < t.len() {
                assert(is_word(t[m]));
            }
        }
    }
}

/// `C-w` reaches back to the start of the nearest whitespace-delimited word before the cursor:
/// when something other than whitespace lies before it, onto a non-space that starts a run of
/// them, with only whitespace from the end of that run up to the cursor; when nothing does, to
/// the start of the line.
pub proof fn law_a_space_word_back_lands_on_its_start(t: Seq<char>, cursor: int)
    requires
        0 <= cursor <= t.len(),
    ensures
        ({
            let r = space_word_start_of(t, cursor);
            &&& 0 <= r <= cursor
            &&& (exists|j: int| 0 <= j < cursor && !is_space(#[trigger] t[j])) ==> {
                &&& r < cursor
                &&& !is_space(t[r])
                &&& r == 0 || is_space(t[r - 1])
                &&& exists|e: int| r < e <= cursor && #[trigger] non_spaces_then_spaces(t, r, e, cursor)
            }
            &&& !(exists|j: int| 0 <= j < cursor && !is_space(#[trigger] t[j])) ==> r == 0
        }),
{
    let m = back_over_space(t, cursor);
    lemma_run_back_over_space(t, cursor);
    lemma_run_back_over_non_space(t, m);
    let r = back_over_non_space(t, m);
    if exists|j: int| 0 <= j < cursor && !is_space(#[trigger] t[j]) {
        let j0 = choose|j: int| 0 <= j < cursor && !is_space(#[trigger] t[j]);
        assert(m > 0) by {
            if m == 0 {
                assert(is_space(t[j0]));
            }
        }
        assert(!is_space(t[m - 1]));
        assert(r < m);
        assert(!is_space(t[r]));
        assert(non_spaces_then_spaces(t, r, m, cursor));
    } else {
        assert(m == 0) by {
            if m > 0 {
                assert(!is_space(t[m - 1]));
            }
        }
    }
}

/// What `C-t` leaves: the character before the cursor and the one under it swapped (the last
/// two at the end of the line), the cursor after them.
pub open spec fn swapped_at_cursor(b: BufferView) -> BufferView {
    let t = b.text;
    let len = t.len() as int;
    let right = if b.cursor >= len { len - 1 } else { b.cursor };
    BufferView {
        text: t.update(right - 1, t[right]).update(right, t[right - 1]),
        cursor: if right + 1 < len { right + 1 } else { len },
        kill: b.kill,
    }
}

/// `C-t` keeps every character, only reordering two neighbours: the one before the cursor moves
/// past the one under it and the cursor moves past both; at the end of the line it swaps the
/// last two, so doing it twice there gives the line back.
pub proof fn law_transposing_swaps_two_neighbours(b: BufferView)
    requires
        b.text.len() >= 2,
        0 < b.cursor <= b.text.len(),
    ensures
        ({
            let t = b.text;
            let a = swapped_at_cursor(b);
            let right = if b.cursor >= t.len() { t.len() - 1 } else { b.cursor };
            &&& a.text.len() == t.len()
            &&& a.text.to_multiset() == t.to_multiset()
            &&& a.text[right] == t[right - 1] && a.text[right - 1] == t[right]
            &&& forall|i: int| 0 <= i < t.len() && i != right && i != right - 1 ==> #[trigger] a.text[i] == t[i]
            &&& a.cursor == right + 1
            &&& b.cursor == t.len() ==> swapped_at_cursor(a).text == t && swapped_at_cursor(a).cursor == t.len()
        }),
{
    let t = b.text;
    let right = if b.cursor >= t.len() { t.len() - 1 } else { b.cursor };
    let u = t.update(right - 1, t[right]);
    let a = u.update(right, t[right - 1]);
    broadcast use vstd::multiset::group_multiset_axioms, vstd::seq_lib::group_to_multiset_ensures;
    vstd::seq_lib::to_multiset_update(t, right - 1, t[right]);
    vstd::seq_lib::to_multiset_update(u, right, t[right - 1]);
    assert(u[right] == t[right]);
    assert(t.contains(t[right - 1])) by {
        assert(t[right - 1] == t[right - 1]);
    }
    assert(u.contains(t[right])) by {
        assert(u[right - 1] == t[right]);
    }
    assert(a.to_multiset() =~= t.to_multiset());
    if b.cursor == t.len() {
        assert(a.update(right - 1, a[right]).update(right, a[right - 1]) =~= t);
    }
}

/// `M-c` capitalises: over the range it converts, the first word character is upper-cased and
/// every other character lower-cased, whatever came before it.
pub proof fn law_title_case_raises_only_the_first_letter(t: Seq<char>, from: int, s: int)
    requires
        0 <= from <= s < word_end_of(t, from),
        word_end_of(t, from) <= t.len(),
        others_then_words(t, from, s, word_end_of(t, from)),
    ensures
        forall|i: int| from <= i < word_end_of(t, from) ==> #[trigger] converted(t, from, i, Case::Title) == if i == s {
            first_or(uppercase(t[i]), t[i])
        } else {
            first_or(lowercase(t[i]), t[i])
        },
{
    let to = word_end_of(t, from);
    assert forall|i: int| from <= i < to implies #[trigger] converted(t, from, i, Case::Title) == if i == s {
        first_or(uppercase(t[i]), t[i])
    } else {
        first_or(lowercase(t[i]), t[i])
    } by {
        if i < s {
            assert(!is_word(t[i]));
        } else if i == s {
            assert(is_word(t[s]));
            assert(!word_seen(t, from, s)) by {
                assert forall|j: int| from <= j < s implies !is_word(#[trigger] t[j]) by {}
            }
        } else {
            assert(is_word(t[s]));
            assert(word_seen(t, from, i));
        }
    }
}

} // verus!
