//! Reading whole keypresses out of the bytes a terminal delivers.
//!
//! A terminal delivers bytes, and a single Up arrow is three of them while a mouse report is
//! thirteen. Read into a small buffer and the long ones are cut in half, after which the tail
//! arrives looking exactly like somebody typing. So bytes are buffered and a **complete** sequence
//! is taken from the front or nothing is, and anything unrecognised is consumed whole rather than
//! falling through to the text path.

use vstd::prelude::*;
use vstd::utf8::{decode_utf8, valid_utf8};
use crate::text::{self, spec_is_control};

verus! {

/// What a keypress means.
#[derive(Debug, Clone, Copy, PartialEq, Eq, Structural)]
pub enum Key {
    Char(char),
    /// `ESC` then a character: the chord a terminal sends for Alt.
    Alt(char),
    /// A control chord that has no shared meaning, by its letter.
    Ctrl(char),
    Backspace,
    /// Forward delete, which is not Backspace and must not be treated as it.
    Delete,
    Up,
    Down,
    Left,
    Right,
    Home,
    End,
    PageUp,
    PageDown,
    Accept,
    Cancel,
    /// Ctrl-C, which a widget may treat differently from an ordinary quit.
    Abort,
    /// Clear the line: Ctrl-U, as at a prompt.
    Clear,
    /// Tab.
    ToggleScope,
    /// Shift-Tab, which a terminal spells `ESC [ Z`.
    BackTab,
    Ignored,
}

/// What the front of the buffer holds.
#[derive(Debug, Clone, Copy, PartialEq, Eq, Structural)]
pub enum Parsed {
    /// A key, and how many bytes it took.
    Took(usize, Key),
    /// A complete sequence that means nothing here. Consumed so it cannot be read as text.
    Discard(usize),
    /// A sequence that has not all arrived.
    Partial,
}

/// The meaning of a single control byte, when it has one of its own.
pub open spec fn control_key(b: u8) -> Option<Key> {
    if b == 0x1b || b == 0x03 || b == 0x0d || b == 0x0a || b == 0x7f || b == 0x08 || b == 0x09 {
        Some(
            if b == 0x1b {
                Key::Cancel
            } else if b == 0x03 {
                Key::Abort
            } else if b == 0x7f || b == 0x08 {
                Key::Backspace
            } else if b == 0x09 {
                Key::ToggleScope
            } else {
                Key::Accept
            },
        )
    } else if b == 0x01 {
        Some(Key::Home)
    } else if b == 0x05 {
        Some(Key::End)
    } else if b == 0x02 {
        Some(Key::Left)
    } else if b == 0x06 {
        Some(Key::Right)
    } else if b == 0x04 {
        Some(Key::Delete)
    } else if b == 0x15 {
        Some(Key::Clear)
    } else if b == 0x10 {
        Some(Key::Up)
    } else if b == 0x0e {
        Some(Key::Down)
    } else if 0x01 <= b <= 0x1a {
        // Every other letter chord, by its letter: 0x07 is Ctrl-G.
        Some(Key::Ctrl(((b + 0x60) as u32) as char))
    } else {
        None
    }
}

/// What follows `ESC [`.
pub open spec fn csi_key(rest: Seq<u8>) -> Key {
    if rest.len() == 0 {
        Key::Ignored
    } else {
        let a = rest[0];
        let tilde = rest.len() >= 2 && rest[1] == 0x7e;
        if a == 0x41 {
            Key::Up
        } else if a == 0x42 {
            Key::Down
        } else if a == 0x43 {
            Key::Right
        } else if a == 0x44 {
            Key::Left
        } else if a == 0x48 {
            Key::Home
        } else if a == 0x46 {
            Key::End
        } else if a == 0x5a {
            Key::BackTab
        } else if tilde && (a == 0x31 || a == 0x37) {
            Key::Home
        } else if tilde && a == 0x33 {
            Key::Delete
        } else if tilde && (a == 0x34 || a == 0x38) {
            Key::End
        } else if tilde && a == 0x35 {
            Key::PageUp
        } else if tilde && a == 0x36 {
            Key::PageDown
        } else {
            Key::Ignored
        }
    }
}

/// What follows `ESC O`, the spelling a terminal in application-cursor mode uses.
pub open spec fn ss3_key(rest: Seq<u8>) -> Key {
    if rest.len() == 0 {
        Key::Ignored
    } else {
        let a = rest[0];
        if a == 0x41 {
            Key::Up
        } else if a == 0x42 {
            Key::Down
        } else if a == 0x43 {
            Key::Right
        } else if a == 0x44 {
            Key::Left
        } else if a == 0x48 {
            Key::Home
        } else if a == 0x46 {
            Key::End
        } else {
            Key::Ignored
        }
    }
}

/// Text: the first character of what the bytes decode to, unless it is a control character.
pub open spec fn text_key(b: Seq<u8>) -> Key {
    if valid_utf8(b) && decode_utf8(b).len() > 0 && !spec_is_control(decode_utf8(b)[0]) {
        Key::Char(decode_utf8(b)[0])
    } else {
        Key::Ignored
    }
}

/// What a whole byte sequence means.
pub open spec fn spec_key(b: Seq<u8>) -> Key {
    if b.len() == 0 {
        Key::Ignored
    } else if b.len() == 1 && control_key(b[0]) is Some {
        control_key(b[0]).unwrap()
    } else if b[0] == 0x1b {
        if b[1] == 0x5b {
            csi_key(b.subrange(2, b.len() as int))
        } else if b[1] == 0x4f {
            ss3_key(b.subrange(2, b.len() as int))
        } else if b.len() == 2 && b[1] < 0x80 {
            Key::Alt((b[1] as u32) as char)
        } else {
            Key::Ignored
        }
    } else {
        text_key(b)
    }
}

/// How many bytes the character starting with `first` occupies; a stray continuation byte is
/// taken alone.
pub open spec fn spec_utf8_len(first: u8) -> int {
    if first <= 0x7f {
        1
    } else if 0xc0 <= first <= 0xdf {
        2
    } else if 0xe0 <= first <= 0xef {
        3
    } else if 0xf0 <= first <= 0xf7 {
        4
    } else {
        1
    }
}

/// The first index at or after `at` whose byte is outside `lo..=hi`.
pub open spec fn skip_range(b: Seq<u8>, at: int, lo: u8, hi: u8) -> int
    decreases b.len() - at,
{
    if 0 <= at < b.len() && lo <= b[at] <= hi {
        skip_range(b, at + 1, lo, hi)
    } else {
        at
    }
}

/// Where an OSC string that has reached `at` ends: just past its BEL or `ESC \`, or `None` when
/// the terminator has not arrived.
pub open spec fn osc_end(b: Seq<u8>, at: int) -> Option<int>
    decreases b.len() - at,
{
    if !(0 <= at < b.len()) {
        None
    } else if b[at] == 0x07 {
        Some(at + 1)
    } else if b[at] == 0x1b && at + 1 < b.len() && b[at + 1] == 0x5c {
        Some(at + 2)
    } else {
        osc_end(b, at + 1)
    }
}

/// Take one key from the front of `b`.
pub open spec fn spec_parse(b: Seq<u8>) -> Parsed {
    if b.len() == 0 {
        Parsed::Partial
    } else if b[0] != 0x1b {
        let n = spec_utf8_len(b[0]);
        if b.len() < n {
            Parsed::Partial
        } else if valid_utf8(b.subrange(0, n)) {
            Parsed::Took(n as usize, spec_key(b.subrange(0, n)))
        } else {
            Parsed::Discard(n as usize)
        }
    } else if b.len() == 1 {
        Parsed::Partial
    } else if b[1] == 0x5b {
        // CSI: parameters, then intermediates, then one final byte.
        let at = skip_range(b, skip_range(b, 2, 0x30, 0x3f), 0x20, 0x2f);
        if at >= b.len() {
            Parsed::Partial
        } else if !(0x40 <= b[at] <= 0x7e) {
            Parsed::Discard((at + 1) as usize)
        } else if b[at] == 0x4d && at == 2 {
            // X10 mouse: `ESC [ M` and then three raw bytes.
            if b.len() >= 6 {
                Parsed::Discard(6)
            } else {
                Parsed::Partial
            }
        } else {
            Parsed::Took((at + 1) as usize, spec_key(b.subrange(0, at + 1)))
        }
    } else if b[1] == 0x4f {
        if b.len() < 3 {
            Parsed::Partial
        } else {
            Parsed::Took(3, spec_key(b.subrange(0, 3)))
        }
    } else if b[1] == 0x5d {
        match osc_end(b, 2) {
            Some(end) => Parsed::Discard(end as usize),
            None => Parsed::Partial,
        }
    } else {
        Parsed::Took(2, spec_key(b.subrange(0, 2)))
    }
}

/// `std::str::from_utf8`: the text the bytes encode, when they are valid UTF-8.
#[verifier::external_body]
fn from_utf8(bytes: &[u8]) -> (r: Option<&str>)
    ensures
        r is Some <==> valid_utf8(bytes@),
        r matches Some(s) ==> s@ == decode_utf8(bytes@),
{
    std::str::from_utf8(bytes).ok()
}

fn control_key_x(b: u8) -> (r: Option<Key>)
    ensures
        r == control_key(b),
{
    if b == 0x1b {
        Some(Key::Cancel)
    } else if b == 0x03 {
        Some(Key::Abort)
    } else if b == 0x0d || b == 0x0a {
        Some(Key::Accept)
    } else if b == 0x7f || b == 0x08 {
        Some(Key::Backspace)
    } else if b == 0x09 {
        Some(Key::ToggleScope)
    } else if b == 0x01 {
        Some(Key::Home)
    } else if b == 0x05 {
        Some(Key::End)
    } else if b == 0x02 {
        Some(Key::Left)
    } else if b == 0x06 {
        Some(Key::Right)
    } else if b == 0x04 {
        Some(Key::Delete)
    } else if b == 0x15 {
        Some(Key::Clear)
    } else if b == 0x10 {
        Some(Key::Up)
    } else if b == 0x0e {
        Some(Key::Down)
    } else if 0x01 <= b && b <= 0x1a {
        Some(Key::Ctrl(text::char_from_ascii((b + 0x60) as u32)))
    } else {
        None
    }
}

fn csi_key_x(b: &[u8]) -> (r: Key)
    requires
        b@.len() >= 2,
    ensures
        r == csi_key(b@.subrange(2, b@.len() as int)),
{
    let ghost rest = b@.subrange(2, b@.len() as int);
    if b.len() == 2 {
        return Key::Ignored;
    }
    let a = b[2];
    let tilde = b.len() >= 4 && b[3] == 0x7e;
    assert(rest[0] == a);
    assert(tilde == (rest.len() >= 2 && rest[1] == 0x7e));
    if a == 0x41 {
        Key::Up
    } else if a == 0x42 {
        Key::Down
    } else if a == 0x43 {
        Key::Right
    } else if a == 0x44 {
        Key::Left
    } else if a == 0x48 {
        Key::Home
    } else if a == 0x46 {
        Key::End
    } else if a == 0x5a {
        Key::BackTab
    } else if tilde && (a == 0x31 || a == 0x37) {
        Key::Home
    } else if tilde && a == 0x33 {
        Key::Delete
    } else if tilde && (a == 0x34 || a == 0x38) {
        Key::End
    } else if tilde && a == 0x35 {
        Key::PageUp
    } else if tilde && a == 0x36 {
        Key::PageDown
    } else {
        Key::Ignored
    }
}

fn ss3_key_x(b: &[u8]) -> (r: Key)
    requires
        b@.len() >= 2,
    ensures
        r == ss3_key(b@.subrange(2, b@.len() as int)),
{
    if b.len() == 2 {
        return Key::Ignored;
    }
    let a = b[2];
    assert(b@.subrange(2, b@.len() as int)[0] == a);
    if a == 0x41 {
        Key::Up
    } else if a == 0x42 {
        Key::Down
    } else if a == 0x43 {
        Key::Right
    } else if a == 0x44 {
        Key::Left
    } else if a == 0x48 {
        Key::Home
    } else if a == 0x46 {
        Key::End
    } else {
        Key::Ignored
    }
}

/// What a byte sequence means, once a whole one has been collected.
///
/// Up and Down name screen directions. A lone `ESC` is the Esc key; `ESC` and one more ASCII
/// character is an Alt chord; the control bytes every readline-shaped thing binds keep their
/// shared meaning, and every other letter chord is reported by its letter. Anything else is read
/// as UTF-8 text, and its first character is the key unless it is a control character.
pub fn key(bytes: &[u8]) -> (r: Key)
    ensures
        r == spec_key(bytes@),
{
    if bytes.len() == 0 {
        return Key::Ignored;
    }
    if bytes.len() == 1 {
        match control_key_x(bytes[0]) {
            Some(k) => return k,
            None => {},
        }
    }
    if bytes[0] == 0x1b {
        if bytes[1] == 0x5b {
            csi_key_x(bytes)
        } else if bytes[1] == 0x4f {
            ss3_key_x(bytes)
        } else if bytes.len() == 2 && bytes[1] < 0x80 {
            Key::Alt(text::char_from_ascii(bytes[1] as u32))
        } else {
            Key::Ignored
        }
    } else {
        match from_utf8(bytes) {
            Some(s) => {
                let cs = text::chars_of(s);
                if cs.len() > 0 && !text::is_control(cs[0]) {
                    Key::Char(cs[0])
                } else {
                    Key::Ignored
                }
            },
            None => Key::Ignored,
        }
    }
}

fn utf8_len(first: u8) -> (r: usize)
    ensures
        r == spec_utf8_len(first),
        1 <= r <= 4,
{
    if first <= 0x7f {
        1
    } else if 0xc0 <= first && first <= 0xdf {
        2
    } else if 0xe0 <= first && first <= 0xef {
        3
    } else if 0xf0 <= first && first <= 0xf7 {
        4
    } else {
        1
    }
}

fn prefix(b: &[u8], n: usize) -> (r: Vec<u8>)
    requires
        n <= b@.len(),
    ensures
        r@ == b@.subrange(0, n as int),
{
    let mut r: Vec<u8> = Vec::new();
    let mut i: usize = 0;
    while i < n
        invariant
            i <= n <= b@.len(),
            r@ == b@.subrange(0, i as int),
        decreases n - i,
    {
        r.push(b[i]);
        i += 1;
        assert(r@ =~= b@.subrange(0, i as int));
    }
    r
}

fn skip_range_x(b: &[u8], at: usize, lo: u8, hi: u8) -> (r: usize)
    requires
        at <= b@.len(),
    ensures
        r == skip_range(b@, at as int, lo, hi),
        at <= r <= b@.len(),
{
    let mut i = at;
    while i < b.len() && lo <= b[i] && b[i] <= hi
        invariant
            at <= i <= b@.len(),
            skip_range(b@, i as int, lo, hi) == skip_range(b@, at as int, lo, hi),
        decreases b.len() - i,
    {
        i += 1;
    }
    i
}

fn osc_end_x(b: &[u8]) -> (r: Option<usize>)
    requires
        b@.len() >= 2,
    ensures
        match r {
            Some(e) => osc_end(b@, 2) == Some(e as int),
            None => osc_end(b@, 2) is None,
        },
{
    let mut at: usize = 2;
    while at < b.len()
        invariant
            2 <= at <= b@.len(),
            osc_end(b@, at as int) == osc_end(b@, 2),
        decreases b.len() - at,
    {
        if b[at] == 0x07 {
            return Some(at + 1);
        }
        if b[at] == 0x1b && at + 1 < b.len() && b[at + 1] == 0x5c {
            return Some(at + 2);
        }
        at += 1;
    }
    None
}

/// Take one key from the front of `buf`: a key and the bytes it used, a complete sequence to
/// throw away, or `Partial` when the rest has not arrived yet.
pub fn parse(buf: &[u8]) -> (r: Parsed)
    ensures
        r == spec_parse(buf@),
        r matches Parsed::Took(n, _) ==> 1 <= n <= buf@.len(),
        r matches Parsed::Discard(n) ==> 1 <= n <= buf@.len(),
{
    if buf.len() == 0 {
        return Parsed::Partial;
    }
    let first = buf[0];
    if first != 0x1b {
        let n = utf8_len(first);
        if buf.len() < n {
            return Parsed::Partial;
        }
        let head = prefix(buf, n);
        return match from_utf8(head.as_slice()) {
            Some(_) => Parsed::Took(n, key(head.as_slice())),
            None => Parsed::Discard(n),
        };
    }
    if buf.len() == 1 {
        return Parsed::Partial;
    }
    let second = buf[1];
    proof {
        lemma_osc_end(buf@, 2);
    }
    if second == 0x5b {
        let p = skip_range_x(buf, 2, 0x30, 0x3f);
        let at = skip_range_x(buf, p, 0x20, 0x2f);
        if at >= buf.len() {
            return Parsed::Partial;
        }
        let fb = buf[at];
        if !(0x40 <= fb && fb <= 0x7e) {
            return Parsed::Discard(at + 1);
        }
        if fb == 0x4d && at == 2 {
            return if buf.len() >= 6 {
                Parsed::Discard(6)
            } else {
                Parsed::Partial
            };
        }
        let head = prefix(buf, at + 1);
        Parsed::Took(at + 1, key(head.as_slice()))
    } else if second == 0x4f {
        if buf.len() < 3 {
            return Parsed::Partial;
        }
        let head = prefix(buf, 3);
        Parsed::Took(3, key(head.as_slice()))
    } else if second == 0x5d {
        match osc_end_x(buf) {
            Some(end) => Parsed::Discard(end),
            None => Parsed::Partial,
        }
    } else {
        let head = prefix(buf, 2);
        Parsed::Took(2, key(head.as_slice()))
    }
}

/// Keys as they are collected from a terminal, whatever pieces it delivered them in.
///
/// The reading itself is the caller's: it hands over whatever arrived with [`Keys::feed`], and
/// asks for the next whole key with [`Keys::next`].
pub struct Keys {
    buf: Vec<u8>,
    /// Where the keystrokes are read from.
    fd: i32,
}

impl Keys {
    /// The bytes that have arrived and not yet been taken.
    pub closed spec fn pending(&self) -> Seq<u8> {
        self.buf@
    }

    /// The descriptor the keys are read from.
    pub closed spec fn source(&self) -> i32 {
        self.fd
    }

    /// Read keys from `fd`, with nothing buffered yet.
    pub fn on(fd: i32) -> (k: Keys)
        ensures
            k.pending() == Seq::<u8>::empty(),
            k.source() == fd,
    {
        Keys { buf: Vec::new(), fd }
    }

    /// The descriptor the keys are read from.
    pub fn fd(&self) -> (r: i32)
        ensures
            r == self.source(),
    {
        self.fd
    }

    /// Append what the terminal delivered.
    pub fn feed(&mut self, bytes: &[u8])
        ensures
            final(self).pending() == old(self).pending() + bytes@,
            final(self).source() == old(self).source(),
    {
        let mut i: usize = 0;
        let ghost start = self.buf@;
        while i < bytes.len()
            invariant
                i <= bytes@.len(),
                self.buf@ == start + bytes@.subrange(0, i as int),
                self.fd == old(self).fd,
            decreases bytes.len() - i,
        {
            self.buf.push(bytes[i]);
            i += 1;
            assert(self.buf@ =~= start + bytes@.subrange(0, i as int));
        }
        assert(bytes@.subrange(0, bytes@.len() as int) =~= bytes@);
    }

    /// Whether all that is buffered is a lone `ESC`, which is the Esc key if nothing follows it.
    pub fn lone_escape(&self) -> (r: bool)
        ensures
            r == (self.pending() == seq![0x1bu8]),
    {
        let r = self.buf.len() == 1 && self.buf[0] == 0x1b;
        proof {
            if self.buf@.len() == 1 && self.buf@[0] == 0x1b {
                assert(self.buf@ =~= seq![0x1bu8]);
            }
        }
        r
    }

    /// Forget what is buffered.
    pub fn clear(&mut self)
        ensures
            final(self).pending() == Seq::<u8>::empty(),
            final(self).source() == old(self).source(),
    {
        self.buf.clear();
    }

    fn drop_front(&mut self, n: usize)
        requires
            n <= old(self).pending().len(),
        ensures
            final(self).pending() == old(self).pending().subrange(n as int, old(self).pending().len() as int),
            final(self).source() == old(self).source(),
    {
        let mut rest: Vec<u8> = Vec::new();
        let mut i = n;
        while i < self.buf.len()
            invariant
                n <= i <= self.buf@.len(),
                self.buf@ == old(self).buf@,
                rest@ == self.buf@.subrange(n as int, i as int),
            decreases self.buf.len() - i,
        {
            rest.push(self.buf[i]);
            i += 1;
            assert(rest@ =~= self.buf@.subrange(n as int, i as int));
        }
        self.buf = rest;
    }

    /// Take the next whole key from the front of what has arrived, discarding any complete
    /// sequence that means nothing on the way. `None` when what is left is a sequence that has
    /// not all arrived (or nothing); the discarded sequences are consumed either way.
    pub fn next(&mut self) -> (r: Option<Key>)
        ensures
            r == spec_next(old(self).pending()).0,
            final(self).pending() == old(self).pending().subrange(
                spec_next(old(self).pending()).1,
                old(self).pending().len() as int,
            ),
            final(self).source() == old(self).source(),
        decreases old(self).pending().len(),
    {
        let total = self.buf.len();
        match parse(self.buf.as_slice()) {
            Parsed::Took(used, k) => {
                self.drop_front(used);
                Some(k)
            },
            Parsed::Discard(used) => {
                let ghost before = self.buf@;
                self.drop_front(used);
                let r = self.next();
                proof {
                    assert(before.len() == total);
                    let rest = before.subrange(used as int, before.len() as int);
                    let m = spec_next(rest).1;
                    lemma_next_bounds(rest);
                    assert(rest.subrange(m, rest.len() as int) =~= before.subrange(used + m, before.len() as int));
                }
                r
            },
            Parsed::Partial => {
                proof {
                    assert(self.buf@.subrange(0, self.buf@.len() as int) =~= self.buf@);
                }
                None
            },
        }
    }
}

/// The next whole key in `b`, after any complete sequences that mean nothing, and how many bytes
/// were used to reach it; `None` and the bytes discarded when the rest has not all arrived.
pub open spec fn spec_next(b: Seq<u8>) -> (Option<Key>, int)
    decreases b.len(),
{
    match spec_parse(b) {
        Parsed::Took(n, k) => (Some(k), n as int),
        Parsed::Discard(n) => if 0 < n <= b.len() {
            let after = spec_next(b.subrange(n as int, b.len() as int));
            (after.0, n + after.1)
        } else {
            (None, 0)
        },
        Parsed::Partial => (None, 0),
    }
}

proof fn lemma_skip_range(b: Seq<u8>, at: int, lo: u8, hi: u8)
    requires
        0 <= at <= b.len(),
    ensures
        at <= skip_range(b, at, lo, hi) <= b.len(),
    decreases b.len() - at,
{
    if at < b.len() && lo <= b[at] <= hi {
        lemma_skip_range(b, at + 1, lo, hi);
    }
}

proof fn lemma_osc_end(b: Seq<u8>, at: int)
    requires
        0 <= at,
    ensures
        osc_end(b, at) matches Some(e) ==> at < e <= b.len(),
    decreases b.len() - at,
{
    if 0 <= at < b.len() && b[at] != 0x07 && !(b[at] == 0x1b && at + 1 < b.len() && b[at + 1] == 0x5c) {
        lemma_osc_end(b, at + 1);
    }
}

/// Whatever the front of the buffer holds, a key or a discard uses at least one byte and no more
/// than there are.
pub proof fn lemma_parse_bounds(b: Seq<u8>)
    requires
        b.len() <= usize::MAX,
    ensures
        spec_parse(b) matches Parsed::Took(n, _) ==> 1 <= n <= b.len(),
        spec_parse(b) matches Parsed::Discard(n) ==> 1 <= n <= b.len(),
{
    if b.len() >= 2 {
        lemma_skip_range(b, 2, 0x30, 0x3f);
        lemma_skip_range(b, skip_range(b, 2, 0x30, 0x3f), 0x20, 0x2f);
        lemma_osc_end(b, 2);
    }
}

proof fn lemma_next_bounds(b: Seq<u8>)
    requires
        b.len() <= usize::MAX,
    ensures
        0 <= spec_next(b).1 <= b.len(),
    decreases b.len(),
{
    lemma_parse_bounds(b);
    if let Parsed::Discard(n) = spec_parse(b) {
        lemma_next_bounds(b.subrange(n as int, b.len() as int));
    }
}

/// Text is taken a character at a time: a buffer that opens with a whole ASCII character gives
/// that character and uses exactly one byte, whatever follows it.
pub proof fn law_ascii_text_is_one_byte(b: Seq<u8>)
    requires
        b.len() > 0,
        0x20 <= b[0] < 0x7f,
    ensures
        spec_parse(b) == Parsed::Took(1, Key::Char((b[0] as u32) as char)),
{
    let one = b.subrange(0, 1);
    let c = (b[0] as u32) as char;
    let chars = seq![c];
    assert(vstd::utf8::is_ascii_chars(chars));
    vstd::utf8::is_ascii_chars_encode_utf8(chars);
    assert(vstd::utf8::encode_utf8(chars) =~= one);
    vstd::utf8::encode_utf8_valid_utf8(chars);
    vstd::utf8::encode_utf8_decode_utf8(chars);
}

/// The VT spellings of the editing keys, `ESC [` then a digit and `~`, name their keys whatever
/// follows them in the same read: `1` and `7` are Home, as tmux, screen and rxvt send it, `4`
/// and `8` End, `3` Delete, `5` Page Up and `6` Page Down; so every spelling of Home is the same
/// key as `ESC [ H`, `ESC O H` and Ctrl-A.
pub proof fn law_each_vt_spelling_names_its_key(d: u8, tail: Seq<u8>)
    ensures
        ({
            let b = seq![0x1bu8, 0x5bu8, d, 0x7eu8] + tail;
            &&& (d == 0x31 || d == 0x37) ==> spec_key(b) == Key::Home
            &&& (d == 0x34 || d == 0x38) ==> spec_key(b) == Key::End
            &&& d == 0x33 ==> spec_key(b) == Key::Delete
            &&& d == 0x35 ==> spec_key(b) == Key::PageUp
            &&& d == 0x36 ==> spec_key(b) == Key::PageDown
            &&& (d == 0x31 || d == 0x37) ==> spec_key(b) == spec_key(seq![0x1bu8, 0x5bu8, 0x48u8])
                && spec_key(b) == spec_key(seq![0x1bu8, 0x4fu8, 0x48u8]) && spec_key(b) == spec_key(seq![0x01u8])
            &&& (d == 0x34 || d == 0x38) ==> spec_key(b) == spec_key(seq![0x1bu8, 0x5bu8, 0x46u8])
                && spec_key(b) == spec_key(seq![0x1bu8, 0x4fu8, 0x46u8]) && spec_key(b) == spec_key(seq![0x05u8])
        }),
{
    let b = seq![0x1bu8, 0x5bu8, d, 0x7eu8] + tail;
    let rest = b.subrange(2, b.len() as int);
    assert(rest[0] == d && rest[1] == 0x7e);
    assert(seq![0x1bu8, 0x5bu8, 0x48u8].subrange(2, 3) =~= seq![0x48u8]);
    assert(seq![0x1bu8, 0x4fu8, 0x48u8].subrange(2, 3) =~= seq![0x48u8]);
    assert(seq![0x1bu8, 0x5bu8, 0x46u8].subrange(2, 3) =~= seq![0x46u8]);
    assert(seq![0x1bu8, 0x4fu8, 0x46u8].subrange(2, 3) =~= seq![0x46u8]);
}

/// The cursor keys and Home and End mean the same in either spelling a terminal uses, `ESC [`
/// or, in application-cursor mode, `ESC O`, whatever follows the letter in the same read.
pub proof fn law_both_cursor_spellings_agree(x: u8, tail: Seq<u8>)
    ensures
        ({
            let csi = seq![0x1bu8, 0x5bu8, x] + tail;
            let ss3 = seq![0x1bu8, 0x4fu8, x] + tail;
            &&& x == 0x41 ==> spec_key(csi) == Key::Up && spec_key(ss3) == Key::Up
            &&& x == 0x42 ==> spec_key(csi) == Key::Down && spec_key(ss3) == Key::Down
            &&& x == 0x43 ==> spec_key(csi) == Key::Right && spec_key(ss3) == Key::Right
            &&& x == 0x44 ==> spec_key(csi) == Key::Left && spec_key(ss3) == Key::Left
            &&& x == 0x48 ==> spec_key(csi) == Key::Home && spec_key(ss3) == Key::Home
            &&& x == 0x46 ==> spec_key(csi) == Key::End && spec_key(ss3) == Key::End
        }),
{
    let csi = seq![0x1bu8, 0x5bu8, x] + tail;
    let ss3 = seq![0x1bu8, 0x4fu8, x] + tail;
    assert(csi.subrange(2, csi.len() as int)[0] == x);
    assert(ss3.subrange(2, ss3.len() as int)[0] == x);
}

/// A single control byte: Esc cancels, Ctrl-C aborts, Enter (CR or LF) accepts, DEL and Ctrl-H
/// erase back, Tab is Tab; Ctrl-A and Ctrl-E go home and to the end, Ctrl-B and Ctrl-F left and
/// right, Ctrl-P and Ctrl-N up and down, Ctrl-D deletes forward and Ctrl-U clears; and every
/// other letter chord is reported by its letter.
pub proof fn law_a_control_byte_names_its_key(b: u8)
    ensures
        b == 0x1b ==> spec_key(seq![b]) == Key::Cancel,
        b == 0x03 ==> spec_key(seq![b]) == Key::Abort,
        (b == 0x0d || b == 0x0a) ==> spec_key(seq![b]) == Key::Accept,
        (b == 0x7f || b == 0x08) ==> spec_key(seq![b]) == Key::Backspace,
        b == 0x09 ==> spec_key(seq![b]) == Key::ToggleScope,
        b == 0x01 ==> spec_key(seq![b]) == Key::Home,
        b == 0x05 ==> spec_key(seq![b]) == Key::End,
        b == 0x02 ==> spec_key(seq![b]) == Key::Left,
        b == 0x06 ==> spec_key(seq![b]) == Key::Right,
        b == 0x10 ==> spec_key(seq![b]) == Key::Up,
        b == 0x0e ==> spec_key(seq![b]) == Key::Down,
        b == 0x04 ==> spec_key(seq![b]) == Key::Delete,
        b == 0x15 ==> spec_key(seq![b]) == Key::Clear,
        0x01 <= b <= 0x1a && !(b == 0x01 || b == 0x02 || b == 0x03 || b == 0x04 || b == 0x05 || b == 0x06 || b
            == 0x08 || b == 0x09 || b == 0x0a || b == 0x0d || b == 0x0e || b == 0x10 || b == 0x15)
            ==> spec_key(seq![b]) == Key::Ctrl(((b + 0x60) as u32) as char),
{
}

/// `ESC` and one more ASCII character is that character with Alt, unless it opens a cursor
/// sequence (`[` or `O`).
pub proof fn law_escape_and_a_character_is_alt(c: u8)
    ensures
        c < 0x80 && c != 0x5b && c != 0x4f ==> spec_key(seq![0x1bu8, c]) == Key::Alt((c as u32) as char),
{
}

proof fn lemma_skip_run(b: Seq<u8>, at: int, n: int, lo: u8, hi: u8)
    requires
        0 <= at,
        0 <= n,
        at + n <= b.len(),
        forall|k: int| at <= k < at + n ==> lo <= #[trigger] b[k] <= hi,
        at + n == b.len() || !(lo <= b[at + n] <= hi),
    ensures
        skip_range(b, at, lo, hi) == at + n,
    decreases n,
{
    if n > 0 {
        lemma_skip_run(b, at + 1, n - 1, lo, hi);
    }
}

/// Reading from a buffer takes one key at a time: a cursor or editing sequence `ESC [`,
/// parameters and a final byte, with anything at all after it, is taken whole, no more, and
/// means what it means alone.
pub proof fn law_a_key_is_read_off_the_front(params: Seq<u8>, fin: u8, rest: Seq<u8>)
    requires
        forall|k: int| 0 <= k < params.len() ==> 0x30 <= #[trigger] params[k] <= 0x3f,
        0x40 <= fin <= 0x7e,
        !(fin == 0x4d && params.len() == 0),
    ensures
        spec_parse(seq![0x1bu8, 0x5bu8] + params + seq![fin] + rest) == Parsed::Took(
            (params.len() + 3) as usize,
            spec_key(seq![0x1bu8, 0x5bu8] + params + seq![fin]),
        ),
{
    let key = seq![0x1bu8, 0x5bu8] + params + seq![fin];
    let b = key + rest;
    let at: int = 2 + params.len() as int;
    assert(b[0] == 0x1b && b[1] == 0x5b && b[at] == fin);
    assert forall|k: int| 2 <= k < at implies 0x30 <= #[trigger] b[k] <= 0x3f by {
        assert(b[k] == params[k - 2]);
    }
    lemma_skip_run(b, 2, params.len() as int, 0x30, 0x3f);
    lemma_skip_run(b, at, 0, 0x20, 0x2f);
    assert(b.subrange(0, at + 1) =~= key);
}

} // verus!
