//! Semantic marks and the other escapes a shell writes to tell the terminal about itself.
//!
//! `OSC 133`, the shell-integration protocol terminals and multiplexers read: the shell says where
//! the prompt starts, where output starts, and what the command exited with.
//!
//! | Mark | When | Meaning |
//! |---|---|---|
//! | `OSC 133 ; A ; aid=<n> ST` | before the prompt is drawn | prompt start; `aid` is the block id |
//! | `OSC 133 ; C ; aid=<n> ST` | just before the command runs | output starts here |
//! | `OSC 133 ; D ; <status> ; aid=<n> ST` | once it has finished | command end, with its status |
//!
//! `B` is deliberately not emitted: it would sit inside the prompt string the editor measures.
//! `aid` makes each block nameable, so a `D` can be matched to its `A` without adjacency.
//!
//! Marks are off for scripts, `-c` and anything without a terminal: a program reading the shell's
//! output must never find escapes the shell invented. The clipboard is the exception, because it
//! is asked for by name.

use vstd::prelude::*;
use vstd::string::StringSliceAdditionalSpecFns;
use crate::text::{self, decimal, signed_decimal, spec_is_control};

verus! {

/// Whether marks are written, and the id the next prompt's block takes.
pub struct Marks {
    enabled: bool,
    next_id: u64,
}

/// The `file://` URL of `path` on `host`.
pub open spec fn spec_file_url(host: Seq<char>, path: Seq<u8>) -> Seq<char> {
    "file://"@ + host + percent_encoded(path)
}

/// Whether `b` is carried literally in a URL path: RFC 3986 unreserved, or `/`.
pub open spec fn url_literal(b: u8) -> bool {
    (0x41 <= b <= 0x5a) || (0x61 <= b <= 0x7a) || (0x30 <= b <= 0x39) || b == 0x2d || b == 0x2e
        || b == 0x5f || b == 0x7e || b == 0x2f
}

/// An upper-case hexadecimal digit.
pub open spec fn hex_digit(d: int) -> char {
    if d < 10 {
        ((d + 0x30) as u32) as char
    } else {
        ((d - 10 + 0x41) as u32) as char
    }
}

/// `b` as a URL carries it: itself, or `%` and two upper-case hex digits.
pub open spec fn encoded_byte(b: u8) -> Seq<char> {
    if url_literal(b) {
        seq![(b as u32) as char]
    } else {
        seq!['%', hex_digit(b as int / 16), hex_digit(b as int % 16)]
    }
}

/// The bytes of a path, percent-encoded.
pub open spec fn percent_encoded(p: Seq<u8>) -> Seq<char>
    decreases p.len(),
{
    if p.len() == 0 {
        seq![]
    } else {
        percent_encoded(p.drop_last()) + encoded_byte(p.last())
    }
}

/// The base64 alphabet of RFC 4648.
pub open spec fn b64_char(i: int) -> char {
    if i < 26 {
        ((i + 0x41) as u32) as char
    } else if i < 52 {
        ((i - 26 + 0x61) as u32) as char
    } else if i < 62 {
        ((i - 52 + 0x30) as u32) as char
    } else if i == 62 {
        '+'
    } else {
        '/'
    }
}

/// One group of up to three bytes, `n` of them real, as four characters: the missing ones pad.
pub open spec fn b64_group(b0: u8, b1: u8, b2: u8, n: int) -> Seq<char> {
    let v = b0 as int * 65536 + b1 as int * 256 + b2 as int;
    seq![
        b64_char((v / 262144) % 64),
        b64_char((v / 4096) % 64),
        if n >= 2 { b64_char((v / 64) % 64) } else { '=' },
        if n >= 3 { b64_char(v % 64) } else { '=' },
    ]
}

/// Base64 of `b`, three bytes at a time.
pub open spec fn spec_base64(b: Seq<u8>) -> Seq<char>
    decreases b.len(),
{
    if b.len() == 0 {
        seq![]
    } else if b.len() == 1 {
        b64_group(b[0], 0, 0, 1)
    } else if b.len() == 2 {
        b64_group(b[0], b[1], 0, 2)
    } else {
        b64_group(b[0], b[1], b[2], 3) + spec_base64(b.subrange(3, b.len() as int))
    }
}

/// `OSC 52` carrying `b`.
pub open spec fn clipboard_text(b: Seq<u8>) -> Seq<char> {
    "\x1b]52;c;"@ + spec_base64(b) + "\x1b\\"@
}

/// `OSC 133 ; A` for block `id`.
pub open spec fn prompt_mark(id: nat) -> Seq<char> {
    "\x1b]133;A;aid="@ + decimal(id) + "\x1b\\"@
}

/// `OSC 133 ; C` for block `id`.
pub open spec fn output_mark(id: nat) -> Seq<char> {
    "\x1b]133;C;aid="@ + decimal(id) + "\x1b\\"@
}

/// `OSC 133 ; D` with `status`, for block `id`.
pub open spec fn end_mark(status: int, id: nat) -> Seq<char> {
    "\x1b]133;D;"@ + signed_decimal(status) + ";aid="@ + decimal(id) + "\x1b\\"@
}

/// The block a prompt opened: the one before the next id, and never below zero.
pub open spec fn open_block(next: u64) -> nat {
    if next == 0 {
        0
    } else {
        (next - 1) as nat
    }
}

/// The id after `id`; it wraps rather than overflowing.
pub open spec fn after(id: u64) -> u64 {
    if id == u64::MAX {
        0
    } else {
        (id + 1) as u64
    }
}

/// `text` without its control characters.
pub open spec fn without_controls(t: Seq<char>) -> Seq<char> {
    t.filter(|c: char| !spec_is_control(c))
}

/// `text` linked to `url` with `OSC 8`.
pub open spec fn link_text(url: Seq<char>, t: Seq<char>) -> Seq<char> {
    "\x1b]8;;"@ + url + "\x1b\\"@ + t + "\x1b]8;;\x1b\\"@
}

/// The `OSC 7` that says the shell is in `path` on `host`.
pub open spec fn cwd_text(host: Seq<char>, path: Seq<u8>) -> Seq<char> {
    "\x1b]7;"@ + spec_file_url(host, path) + "\x1b\\"@
}

fn hex_x(d: u8) -> (c: char)
    requires
        d < 16,
    ensures
        c == hex_digit(d as int),
{
    if d < 10 {
        text::char_from_ascii(d as u32 + 0x30)
    } else {
        text::char_from_ascii(d as u32 - 10 + 0x41)
    }
}

/// Percent-encode the parts of a path a URL cannot carry literally: everything but RFC 3986's
/// unreserved characters and `/`.
pub fn percent_encode(path: &str) -> (r: String)
    ensures
        r@ == percent_encoded(path.spec_bytes()),
{
    let bytes = path.as_bytes();
    let mut out = String::new();
    let mut i: usize = 0;
    while i < bytes.len()
        invariant
            i <= bytes@.len(),
            bytes@ == path.spec_bytes(),
            out@ == percent_encoded(bytes@.subrange(0, i as int)),
        decreases bytes.len() - i,
    {
        let b = bytes[i];
        let ghost before = out@;
        proof {
            assert(bytes@.subrange(0, i + 1).drop_last() =~= bytes@.subrange(0, i as int));
        }
        if (0x41 <= b && b <= 0x5a) || (0x61 <= b && b <= 0x7a) || (0x30 <= b && b <= 0x39) || b
            == 0x2d || b == 0x2e || b == 0x5f || b == 0x7e || b == 0x2f {
            text::push_char(&mut out, text::char_from_ascii(b as u32));
        } else {
            text::push_char(&mut out, '%');
            text::push_char(&mut out, hex_x(b / 16));
            text::push_char(&mut out, hex_x(b % 16));
        }
        proof {
            assert(out@ =~= before + encoded_byte(b));
        }
        i += 1;
    }
    proof {
        assert(bytes@.subrange(0, bytes@.len() as int) =~= bytes@);
    }
    out
}

fn b64_char_x(i: u32) -> (c: char)
    requires
        i < 64,
    ensures
        c == b64_char(i as int),
{
    if i < 26 {
        text::char_from_ascii(i + 0x41)
    } else if i < 52 {
        text::char_from_ascii(i - 26 + 0x61)
    } else if i < 62 {
        text::char_from_ascii(i - 52 + 0x30)
    } else if i == 62 {
        '+'
    } else {
        '/'
    }
}

fn push_group(out: &mut String, b0: u8, b1: u8, b2: u8, n: usize)
    requires
        1 <= n <= 3,
    ensures
        final(out)@ == old(out)@ + b64_group(b0, b1, b2, n as int),
{
    let v: u32 = b0 as u32 * 65536 + b1 as u32 * 256 + b2 as u32;
    text::push_char(out, b64_char_x((v / 262144) % 64));
    text::push_char(out, b64_char_x((v / 4096) % 64));
    if n >= 2 {
        text::push_char(out, b64_char_x((v / 64) % 64));
    } else {
        text::push_char(out, '=');
    }
    if n >= 3 {
        text::push_char(out, b64_char_x(v % 64));
    } else {
        text::push_char(out, '=');
    }
    proof {
        assert(final(out)@ =~= old(out)@ + b64_group(b0, b1, b2, n as int));
    }
}

/// Base64, RFC 4648: four characters for every three bytes, the last group padded with `=`.
pub fn base64(bytes: &[u8]) -> (r: String)
    ensures
        r@ == spec_base64(bytes@),
        r@.len() == 4 * ((bytes@.len() + 2) / 3),
{
    let mut out = String::new();
    let mut i: usize = 0;
    proof {
        assert(bytes@.subrange(0, bytes@.len() as int) =~= bytes@);
        assert(out@ + spec_base64(bytes@) =~= spec_base64(bytes@));
    }
    while i < bytes.len()
        invariant
            i <= bytes@.len(),
            out@ + spec_base64(bytes@.subrange(i as int, bytes@.len() as int)) == spec_base64(bytes@),
        decreases bytes.len() - i,
    {
        let ghost rest = bytes@.subrange(i as int, bytes@.len() as int);
        let ghost before = out@;
        let left = bytes.len() - i;
        if left >= 3 {
            push_group(&mut out, bytes[i], bytes[i + 1], bytes[i + 2], 3);
            proof {
                let tail = rest.subrange(3, rest.len() as int);
                assert(tail =~= bytes@.subrange(i + 3, bytes@.len() as int));
                assert(spec_base64(rest) == b64_group(rest[0], rest[1], rest[2], 3) + spec_base64(tail));
                assert(before + (b64_group(rest[0], rest[1], rest[2], 3) + spec_base64(tail)) =~= out@
                    + spec_base64(tail));
            }
            i += 3;
        } else {
            if left == 2 {
                push_group(&mut out, bytes[i], bytes[i + 1], 0, 2);
            } else {
                push_group(&mut out, bytes[i], 0, 0, 1);
            }
            i = bytes.len();
            proof {
                assert(bytes@.subrange(i as int, bytes@.len() as int) =~= Seq::<u8>::empty());
                assert(out@ + Seq::<char>::empty() =~= out@);
            }
        }
    }
    proof {
        law_base64_length(bytes@);
    }
    out
}

/// `OSC 52` — put `text` on the system clipboard, through the terminal.
///
/// Written whatever the marks setting: copying is something the user asked for by name.
pub fn clipboard(t: &str) -> (r: String)
    ensures
        r@ == clipboard_text(t.spec_bytes()),
{
    let mut out = String::new();
    text::push_str(&mut out, "\x1b]52;c;");
    let enc = base64(t.as_bytes());
    text::push_str(&mut out, enc.as_str());
    text::push_str(&mut out, "\x1b\\");
    out
}

/// `nix::unistd::gethostname`: this machine's name, or `None` when it cannot be read or is not
/// text. Nothing is claimed of the name itself: it is whatever the system reports.
#[verifier::external_body]
pub(crate) fn host_name() -> (r: Option<String>) {
    nix::unistd::gethostname().ok().and_then(|h| h.into_string().ok())
}

/// This machine's name for a URL: empty when it cannot be read.
fn url_host() -> (r: String) {
    match host_name() {
        Some(h) => h,
        None => String::new(),
    }
}

/// A `file://` URL for `path` on the machine named `host`.
pub fn file_url_on(host: &str, path: &str) -> (r: String)
    ensures
        r@ == spec_file_url(host@, path.spec_bytes()),
{
    let mut out = String::new();
    text::push_str(&mut out, "file://");
    text::push_str(&mut out, host);
    let enc = percent_encode(path);
    text::push_str(&mut out, enc.as_str());
    out
}

/// A `file://` URL for a path on this machine, whatever its name turns out to be.
pub fn file_url(path: &str) -> (r: String)
    ensures
        exists|host: Seq<char>| r@ == #[trigger] spec_file_url(host, path.spec_bytes()),
{
    let host = url_host();
    file_url_on(host.as_str(), path)
}

impl Marks {
    pub closed spec fn is_on(&self) -> bool {
        self.enabled
    }

    pub closed spec fn next(&self) -> u64 {
        self.next_id
    }

    /// Marks off, and the first block is block 1.
    pub fn new() -> (m: Marks)
        ensures
            !m.is_on(),
            m.next() == 1,
    {
        Marks { enabled: false, next_id: 1 }
    }

    /// Turn marks on or off; on only for an interactive session that has a terminal to mark.
    pub fn set_enabled(&mut self, on: bool)
        ensures
            final(self).is_on() == on,
            final(self).next() == old(self).next(),
    {
        self.enabled = on;
    }

    /// Start the next prompt at block `id`.
    pub fn set_next_id(&mut self, id: u64)
        ensures
            final(self).is_on() == old(self).is_on(),
            final(self).next() == id,
    {
        self.next_id = id;
    }

    pub fn enabled(&self) -> (r: bool)
        ensures
            r == self.is_on(),
    {
        self.enabled
    }

    /// The id of the block being prompted for.
    pub fn current_id(&self) -> (r: u64)
        ensures
            r == self.next(),
    {
        self.next_id
    }

    /// `OSC 0` — the window and tab title, without any control character that would end the
    /// sequence early. Nothing when marks are off.
    pub fn title(&self, t: &str) -> (r: String)
        ensures
            r@ == if self.is_on() {
                "\x1b]0;"@ + without_controls(t@) + "\x1b\\"@
            } else {
                Seq::<char>::empty()
            },
    {
        if !self.enabled {
            return String::new();
        }
        let cs = text::chars_of(t);
        let mut out = String::new();
        text::push_str(&mut out, "\x1b]0;");
        let ghost start = out@;
        let mut i: usize = 0;
        while i < cs.len()
            invariant
                i <= cs@.len(),
                cs@ == t@,
                out@ == start + without_controls(cs@.subrange(0, i as int)),
            decreases cs.len() - i,
        {
            proof {
                let pre = cs@.subrange(0, i + 1);
                assert(pre.drop_last() =~= cs@.subrange(0, i as int));
                assert(pre.filter(|c: char| !spec_is_control(c)) == pre.drop_last().filter(
                    |c: char| !spec_is_control(c),
                ) + if !spec_is_control(pre.last()) {
                    seq![pre.last()]
                } else {
                    Seq::<char>::empty()
                }) by {
                    reveal(Seq::filter);
                    assert(pre.drop_last().filter(|c: char| !spec_is_control(c)) + seq![pre.last()]
                        =~= pre.drop_last().filter(|c: char| !spec_is_control(c)).push(pre.last()));
                    assert(pre.drop_last().filter(|c: char| !spec_is_control(c)) + Seq::<char>::empty()
                        =~= pre.drop_last().filter(|c: char| !spec_is_control(c)));
                }
            }
            if !text::is_control(cs[i]) {
                text::push_char(&mut out, cs[i]);
            }
            i += 1;
            proof {
                assert(out@ =~= start + without_controls(cs@.subrange(0, i as int)));
            }
        }
        proof {
            assert(cs@.subrange(0, cs@.len() as int) =~= t@);
        }
        text::push_str(&mut out, "\x1b\\");
        out
    }

    /// `OSC 8` — `t`, clickable, pointing at `url`; the bare text when marks are off.
    pub fn hyperlink(&self, url: &str, t: &str) -> (r: String)
        ensures
            r@ == if self.is_on() {
                link_text(url@, t@)
            } else {
                t@
            },
    {
        let mut out = String::new();
        if !self.enabled {
            text::push_str(&mut out, t);
            return out;
        }
        text::push_str(&mut out, "\x1b]8;;");
        text::push_str(&mut out, url);
        text::push_str(&mut out, "\x1b\\");
        text::push_str(&mut out, t);
        text::push_str(&mut out, "\x1b]8;;\x1b\\");
        out
    }

    /// A path, clickable when marks are on and plain when they are not.
    pub fn path(&self, p: &str) -> (r: String)
        ensures
            !self.is_on() ==> r@ == p@,
            self.is_on() ==> exists|host: Seq<char>| r@ == link_text(#[trigger] spec_file_url(host, p.spec_bytes()), p@),
    {
        if !self.enabled {
            let mut out = String::new();
            text::push_str(&mut out, p);
            return out;
        }
        let url = file_url(p);
        self.hyperlink(url.as_str(), p)
    }

    /// `OSC 7` — where the shell is now, as a `file://` URL. Nothing when marks are off.
    pub fn working_directory(&self, p: &str) -> (r: String)
        ensures
            !self.is_on() ==> r@ == Seq::<char>::empty(),
            self.is_on() ==> exists|host: Seq<char>| r@ == #[trigger] cwd_text(host, p.spec_bytes()),
    {
        if !self.enabled {
            return String::new();
        }
        let host = url_host();
        let url = file_url_on(host.as_str(), p);
        let mut out = String::new();
        text::push_str(&mut out, "\x1b]7;");
        text::push_str(&mut out, url.as_str());
        text::push_str(&mut out, "\x1b\\");
        proof {
            assert(out@ =~= cwd_text(host@, p.spec_bytes()));
        }
        out
    }

    /// `OSC 133 ; A` — a new prompt, and a new block, begins here. Takes the block id and moves
    /// to the next; nothing, and no new block, when marks are off.
    pub fn prompt_start(&mut self) -> (r: String)
        ensures
            r@ == if old(self).is_on() {
                prompt_mark(old(self).next() as nat)
            } else {
                Seq::<char>::empty()
            },
            final(self).next() == if old(self).is_on() { after(old(self).next()) } else { old(self).next() },
            final(self).is_on() == old(self).is_on(),
    {
        if !self.enabled {
            return String::new();
        }
        let id = self.next_id;
        self.next_id = self.next_id.wrapping_add(1);
        let mut out = String::new();
        text::push_str(&mut out, "\x1b]133;A;aid=");
        text::push_u64(&mut out, id);
        text::push_str(&mut out, "\x1b\\");
        out
    }

    /// `OSC 133 ; C` — everything after this is the command's output, in the block the last
    /// prompt opened.
    pub fn output_start(&self) -> (r: String)
        ensures
            r@ == if self.is_on() {
                output_mark(open_block(self.next()))
            } else {
                Seq::<char>::empty()
            },
    {
        if !self.enabled {
            return String::new();
        }
        let mut out = String::new();
        text::push_str(&mut out, "\x1b]133;C;aid=");
        text::push_u64(&mut out, self.next_id.saturating_sub(1));
        text::push_str(&mut out, "\x1b\\");
        out
    }

    /// `OSC 133 ; D` — the command has finished, with this status, in the block the last prompt
    /// opened.
    pub fn command_end(&self, status: i32) -> (r: String)
        ensures
            r@ == if self.is_on() {
                end_mark(status as int, open_block(self.next()))
            } else {
                Seq::<char>::empty()
            },
    {
        if !self.enabled {
            return String::new();
        }
        let mut out = String::new();
        text::push_str(&mut out, "\x1b]133;D;");
        text::push_i64(&mut out, status as i64);
        text::push_str(&mut out, ";aid=");
        text::push_u64(&mut out, self.next_id.saturating_sub(1));
        text::push_str(&mut out, "\x1b\\");
        out
    }
}

/// One block carries one id through all three marks: after the prompt that opens block `id`,
/// the output and end marks name that same block.
pub proof fn law_one_block_one_id(id: u64, status: i32)
    requires
        id < u64::MAX,
    ensures
        open_block(after(id)) == id,
        output_mark(open_block(after(id))) == output_mark(id as nat),
        end_mark(status as int, open_block(after(id))) == end_mark(status as int, id as nat),
{
}

/// Base64 always writes four characters for every three bytes or part of three.
pub proof fn law_base64_length(b: Seq<u8>)
    ensures
        spec_base64(b).len() == 4 * ((b.len() + 2) / 3),
    decreases b.len(),
{
    if b.len() > 2 {
        law_base64_length(b.subrange(3, b.len() as int));
    }
}

} // verus!
