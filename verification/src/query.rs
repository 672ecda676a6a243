//! Reading the terminal's answer to "what is your background colour?".
//!
//! `OSC 11 ; ?` asks, and a terminal that implements it answers `OSC 11 ; rgb:RRRR/GGGG/BBBB`.
//! `$COLORFGBG` is the same answer without asking, for the terminals that set it. Asking is the
//! caller's business; deciding what an answer means is this module's.
//!
//! The components may be one to four hex digits each — terminals differ — so each is read as a
//! fraction of its own width. The brightness is Rec. 601 luma, `0.299 r + 0.587 g + 0.114 b`,
//! computed exactly in integers and compared with one half.

use vstd::prelude::*;
use crate::text::{self, find, spec_is_ascii_digit, spec_is_ascii_hexdigit, spec_trim};

verus! {

/// What the terminal said its background is.
#[derive(Debug, Clone, Copy, PartialEq, Eq, Structural)]
pub enum Background {
    Dark,
    Light,
}

// ------------------------------------------------------------------ $COLORFGBG

/// The text after the last `;`, or all of it when there is none.
pub open spec fn last_field(s: Seq<char>) -> Seq<char>
    decreases s.len(),
{
    if s.len() == 0 {
        s
    } else if s.last() == ';' {
        seq![]
    } else {
        last_field(s.drop_last()).push(s.last())
    }
}

/// The value of a run of decimal digits.
pub open spec fn decimal_value(d: Seq<char>) -> nat
    decreases d.len(),
{
    if d.len() == 0 {
        0
    } else {
        decimal_value(d.drop_last()) * 10 + ((d.last() as u32) - 0x30) as nat
    }
}

/// Whether every character of `d` is a decimal digit.
pub open spec fn all_digits(d: Seq<char>) -> bool {
    forall|i: int| 0 <= i < d.len() ==> spec_is_ascii_digit(#[trigger] d[i])
}

/// `str::parse::<u8>`: an optional `+`, then at least one decimal digit, and a value that fits.
pub open spec fn parse_u8(s: Seq<char>) -> Option<u8> {
    let d = if s.len() > 0 && s[0] == '+' {
        s.subrange(1, s.len() as int)
    } else {
        s
    };
    if d.len() > 0 && all_digits(d) && decimal_value(d) <= 255 {
        Some(decimal_value(d) as u8)
    } else {
        None
    }
}

/// The background a `$COLORFGBG` value names: its last field is an ANSI colour number, and
/// `0`-`6` and `8` are the dark half of the sixteen.
pub open spec fn spec_from_colorfgbg(value: Option<Seq<char>>) -> Option<Background> {
    match value {
        None => None,
        Some(v) => match parse_u8(spec_trim(last_field(v))) {
            None => None,
            Some(n) => Some(
                if n <= 6 || n == 8 {
                    Background::Dark
                } else {
                    Background::Light
                },
            ),
        },
    }
}

fn last_field_x(s: &[char]) -> (r: Vec<char>)
    ensures
        r@ == last_field(s@),
{
    let mut start: usize = s.len();
    proof {
        assert(s@.subrange(0, s@.len() as int) =~= s@);
        assert(s@ + s@.subrange(s@.len() as int, s@.len() as int) =~= s@);
    }
    while start > 0 && s[start - 1] != ';'
        invariant
            start <= s@.len(),
            last_field(s@) == last_field(s@.subrange(0, start as int)) + s@.subrange(start as int, s@.len() as int),
        decreases start,
    {
        proof {
            let p = s@.subrange(0, start as int);
            assert(p.drop_last() =~= s@.subrange(0, start - 1));
            assert(s@.subrange(start - 1, s@.len() as int) =~= seq![p.last()] + s@.subrange(start as int, s@.len() as int));
            assert(last_field(p.drop_last()).push(p.last()) + s@.subrange(start as int, s@.len() as int)
                =~= last_field(p.drop_last()) + s@.subrange(start - 1, s@.len() as int));
        }
        start -= 1;
    }
    proof {
        assert(s@.subrange(0, s@.len() as int) =~= s@);
        let p = s@.subrange(0, start as int);
        if start > 0 {
            assert(last_field(p) =~= Seq::<char>::empty());
        } else {
            assert(p =~= Seq::<char>::empty());
        }
        assert(Seq::<char>::empty() + s@.subrange(start as int, s@.len() as int) =~= s@.subrange(start as int, s@.len() as int));
    }
    text::slice_vec(s, start, s.len())
}

pub(crate) fn parse_u8_x(s: &[char]) -> (r: Option<u8>)
    ensures
        r == parse_u8(s@),
{
    let from: usize = if s.len() > 0 && s[0] == '+' {
        1
    } else {
        0
    };
    let ghost d = if s@.len() > 0 && s@[0] == '+' {
        s@.subrange(1, s@.len() as int)
    } else {
        s@
    };
    proof {
        if from == 0 {
            assert(s@.subrange(0, s@.len() as int) =~= s@);
        }
        assert(d =~= s@.subrange(from as int, s@.len() as int));
    }
    if from == s.len() {
        return None;
    }
    let mut value: u32 = 0;
    let mut i = from;
    while i < s.len()
        invariant
            from <= i <= s@.len(),
            d == s@.subrange(from as int, s@.len() as int),
            d == (if s@.len() > 0 && s@[0] == '+' {
                s@.subrange(1, s@.len() as int)
            } else {
                s@
            }),
            forall|j: int| from <= j < i ==> spec_is_ascii_digit(#[trigger] s@[j]),
            value == decimal_value(s@.subrange(from as int, i as int)),
            value <= 255,
        decreases s.len() - i,
    {
        let c = s[i];
        if !('0' <= c && c <= '9') {
            proof {
                assert(d[i - from] == c);
                assert(!spec_is_ascii_digit(d[i - from]));
                assert(0 <= i - from < d.len());
                assert(!all_digits(d));
            }
            return None;
        }
        proof {
            assert(s@.subrange(from as int, i + 1).drop_last() =~= s@.subrange(from as int, i as int));
        }
        let next = value * 10 + (c as u32 - 0x30);
        if next > 255 {
            proof {
                lemma_decimal_grows(d, i + 1 - from);
                assert(d.subrange(0, i + 1 - from) =~= s@.subrange(from as int, i + 1));
                assert(s@.subrange(from as int, i + 1).last() == c);
                assert(decimal_value(s@.subrange(from as int, i + 1)) == next);
                assert(decimal_value(d) > 255);
                assert(parse_u8(s@) is None);
            }
            return None;
        }
        value = next;
        i += 1;
    }
    proof {
        assert(s@.subrange(from as int, s@.len() as int) == d);
        assert forall|j: int| 0 <= j < d.len() implies spec_is_ascii_digit(#[trigger] d[j]) by {
            assert(d[j] == s@[from + j]);
        }
        assert(all_digits(d));
    }
    Some(value as u8)
}

proof fn lemma_decimal_grows(d: Seq<char>, k: int)
    requires
        0 <= k <= d.len(),
    ensures
        decimal_value(d.subrange(0, k)) <= decimal_value(d),
    decreases d.len() - k,
{
    if k < d.len() {
        lemma_decimal_grows(d.drop_last(), k);
        assert(d.drop_last().subrange(0, k) =~= d.subrange(0, k));
    } else {
        assert(d.subrange(0, k) =~= d);
    }
}

/// Read `$COLORFGBG`, whose last field is the background's ANSI colour number. `None` when the
/// variable is unset or that field is not a number.
pub fn from_colorfgbg(value: Option<&str>) -> (r: Option<Background>)
    ensures
        r == spec_from_colorfgbg(
            match value {
                Some(v) => Some(v@),
                None => None,
            },
        ),
{
    match value {
        None => None,
        Some(v) => {
            let cs = text::chars_of(v);
            let field = last_field_x(cs.as_slice());
            let t = text::trim(field.as_slice());
            match parse_u8_x(t.as_slice()) {
                None => None,
                Some(n) => Some(
                    if n <= 6 || n == 8 {
                        Background::Dark
                    } else {
                        Background::Light
                    },
                ),
            }
        },
    }
}

// ------------------------------------------------------------------ OSC 11 replies

/// Where `rgb:` next occurs at or after `from`.
pub open spec fn rgb_tag() -> Seq<char> {
    seq!['r', 'g', 'b', ':']
}

/// The text between the first `rgb:` and the next one (or the end): what `split("rgb:").nth(1)`
/// gives.
pub open spec fn rgb_body(reply: Seq<char>) -> Option<Seq<char>> {
    match find(reply, rgb_tag()) {
        None => None,
        Some(k) => {
            let rest = reply.subrange(k + 4, reply.len() as int);
            match find(rest, rgb_tag()) {
                Some(j) => Some(rest.subrange(0, j)),
                None => Some(rest),
            }
        },
    }
}

/// The `k`th `/`-separated field of `s`, when there are that many.
pub open spec fn slash_field(s: Seq<char>, k: nat) -> Option<Seq<char>>
    decreases k,
{
    match find(s, seq!['/']) {
        None => if k == 0 {
            Some(s)
        } else {
            None
        },
        Some(j) => if k == 0 {
            Some(s.subrange(0, j))
        } else {
            slash_field(s.subrange(j + 1, s.len() as int), (k - 1) as nat)
        },
    }
}

/// The end of the run of hex digits at the start of `s`.
pub open spec fn hex_end(s: Seq<char>, i: int) -> int
    decreases s.len() - i,
{
    if 0 <= i < s.len() && spec_is_ascii_hexdigit(s[i]) {
        hex_end(s, i + 1)
    } else {
        i
    }
}

/// The hex digits a channel starts with, when there is at least one.
pub open spec fn channel_digits(body: Seq<char>, k: nat) -> Option<Seq<char>> {
    match slash_field(body, k) {
        None => None,
        Some(f) => {
            let run = f.subrange(0, hex_end(f, 0));
            if run.len() == 0 {
                None
            } else {
                Some(run)
            }
        },
    }
}

pub open spec fn hex_digit_value(c: char) -> nat {
    if spec_is_ascii_digit(c) {
        ((c as u32) - 0x30) as nat
    } else if 'a' <= c <= 'f' {
        ((c as u32) - 0x61 + 10) as nat
    } else {
        ((c as u32) - 0x41 + 10) as nat
    }
}

/// The value of a run of hex digits.
pub open spec fn hex_value(d: Seq<char>) -> nat
    decreases d.len(),
{
    if d.len() == 0 {
        0
    } else {
        hex_value(d.drop_last()) * 16 + hex_digit_value(d.last())
    }
}

/// The largest value a run of `n` hex digits can hold, `16^n - 1`.
pub open spec fn hex_full(n: nat) -> nat
    decreases n,
{
    if n == 0 {
        0
    } else {
        hex_full((n - 1) as nat) * 16 + 15
    }
}

/// Whether luma `0.299 r + 0.587 g + 0.114 b`, each channel a fraction of its own full scale,
/// is below one half — in integers, with every fraction brought to the common denominator.
pub open spec fn is_dark(r: nat, mr: nat, g: nat, mg: nat, b: nat, mb: nat) -> bool {
    299 * r * mg * mb + 587 * g * mr * mb + 114 * b * mr * mg < 500 * mr * mg * mb
}

/// The three channels of a reply, in order, when it has three that a 32-bit value holds; a
/// channel of nine digits or more does not parse as one.
pub open spec fn channels(reply: Seq<char>) -> Option<(Seq<char>, Seq<char>, Seq<char>)> {
    match rgb_body(reply) {
        None => None,
        Some(body) => match (channel_digits(body, 0), channel_digits(body, 1), channel_digits(body, 2)) {
            (Some(r), Some(g), Some(b)) => if r.len() <= 7 && g.len() <= 7 && b.len() <= 7 {
                Some((r, g, b))
            } else {
                None
            },
            _ => None,
        },
    }
}

/// What an `OSC 11` reply says about the background.
pub open spec fn spec_parse_background(reply: Seq<char>) -> Option<Background> {
    match channels(reply) {
        None => None,
        Some((r, g, b)) => Some(
            if is_dark(
                hex_value(r),
                hex_full(r.len()),
                hex_value(g),
                hex_full(g.len()),
                hex_value(b),
                hex_full(b.len()),
            ) {
                Background::Dark
            } else {
                Background::Light
            },
        ),
    }
}

/// A channel that is read and whose full scale, `16^n - 1`, a 32-bit value holds.
pub open spec fn usable(d: Option<Seq<char>>) -> bool {
    d matches Some(x) && x.len() <= 7
}

/// Whether a reply can be read without computing the full scale of an eight-digit channel,
/// `16^8 - 1`, which does not fit in 32 bits: the channels are read in order, and the first that
/// is not usable must not have exactly eight digits. A shorter or longer one simply does not
/// parse.
pub open spec fn readable(reply: Seq<char>) -> bool {
    match rgb_body(reply) {
        None => true,
        Some(body) => forall|k: nat| k < 3 && (forall|j: nat| j < k ==> usable(#[trigger] channel_digits(body, j)))
            ==> !(#[trigger] channel_digits(body, k) matches Some(d) && d.len() == 8),
    }
}

fn find_rgb(s: &[char]) -> (r: Option<usize>)
    ensures
        match r {
            Some(i) => find(s@, rgb_tag()) == Some(i as int),
            None => find(s@, rgb_tag()) is None,
        },
{
    let mut tag: Vec<char> = Vec::new();
    tag.push('r');
    tag.push('g');
    tag.push('b');
    tag.push(':');
    assert(tag@ =~= rgb_tag());
    text::find_chars(s, tag.as_slice(), 0)
}

fn rgb_body_x(reply: &[char]) -> (r: Option<Vec<char>>)
    ensures
        match r {
            Some(b) => rgb_body(reply@) == Some(b@),
            None => rgb_body(reply@) is None,
        },
{
    proof {
        text::lemma_find_from_bounds(reply@, rgb_tag(), 0);
    }
    let n = reply.len();
    match find_rgb(reply) {
        None => None,
        Some(k) => {
            let rest = text::slice_vec(reply, k + 4, n);
            proof {
                text::lemma_find_from_bounds(rest@, rgb_tag(), 0);
            }
            match find_rgb(rest.as_slice()) {
                Some(j) => Some(text::slice_vec(rest.as_slice(), 0, j)),
                None => Some(rest),
            }
        },
    }
}

fn slash_field_x(s: &[char], k: usize) -> (r: Option<Vec<char>>)
    ensures
        match r {
            Some(f) => slash_field(s@, k as nat) == Some(f@),
            None => slash_field(s@, k as nat) is None,
        },
    decreases k,
{
    proof {
        text::lemma_find_from_bounds(s@, seq!['/'], 0);
    }
    let n = s.len();
    match text::find_char(s, '/') {
        None => if k == 0 {
            Some(text::slice_vec(s, 0, s.len()))
        } else {
            None
        },
        Some(j) => {
            proof {
                assert(s@.subrange(j as int, j + 1) =~= seq!['/']);
            }
            if k == 0 {
                Some(text::slice_vec(s, 0, j))
            } else {
                let rest = text::slice_vec(s, j + 1, n);
                slash_field_x(rest.as_slice(), k - 1)
            }
        },
    }
}

fn is_hex(c: char) -> (r: bool)
    ensures
        r == spec_is_ascii_hexdigit(c),
{
    ('0' <= c && c <= '9') || ('a' <= c && c <= 'f') || ('A' <= c && c <= 'F')
}

fn channel_x(body: &[char], k: usize) -> (r: Option<Vec<char>>)
    ensures
        match r {
            Some(d) => channel_digits(body@, k as nat) == Some(d@),
            None => channel_digits(body@, k as nat) is None,
        },
{
    match slash_field_x(body, k) {
        None => None,
        Some(f) => {
            let mut i: usize = 0;
            while i < f.len() && is_hex(f[i])
                invariant
                    i <= f@.len(),
                    hex_end(f@, i as int) == hex_end(f@, 0),
                decreases f.len() - i,
            {
                i += 1;
            }
            if i == 0 {
                None
            } else {
                Some(text::slice_vec(f.as_slice(), 0, i))
            }
        },
    }
}

fn hex_value_x(d: &[char]) -> (r: (u32, u32))
    requires
        1 <= d@.len() <= 7,
        forall|i: int| 0 <= i < d@.len() ==> spec_is_ascii_hexdigit(#[trigger] d@[i]),
    ensures
        r.0 == hex_value(d@),
        r.1 == hex_full(d@.len()),
        r.0 <= r.1,
        r.1 < 0x1000_0000,
{
    let mut v: u32 = 0;
    let mut full: u32 = 0;
    let mut i: usize = 0;
    while i < d.len()
        invariant
            i <= d@.len() <= 7,
            forall|j: int| 0 <= j < d@.len() ==> spec_is_ascii_hexdigit(#[trigger] d@[j]),
            v == hex_value(d@.subrange(0, i as int)),
            full == hex_full(i as nat),
            v <= full,
        decreases d.len() - i,
    {
        let c = d[i];
        let dv: u32 = if '0' <= c && c <= '9' {
            c as u32 - 0x30
        } else if 'a' <= c && c <= 'f' {
            c as u32 - 0x61 + 10
        } else {
            c as u32 - 0x41 + 10
        };
        proof {
            assert(d@.subrange(0, i + 1).drop_last() =~= d@.subrange(0, i as int));
            lemma_full_bound(i as nat);
        }
        v = v * 16 + dv;
        full = full * 16 + 15;
        i += 1;
    }
    proof {
        assert(d@.subrange(0, d@.len() as int) =~= d@);
        lemma_full_bound(d@.len());
    }
    (v, full)
}

proof fn lemma_full_bound(i: nat)
    requires
        i <= 7,
    ensures
        hex_full(i) <= 0xfff_ffff,
        i < 7 ==> hex_full(i) <= 0xff_ffff,
{
    reveal_with_fuel(hex_full, 8);
}

/// Whether [`parse_background`] can read `reply`; see [`readable`].
pub fn readable_reply(reply: &str) -> (r: bool)
    ensures
        r == readable(reply@),
{
    let cs = text::chars_of(reply);
    let body = match rgb_body_x(cs.as_slice()) {
        None => return true,
        Some(b) => b,
    };
    let ghost bv = body@;
    let mut k: usize = 0;
    while k < 3
        invariant
            k <= 3,
            bv == body@,
            rgb_body(reply@) == Some(bv),
            forall|j: nat| j < k ==> usable(#[trigger] channel_digits(bv, j)),
        decreases 3 - k,
    {
        match channel_x(body.as_slice(), k) {
            None => return true,
            Some(d) => {
                if d.len() == 8 {
                    return false;
                }
                if d.len() > 7 {
                    return true;
                }
            },
        }
        k += 1;
    }
    true
}

/// Read `OSC 11 ; rgb:RRRR/GGGG/BBBB` and decide whether that is a dark background. `None` for
/// anything that is not such a reply — fewer than three channels, or a channel with no digits.
pub fn parse_background(reply: &str) -> (r: Option<Background>)
    requires
        readable(reply@),
    ensures
        r == spec_parse_background(reply@),
{
    let cs = text::chars_of(reply);
    let body = match rgb_body_x(cs.as_slice()) {
        None => return None,
        Some(b) => b,
    };
    let ghost bv = body@;
    let r = match channel_x(body.as_slice(), 0) {
        None => return None,
        Some(d) => d,
    };
    if r.len() > 7 {
        return None;
    }
    assert(usable(channel_digits(bv, 0nat)));
    let g = match channel_x(body.as_slice(), 1) {
        None => return None,
        Some(d) => d,
    };
    assert(!(channel_digits(bv, 1nat) matches Some(d) && d.len() == 8)) by {
        assert forall|j: nat| j < 1 implies usable(#[trigger] channel_digits(bv, j)) by {
            assert(j == 0);
        }
    }
    if g.len() > 7 {
        return None;
    }
    let b = match channel_x(body.as_slice(), 2) {
        None => return None,
        Some(d) => d,
    };
    assert(!(channel_digits(bv, 2nat) matches Some(d) && d.len() == 8)) by {
        assert forall|j: nat| j < 2 implies usable(#[trigger] channel_digits(bv, j)) by {
            assert(j == 0 || j == 1);
        }
    }
    if b.len() > 7 {
        return None;
    }
    proof {
        assert(channel_digits(body@, 0nat) == Some(r@));
        assert(channel_digits(body@, 1nat) == Some(g@));
        assert(channel_digits(body@, 2nat) == Some(b@));
        lemma_channel_is_hex(body@, 0);
        lemma_channel_is_hex(body@, 1);
        lemma_channel_is_hex(body@, 2);
    }
    let (rv, rm) = hex_value_x(r.as_slice());
    let (gv, gm) = hex_value_x(g.as_slice());
    let (bv, bm) = hex_value_x(b.as_slice());
    let dark = luma_below_half(rv, rm, gv, gm, bv, bm);
    Some(
        if dark {
            Background::Dark
        } else {
            Background::Light
        },
    )
}

proof fn lemma_channel_is_hex(body: Seq<char>, k: nat)
    ensures
        channel_digits(body, k) matches Some(d) ==> forall|i: int| 0 <= i < d.len() ==> spec_is_ascii_hexdigit(#[trigger] d[i]),
{
    if let Some(f) = slash_field(body, k) {
        lemma_hex_run(f, 0);
    }
}

proof fn lemma_hex_run(f: Seq<char>, i: int)
    requires
        0 <= i <= f.len(),
    ensures
        i <= hex_end(f, i) <= f.len(),
        forall|j: int| i <= j < hex_end(f, i) ==> spec_is_ascii_hexdigit(#[trigger] f[j]),
    decreases f.len() - i,
{
    if i < f.len() && spec_is_ascii_hexdigit(f[i]) {
        lemma_hex_run(f, i + 1);
    }
}

fn luma_below_half(r: u32, mr: u32, g: u32, mg: u32, b: u32, mb: u32) -> (dark: bool)
    requires
        r <= mr < 0x1000_0000,
        g <= mg < 0x1000_0000,
        b <= mb < 0x1000_0000,
    ensures
        dark == is_dark(r as nat, mr as nat, g as nat, mg as nat, b as nat, mb as nat),
{
    let (r, mr, g, mg, b, mb) = (r as u128, mr as u128, g as u128, mg as u128, b as u128, mb as u128);
    proof {
        assert(mg * mb <= 0x1000_0000 * 0x1000_0000) by (nonlinear_arith)
            requires
                mg < 0x1000_0000,
                mb < 0x1000_0000,
        ;
        assert(mr * mb <= 0x1000_0000 * 0x1000_0000) by (nonlinear_arith)
            requires
                mr < 0x1000_0000,
                mb < 0x1000_0000,
        ;
        assert(mr * mg <= 0x1000_0000 * 0x1000_0000) by (nonlinear_arith)
            requires
                mr < 0x1000_0000,
                mg < 0x1000_0000,
        ;
        assert(r * (mg * mb) <= 0x1000_0000 * (0x1000_0000 * 0x1000_0000)) by (nonlinear_arith)
            requires
                r < 0x1000_0000,
                mg * mb <= 0x1000_0000 * 0x1000_0000,
        ;
        assert(g * (mr * mb) <= 0x1000_0000 * (0x1000_0000 * 0x1000_0000)) by (nonlinear_arith)
            requires
                g < 0x1000_0000,
                mr * mb <= 0x1000_0000 * 0x1000_0000,
        ;
        assert(b * (mr * mg) <= 0x1000_0000 * (0x1000_0000 * 0x1000_0000)) by (nonlinear_arith)
            requires
                b < 0x1000_0000,
                mr * mg <= 0x1000_0000 * 0x1000_0000,
        ;
        assert(mr * (mg * mb) <= 0x1000_0000 * (0x1000_0000 * 0x1000_0000)) by (nonlinear_arith)
            requires
                mr < 0x1000_0000,
                mg * mb <= 0x1000_0000 * 0x1000_0000,
        ;
    }
    let lhs = 299 * (r * (mg * mb)) + 587 * (g * (mr * mb)) + 114 * (b * (mr * mg));
    let rhs = 500 * (mr * (mg * mb));
    proof {
        assert(299 * (r * (mg * mb)) == 299 * r * mg * mb) by (nonlinear_arith);
        assert(587 * (g * (mr * mb)) == 587 * g * mr * mb) by (nonlinear_arith);
        assert(114 * (b * (mr * mg)) == 114 * b * mr * mg) by (nonlinear_arith);
        assert(500 * (mr * (mg * mb)) == 500 * mr * mg * mb) by (nonlinear_arith);
    }
    lhs < rhs
}

/// Where reading a reply stands after one more byte.
#[derive(Debug, Clone, PartialEq, Eq)]
pub enum Reply {
    /// Still a reply in the making: read another byte.
    Reading,
    /// The reply is complete.
    Done,
    /// Not a reply: somebody typed. Stop, and leave the rest alone.
    Abandon,
}

/// What one more byte `b` means to a reply collected so far as `collected`: the first byte must
/// be `ESC`; a reply ends at `BEL` or at `ESC \`; and one longer than 64 bytes is not a reply.
pub open spec fn spec_reply_step(collected: Seq<char>, b: u8) -> (Seq<char>, Reply) {
    let c = b as char;
    if collected.len() == 0 && c != '\x1b' {
        (collected, Reply::Abandon)
    } else {
        let next = collected.push(c);
        if c == '\x07' || (c == '\\' && collected.len() > 0 && collected.last() == '\x1b') {
            (next, Reply::Done)
        } else if text::utf8_bytes(next) > 64 {
            (next, Reply::Abandon)
        } else {
            (next, Reply::Reading)
        }
    }
}

/// Take one more byte of a reply, each byte read as the character of the same number.
pub fn reply_step(collected: &mut String, b: u8) -> (r: Reply)
    ensures
        final(collected)@ == spec_reply_step(old(collected)@, b).0,
        r == spec_reply_step(old(collected)@, b).1,
{
    let c = b as char;
    let cs = text::chars_of(collected.as_str());
    let n = cs.len();
    if n == 0 && c != '\x1b' {
        return Reply::Abandon;
    }
    let ends_esc = n > 0 && cs[n - 1] == '\x1b';
    text::push_char(collected, c);
    if c == '\x07' || (c == '\\' && ends_esc) {
        return Reply::Done;
    }
    if collected.as_str().as_bytes().len() > 64 {
        return Reply::Abandon;
    }
    Reply::Reading
}

} // verus!
