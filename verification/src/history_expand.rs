//! History expansion: the `!` and `^` rewrites a shell performs on a line typed at a prompt.
//!
//! Against a history ordered oldest first, where event `n` is `history[n - 1]`:
//!
//! * events: `!!`, `!n`, `!-n`, `!str` (most recent line starting with `str`) and `!?str?` (most
//!   recent line containing `str`);
//! * word designators: `!$`, `!^`, `!*` on the previous line, and `!event:designator` with `0`,
//!   `n`, `^`, `$`, `*`, `n-m`, `n*` and `n-`;
//! * quick substitution: `^old^new` and `^old^new^suffix`, only when `^` opens the line.
//!
//! Single quotes suppress expansion, a backslash protects the next character (and is kept for the
//! shell's own quote removal), and a `!` that opens a glob bracket expression that closes is left
//! alone. Anything the parser does not know is refused rather than guessed.

use vstd::prelude::*;
use crate::text::{self, decimal, find, spec_is_ascii_digit, spec_is_whitespace};

verus! {

/// The result of running the expansion pass over one line.
#[derive(Debug, Clone, PartialEq, Eq)]
pub enum Expansion {
    /// The line held no history reference and must be run exactly as typed.
    Unchanged,
    /// The line was rewritten; this is what should be echoed, stored in history, and run.
    Expanded(String),
}

/// Why a line could not be expanded. A failing expansion runs nothing at all.
#[derive(Debug, Clone, PartialEq, Eq)]
pub enum HistoryError {
    /// The event reference names a line that is not in the history.
    EventNotFound(String),
    /// The event was found but the word designator does not select anything in it.
    BadWordSpecifier(String),
    /// `^old^new` where the previous line does not contain `old`.
    SubstitutionFailed(String),
}

/// Which error, without its text.
#[derive(Debug, Clone, Copy, PartialEq, Eq, Structural)]
pub enum ErrKind {
    EventNotFound,
    BadWordSpecifier,
    SubstitutionFailed,
}

/// An error as its kind and the reference it names.
pub type Failure = (ErrKind, Seq<char>);

/// The history as the text of its lines.
pub type Hist = Seq<Seq<char>>;

impl HistoryError {
    pub open spec fn view(&self) -> Failure {
        match self {
            HistoryError::EventNotFound(s) => (ErrKind::EventNotFound, s@),
            HistoryError::BadWordSpecifier(s) => (ErrKind::BadWordSpecifier, s@),
            HistoryError::SubstitutionFailed(s) => (ErrKind::SubstitutionFailed, s@),
        }
    }

    /// The message a shell prints for this error: the reference, then what went wrong.
    pub fn message(&self) -> (m: String)
        ensures
            m@ == spec_message(self.view()),
    {
        let (text, tail) = match self {
            HistoryError::EventNotFound(s) => (s, ": event not found"),
            HistoryError::BadWordSpecifier(s) => (s, ": bad word specifier"),
            HistoryError::SubstitutionFailed(s) => (s, ": substitution failed"),
        };
        let mut out = text::string_of(text::chars_of(text.as_str()).as_slice());
        text::push_str(&mut out, tail);
        out
    }
}

/// The text an error is reported with.
pub open spec fn spec_message(e: Failure) -> Seq<char> {
    e.1 + match e.0 {
        ErrKind::EventNotFound => ": event not found"@,
        ErrKind::BadWordSpecifier => ": bad word specifier"@,
        ErrKind::SubstitutionFailed => ": substitution failed"@,
    }
}

/// The history's lines as text.
pub open spec fn hist_view(h: Seq<String>) -> Hist {
    Seq::new(h.len(), |i: int| h[i]@)
}

/// The expansion seen as the rewritten line, or `None` when unchanged.
pub open spec fn expansion_view(e: Expansion) -> Option<Seq<char>> {
    match e {
        Expansion::Unchanged => None,
        Expansion::Expanded(s) => Some(s@),
    }
}

// ------------------------------------------------------------------ words and numbers

/// The end of the run of ASCII digits starting at `at`.
pub open spec fn digits_end(c: Seq<char>, at: int) -> int
    decreases c.len() - at,
{
    if 0 <= at < c.len() && spec_is_ascii_digit(c[at]) {
        digits_end(c, at + 1)
    } else {
        at
    }
}

/// The value of a run of ASCII digits.
pub open spec fn digits_value(d: Seq<char>) -> nat
    decreases d.len(),
{
    if d.len() == 0 {
        0
    } else {
        digits_value(d.drop_last()) * 10 + ((d.last() as u32) - 48) as nat
    }
}

/// A run of digits read as a `usize`, or `None` when it is empty or too large.
pub open spec fn parse_usize(d: Seq<char>) -> Option<nat> {
    if d.len() > 0 && digits_value(d) <= usize::MAX {
        Some(digits_value(d))
    } else {
        None
    }
}

/// The end of the run starting at `at` that holds no `?`.
pub open spec fn question_end(c: Seq<char>, at: int) -> int
    decreases c.len() - at,
{
    if 0 <= at < c.len() && c[at] != '?' {
        question_end(c, at + 1)
    } else {
        at
    }
}

/// The characters that end a `!str` reference: anything that could start a new shell token, and
/// those that introduce a word designator.
pub open spec fn is_event_delimiter(c: char) -> bool {
    spec_is_whitespace(c) || "!\"'();<>|&:^$*=?`\\"@.contains(c)
}

/// The end of the run starting at `at` that holds no event delimiter.
pub open spec fn event_end(c: Seq<char>, at: int) -> int
    decreases c.len() - at,
{
    if 0 <= at < c.len() && !is_event_delimiter(c[at]) {
        event_end(c, at + 1)
    } else {
        at
    }
}

/// What `split_whitespace` has collected so far, and whether it is inside a word.
pub open spec fn words_scan(s: Seq<char>) -> (Seq<Seq<char>>, bool)
    decreases s.len(),
{
    if s.len() == 0 {
        (seq![], false)
    } else {
        let (ws, inside) = words_scan(s.drop_last());
        let c = s.last();
        if spec_is_whitespace(c) {
            (ws, false)
        } else if inside {
            (ws.update(ws.len() - 1, ws.last().push(c)), true)
        } else {
            (ws.push(seq![c]), true)
        }
    }
}

/// The whitespace-separated words of `s`.
pub open spec fn words(s: Seq<char>) -> Seq<Seq<char>> {
    words_scan(s).0
}

/// `ws` joined with single spaces.
pub open spec fn join(ws: Seq<Seq<char>>) -> Seq<char>
    decreases ws.len(),
{
    if ws.len() == 0 {
        seq![]
    } else if ws.len() == 1 {
        ws[0]
    } else {
        join(ws.drop_last()) + seq![' '] + ws.last()
    }
}

/// Whether `p` begins `s`.
pub open spec fn spec_starts_with(s: Seq<char>, p: Seq<char>) -> bool {
    p.len() <= s.len() && s.subrange(0, p.len() as int) == p
}

/// The most recent line containing `needle`.
pub open spec fn last_containing(h: Hist, needle: Seq<char>) -> Option<Seq<char>>
    decreases h.len(),
{
    if h.len() == 0 {
        None
    } else if find(h.last(), needle) is Some {
        Some(h.last())
    } else {
        last_containing(h.drop_last(), needle)
    }
}

/// The most recent line starting with `prefix`.
pub open spec fn last_starting(h: Hist, prefix: Seq<char>) -> Option<Seq<char>>
    decreases h.len(),
{
    if h.len() == 0 {
        None
    } else if spec_starts_with(h.last(), prefix) {
        Some(h.last())
    } else {
        last_starting(h.drop_last(), prefix)
    }
}

// ------------------------------------------------------------------ the reference grammar

/// `!!` is `back == 1`; `!-n` is `back == n`.
pub open spec fn nth_back(h: Hist, back: nat) -> Result<Seq<char>, Failure> {
    if 0 < back <= h.len() {
        Ok(h[h.len() - back])
    } else {
        Err((ErrKind::EventNotFound, if back == 1 { "!!"@ } else { "!-"@ + decimal(back) }))
    }
}

/// Words `from..=to` of `ws`, or the error naming `spec`.
pub open spec fn pick(ws: Seq<Seq<char>>, from: int, to: int, spec: Seq<char>, next: int) -> Result<(Seq<char>, int), Failure> {
    if from > to || to >= ws.len() {
        Err((ErrKind::BadWordSpecifier, ":"@ + spec))
    } else {
        Ok((join(ws.subrange(from, to + 1)), next))
    }
}

/// The designator starting at `c[at]` applied to `entry`: the text it selects and the index
/// just past it.
pub open spec fn word_designator(c: Seq<char>, at: int, entry: Seq<char>) -> Result<(Seq<char>, int), Failure> {
    let ws = words(entry);
    let last: int = if ws.len() > 0 { ws.len() - 1 } else { 0 };
    if !(0 <= at < c.len()) {
        Err((ErrKind::BadWordSpecifier, ":"@))
    } else {
        let ch = c[at];
        if ch == '^' {
            pick(ws, 1, 1, "^"@, at + 1)
        } else if ch == '$' {
            pick(ws, last, last, "$"@, at + 1)
        } else if ch == '*' {
            Ok((if ws.len() > 1 { join(ws.subrange(1, ws.len() as int)) } else { seq![] }, at + 1))
        } else if spec_is_ascii_digit(ch) {
            let end = digits_end(c, at);
            let d = c.subrange(at, end);
            match parse_usize(d) {
                None => Err((ErrKind::BadWordSpecifier, ":"@ + d)),
                Some(from) => if end < c.len() && c[end] == '*' {
                    pick(ws, from as int, last, d + "*"@, end + 1)
                } else if end < c.len() && c[end] == '-' {
                    let tend = digits_end(c, end + 1);
                    let td = c.subrange(end + 1, tend);
                    if td.len() == 0 {
                        let to: int = if last >= 1 { last - 1 } else { 0 };
                        pick(ws, from as int, to, d + "-"@, end + 1)
                    } else {
                        match parse_usize(td) {
                            None => Err((ErrKind::BadWordSpecifier, ":"@ + d + "-"@)),
                            Some(to) => pick(ws, from as int, to as int, d + "-"@ + td, tend),
                        }
                    }
                } else {
                    pick(ws, from as int, from as int, d, end)
                },
            }
        } else {
            Err((ErrKind::BadWordSpecifier, ":"@ + seq![ch]))
        }
    }
}

/// The event named at `c[at + 1..]`, before any designator: the line and the index after the
/// reference, `Ok(None)` when the `!` is ordinary text.
pub open spec fn event_base(c: Seq<char>, i: int, h: Hist) -> Result<Option<(Seq<char>, int)>, Failure> {
    let next = c[i];
    if next == '!' {
        match nth_back(h, 1) {
            Ok(e) => Ok(Some((e, i + 1))),
            Err(e) => Err(e),
        }
    } else if next == '-' {
        let end = digits_end(c, i + 1);
        let d = c.subrange(i + 1, end);
        if d.len() == 0 {
            Ok(None)
        } else {
            match parse_usize(d) {
                None => Err((ErrKind::EventNotFound, "!-"@ + d)),
                Some(back) => match nth_back(h, back) {
                    Ok(e) => Ok(Some((e, end))),
                    Err(e) => Err(e),
                },
            }
        }
    } else if spec_is_ascii_digit(next) {
        let end = digits_end(c, i);
        let d = c.subrange(i, end);
        match parse_usize(d) {
            Some(n) if 0 < n <= h.len() => Ok(Some((h[n - 1], end))),
            _ => Err((ErrKind::EventNotFound, "!"@ + d)),
        }
    } else if next == '?' {
        let end = question_end(c, i + 1);
        let needle = c.subrange(i + 1, end);
        let after = if end < c.len() && c[end] == '?' { end + 1 } else { end };
        match last_containing(h, needle) {
            None => Err((ErrKind::EventNotFound, "!?"@ + needle)),
            Some(e) => Ok(Some((e, after))),
        }
    } else {
        let end = event_end(c, i);
        let prefix = c.subrange(i, end);
        if prefix.len() == 0 {
            Ok(None)
        } else {
            match last_starting(h, prefix) {
                None => Err((ErrKind::EventNotFound, "!"@ + prefix)),
                Some(e) => Ok(Some((e, end))),
            }
        }
    }
}

/// The reference starting at the `!` in `c[at]`: the text it expands to and the index after it,
/// or `Ok(None)` when the `!` is ordinary text.
pub open spec fn event_at(c: Seq<char>, at: int, h: Hist) -> Result<Option<(Seq<char>, int)>, Failure> {
    let i = at + 1;
    if !(0 <= i < c.len()) {
        Ok(None)
    } else {
        let next = c[i];
        if next == ' ' || next == '\t' || next == '\n' || next == '=' || next == '(' {
            Ok(None)
        } else if next == '$' || next == '^' || next == '*' {
            match nth_back(h, 1) {
                Err(e) => Err(e),
                Ok(entry) => match word_designator(c, i, entry) {
                    Err(e) => Err(e),
                    Ok(found) => Ok(Some(found)),
                },
            }
        } else {
            match event_base(c, i, h) {
                Err(e) => Err(e),
                Ok(None) => Ok(None),
                Ok(Some((entry, j))) => if j < c.len() && c[j] == ':' {
                    match word_designator(c, j + 1, entry) {
                        Err(e) => Err(e),
                        Ok(found) => Ok(Some(found)),
                    }
                } else if j < c.len() && (c[j] == '^' || c[j] == '$' || c[j] == '*') {
                    match word_designator(c, j, entry) {
                        Err(e) => Err(e),
                        Ok(found) => Ok(Some(found)),
                    }
                } else {
                    Ok(Some((entry, j)))
                },
            }
        }
    }
}

/// Whether the `!` at `at` negates a glob bracket expression that closes.
pub open spec fn is_glob_negation(c: Seq<char>, at: int) -> bool {
    &&& at > 0
    &&& c[at - 1] == '['
    &&& !(at + 1 < c.len() && c[at + 1] == '!')
    &&& (at + 1 <= c.len() && c.subrange(at + 1, c.len() as int).contains(']'))
}

/// `x` in front of what the rest of the line expands to.
pub open spec fn prepend(x: Seq<char>, changed: bool, r: Result<(Seq<char>, bool), Failure>) -> Result<(Seq<char>, bool), Failure> {
    match r {
        Ok((o, ch)) => Ok((x + o, changed || ch)),
        Err(e) => Err(e),
    }
}

/// The expansion of `c[i..]`, given whether the scan is inside single or double quotes there:
/// the text and whether any reference was expanded.
pub open spec fn scan(c: Seq<char>, h: Hist, i: int, single: bool, double: bool) -> Result<(Seq<char>, bool), Failure>
    decreases c.len() - i,
{
    if !(0 <= i < c.len()) {
        Ok((seq![], false))
    } else {
        let ch = c[i];
        if ch == '\\' && !single {
            if i + 1 < c.len() {
                prepend(seq!['\\', c[i + 1]], false, scan(c, h, i + 2, single, double))
            } else {
                prepend(seq!['\\'], false, scan(c, h, i + 1, single, double))
            }
        } else if ch == '\'' && !double {
            prepend(seq!['\''], false, scan(c, h, i + 1, !single, double))
        } else if ch == '"' && !single {
            prepend(seq!['"'], false, scan(c, h, i + 1, single, !double))
        } else if ch == '!' && !single && !is_glob_negation(c, i) {
            match event_at(c, i, h) {
                Err(e) => Err(e),
                Ok(None) => prepend(seq!['!'], false, scan(c, h, i + 1, single, double)),
                Ok(Some((t, next))) => {
                    proof {
                        lemma_event_advances(c, i, h);
                    }
                    prepend(t, true, scan(c, h, next, single, double))
                },
            }
        } else {
            prepend(seq![ch], false, scan(c, h, i + 1, single, double))
        }
    }
}

/// `^old^new^suffix`, when the line opens with `^`.
pub open spec fn quick(l: Seq<char>, h: Hist) -> Option<Result<Option<Seq<char>>, Failure>> {
    if l.len() == 0 || l[0] != '^' {
        None
    } else {
        let body = l.subrange(1, l.len() as int);
        let (pat, rest) = match find(body, seq!['^']) {
            Some(k) => (body.subrange(0, k), body.subrange(k + 1, body.len() as int)),
            None => (body, seq![]),
        };
        let (repl, suffix) = match find(rest, seq!['^']) {
            Some(k) => (rest.subrange(0, k), rest.subrange(k + 1, rest.len() as int)),
            None => (rest, seq![]),
        };
        if h.len() == 0 {
            Some(Err((ErrKind::EventNotFound, "!!"@)))
        } else {
            let prev = h.last();
            match find(prev, pat) {
                Some(k) if pat.len() > 0 => Some(Ok(Some(prev.subrange(0, k) + repl
                    + prev.subrange(k + pat.len(), prev.len() as int) + suffix))),
                _ => Some(Err((ErrKind::SubstitutionFailed, l))),
            }
        }
    }
}

/// What expanding `l` against `h` gives: the rewritten line, `None` when nothing was expanded, or
/// the error that stops the line.
pub open spec fn spec_expand(l: Seq<char>, h: Hist) -> Result<Option<Seq<char>>, Failure> {
    match quick(l, h) {
        Some(r) => r,
        None => match scan(l, h, 0, false, false) {
            Err(e) => Err(e),
            Ok((o, changed)) => Ok(if changed { Some(o) } else { None }),
        },
    }
}

pub proof fn lemma_digits_end(c: Seq<char>, at: int)
    requires
        0 <= at <= c.len(),
    ensures
        at <= digits_end(c, at) <= c.len(),
        forall|j: int| at <= j < digits_end(c, at) ==> spec_is_ascii_digit(#[trigger] c[j]),
        digits_end(c, at) < c.len() ==> !spec_is_ascii_digit(c[digits_end(c, at)]),
    decreases c.len() - at,
{
    if at < c.len() && spec_is_ascii_digit(c[at]) {
        lemma_digits_end(c, at + 1);
    }
}

proof fn lemma_question_end(c: Seq<char>, at: int)
    requires
        0 <= at <= c.len(),
    ensures
        at <= question_end(c, at) <= c.len(),
    decreases c.len() - at,
{
    if at < c.len() && c[at] != '?' {
        lemma_question_end(c, at + 1);
    }
}

proof fn lemma_event_end(c: Seq<char>, at: int)
    requires
        0 <= at <= c.len(),
    ensures
        at <= event_end(c, at) <= c.len(),
    decreases c.len() - at,
{
    if at < c.len() && !is_event_delimiter(c[at]) {
        lemma_event_end(c, at + 1);
    }
}

proof fn lemma_designator_advances(c: Seq<char>, at: int, entry: Seq<char>)
    requires
        0 <= at,
    ensures
        word_designator(c, at, entry) matches Ok((_, next)) ==> at < next <= c.len(),
{
    if 0 <= at < c.len() {
        lemma_digits_end(c, at);
        let end = digits_end(c, at);
        if end < c.len() {
            lemma_digits_end(c, end + 1);
        }
    }
}

/// Every reference consumes at least the `!` and the character after it, and stays in the line.
pub proof fn lemma_event_advances(c: Seq<char>, at: int, h: Hist)
    requires
        0 <= at,
    ensures
        event_at(c, at, h) matches Ok(Some((_, next))) ==> at < next <= c.len(),
{
    let i = at + 1;
    if 0 <= i < c.len() {
        lemma_designator_advances(c, i, h.last());
        lemma_digits_end(c, i);
        lemma_digits_end(c, i + 1);
        lemma_question_end(c, i + 1);
        lemma_event_end(c, i);
        if let Ok(Some((entry, j))) = event_base(c, i, h) {
            lemma_designator_advances(c, j + 1, entry);
            lemma_designator_advances(c, j, entry);
        }
        if let Ok(entry) = nth_back(h, 1) {
            lemma_designator_advances(c, i, entry);
        }
    }
}


// ------------------------------------------------------------------ the executable half

/// An error as the executable code carries it.
pub type ErrX = (ErrKind, Vec<char>);

pub open spec fn ev(e: ErrX) -> Failure {
    (e.0, e.1@)
}

/// The text of a history held as character vectors.
pub open spec fn vv(v: Seq<Vec<char>>) -> Hist {
    Seq::new(v.len(), |i: int| v[i]@)
}

fn lit(s: &str) -> (v: Vec<char>)
    ensures
        v@ == s@,
{
    text::chars_of(s)
}

pub(crate) fn digits_end_x(c: &[char], at: usize) -> (r: usize)
    requires
        at <= c@.len(),
    ensures
        r == digits_end(c@, at as int),
        at <= r <= c@.len(),
{
    proof {
        lemma_digits_end(c@, at as int);
    }
    let mut i = at;
    while i < c.len() && '0' <= c[i] && c[i] <= '9'
        invariant
            at <= i <= c@.len(),
            digits_end(c@, i as int) == digits_end(c@, at as int),
        decreases c.len() - i,
    {
        i += 1;
    }
    i
}

proof fn lemma_digits_value_grows(d: Seq<char>, k: int)
    requires
        0 <= k <= d.len(),
    ensures
        digits_value(d.subrange(0, k)) <= digits_value(d),
    decreases d.len() - k,
{
    if k < d.len() {
        lemma_digits_value_grows(d.drop_last(), if k <= d.len() - 1 { k } else { d.len() - 1 });
        if k == d.len() {
        } else {
            assert(d.drop_last().subrange(0, k) =~= d.subrange(0, k));
        }
    } else {
        assert(d.subrange(0, k) =~= d);
    }
}

/// The digits `c[from..to]` read as a `usize`.
fn parse_digits(c: &[char], from: usize, to: usize) -> (r: Option<usize>)
    requires
        from <= to <= c@.len(),
        forall|j: int| from <= j < to ==> spec_is_ascii_digit(#[trigger] c@[j]),
    ensures
        match r {
            Some(n) => parse_usize(c@.subrange(from as int, to as int)) == Some(n as nat),
            None => parse_usize(c@.subrange(from as int, to as int)) is None,
        },
{
    let ghost d = c@.subrange(from as int, to as int);
    if from == to {
        return None;
    }
    let mut value: usize = 0;
    let mut i = from;
    while i < to
        invariant
            from <= i <= to <= c@.len(),
            d == c@.subrange(from as int, to as int),
            forall|j: int| from <= j < to ==> spec_is_ascii_digit(#[trigger] c@[j]),
            value == digits_value(c@.subrange(from as int, i as int)),
        decreases to - i,
    {
        let digit = (c[i] as u32 - 48) as usize;
        proof {
            assert(c@.subrange(from as int, i + 1).drop_last() =~= c@.subrange(from as int, i as int));
        }
        match value.checked_mul(10) {
            None => {
                proof {
                    assert(c@.subrange(from as int, i + 1) =~= d.subrange(0, i + 1 - from));
                    lemma_digits_value_grows(d, i + 1 - from);
                }
                return None;
            },
            Some(m) => match m.checked_add(digit) {
                None => {
                    proof {
                        assert(c@.subrange(from as int, i + 1) =~= d.subrange(0, i + 1 - from));
                        lemma_digits_value_grows(d, i + 1 - from);
                    }
                    return None;
                },
                Some(v) => {
                    value = v;
                },
            },
        }
        i += 1;
    }
    Some(value)
}

fn question_end_x(c: &[char], at: usize) -> (r: usize)
    requires
        at <= c@.len(),
    ensures
        r == question_end(c@, at as int),
        at <= r <= c@.len(),
{
    proof {
        lemma_question_end(c@, at as int);
    }
    let mut i = at;
    while i < c.len() && c[i] != '?'
        invariant
            at <= i <= c@.len(),
            question_end(c@, i as int) == question_end(c@, at as int),
        decreases c.len() - i,
    {
        i += 1;
    }
    i
}

fn is_event_delimiter_x(ch: char) -> (r: bool)
    ensures
        r == is_event_delimiter(ch),
{
    let set = lit("!\"'();<>|&:^$*=?`\\");
    let mut found = false;
    let mut k: usize = 0;
    while k < set.len()
        invariant
            k <= set@.len(),
            set@ == "!\"'();<>|&:^$*=?`\\"@,
            found == (exists|j: int| 0 <= j < k && set@[j] == ch),
        decreases set.len() - k,
    {
        if set[k] == ch {
            found = true;
        }
        k += 1;
    }
    text::is_whitespace(ch) || found
}

fn event_end_x(c: &[char], at: usize) -> (r: usize)
    requires
        at <= c@.len(),
    ensures
        r == event_end(c@, at as int),
        at <= r <= c@.len(),
{
    proof {
        lemma_event_end(c@, at as int);
    }
    let mut i = at;
    while i < c.len() && !is_event_delimiter_x(c[i])
        invariant
            at <= i <= c@.len(),
            event_end(c@, i as int) == event_end(c@, at as int),
        decreases c.len() - i,
    {
        i += 1;
    }
    i
}

/// The whitespace-separated words of `s`.
fn words_x(s: &[char]) -> (r: Vec<Vec<char>>)
    ensures
        vv(r@) == words(s@),
{
    let mut ws: Vec<Vec<char>> = Vec::new();
    let mut inside = false;
    let mut i: usize = 0;
    while i < s.len()
        invariant
            i <= s@.len(),
            words_scan(s@.subrange(0, i as int)) == (vv(ws@), inside),
            inside ==> ws@.len() > 0,
        decreases s.len() - i,
    {
        let ch = s[i];
        let ghost before = ws@;
        proof {
            assert(s@.subrange(0, i + 1).drop_last() =~= s@.subrange(0, i as int));
        }
        if text::is_whitespace(ch) {
            inside = false;
        } else if inside {
            let n = ws.len();
            let mut w = ws.remove(n - 1);
            w.push(ch);
            ws.push(w);
            proof {
                assert(vv(ws@) =~= vv(before).update(vv(before).len() - 1, vv(before).last().push(ch)));
            }
        } else {
            let mut w = Vec::new();
            w.push(ch);
            ws.push(w);
            inside = true;
            proof {
                assert(w@ =~= seq![ch]);
                assert(vv(ws@) =~= vv(before).push(seq![ch]));
            }
        }
        i += 1;
    }
    assert(s@.subrange(0, s@.len() as int) =~= s@);
    ws
}

/// Words `from..to` of `ws` joined with single spaces.
fn join_x(ws: &[Vec<char>], from: usize, to: usize) -> (r: Vec<char>)
    requires
        from <= to <= ws@.len(),
    ensures
        r@ == join(vv(ws@).subrange(from as int, to as int)),
{
    let mut out: Vec<char> = Vec::new();
    let mut k = from;
    while k < to
        invariant
            from <= k <= to <= ws@.len(),
            out@ == join(vv(ws@).subrange(from as int, k as int)),
        decreases to - k,
    {
        let ghost before = vv(ws@).subrange(from as int, k as int);
        let ghost after = vv(ws@).subrange(from as int, k + 1);
        proof {
            assert(after.drop_last() =~= before);
            assert(after.last() == ws@[k as int]@);
        }
        if k > from {
            out.push(' ');
            out = text::concat(out.as_slice(), ws[k].as_slice());
        } else {
            out = text::slice_vec(ws[k].as_slice(), 0, ws[k].len());
            proof {
                assert(out@ =~= ws@[k as int]@);
            }
        }
        k += 1;
    }
    out
}

fn nth_back_x(h: &[Vec<char>], back: usize) -> (r: Result<Vec<char>, ErrX>)
    ensures
        match r {
            Ok(e) => nth_back(vv(h@), back as nat) == Ok::<Seq<char>, Failure>(e@),
            Err(e) => nth_back(vv(h@), back as nat) == Err::<Seq<char>, Failure>(ev(e)),
        },
{
    if back > 0 && back <= h.len() {
        let e = &h[h.len() - back];
        let r = text::slice_vec(e.as_slice(), 0, e.len());
        proof {
            assert(r@ =~= e@);
            assert(vv(h@)[h@.len() - back] == e@);
        }
        Ok(r)
    } else if back == 1 {
        Err((ErrKind::EventNotFound, lit("!!")))
    } else {
        let mut m = lit("!-");
        let d = text::decimal_chars(back);
        m = text::concat(m.as_slice(), d.as_slice());
        Err((ErrKind::EventNotFound, m))
    }
}

fn pick_x(ws: &[Vec<char>], from: usize, to: usize, spec: Vec<char>, next: usize) -> (r: Result<(Vec<char>, usize), ErrX>)
    ensures
        match r {
            Ok((t, n)) => pick(vv(ws@), from as int, to as int, spec@, next as int) == Ok::<(Seq<char>, int), Failure>((t@, n as int)),
            Err(e) => pick(vv(ws@), from as int, to as int, spec@, next as int) == Err::<(Seq<char>, int), Failure>(ev(e)),
        },
{
    if from > to || to >= ws.len() {
        let m = text::concat(lit(":").as_slice(), spec.as_slice());
        Err((ErrKind::BadWordSpecifier, m))
    } else {
        Ok((join_x(ws, from, to + 1), next))
    }
}

fn word_designator_x(c: &[char], at: usize, entry: &[char]) -> (r: Result<(Vec<char>, usize), ErrX>)
    ensures
        match r {
            Ok((t, n)) => word_designator(c@, at as int, entry@) == Ok::<(Seq<char>, int), Failure>((t@, n as int)),
            Err(e) => word_designator(c@, at as int, entry@) == Err::<(Seq<char>, int), Failure>(ev(e)),
        },
{
    let ws = words_x(entry);
    let last = if ws.len() > 0 {
        ws.len() - 1
    } else {
        0
    };
    if at >= c.len() {
        return Err((ErrKind::BadWordSpecifier, lit(":")));
    }
    let ch = c[at];
    if ch == '^' {
        pick_x(ws.as_slice(), 1, 1, lit("^"), at + 1)
    } else if ch == '$' {
        pick_x(ws.as_slice(), last, last, lit("$"), at + 1)
    } else if ch == '*' {
        let t = if ws.len() > 1 {
            join_x(ws.as_slice(), 1, ws.len())
        } else {
            Vec::new()
        };
        Ok((t, at + 1))
    } else if '0' <= ch && ch <= '9' {
        proof {
            lemma_digits_end(c@, at as int);
        }
        let end = digits_end_x(c, at);
        let d = text::slice_vec(c, at, end);
        match parse_digits(c, at, end) {
            None => Err((ErrKind::BadWordSpecifier, text::concat(lit(":").as_slice(), d.as_slice()))),
            Some(from) => {
                if end < c.len() && c[end] == '*' {
                    pick_x(ws.as_slice(), from, last, text::concat(d.as_slice(), lit("*").as_slice()), end + 1)
                } else if end < c.len() && c[end] == '-' {
                    proof {
                        lemma_digits_end(c@, end + 1);
                    }
                    let tend = digits_end_x(c, end + 1);
                    let td = text::slice_vec(c, end + 1, tend);
                    let dash = text::concat(d.as_slice(), lit("-").as_slice());
                    if td.len() == 0 {
                        let to = if last >= 1 {
                            last - 1
                        } else {
                            0
                        };
                        pick_x(ws.as_slice(), from, to, dash, end + 1)
                    } else {
                        match parse_digits(c, end + 1, tend) {
                            None => {
                                let m = text::concat(lit(":").as_slice(), dash.as_slice());
                                proof {
                                    assert(m@ =~= ":"@ + d@ + "-"@);
                                }
                                Err((ErrKind::BadWordSpecifier, m))
                            },
                            Some(to) => {
                                let sp = text::concat(dash.as_slice(), td.as_slice());
                                proof {
                                    assert(sp@ =~= d@ + "-"@ + td@);
                                }
                                pick_x(ws.as_slice(), from, to, sp, tend)
                            },
                        }
                    }
                } else {
                    pick_x(ws.as_slice(), from, from, d, end)
                }
            },
        }
    } else {
        let mut m = lit(":");
        m.push(ch);
        proof {
            assert(m@ =~= ":"@ + seq![ch]);
        }
        Err((ErrKind::BadWordSpecifier, m))
    }
}

fn last_containing_x(h: &[Vec<char>], needle: &[char]) -> (r: Option<Vec<char>>)
    ensures
        match r {
            Some(e) => last_containing(vv(h@), needle@) == Some(e@),
            None => last_containing(vv(h@), needle@) is None,
        },
{
    proof {
        assert(vv(h@).subrange(0, h@.len() as int) =~= vv(h@));
    }
    let mut k = h.len();
    while k > 0
        invariant
            k <= h@.len(),
            last_containing(vv(h@), needle@) == last_containing(vv(h@).subrange(0, k as int), needle@),
        decreases k,
    {
        let ghost pre = vv(h@).subrange(0, k as int);
        proof {
            assert(pre.drop_last() =~= vv(h@).subrange(0, k - 1));
            assert(pre.last() == h@[k - 1]@);
        }
        if text::contains_chars(h[k - 1].as_slice(), needle) {
            return Some(text::slice_vec(h[k - 1].as_slice(), 0, h[k - 1].len()));
        }
        k -= 1;
    }
    None
}

fn last_starting_x(h: &[Vec<char>], prefix: &[char]) -> (r: Option<Vec<char>>)
    ensures
        match r {
            Some(e) => last_starting(vv(h@), prefix@) == Some(e@),
            None => last_starting(vv(h@), prefix@) is None,
        },
{
    proof {
        assert(vv(h@).subrange(0, h@.len() as int) =~= vv(h@));
    }
    let mut k = h.len();
    while k > 0
        invariant
            k <= h@.len(),
            last_starting(vv(h@), prefix@) == last_starting(vv(h@).subrange(0, k as int), prefix@),
        decreases k,
    {
        let ghost pre = vv(h@).subrange(0, k as int);
        proof {
            assert(pre.drop_last() =~= vv(h@).subrange(0, k - 1));
            assert(pre.last() == h@[k - 1]@);
        }
        if text::starts_with(h[k - 1].as_slice(), prefix) {
            return Some(text::slice_vec(h[k - 1].as_slice(), 0, h[k - 1].len()));
        }
        k -= 1;
    }
    None
}

/// The reference as the executable code finds it; see [`event_base`].
fn event_base_x(c: &[char], i: usize, h: &[Vec<char>]) -> (r: Result<Option<(Vec<char>, usize)>, ErrX>)
    requires
        i < c@.len(),
    ensures
        match r {
            Ok(Some((t, n))) => event_base(c@, i as int, vv(h@)) == Ok::<Option<(Seq<char>, int)>, Failure>(Some((t@, n as int))),
            Ok(None) => event_base(c@, i as int, vv(h@)) == Ok::<Option<(Seq<char>, int)>, Failure>(None),
            Err(e) => event_base(c@, i as int, vv(h@)) == Err::<Option<(Seq<char>, int)>, Failure>(ev(e)),
        },
{
    let next = c[i];
    if next == '!' {
        match nth_back_x(h, 1) {
            Ok(e) => Ok(Some((e, i + 1))),
            Err(e) => Err(e),
        }
    } else if next == '-' {
        proof {
            lemma_digits_end(c@, i + 1);
        }
        let end = digits_end_x(c, i + 1);
        let d = text::slice_vec(c, i + 1, end);
        if d.len() == 0 {
            return Ok(None);
        }
        match parse_digits(c, i + 1, end) {
            None => Err((ErrKind::EventNotFound, text::concat(lit("!-").as_slice(), d.as_slice()))),
            Some(back) => match nth_back_x(h, back) {
                Ok(e) => Ok(Some((e, end))),
                Err(e) => Err(e),
            },
        }
    } else if '0' <= next && next <= '9' {
        proof {
            lemma_digits_end(c@, i as int);
        }
        let end = digits_end_x(c, i);
        let d = text::slice_vec(c, i, end);
        match parse_digits(c, i, end) {
            Some(n) => {
                if n > 0 && n <= h.len() {
                    let e = &h[n - 1];
                    let t = text::slice_vec(e.as_slice(), 0, e.len());
                    proof {
                        assert(t@ =~= e@);
                        assert(vv(h@)[n - 1] == e@);
                    }
                    Ok(Some((t, end)))
                } else {
                    Err((ErrKind::EventNotFound, text::concat(lit("!").as_slice(), d.as_slice())))
                }
            },
            None => Err((ErrKind::EventNotFound, text::concat(lit("!").as_slice(), d.as_slice()))),
        }
    } else if next == '?' {
        let end = question_end_x(c, i + 1);
        let needle = text::slice_vec(c, i + 1, end);
        let after = if end < c.len() && c[end] == '?' {
            end + 1
        } else {
            end
        };
        match last_containing_x(h, needle.as_slice()) {
            None => Err((ErrKind::EventNotFound, text::concat(lit("!?").as_slice(), needle.as_slice()))),
            Some(e) => Ok(Some((e, after))),
        }
    } else {
        let end = event_end_x(c, i);
        let prefix = text::slice_vec(c, i, end);
        if prefix.len() == 0 {
            return Ok(None);
        }
        match last_starting_x(h, prefix.as_slice()) {
            None => Err((ErrKind::EventNotFound, text::concat(lit("!").as_slice(), prefix.as_slice()))),
            Some(e) => Ok(Some((e, end))),
        }
    }
}

/// The reference at the `!` in `c[at]`; see [`event_at`].
fn event_at_x(c: &[char], at: usize, h: &[Vec<char>]) -> (r: Result<Option<(Vec<char>, usize)>, ErrX>)
    requires
        at < c@.len(),
    ensures
        match r {
            Ok(Some((t, n))) => event_at(c@, at as int, vv(h@)) == Ok::<Option<(Seq<char>, int)>, Failure>(Some((t@, n as int))),
            Ok(None) => event_at(c@, at as int, vv(h@)) == Ok::<Option<(Seq<char>, int)>, Failure>(None),
            Err(e) => event_at(c@, at as int, vv(h@)) == Err::<Option<(Seq<char>, int)>, Failure>(ev(e)),
        },
{
    if c.len() - at <= 1 {
        return Ok(None);
    }
    let i = at + 1;
    let next = c[i];
    if next == ' ' || next == '\t' || next == '\n' || next == '=' || next == '(' {
        return Ok(None);
    }
    if next == '$' || next == '^' || next == '*' {
        return match nth_back_x(h, 1) {
            Err(e) => Err(e),
            Ok(entry) => match word_designator_x(c, i, entry.as_slice()) {
                Err(e) => Err(e),
                Ok(found) => Ok(Some(found)),
            },
        };
    }
    match event_base_x(c, i, h) {
        Err(e) => Err(e),
        Ok(None) => Ok(None),
        Ok(Some((entry, j))) => {
            if j < c.len() && c[j] == ':' {
                match word_designator_x(c, j + 1, entry.as_slice()) {
                    Err(e) => Err(e),
                    Ok(found) => Ok(Some(found)),
                }
            } else if j < c.len() && (c[j] == '^' || c[j] == '$' || c[j] == '*') {
                match word_designator_x(c, j, entry.as_slice()) {
                    Err(e) => Err(e),
                    Ok(found) => Ok(Some(found)),
                }
            } else {
                Ok(Some((entry, j)))
            }
        },
    }
}

fn is_glob_negation_x(c: &[char], at: usize) -> (r: bool)
    requires
        at < c@.len(),
    ensures
        r == is_glob_negation(c@, at as int),
{
    if at == 0 || c[at - 1] != '[' {
        return false;
    }
    if at + 1 < c.len() && c[at + 1] == '!' {
        return false;
    }
    let rest = text::slice_vec(c, at + 1, c.len());
    let r = text::find_char(rest.as_slice(), ']').is_some();
    proof {
        text::lemma_find_from_bounds(rest@, seq![']'], 0);
        if r {
            let k = text::find(rest@, seq![']']).unwrap();
            assert(rest@.subrange(k, k + 1) == seq![']']);
            assert(rest@.subrange(k, k + 1)[0] == rest@[k]);
        } else {
            if rest@.contains(']') {
                let k = choose|k: int| 0 <= k < rest@.len() && rest@[k] == ']';
                lemma_find_none(rest@, seq![']'], 0, k);
                assert(rest@.subrange(k, k + 1) =~= seq![']']);
            }
        }
    }
    r
}

proof fn lemma_find_none(s: Seq<char>, p: Seq<char>, from: int, k: int)
    requires
        text::find_from(s, p, from) is None,
        0 <= from <= k,
    ensures
        !text::occurs_at(s, p, k),
    decreases k - from,
{
    if from < k {
        lemma_find_none(s, p, from + 1, k);
    }
}

/// `^old^new^suffix`; see [`quick`].
fn quick_x(l: &[char], h: &[Vec<char>]) -> (r: Option<Result<Option<Vec<char>>, ErrX>>)
    ensures
        match r {
            None => quick(l@, vv(h@)) is None,
            Some(Ok(Some(t))) => quick(l@, vv(h@)) == Some(Ok::<Option<Seq<char>>, Failure>(Some(t@))),
            Some(Ok(None)) => quick(l@, vv(h@)) == Some(Ok::<Option<Seq<char>>, Failure>(None)),
            Some(Err(e)) => quick(l@, vv(h@)) == Some(Err::<Option<Seq<char>>, Failure>(ev(e))),
        },
{
    if l.len() == 0 || l[0] != '^' {
        return None;
    }
    let body = text::slice_vec(l, 1, l.len());
    proof {
        text::lemma_find_from_bounds(body@, seq!['^'], 0);
    }
    let (pat, rest) = match text::find_char(body.as_slice(), '^') {
        Some(k) => (text::slice_vec(body.as_slice(), 0, k), text::slice_vec(body.as_slice(), k + 1, body.len())),
        None => (text::slice_vec(body.as_slice(), 0, body.len()), Vec::new()),
    };
    proof {
        assert(body@.subrange(0, body@.len() as int) =~= body@);
        text::lemma_find_from_bounds(rest@, seq!['^'], 0);
    }
    let (repl, suffix) = match text::find_char(rest.as_slice(), '^') {
        Some(k) => (text::slice_vec(rest.as_slice(), 0, k), text::slice_vec(rest.as_slice(), k + 1, rest.len())),
        None => (text::slice_vec(rest.as_slice(), 0, rest.len()), Vec::new()),
    };
    proof {
        assert(rest@.subrange(0, rest@.len() as int) =~= rest@);
    }
    if h.len() == 0 {
        return Some(Err((ErrKind::EventNotFound, lit("!!"))));
    }
    let prev = &h[h.len() - 1];
    proof {
        assert(vv(h@).last() == prev@);
        text::lemma_find_from_bounds(prev@, pat@, 0);
    }
    match text::find_chars(prev.as_slice(), pat.as_slice(), 0) {
        Some(k) => {
            proof {
                assert(text::occurs_at(prev@, pat@, k as int));
            }
            if pat.len() > 0 {
                let a = text::slice_vec(prev.as_slice(), 0, k);
                let plen = prev.len();
                let b = text::slice_vec(prev.as_slice(), k + pat.len(), plen);
                let t = text::concat(a.as_slice(), repl.as_slice());
                let t = text::concat(t.as_slice(), b.as_slice());
                let t = text::concat(t.as_slice(), suffix.as_slice());
                return Some(Ok(Some(t)));
            }
        },
        None => {},
    }
    let whole = text::slice_vec(l, 0, l.len());
    proof {
        assert(whole@ =~= l@);
    }
    Some(Err((ErrKind::SubstitutionFailed, whole)))
}

/// Rewrite one interactive line against `history`, oldest first.
///
/// A line with no reference is [`Expansion::Unchanged`]; a reference that cannot be resolved is
/// an error and nothing runs.
pub fn expand(line: &str, history: &[String]) -> (r: Result<Expansion, HistoryError>)
    ensures
        match r {
            Ok(e) => spec_expand(line@, hist_view(history@)) == Ok::<Option<Seq<char>>, Failure>(expansion_view(e)),
            Err(e) => spec_expand(line@, hist_view(history@)) == Err::<Option<Seq<char>>, Failure>(e.view()),
        },
{
    let c = text::chars_of(line);
    let mut h: Vec<Vec<char>> = Vec::new();
    let mut k: usize = 0;
    while k < history.len()
        invariant
            k <= history@.len(),
            h@.len() == k,
            forall|j: int| 0 <= j < k ==> (#[trigger] h@[j])@ == history@[j]@,
        decreases history.len() - k,
    {
        h.push(text::chars_of(history[k].as_str()));
        k += 1;
    }
    proof {
        assert(vv(h@) =~= hist_view(history@));
    }
    let res = expand_chars(c.as_slice(), h.as_slice());
    match res {
        Ok(None) => Ok(Expansion::Unchanged),
        Ok(Some(t)) => Ok(Expansion::Expanded(text::string_of(t.as_slice()))),
        Err((kind, m)) => {
            let m = text::string_of(m.as_slice());
            Err(
                match kind {
                    ErrKind::EventNotFound => HistoryError::EventNotFound(m),
                    ErrKind::BadWordSpecifier => HistoryError::BadWordSpecifier(m),
                    ErrKind::SubstitutionFailed => HistoryError::SubstitutionFailed(m),
                },
            )
        },
    }
}

proof fn lemma_prepend_twice(x: Seq<char>, cx: bool, y: Seq<char>, cy: bool, r: Result<(Seq<char>, bool), Failure>)
    ensures
        prepend(x, cx, prepend(y, cy, r)) == prepend(x + y, cx || cy, r),
{
    if let Ok((o, ch)) = r {
        assert(x + (y + o) =~= (x + y) + o);
    }
}

fn expand_chars(c: &[char], h: &[Vec<char>]) -> (r: Result<Option<Vec<char>>, ErrX>)
    ensures
        match r {
            Ok(Some(t)) => spec_expand(c@, vv(h@)) == Ok::<Option<Seq<char>>, Failure>(Some(t@)),
            Ok(None) => spec_expand(c@, vv(h@)) == Ok::<Option<Seq<char>>, Failure>(None),
            Err(e) => spec_expand(c@, vv(h@)) == Err::<Option<Seq<char>>, Failure>(ev(e)),
        },
{
    match quick_x(c, h) {
        Some(r) => return r,
        None => {},
    }
    let ghost hv = vv(h@);
    let mut out: Vec<char> = Vec::new();
    let mut i: usize = 0;
    let mut single = false;
    let mut double = false;
    let mut changed = false;
    while i < c.len()
        invariant
            i <= c@.len(),
            hv == vv(h@),
            quick(c@, hv) is None,
            scan(c@, hv, 0, false, false) == prepend(out@, changed, scan(c@, hv, i as int, single, double)),
        decreases c.len() - i,
    {
        let ch = c[i];
        let ghost o0 = out@;
        let ghost c0 = changed;
        let ghost i0 = i as int;
        let ghost s0 = single;
        let ghost d0 = double;
        if ch == '\\' && !single {
            out.push('\\');
            if i + 1 < c.len() {
                out.push(c[i + 1]);
                i += 2;
                proof {
                    assert(out@ =~= o0 + seq!['\\', c@[i0 + 1]]);
                    lemma_prepend_twice(o0, c0, seq!['\\', c@[i0 + 1]], false, scan(c@, hv, i as int, single, double));
                }
            } else {
                i += 1;
                proof {
                    assert(out@ =~= o0 + seq!['\\']);
                    lemma_prepend_twice(o0, c0, seq!['\\'], false, scan(c@, hv, i as int, single, double));
                }
            }
        } else if ch == '\'' && !double {
            single = !single;
            out.push('\'');
            i += 1;
            proof {
                assert(out@ =~= o0 + seq!['\'']);
                lemma_prepend_twice(o0, c0, seq!['\''], false, scan(c@, hv, i as int, single, double));
            }
        } else if ch == '"' && !single {
            double = !double;
            out.push('"');
            i += 1;
            proof {
                assert(out@ =~= o0 + seq!['"']);
                lemma_prepend_twice(o0, c0, seq!['"'], false, scan(c@, hv, i as int, single, double));
            }
        } else if ch == '!' && !single && !is_glob_negation_x(c, i) {
            proof {
                lemma_event_advances(c@, i as int, hv);
            }
            match event_at_x(c, i, h) {
                Err(e) => {
                    proof {
                        assert(scan(c@, hv, i as int, single, double) == Err::<(Seq<char>, bool), Failure>(ev(e)));
                    }
                    return Err(e);
                },
                Ok(None) => {
                    out.push('!');
                    i += 1;
                    proof {
                        assert(out@ =~= o0 + seq!['!']);
                        lemma_prepend_twice(o0, c0, seq!['!'], false, scan(c@, hv, i as int, single, double));
                    }
                },
                Ok(Some((t, next))) => {
                    out = text::concat(out.as_slice(), t.as_slice());
                    i = next;
                    changed = true;
                    proof {
                        lemma_prepend_twice(o0, c0, t@, true, scan(c@, hv, i as int, single, double));
                    }
                },
            }
        } else {
            out.push(ch);
            i += 1;
            proof {
                assert(out@ =~= o0 + seq![ch]);
                lemma_prepend_twice(o0, c0, seq![ch], false, scan(c@, hv, i as int, single, double));
            }
        }
    }
    if changed {
        Ok(Some(out))
    } else {
        Ok(None)
    }
}

/// Whether `p` occurs somewhere in `s`.
pub open spec fn holds_text(s: Seq<char>, p: Seq<char>) -> bool {
    exists|k: int| crate::text::occurs_at(s, p, k)
}

proof fn lemma_find_from_finds(s: Seq<char>, p: Seq<char>, from: int, k: int)
    requires
        0 <= from <= k,
        crate::text::occurs_at(s, p, k),
    ensures
        crate::text::find_from(s, p, from) is Some,
    decreases k - from,
{
    if !crate::text::occurs_at(s, p, from) {
        lemma_find_from_finds(s, p, from + 1, k);
    }
}

proof fn lemma_find_is_holds(s: Seq<char>, p: Seq<char>)
    ensures
        (find(s, p) is Some) == holds_text(s, p),
{
    crate::text::lemma_find_from_bounds(s, p, 0);
    if holds_text(s, p) {
        let k = choose|k: int| crate::text::occurs_at(s, p, k);
        lemma_find_from_finds(s, p, 0, k);
    }
}

/// `!?str?` takes the most recent line holding `str`: the line it gives is in the history and
/// holds `str`, and no later line does; and it gives nothing only when no line holds `str`.
pub proof fn law_a_search_takes_the_most_recent_line_holding_it(h: Hist, needle: Seq<char>)
    ensures
        match last_containing(h, needle) {
            Some(e) => exists|i: int|
                #![trigger h[i]]
                0 <= i < h.len() && h[i] == e && holds_text(e, needle) && forall|j: int|
                    i < j < h.len() ==> !holds_text(#[trigger] h[j], needle),
            None => forall|j: int| 0 <= j < h.len() ==> !holds_text(#[trigger] h[j], needle),
        },
    decreases h.len(),
{
    if h.len() > 0 {
        let d = h.drop_last();
        law_a_search_takes_the_most_recent_line_holding_it(d, needle);
        lemma_find_is_holds(h.last(), needle);
        let i_last = h.len() - 1;
        assert(h[i_last] == h.last());
        if find(h.last(), needle) is Some {
            assert(forall|j: int| i_last < j < h.len() ==> !holds_text(#[trigger] h[j], needle));
        } else {
            match last_containing(d, needle) {
                Some(e) => {
                    let i = choose|i: int|
                        #![trigger d[i]]
                        0 <= i < d.len() && d[i] == e && holds_text(e, needle) && forall|j: int|
                            i < j < d.len() ==> !holds_text(#[trigger] d[j], needle);
                    assert(h[i] == d[i]);
                    assert forall|j: int| i < j < h.len() implies !holds_text(#[trigger] h[j], needle) by {
                        if j < d.len() {
                            assert(h[j] == d[j]);
                        }
                    }
                },
                None => {
                    assert forall|j: int| 0 <= j < h.len() implies !holds_text(#[trigger] h[j], needle) by {
                        if j < d.len() {
                            assert(h[j] == d[j]);
                        }
                    }
                },
            }
        }
    }
}

/// `!str` takes the most recent line starting with `str`: the line it gives is in the history
/// and starts with `str`, and no later line does; and it gives nothing only when no line does.
pub proof fn law_a_prefix_takes_the_most_recent_line_starting_with_it(h: Hist, prefix: Seq<char>)
    ensures
        match last_starting(h, prefix) {
            Some(e) => exists|i: int|
                #![trigger h[i]]
                0 <= i < h.len() && h[i] == e && prefix.len() <= e.len() && e.subrange(0, prefix.len() as int)
                    == prefix && forall|j: int|
                    i < j < h.len() ==> !(prefix.len() <= (#[trigger] h[j]).len() && h[j].subrange(
                        0,
                        prefix.len() as int,
                    ) == prefix),
            None => forall|j: int|
                0 <= j < h.len() ==> !(prefix.len() <= (#[trigger] h[j]).len() && h[j].subrange(
                    0,
                    prefix.len() as int,
                ) == prefix),
        },
    decreases h.len(),
{
    if h.len() > 0 {
        let d = h.drop_last();
        law_a_prefix_takes_the_most_recent_line_starting_with_it(d, prefix);
        let i_last = h.len() - 1;
        assert(h[i_last] == h.last());
        if !spec_starts_with(h.last(), prefix) {
            match last_starting(d, prefix) {
                Some(e) => {
                    let i = choose|i: int|
                        #![trigger d[i]]
                        0 <= i < d.len() && d[i] == e && prefix.len() <= e.len() && e.subrange(
                            0,
                            prefix.len() as int,
                        ) == prefix && forall|j: int|
                            i < j < d.len() ==> !(prefix.len() <= (#[trigger] d[j]).len() && d[j].subrange(
                                0,
                                prefix.len() as int,
                            ) == prefix);
                    assert(h[i] == d[i]);
                    assert forall|j: int| i < j < h.len() implies !(prefix.len() <= (#[trigger] h[j]).len()
                        && h[j].subrange(0, prefix.len() as int) == prefix) by {
                        if j < d.len() {
                            assert(h[j] == d[j]);
                        }
                    }
                },
                None => {
                    assert forall|j: int| 0 <= j < h.len() implies !(prefix.len() <= (#[trigger] h[j]).len()
                        && h[j].subrange(0, prefix.len() as int) == prefix) by {
                        if j < d.len() {
                            assert(h[j] == d[j]);
                        }
                    }
                },
            }
        }
    }
}

/// Text that expansion passes through as it stands: no `!`, no backslash, no quote.
pub open spec fn inert(q: Seq<char>) -> bool {
    forall|i: int| 0 <= i < q.len() ==> #[trigger] q[i] != '!' && q[i] != '\\' && q[i] != '\'' && q[i] != '"'
}

/// What may follow a reference without being read as part of it: nothing, or a character that
/// neither continues a number nor starts a word designator.
pub open spec fn ends_reference(q: Seq<char>) -> bool {
    q.len() == 0 || (!spec_is_ascii_digit(q[0]) && q[0] != ':' && q[0] != '^' && q[0] != '$' && q[0] != '*')
}

proof fn lemma_scan_inert(c: Seq<char>, h: Hist, i: int, single: bool, double: bool)
    requires
        0 <= i <= c.len(),
        inert(c.subrange(i, c.len() as int)),
    ensures
        scan(c, h, i, single, double) == Ok::<(Seq<char>, bool), Failure>((c.subrange(i, c.len() as int), false)),
    decreases c.len() - i,
{
    if i < c.len() {
        let t = c.subrange(i, c.len() as int);
        assert(t[0] == c[i]);
        assert(inert(c.subrange(i + 1, c.len() as int))) by {
            assert forall|k: int| 0 <= k < c.len() - (i + 1) implies #[trigger] c.subrange(i + 1, c.len() as int)[k]
                != '!' && c.subrange(i + 1, c.len() as int)[k] != '\\' && c.subrange(i + 1, c.len() as int)[k] != '\''
                && c.subrange(i + 1, c.len() as int)[k] != '"' by {
                assert(c.subrange(i + 1, c.len() as int)[k] == t[k + 1]);
            }
        }
        lemma_scan_inert(c, h, i + 1, single, double);
        assert(seq![c[i]] + c.subrange(i + 1, c.len() as int) =~= t);
    } else {
        assert(c.subrange(i, c.len() as int) =~= Seq::<char>::empty());
    }
}

proof fn lemma_digits_run(c: Seq<char>, at: int, n: int)
    requires
        0 <= at,
        0 <= n,
        at + n <= c.len(),
        forall|k: int| at <= k < at + n ==> spec_is_ascii_digit(#[trigger] c[k]),
        at + n == c.len() || !spec_is_ascii_digit(c[at + n]),
    ensures
        digits_end(c, at) == at + n,
    decreases n,
{
    if n > 0 {
        lemma_digits_run(c, at + 1, n - 1);
    }
}

/// The first place at or after `from` where `p` occurs, when it is `k`, has no occurrence
/// before it.
proof fn lemma_find_from_first(s: Seq<char>, p: Seq<char>, from: int)
    ensures
        crate::text::find_from(s, p, from) matches Some(k) ==> forall|m: int|
            from <= m < k ==> !crate::text::occurs_at(s, p, m),
    decreases s.len() + 1 - from,
{
    if !(from < 0 || from + p.len() > s.len()) && !crate::text::occurs_at(s, p, from) {
        lemma_find_from_first(s, p, from + 1);
    }
}

/// Where `p` first occurs in `s`, if anywhere, is where `find` says.
proof fn lemma_find_first(s: Seq<char>, p: Seq<char>)
    ensures
        find(s, p) matches Some(k) ==> crate::text::occurs_at(s, p, k) && forall|m: int|
            0 <= m < k ==> !crate::text::occurs_at(s, p, m),
        find(s, p) is None ==> forall|m: int| !crate::text::occurs_at(s, p, m),
{
    crate::text::lemma_find_from_bounds(s, p, 0);
    lemma_find_from_first(s, p, 0);
    if find(s, p) is None {
        assert forall|m: int| !crate::text::occurs_at(s, p, m) by {
            if crate::text::occurs_at(s, p, m) {
                lemma_find_from_finds(s, p, 0, m);
            }
        }
    }
}

/// The first `^` of `x` + `^` + `y` is the one after `x`, when `x` holds none.
proof fn lemma_find_caret(x: Seq<char>, y: Seq<char>)
    requires
        forall|i: int| 0 <= i < x.len() ==> #[trigger] x[i] != '^',
    ensures
        find(x + seq!['^'] + y, seq!['^']) == Some(x.len() as int),
{
    let s = x + seq!['^'] + y;
    assert(crate::text::occurs_at(s, seq!['^'], x.len() as int)) by {
        assert(s.subrange(x.len() as int, x.len() + 1int) =~= seq!['^']);
    }
    lemma_find_first(s, seq!['^']);
    lemma_find_from_finds(s, seq!['^'], 0, x.len() as int);
    let k = find(s, seq!['^']).unwrap();
    crate::text::lemma_find_from_bounds(s, seq!['^'], 0);
    if k < x.len() {
        assert(s.subrange(k, k + 1)[0] == x[k]);
    }
    assert(!(k > x.len()));
}

proof fn lemma_question_run(c: Seq<char>, at: int, n: int)
    requires
        0 <= at,
        0 <= n,
        at + n <= c.len(),
        forall|k: int| at <= k < at + n ==> #[trigger] c[k] != '?',
        at + n == c.len() || c[at + n] == '?',
    ensures
        question_end(c, at) == at + n,
    decreases n,
{
    if n > 0 {
        lemma_question_run(c, at + 1, n - 1);
    }
}

/// An event reference at the start of a line, taking the line `e` and ending at `next`, with
/// inert text after it: the line expands to `e` followed by that text.
proof fn lemma_reference_then_inert(l: Seq<char>, h: Hist, next: int, e: Seq<char>)
    requires
        l.len() >= 2,
        l[0] == '!',
        2 <= next <= l.len(),
        event_at(l, 0, h) == Ok::<Option<(Seq<char>, int)>, Failure>(Some((e, next))),
        inert(l.subrange(next, l.len() as int)),
    ensures
        spec_expand(l, h) == Ok::<Option<Seq<char>>, Failure>(Some(e + l.subrange(next, l.len() as int))),
{
    lemma_scan_inert(l, h, next, false, false);
    assert(!is_glob_negation(l, 0));
}

/// `!!` is the last line, and fails with `!!: event not found` when there is none; what follows it
/// is kept.
pub proof fn law_bang_bang_repeats_the_last_line(h: Hist, q: Seq<char>)
    requires
        inert(q),
        ends_reference(q),
    ensures
        h.len() > 0 ==> spec_expand(seq!['!', '!'] + q, h) == Ok::<Option<Seq<char>>, Failure>(Some(h.last() + q)),
        h.len() == 0 ==> spec_expand(seq!['!', '!'] + q, h) == Err::<Option<Seq<char>>, Failure>(
            (ErrKind::EventNotFound, "!!"@),
        ),
{
    let l = seq!['!', '!'] + q;
    assert(l[0] == '!' && l[1] == '!');
    assert(l.subrange(2, l.len() as int) =~= q);
    if q.len() > 0 {
        assert(l[2] == q[0]);
    }
    assert(!is_glob_negation(l, 0));
    if h.len() > 0 {
        assert(h[h.len() - 1] == h.last());
        lemma_reference_then_inert(l, h, 2, h.last());
    }
}

/// `!-n` is the line `n` back from the newest, `!-1` being the newest itself; it fails when there
/// are fewer than `n` lines or `n` is 0. What follows it is kept.
pub proof fn law_bang_minus_n_counts_back(h: Hist, d: Seq<char>, q: Seq<char>)
    requires
        d.len() > 0,
        forall|k: int| 0 <= k < d.len() ==> spec_is_ascii_digit(#[trigger] d[k]),
        digits_value(d) <= usize::MAX,
        inert(q),
        ends_reference(q),
    ensures
        0 < digits_value(d) <= h.len() ==> spec_expand(seq!['!', '-'] + d + q, h) == Ok::<Option<Seq<char>>, Failure>(
            Some(h[h.len() - digits_value(d)] + q),
        ),
        !(0 < digits_value(d) <= h.len()) ==> spec_expand(seq!['!', '-'] + d + q, h) is Err,
{
    let l = seq!['!', '-'] + d + q;
    let end: int = 2 + d.len() as int;
    assert(l[0] == '!' && l[1] == '-');
    assert forall|k: int| 2 <= k < end implies spec_is_ascii_digit(#[trigger] l[k]) by {
        assert(l[k] == d[k - 2]);
    }
    if q.len() > 0 {
        assert(l[end] == q[0]);
    }
    lemma_digits_run(l, 2, d.len() as int);
    assert(l.subrange(2, end) =~= d);
    assert(l.subrange(end, l.len() as int) =~= q);
    assert(!is_glob_negation(l, 0));
    if 0 < digits_value(d) <= h.len() {
        lemma_reference_then_inert(l, h, end, h[h.len() - digits_value(d)]);
    }
}

/// `!n` is line `n` of the history, counting the oldest as 1; it fails when there is no such
/// line. What follows it is kept.
pub proof fn law_bang_n_is_the_nth_line(h: Hist, d: Seq<char>, q: Seq<char>)
    requires
        d.len() > 0,
        forall|k: int| 0 <= k < d.len() ==> spec_is_ascii_digit(#[trigger] d[k]),
        digits_value(d) <= usize::MAX,
        inert(q),
        ends_reference(q),
    ensures
        0 < digits_value(d) <= h.len() ==> spec_expand(seq!['!'] + d + q, h) == Ok::<Option<Seq<char>>, Failure>(
            Some(h[digits_value(d) - 1] + q),
        ),
        !(0 < digits_value(d) <= h.len()) ==> spec_expand(seq!['!'] + d + q, h) is Err,
{
    let l = seq!['!'] + d + q;
    let end: int = 1 + d.len() as int;
    assert(l[0] == '!' && l[1] == d[0]);
    assert forall|k: int| 1 <= k < end implies spec_is_ascii_digit(#[trigger] l[k]) by {
        assert(l[k] == d[k - 1]);
    }
    if q.len() > 0 {
        assert(l[end] == q[0]);
    }
    lemma_digits_run(l, 1, d.len() as int);
    assert(l.subrange(1, end) =~= d);
    assert(l.subrange(end, l.len() as int) =~= q);
    assert(!is_glob_negation(l, 0));
    if 0 < digits_value(d) <= h.len() {
        lemma_reference_then_inert(l, h, end, h[digits_value(d) - 1]);
    }
}

/// `!?str?` is the most recent line holding `str` (see
/// [`law_a_search_takes_the_most_recent_line_holding_it`]), and fails naming `!?str` when no line
/// holds it. What follows it is kept.
pub proof fn law_bang_question_searches_back(h: Hist, needle: Seq<char>, q: Seq<char>)
    requires
        forall|k: int| 0 <= k < needle.len() ==> #[trigger] needle[k] != '?',
        inert(q),
        ends_reference(q),
    ensures
        spec_expand(seq!['!', '?'] + needle + seq!['?'] + q, h) == match last_containing(h, needle) {
            Some(e) => Ok::<Option<Seq<char>>, Failure>(Some(e + q)),
            None => Err::<Option<Seq<char>>, Failure>((ErrKind::EventNotFound, "!?"@ + needle)),
        },
{
    let l = seq!['!', '?'] + needle + seq!['?'] + q;
    let end: int = 2 + needle.len() as int;
    assert(l[0] == '!' && l[1] == '?' && l[end] == '?');
    assert forall|k: int| 2 <= k < end implies #[trigger] l[k] != '?' by {
        assert(l[k] == needle[k - 2]);
    }
    lemma_question_run(l, 2, needle.len() as int);
    assert(l.subrange(2, end) =~= needle);
    if q.len() > 0 {
        assert(l[end + 1] == q[0]);
    }
    assert(l.subrange(end + 1, l.len() as int) =~= q);
    assert(!is_glob_negation(l, 0));
    if let Some(e) = last_containing(h, needle) {
        lemma_reference_then_inert(l, h, end + 1, e);
    }
}

/// `^old^new^rest` is the last line with its first `old` replaced by `new`, and `rest` after it;
/// it fails as a substitution when the last line holds no `old`, and as `!!` when there is no
/// line at all.
pub proof fn law_caret_replaces_the_first_occurrence(h: Hist, old: Seq<char>, new: Seq<char>, rest: Seq<char>, k: int)
    requires
        old.len() > 0,
        forall|i: int| 0 <= i < old.len() ==> #[trigger] old[i] != '^',
        forall|i: int| 0 <= i < new.len() ==> #[trigger] new[i] != '^',
    ensures
        ({
            let l = seq!['^'] + old + seq!['^'] + new + seq!['^'] + rest;
            &&& h.len() == 0 ==> spec_expand(l, h) == Err::<Option<Seq<char>>, Failure>((ErrKind::EventNotFound, "!!"@))
            &&& h.len() > 0 && crate::text::occurs_at(h.last(), old, k) && (forall|m: int|
                0 <= m < k ==> !crate::text::occurs_at(h.last(), old, m)) ==> spec_expand(l, h) == Ok::<
                Option<Seq<char>>,
                Failure,
            >(
                Some(h.last().subrange(0, k) + new + h.last().subrange(k + old.len(), h.last().len() as int) + rest),
            )
            &&& h.len() > 0 && (forall|m: int| !crate::text::occurs_at(h.last(), old, m)) ==> spec_expand(l, h)
                == Err::<Option<Seq<char>>, Failure>((ErrKind::SubstitutionFailed, l))
        }),
{
    let l = seq!['^'] + old + seq!['^'] + new + seq!['^'] + rest;
    let body = l.subrange(1, l.len() as int);
    assert(body =~= old + seq!['^'] + (new + seq!['^'] + rest));
    lemma_find_caret(old, new + seq!['^'] + rest);
    let after = body.subrange(old.len() + 1int, body.len() as int);
    assert(body.subrange(0, old.len() as int) =~= old);
    assert(after =~= new + seq!['^'] + rest);
    lemma_find_caret(new, rest);
    assert(after.subrange(0, new.len() as int) =~= new);
    assert(after.subrange(new.len() + 1int, after.len() as int) =~= rest);
    if h.len() > 0 {
        lemma_find_first(h.last(), old);
        if crate::text::occurs_at(h.last(), old, k) && (forall|m: int| 0 <= m < k ==> !crate::text::occurs_at(h.last(), old, m)) {
            let f = find(h.last(), old).unwrap();
            assert(!(f < k));
            assert(!(k < f)) by {
                if k < f {
                    assert(!crate::text::occurs_at(h.last(), old, k));
                }
            }
        }
    }
}

proof fn lemma_join_one(w: Seq<char>)
    ensures
        join(seq![w]) == w,
{
}

/// `!$` is the last word of the last line and `!^` its first argument, the word after the
/// command; either fails as a bad word specifier when the line has no such word. What follows is
/// kept.
pub proof fn law_bang_dollar_and_caret_pick_words(h: Hist, q: Seq<char>)
    requires
        h.len() > 0,
        inert(q),
    ensures
        words(h.last()).len() > 0 ==> spec_expand(seq!['!', '$'] + q, h) == Ok::<Option<Seq<char>>, Failure>(
            Some(words(h.last()).last() + q),
        ),
        words(h.last()).len() == 0 ==> spec_expand(seq!['!', '$'] + q, h) is Err,
        words(h.last()).len() > 1 ==> spec_expand(seq!['!', '^'] + q, h) == Ok::<Option<Seq<char>>, Failure>(
            Some(words(h.last())[1] + q),
        ),
        words(h.last()).len() <= 1 ==> spec_expand(seq!['!', '^'] + q, h) is Err,
{
    let ws = words(h.last());
    assert(h[h.len() - 1] == h.last());
    let l1 = seq!['!', '$'] + q;
    let l2 = seq!['!', '^'] + q;
    assert(l1[0] == '!' && l1[1] == '$' && l2[0] == '!' && l2[1] == '^');
    assert(l1.subrange(2, l1.len() as int) =~= q);
    assert(l2.subrange(2, l2.len() as int) =~= q);
    if ws.len() > 0 {
        assert(ws.subrange(ws.len() - 1, ws.len() as int) =~= seq![ws.last()]);
        lemma_join_one(ws.last());
        lemma_reference_then_inert(l1, h, 2, ws.last());
    } else {
        assert(!is_glob_negation(l1, 0));
    }
    if ws.len() > 1 {
        assert(ws.subrange(1, 2) =~= seq![ws[1]]);
        lemma_join_one(ws[1]);
        lemma_reference_then_inert(l2, h, 2, ws[1]);
    } else {
        assert(!is_glob_negation(l2, 0));
    }
}

/// `!!:n` is word `n` of the last line, the command being word 0; it fails as a bad word
/// specifier when there is no such word. What follows is kept.
pub proof fn law_a_numbered_word_is_that_word(h: Hist, d: Seq<char>, q: Seq<char>)
    requires
        h.len() > 0,
        d.len() > 0,
        forall|k: int| 0 <= k < d.len() ==> spec_is_ascii_digit(#[trigger] d[k]),
        digits_value(d) <= usize::MAX,
        inert(q),
        q.len() == 0 || (!spec_is_ascii_digit(q[0]) && q[0] != '*' && q[0] != '-'),
    ensures
        digits_value(d) < words(h.last()).len() ==> spec_expand(seq!['!', '!', ':'] + d + q, h) == Ok::<
            Option<Seq<char>>,
            Failure,
        >(Some(words(h.last())[digits_value(d) as int] + q)),
        digits_value(d) >= words(h.last()).len() ==> spec_expand(seq!['!', '!', ':'] + d + q, h) is Err,
{
    let ws = words(h.last());
    let n = digits_value(d) as int;
    assert(h[h.len() - 1] == h.last());
    let l = seq!['!', '!', ':'] + d + q;
    let end: int = 3 + d.len() as int;
    assert(l[0] == '!' && l[1] == '!' && l[2] == ':' && l[3] == d[0]);
    assert forall|k: int| 3 <= k < end implies spec_is_ascii_digit(#[trigger] l[k]) by {
        assert(l[k] == d[k - 3]);
    }
    if q.len() > 0 {
        assert(l[end] == q[0]);
    }
    lemma_digits_run(l, 3, d.len() as int);
    assert(l.subrange(3, end) =~= d);
    assert(l.subrange(end, l.len() as int) =~= q);
    if n < ws.len() {
        assert(ws.subrange(n, n + 1) =~= seq![ws[n]]);
        lemma_join_one(ws[n]);
        lemma_reference_then_inert(l, h, end, ws[n]);
    } else {
        assert(!is_glob_negation(l, 0));
    }
}

proof fn lemma_scan_without_bang(c: Seq<char>, h: Hist, i: int, single: bool, double: bool)
    requires
        0 <= i <= c.len(),
        forall|k: int| i <= k < c.len() ==> #[trigger] c[k] != '!',
    ensures
        scan(c, h, i, single, double) == Ok::<(Seq<char>, bool), Failure>((c.subrange(i, c.len() as int), false)),
    decreases c.len() - i,
{
    if i < c.len() {
        let ch = c[i];
        if ch == '\\' && !single {
            if i + 1 < c.len() {
                lemma_scan_without_bang(c, h, i + 2, single, double);
                assert(seq!['\\', c[i + 1]] + c.subrange(i + 2, c.len() as int) =~= c.subrange(i, c.len() as int));
            } else {
                lemma_scan_without_bang(c, h, i + 1, single, double);
                assert(seq!['\\'] + c.subrange(i + 1, c.len() as int) =~= c.subrange(i, c.len() as int));
            }
        } else if ch == '\'' && !double {
            lemma_scan_without_bang(c, h, i + 1, !single, double);
            assert(seq!['\''] + c.subrange(i + 1, c.len() as int) =~= c.subrange(i, c.len() as int));
        } else if ch == '"' && !single {
            lemma_scan_without_bang(c, h, i + 1, single, !double);
            assert(seq!['"'] + c.subrange(i + 1, c.len() as int) =~= c.subrange(i, c.len() as int));
        } else {
            lemma_scan_without_bang(c, h, i + 1, single, double);
            assert(seq![ch] + c.subrange(i + 1, c.len() as int) =~= c.subrange(i, c.len() as int));
        }
    } else {
        assert(c.subrange(i, c.len() as int) =~= Seq::<char>::empty());
    }
}

/// A line with no `!` in it, and not opening with `^`, is left as it is, whatever the history.
pub proof fn law_a_line_without_a_reference_is_unchanged(l: Seq<char>, h: Hist)
    requires
        forall|k: int| 0 <= k < l.len() ==> #[trigger] l[k] != '!',
        l.len() == 0 || l[0] != '^',
    ensures
        spec_expand(l, h) == Ok::<Option<Seq<char>>, Failure>(None),
{
    lemma_scan_without_bang(l, h, 0, false, false);
}

proof fn lemma_scan_in_single_quotes(c: Seq<char>, h: Hist, i: int, e: int)
    requires
        0 <= i <= e < c.len(),
        c[e] == '\'',
        forall|k: int| i <= k < e ==> #[trigger] c[k] != '\'',
    ensures
        scan(c, h, i, true, false) == prepend(c.subrange(i, e + 1), false, scan(c, h, e + 1, false, false)),
    decreases e - i,
{
    if i < e {
        lemma_scan_in_single_quotes(c, h, i + 1, e);
        let r = scan(c, h, e + 1, false, false);
        assert(seq![c[i]] + c.subrange(i + 1, e + 1) =~= c.subrange(i, e + 1));
        match r {
            Ok((o, ch)) => {
                assert(seq![c[i]] + (c.subrange(i + 1, e + 1) + o) =~= c.subrange(i, e + 1) + o);
            },
            Err(_) => {},
        }
    } else {
        assert(c.subrange(e, e + 1) =~= seq!['\'']);
    }
}

/// Inside single quotes nothing is expanded: a line that is one single-quoted stretch, `!`s and
/// all, is left as it is; and a `!` after a backslash is ordinary text too.
pub proof fn law_quoting_stops_expansion(x: Seq<char>, q: Seq<char>, h: Hist)
    requires
        forall|k: int| 0 <= k < x.len() ==> #[trigger] x[k] != '\'',
        inert(q),
    ensures
        spec_expand(seq!['\''] + x + seq!['\''], h) == Ok::<Option<Seq<char>>, Failure>(None),
        spec_expand(seq!['\\', '!'] + q, h) == Ok::<Option<Seq<char>>, Failure>(None),
{
    let l = seq!['\''] + x + seq!['\''];
    let e: int = x.len() as int + 1;
    assert(l[0] == '\'' && l[e] == '\'');
    assert forall|k: int| 1 <= k < e implies #[trigger] l[k] != '\'' by {
        assert(l[k] == x[k - 1]);
    }
    lemma_scan_in_single_quotes(l, h, 1, e);
    lemma_scan_inert(l, h, e + 1, false, false);
    assert(l.subrange(e + 1, l.len() as int) =~= Seq::<char>::empty());
    let m = seq!['\\', '!'] + q;
    assert(m[0] == '\\' && m[1] == '!');
    assert(m.subrange(2, m.len() as int) =~= q);
    lemma_scan_inert(m, h, 2, false, false);
}

/// `!*` is every argument of the last line, joined by single spaces, and nothing when it has no
/// argument. What follows is kept.
pub proof fn law_bang_star_is_all_the_arguments(h: Hist, q: Seq<char>)
    requires
        h.len() > 0,
        inert(q),
    ensures
        spec_expand(seq!['!', '*'] + q, h) == Ok::<Option<Seq<char>>, Failure>(Some(
            (if words(h.last()).len() > 1 {
                join(words(h.last()).subrange(1, words(h.last()).len() as int))
            } else {
                Seq::<char>::empty()
            }) + q,
        )),
{
    let l = seq!['!', '*'] + q;
    assert(h[h.len() - 1] == h.last());
    assert(l[0] == '!' && l[1] == '*');
    assert(l.subrange(2, l.len() as int) =~= q);
    let ws = words(h.last());
    let t = if ws.len() > 1 { join(ws.subrange(1, ws.len() as int)) } else { Seq::<char>::empty() };
    lemma_reference_then_inert(l, h, 2, t);
}

/// The words of a line are its longest stretches without whitespace: none is empty and none
/// holds whitespace.
pub proof fn law_words_are_the_stretches_between_spaces(s: Seq<char>)
    ensures
        forall|i: int| 0 <= i < words(s).len() ==> (#[trigger] words(s)[i]).len() > 0,
        forall|i: int, k: int|
            0 <= i < words(s).len() && 0 <= k < words(s)[i].len() ==> !spec_is_whitespace(#[trigger] words(s)[i][k]),
        words_scan(s).1 == (s.len() > 0 && !spec_is_whitespace(s.last())),
    decreases s.len(),
{
    if s.len() > 0 {
        law_words_are_the_stretches_between_spaces(s.drop_last());
        let (ws, inside) = words_scan(s.drop_last());
        let c = s.last();
        if !spec_is_whitespace(c) {
            if inside {
                assert(ws.len() > 0) by {
                    if ws.len() == 0 {
                        assert(words_scan(s.drop_last()).1 ==> words(s.drop_last()).len() > 0) by {
                            lemma_inside_has_a_word(s.drop_last());
                        }
                    }
                }
                let nw = ws.update(ws.len() - 1, ws.last().push(c));
                assert forall|i: int, k: int| 0 <= i < nw.len() && 0 <= k < nw[i].len() implies !spec_is_whitespace(
                    #[trigger] nw[i][k],
                ) by {
                    if i < ws.len() - 1 {
                        assert(nw[i] == ws[i]);
                    } else if k < ws.last().len() {
                        assert(nw[i][k] == ws[ws.len() - 1][k]);
                    }
                }
            } else {
                let nw = ws.push(seq![c]);
                assert forall|i: int, k: int| 0 <= i < nw.len() && 0 <= k < nw[i].len() implies !spec_is_whitespace(
                    #[trigger] nw[i][k],
                ) by {
                    if i < ws.len() {
                        assert(nw[i] == ws[i]);
                    }
                }
            }
        }
    }
}

proof fn lemma_inside_has_a_word(s: Seq<char>)
    ensures
        words_scan(s).1 ==> words_scan(s).0.len() > 0,
    decreases s.len(),
{
    if s.len() > 0 {
        lemma_inside_has_a_word(s.drop_last());
    }
}

} // verus!
