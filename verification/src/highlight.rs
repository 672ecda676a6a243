//! Syntax colouring for the line being typed: the line split into spans, each with the kind of
//! thing it is. The spans, put back together, are exactly the line.

use vstd::prelude::*;
use crate::text::{self, alphanumeric, spec_is_whitespace};

verus! {

/// What a span of the line is.
#[derive(Debug, Clone, Copy, PartialEq, Eq, Structural)]
pub enum TokenType {
    Command,
    Flag,
    String,
    Variable,
    Operator,
    Plain,
}

pub open spec fn is_operator(c: char) -> bool {
    c == '|' || c == '&' || c == ';' || c == '<' || c == '>'
}

/// What ends a plain word.
pub open spec fn ends_word(c: char) -> bool {
    spec_is_whitespace(c) || is_operator(c) || c == '\'' || c == '"' || c == '$'
}

/// What may follow `$` in a variable's name.
pub open spec fn in_variable(c: char) -> bool {
    alphanumeric(c) || c == '_' || c == '?' || c == '!' || c == '#'
}

/// Whether `c` continues a run: of whitespace (kind 0), of a word (kind 1), or of a variable's
/// name (otherwise).
pub open spec fn keeps(c: char, kind: int) -> bool {
    if kind == 0 {
        spec_is_whitespace(c)
    } else if kind == 1 {
        !ends_word(c)
    } else {
        in_variable(c)
    }
}

/// The first index at or after `i` where the run of `kind` stops.
pub open spec fn run_end(cs: Seq<char>, i: int, kind: int) -> int
    decreases cs.len() - i,
{
    if 0 <= i < cs.len() && keeps(cs[i], kind) {
        run_end(cs, i + 1, kind)
    } else {
        i
    }
}

/// Just past the closing quote `q` at or after `i`, or the end of the line when it never closes.
pub open spec fn quote_end(cs: Seq<char>, i: int, q: char) -> int
    decreases cs.len() - i,
{
    if !(0 <= i < cs.len()) {
        i
    } else if cs[i] == q {
        i + 1
    } else {
        quote_end(cs, i + 1, q)
    }
}

/// The span that starts at `i`: where it ends, what it is, and whether the next word is in
/// command position.
pub open spec fn span_at(cs: Seq<char>, i: int, first: bool) -> (int, TokenType, bool) {
    let ch = cs[i];
    if spec_is_whitespace(ch) {
        (run_end(cs, i, 0), TokenType::Plain, first)
    } else if is_operator(ch) {
        let doubled = i + 1 < cs.len() && ((ch == '|' && cs[i + 1] == '|') || (ch == '&' && cs[i + 1]
            == '&') || (ch == '>' && cs[i + 1] == '>'));
        (if doubled {
            i + 2
        } else {
            i + 1
        }, TokenType::Operator, true)
    } else if ch == '\'' || ch == '"' {
        (quote_end(cs, i + 1, ch), TokenType::String, false)
    } else if ch == '$' {
        (run_end(cs, i + 1, 2), TokenType::Variable, false)
    } else {
        (run_end(cs, i, 1), if first {
            TokenType::Command
        } else if ch == '-' {
            TokenType::Flag
        } else {
            TokenType::Plain
        }, false)
    }
}

proof fn lemma_run_end(cs: Seq<char>, i: int, kind: int)
    requires
        0 <= i <= cs.len(),
    ensures
        i <= run_end(cs, i, kind) <= cs.len(),
    decreases cs.len() - i,
{
    if i < cs.len() {
        lemma_run_end(cs, i + 1, kind);
    }
}

proof fn lemma_quote_end(cs: Seq<char>, i: int, q: char)
    requires
        0 <= i <= cs.len(),
    ensures
        i <= quote_end(cs, i, q) <= cs.len(),
    decreases cs.len() - i,
{
    if i < cs.len() && cs[i] != q {
        lemma_quote_end(cs, i + 1, q);
    }
}

/// Every span is at least one character long and stays in the line.
pub proof fn lemma_span_advances(cs: Seq<char>, i: int, first: bool)
    requires
        0 <= i < cs.len(),
    ensures
        i < span_at(cs, i, first).0 <= cs.len(),
{
    lemma_run_end(cs, i + 1, 0);
    lemma_run_end(cs, i + 1, 1);
    lemma_run_end(cs, i + 1, 2);
    lemma_quote_end(cs, i + 1, cs[i]);
    if !spec_is_whitespace(cs[i]) && !is_operator(cs[i]) && cs[i] != '\'' && cs[i] != '"' && cs[i] != '$' {
        assert(!ends_word(cs[i]));
    }
}

/// The spans of `cs` from `i` on.
pub open spec fn spans(cs: Seq<char>, i: int, first: bool) -> Seq<(Seq<char>, TokenType)>
    decreases cs.len() - i,
{
    if !(0 <= i < cs.len()) {
        seq![]
    } else {
        let (end, kind, next_first) = span_at(cs, i, first);
        proof {
            lemma_span_advances(cs, i, first);
        }
        seq![(cs.subrange(i, end), kind)] + spans(cs, end, next_first)
    }
}

/// The texts of `ts`, one after another.
pub open spec fn joined(ts: Seq<(Seq<char>, TokenType)>) -> Seq<char>
    decreases ts.len(),
{
    if ts.len() == 0 {
        seq![]
    } else {
        ts[0].0 + joined(ts.drop_first())
    }
}

fn run_end_x(cs: &[char], i: usize, kind: u8) -> (r: usize)
    requires
        i <= cs@.len(),
    ensures
        r == run_end(cs@, i as int, kind as int),
        i <= r <= cs@.len(),
{
    proof {
        lemma_run_end(cs@, i as int, kind as int);
    }
    let mut j = i;
    while j < cs.len() && keeps_x(cs[j], kind)
        invariant
            i <= j <= cs@.len(),
            run_end(cs@, j as int, kind as int) == run_end(cs@, i as int, kind as int),
        decreases cs.len() - j,
    {
        j += 1;
    }
    j
}

fn keeps_x(c: char, kind: u8) -> (r: bool)
    ensures
        r == keeps(c, kind as int),
{
    if kind == 0 {
        text::is_whitespace(c)
    } else if kind == 1 {
        !(text::is_whitespace(c) || c == '|' || c == '&' || c == ';' || c == '<' || c == '>' || c
            == '\'' || c == '"' || c == '$')
    } else {
        text::is_alphanumeric(c) || c == '_' || c == '?' || c == '!' || c == '#'
    }
}

fn quote_end_x(cs: &[char], i: usize, q: char) -> (r: usize)
    requires
        i <= cs@.len(),
    ensures
        r == quote_end(cs@, i as int, q),
{
    let mut j = i;
    while j < cs.len()
        invariant
            i <= j <= cs@.len(),
            quote_end(cs@, j as int, q) == quote_end(cs@, i as int, q),
        decreases cs.len() - j,
    {
        if cs[j] == q {
            return j + 1;
        }
        j += 1;
    }
    j
}

fn span_x(cs: &[char], i: usize, first: bool) -> (r: (usize, TokenType, bool))
    requires
        i < cs@.len(),
    ensures
        (r.0 as int, r.1, r.2) == span_at(cs@, i as int, first),
{
    let ch = cs[i];
    if text::is_whitespace(ch) {
        (run_end_x(cs, i, 0), TokenType::Plain, first)
    } else if ch == '|' || ch == '&' || ch == ';' || ch == '<' || ch == '>' {
        let doubled = i + 1 < cs.len() && ((ch == '|' && cs[i + 1] == '|') || (ch == '&' && cs[i
            + 1] == '&') || (ch == '>' && cs[i + 1] == '>'));
        (if doubled {
            i + 2
        } else {
            i + 1
        }, TokenType::Operator, true)
    } else if ch == '\'' || ch == '"' {
        (quote_end_x(cs, i + 1, ch), TokenType::String, false)
    } else if ch == '$' {
        (run_end_x(cs, i + 1, 2), TokenType::Variable, false)
    } else {
        let kind = if first {
            TokenType::Command
        } else if ch == '-' {
            TokenType::Flag
        } else {
            TokenType::Plain
        };
        (run_end_x(cs, i, 1), kind, false)
    }
}

/// Split a line into coloured spans: runs of whitespace; the operators `|`, `&`, `;`, `<`, `>`
/// and the doubled `||`, `&&`, `>>`; quoted strings to their closing quote; `$` variables; and
/// words, the first of each command being a command name and a word starting with `-` a flag.
pub fn tokenize_for_highlight(line: &str) -> (r: Vec<(String, TokenType)>)
    ensures
        r@.len() == spans(line@, 0, true).len(),
        forall|k: int| 0 <= k < r@.len() ==> (#[trigger] r@[k]).0@ == spans(line@, 0, true)[k].0
            && r@[k].1 == spans(line@, 0, true)[k].1,
{
    let cs = text::chars_of(line);
    let cs = cs.as_slice();
    let mut out: Vec<(String, TokenType)> = Vec::new();
    let mut i: usize = 0;
    let mut first = true;
    while i < cs.len()
        invariant
            i <= cs@.len(),
            cs@ == line@,
            spans(cs@, 0, true) == Seq::new(out@.len(), |k: int| (out@[k].0@, out@[k].1)) + spans(cs@, i as int, first),
        decreases cs.len() - i,
    {
        proof {
            lemma_span_advances(cs@, i as int, first);
        }
        let ghost before = Seq::new(out@.len(), |k: int| (out@[k].0@, out@[k].1));
        let (end, kind, next_first) = span_x(cs, i, first);
        let piece = text::slice_vec(cs, i, end);
        out.push((text::string_of(piece.as_slice()), kind));
        proof {
            let now = Seq::new(out@.len(), |k: int| (out@[k].0@, out@[k].1));
            assert(now =~= before.push((cs@.subrange(i as int, end as int), kind)));
            assert(before + spans(cs@, i as int, first) =~= now + spans(cs@, end as int, next_first));
        }
        i = end;
        first = next_first;
    }
    proof {
        let now = Seq::new(out@.len(), |k: int| (out@[k].0@, out@[k].1));
        assert(now + Seq::<(Seq<char>, TokenType)>::empty() =~= now);
    }
    out
}

/// The spans of a line, put back together, are exactly the line.
pub proof fn law_spans_reassemble(cs: Seq<char>, i: int, first: bool)
    requires
        0 <= i <= cs.len(),
    ensures
        joined(spans(cs, i, first)) == cs.subrange(i, cs.len() as int),
    decreases cs.len() - i,
{
    if i < cs.len() {
        lemma_span_advances(cs, i, first);
        let (end, kind, next) = span_at(cs, i, first);
        law_spans_reassemble(cs, end, next);
        let s = spans(cs, i, first);
        assert(s.drop_first() =~= spans(cs, end, next));
        assert(cs.subrange(i, end) + cs.subrange(end, cs.len() as int) =~= cs.subrange(i, cs.len() as int));
    } else {
        assert(cs.subrange(i, cs.len() as int) =~= Seq::<char>::empty());
    }
}

} // verus!
