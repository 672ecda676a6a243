//! Abbreviations: a short word that becomes a long one as you type it.
//!
//! ```text
//! abbr gco 'git checkout'      then typing `gco ` leaves `git checkout ` in the line
//! ```
//!
//! An abbreviation is purely a keyboard convenience: the real command lands in the buffer before
//! anything is parsed, so what runs, what is highlighted and what goes in the history are all the
//! same text. Two placements: `command` (the default — only where a command name goes) and
//! `anywhere`. A `%` in the expansion says where the cursor should end up.

use vstd::prelude::*;
use vstd::string::StringSliceAdditionalSpecFns;
use crate::text::{self, find, spec_is_whitespace, trim_end_at, utf8_bytes};

verus! {

/// Where an abbreviation is allowed to fire.
#[derive(Debug, Clone, Copy, PartialEq, Eq, Structural)]
pub enum Placement {
    /// Only where a command name would go.
    Command,
    /// Any word at all.
    Anywhere,
}

/// What a name expands to, and where.
#[derive(Debug, Clone)]
pub struct Abbreviation {
    pub expansion: String,
    pub placement: Placement,
}

/// A definition as its name, its expansion and its placement.
pub type AbbrView = (Seq<char>, Seq<char>, Placement);

/// Every definition, kept in name order so a listing is the same twice running.
pub struct Abbreviations {
    table: Vec<(String, Abbreviation)>,
}

// ------------------------------------------------------------------ name order

/// `a` sorts before `b`: the order `String` compares in, character by character.
pub open spec fn name_lt(a: Seq<char>, b: Seq<char>) -> bool
    decreases a.len(),
{
    if a.len() == 0 {
        b.len() > 0
    } else if b.len() == 0 {
        false
    } else if a[0] != b[0] {
        (a[0] as u32) < (b[0] as u32)
    } else {
        name_lt(a.drop_first(), b.drop_first())
    }
}

pub proof fn lemma_name_lt_irreflexive(a: Seq<char>)
    ensures
        !name_lt(a, a),
    decreases a.len(),
{
    if a.len() > 0 {
        lemma_name_lt_irreflexive(a.drop_first());
    }
}

pub proof fn lemma_name_lt_transitive(a: Seq<char>, b: Seq<char>, c: Seq<char>)
    requires
        name_lt(a, b),
        name_lt(b, c),
    ensures
        name_lt(a, c),
    decreases a.len(),
{
    if a.len() > 0 && b.len() > 0 && c.len() > 0 && a[0] == b[0] && b[0] == c[0] {
        lemma_name_lt_transitive(a.drop_first(), b.drop_first(), c.drop_first());
    }
}

pub proof fn lemma_name_lt_total(a: Seq<char>, b: Seq<char>)
    requires
        a != b,
    ensures
        name_lt(a, b) || name_lt(b, a),
    decreases a.len(),
{
    if a.len() > 0 && b.len() > 0 && a[0] == b[0] {
        if a.drop_first() == b.drop_first() {
            assert(a =~= seq![a[0]] + a.drop_first());
            assert(b =~= seq![b[0]] + b.drop_first());
        }
        lemma_name_lt_total(a.drop_first(), b.drop_first());
    } else if a.len() > 0 && b.len() > 0 {
        let x = a[0] as u32;
        let y = b[0] as u32;
        vstd::utf8::char_u32_cast(a[0], x);
        vstd::utf8::char_u32_cast(b[0], y);
    } else if a.len() == 0 && b.len() == 0 {
        assert(a =~= b);
    }
}

/// Names in strictly increasing order, so no name appears twice.
pub open spec fn sorted(es: Seq<AbbrView>) -> bool {
    forall|i: int, j: int| 0 <= i < j < es.len() ==> name_lt(#[trigger] es[i].0, #[trigger] es[j].0)
}

/// What `name` is defined as.
pub open spec fn lookup(es: Seq<AbbrView>, name: Seq<char>) -> Option<(Seq<char>, Placement)>
    decreases es.len(),
{
    if es.len() == 0 {
        None
    } else if es.last().0 == name {
        Some((es.last().1, es.last().2))
    } else {
        lookup(es.drop_last(), name)
    }
}

proof fn lemma_lookup_at(es: Seq<AbbrView>, i: int)
    requires
        sorted(es),
        0 <= i < es.len(),
    ensures
        lookup(es, es[i].0) == Some((es[i].1, es[i].2)),
    decreases es.len(),
{
    if i < es.len() - 1 {
        let last = es.len() - 1;
        assert(name_lt(es[i].0, es[last].0));
        lemma_name_lt_irreflexive(es[i].0);
        let rest = es.drop_last();
        assert(sorted(rest)) by {
            assert forall|a: int, b: int| 0 <= a < b < rest.len() implies name_lt(#[trigger] rest[a].0, #[trigger] rest[b].0) by {
                assert(rest[a] == es[a] && rest[b] == es[b]);
            }
        }
        assert(rest[i] == es[i]);
        lemma_lookup_at(rest, i);
    }
}

proof fn lemma_lookup_absent(es: Seq<AbbrView>, n: Seq<char>)
    requires
        forall|i: int| 0 <= i < es.len() ==> (#[trigger] es[i]).0 != n,
    ensures
        lookup(es, n) is None,
    decreases es.len(),
{
    if es.len() > 0 {
        let rest = es.drop_last();
        assert forall|i: int| 0 <= i < rest.len() implies (#[trigger] rest[i]).0 != n by {
            assert(rest[i] == es[i]);
        }
        assert(es[es.len() - 1].0 != n);
        lemma_lookup_absent(rest, n);
    }
}

proof fn lemma_lookup_found(es: Seq<AbbrView>, n: Seq<char>)
    requires
        sorted(es),
        lookup(es, n) is Some,
    ensures
        exists|i: int| 0 <= i < es.len() && (#[trigger] es[i]).0 == n && lookup(es, n) == Some((es[i].1, es[i].2)),
    decreases es.len(),
{
    if es.last().0 != n {
        let rest = es.drop_last();
        assert(sorted(rest)) by {
            assert forall|a: int, b: int| 0 <= a < b < rest.len() implies name_lt(#[trigger] rest[a].0, #[trigger] rest[b].0) by {
                assert(rest[a] == es[a] && rest[b] == es[b]);
            }
        }
        lemma_lookup_found(rest, n);
        let i = choose|i: int| 0 <= i < rest.len() && (#[trigger] rest[i]).0 == n && lookup(rest, n) == Some((rest[i].1, rest[i].2));
        assert(es[i] == rest[i]);
    } else {
        assert(es[es.len() - 1] == es.last());
    }
}

pub(crate) fn name_lt_x(a: &[char], b: &[char]) -> (r: bool)
    ensures
        r == name_lt(a@, b@),
{
    let mut i: usize = 0;
    proof {
        assert(a@.subrange(0, a@.len() as int) =~= a@);
        assert(b@.subrange(0, b@.len() as int) =~= b@);
    }
    while i < a.len() && i < b.len() && a[i] == b[i]
        invariant
            i <= a@.len(),
            i <= b@.len(),
            name_lt(a@, b@) == name_lt(a@.subrange(i as int, a@.len() as int), b@.subrange(i as int, b@.len() as int)),
        decreases a.len() - i,
    {
        proof {
            let x = a@.subrange(i as int, a@.len() as int);
            let y = b@.subrange(i as int, b@.len() as int);
            assert(x.drop_first() =~= a@.subrange(i + 1, a@.len() as int));
            assert(y.drop_first() =~= b@.subrange(i + 1, b@.len() as int));
        }
        i += 1;
    }
    let ghost x = a@.subrange(i as int, a@.len() as int);
    let ghost y = b@.subrange(i as int, b@.len() as int);
    if i == a.len() {
        i < b.len()
    } else if i == b.len() {
        false
    } else {
        assert(x[0] == a@[i as int] && y[0] == b@[i as int]);
        (a[i] as u32) < (b[i] as u32)
    }
}

fn copy_string(s: &String) -> (r: String)
    ensures
        r@ == s@,
{
    let mut r = String::new();
    text::push_str(&mut r, s.as_str());
    r
}

pub open spec fn entry_view(e: (String, Abbreviation)) -> AbbrView {
    (e.0@, e.1.expansion@, e.1.placement)
}

impl Abbreviations {
    /// The definitions, in name order.
    pub closed spec fn entries(&self) -> Seq<AbbrView> {
        Seq::new(self.table@.len(), |i: int| entry_view(self.table@[i]))
    }

    /// The names are kept sorted.
    pub open spec fn wf(&self) -> bool {
        sorted(self.entries())
    }

    /// No definitions.
    pub fn new() -> (a: Abbreviations)
        ensures
            a.wf(),
            a.entries() == Seq::<AbbrView>::empty(),
    {
        let a = Abbreviations { table: Vec::new() };
        assert(a.entries() =~= Seq::<AbbrView>::empty());
        a
    }

    /// Where `name` is, or where it would go.
    fn position(&self, name: &[char]) -> (r: (usize, bool))
        requires
            self.wf(),
        ensures
            r.0 <= self.entries().len(),
            forall|k: int| 0 <= k < r.0 ==> name_lt(#[trigger] self.entries()[k].0, name@),
            r.1 == (r.0 < self.entries().len() && self.entries()[r.0 as int].0 == name@),
            !r.1 && r.0 < self.entries().len() ==> name_lt(name@, self.entries()[r.0 as int].0),
    {
        let mut i: usize = 0;
        while i < self.table.len()
            invariant
                self.wf(),
                i <= self.table@.len(),
                forall|k: int| 0 <= k < i ==> name_lt(#[trigger] self.entries()[k].0, name@),
            decreases self.table.len() - i,
        {
            let here = text::chars_of(self.table[i].0.as_str());
            proof {
                assert(self.entries()[i as int].0 == here@);
            }
            if !name_lt_x(here.as_slice(), name) {
                let same = text::chars_eq(here.as_slice(), name);
                proof {
                    if !same {
                        lemma_name_lt_total(here@, name@);
                    }
                }
                return (i, same);
            }
            i += 1;
        }
        (i, false)
    }

    /// Define `name`, replacing any earlier definition of the same name.
    pub fn add(&mut self, name: &str, expansion: &str, placement: Placement)
        requires
            old(self).wf(),
        ensures
            final(self).wf(),
            forall|n: Seq<char>| #[trigger] lookup(final(self).entries(), n) == if n == name@ {
                Some((expansion@, placement))
            } else {
                lookup(old(self).entries(), n)
            },
    {
        let key = text::chars_of(name);
        let (at, found) = self.position(key.as_slice());
        let mut n = String::new();
        text::push_str(&mut n, name);
        let mut e = String::new();
        text::push_str(&mut e, expansion);
        let entry = (n, Abbreviation { expansion: e, placement });
        let ghost old_es = self.entries();
        let ghost x: AbbrView = (name@, expansion@, placement);
        proof {
            assert(n@ =~= name@);
            assert(e@ =~= expansion@);
            assert(entry_view(entry) == x);
        }
        if found {
            self.table.set(at, entry);
            proof {
                let es = self.entries();
                assert(es =~= old_es.update(at as int, x));
                assert(sorted(es)) by {
                    assert forall|i: int, j: int| 0 <= i < j < es.len() implies name_lt(#[trigger] es[i].0, #[trigger] es[j].0) by {
                        assert(old_es[i].0 == es[i].0 && old_es[j].0 == es[j].0);
                    }
                }
                lemma_lookup_at(es, at as int);
                assert forall|m: Seq<char>| #[trigger] lookup(es, m) == if m == name@ {
                    Some((expansion@, placement))
                } else {
                    lookup(old_es, m)
                } by {
                    if m != name@ {
                        if lookup(old_es, m) is Some {
                            lemma_lookup_found(old_es, m);
                            let j = choose|j: int| 0 <= j < old_es.len() && (#[trigger] old_es[j]).0 == m && lookup(old_es, m) == Some((old_es[j].1, old_es[j].2));
                            assert(j != at);
                            assert(es[j] == old_es[j]);
                            lemma_lookup_at(es, j);
                        } else {
                            assert forall|j: int| 0 <= j < es.len() implies (#[trigger] es[j]).0 != m by {
                                if j != at && es[j].0 == m {
                                    assert(old_es[j].0 == m);
                                    lemma_lookup_at(old_es, j);
                                }
                            }
                            lemma_lookup_absent(es, m);
                        }
                    }
                }
            }
        } else {
            self.table.insert(at, entry);
            proof {
                let es = self.entries();
                assert(es =~= old_es.insert(at as int, x));
                assert(sorted(es)) by {
                    assert forall|i: int, j: int| 0 <= i < j < es.len() implies name_lt(#[trigger] es[i].0, #[trigger] es[j].0) by {
                        if j < at {
                            assert(es[i] == old_es[i] && es[j] == old_es[j]);
                        } else if j == at {
                            assert(es[i] == old_es[i]);
                        } else if i == at {
                            assert(es[j] == old_es[j - 1]);
                            if j - 1 > at {
                                assert(name_lt(old_es[at as int].0, old_es[j - 1].0));
                                lemma_name_lt_transitive(name@, old_es[at as int].0, old_es[j - 1].0);
                            }
                        } else if i < at {
                            assert(es[i] == old_es[i] && es[j] == old_es[j - 1]);
                        } else {
                            assert(es[i] == old_es[i - 1] && es[j] == old_es[j - 1]);
                        }
                    }
                }
                lemma_lookup_at(es, at as int);
                assert forall|m: Seq<char>| #[trigger] lookup(es, m) == if m == name@ {
                    Some((expansion@, placement))
                } else {
                    lookup(old_es, m)
                } by {
                    if m != name@ {
                        if lookup(old_es, m) is Some {
                            lemma_lookup_found(old_es, m);
                            let j = choose|j: int| 0 <= j < old_es.len() && (#[trigger] old_es[j]).0 == m && lookup(old_es, m) == Some((old_es[j].1, old_es[j].2));
                            let j2 = if j < at { j } else { j + 1 };
                            assert(es[j2] == old_es[j]);
                            lemma_lookup_at(es, j2);
                        } else {
                            assert forall|j: int| 0 <= j < es.len() implies (#[trigger] es[j]).0 != m by {
                                if j != at && es[j].0 == m {
                                    let j1 = if j < at { j } else { j - 1 };
                                    assert(old_es[j1] == es[j]);
                                    lemma_lookup_at(old_es, j1);
                                }
                            }
                            lemma_lookup_absent(es, m);
                        }
                    }
                }
            }
        }
    }

    /// Forget `name`. Answers whether there was a definition to forget.
    pub fn remove(&mut self, name: &str) -> (r: bool)
        requires
            old(self).wf(),
        ensures
            final(self).wf(),
            r == lookup(old(self).entries(), name@) is Some,
            forall|n: Seq<char>| #[trigger] lookup(final(self).entries(), n) == if n == name@ {
                None
            } else {
                lookup(old(self).entries(), n)
            },
    {
        let key = text::chars_of(name);
        let (at, found) = self.position(key.as_slice());
        let ghost old_es = self.entries();
        if !found {
            proof {
                assert forall|j: int| 0 <= j < old_es.len() implies (#[trigger] old_es[j]).0 != name@ by {
                    if old_es[j].0 == name@ {
                        if j < at {
                            lemma_name_lt_irreflexive(name@);
                        } else if j > at {
                            assert(name_lt(old_es[at as int].0, old_es[j].0));
                            lemma_name_lt_transitive(name@, old_es[at as int].0, old_es[j].0);
                            lemma_name_lt_irreflexive(name@);
                        }
                    }
                }
                lemma_lookup_absent(old_es, name@);
            }
            return false;
        }
        self.table.remove(at);
        proof {
            let es = self.entries();
            assert(es =~= old_es.remove(at as int));
            lemma_lookup_at(old_es, at as int);
            assert(sorted(es)) by {
                assert forall|i: int, j: int| 0 <= i < j < es.len() implies name_lt(#[trigger] es[i].0, #[trigger] es[j].0) by {
                    let i1 = if i < at { i } else { i + 1 };
                    let j1 = if j < at { j } else { j + 1 };
                    assert(es[i] == old_es[i1] && es[j] == old_es[j1]);
                }
            }
            assert forall|m: Seq<char>| #[trigger] lookup(es, m) == if m == name@ {
                None
            } else {
                lookup(old_es, m)
            } by {
                if m == name@ {
                    assert forall|j: int| 0 <= j < es.len() implies (#[trigger] es[j]).0 != m by {
                        let j1 = if j < at { j } else { j + 1 };
                        assert(es[j] == old_es[j1]);
                        if es[j].0 == m {
                            if j1 < at {
                                assert(name_lt(old_es[j1].0, old_es[at as int].0));
                            } else {
                                assert(name_lt(old_es[at as int].0, old_es[j1].0));
                            }
                            lemma_name_lt_irreflexive(m);
                        }
                    }
                    lemma_lookup_absent(es, m);
                } else if lookup(old_es, m) is Some {
                    lemma_lookup_found(old_es, m);
                    let j = choose|j: int| 0 <= j < old_es.len() && (#[trigger] old_es[j]).0 == m && lookup(old_es, m) == Some((old_es[j].1, old_es[j].2));
                    let j2 = if j < at { j } else { j - 1 };
                    assert(es[j2] == old_es[j]);
                    lemma_lookup_at(es, j2);
                } else {
                    assert forall|j: int| 0 <= j < es.len() implies (#[trigger] es[j]).0 != m by {
                        let j1 = if j < at { j } else { j + 1 };
                        assert(es[j] == old_es[j1]);
                        if es[j].0 == m {
                            lemma_lookup_at(old_es, j1);
                        }
                    }
                    lemma_lookup_absent(es, m);
                }
            }
        }
        true
    }

    /// Every definition, sorted by name.
    pub fn all(&self) -> (r: Vec<(String, Abbreviation)>)
        requires
            self.wf(),
        ensures
            r@.len() == self.entries().len(),
            forall|i: int| 0 <= i < r@.len() ==> entry_view(#[trigger] r@[i]) == self.entries()[i],
            sorted(Seq::new(r@.len(), |i: int| entry_view(r@[i]))),
    {
        let mut out: Vec<(String, Abbreviation)> = Vec::new();
        let mut i: usize = 0;
        while i < self.table.len()
            invariant
                i <= self.table@.len(),
                out@.len() == i,
                forall|k: int| 0 <= k < i ==> entry_view(#[trigger] out@[k]) == self.entries()[k],
            decreases self.table.len() - i,
        {
            let (n, a) = &self.table[i];
            let copy = (copy_string(n), Abbreviation { expansion: copy_string(&a.expansion), placement: a.placement });
            out.push(copy);
            i += 1;
        }
        proof {
            assert(Seq::new(out@.len(), |i: int| entry_view(out@[i])) =~= self.entries());
        }
        out
    }

    /// Forget everything, for a config reload.
    pub fn clear(&mut self)
        ensures
            final(self).wf(),
            final(self).entries() == Seq::<AbbrView>::empty(),
    {
        self.table = Vec::new();
        assert(self.entries() =~= Seq::<AbbrView>::empty());
    }
}

// ------------------------------------------------------------------ expanding

/// The first character index whose prefix takes at least `b` bytes, or the end.
pub open spec fn index_from(cs: Seq<char>, b: int, k: int) -> int
    decreases cs.len() - k,
{
    if !(0 <= k < cs.len()) || utf8_bytes(cs.subrange(0, k)) >= b {
        k
    } else {
        index_from(cs, b, k + 1)
    }
}

/// The index of the last whitespace character before `k`.
pub open spec fn last_space(cs: Seq<char>, k: int) -> Option<int>
    decreases k,
{
    if k <= 0 {
        None
    } else if spec_is_whitespace(cs[k - 1]) {
        Some(k - 1)
    } else {
        last_space(cs, k - 1)
    }
}

/// Where the word ending at `k` starts.
pub open spec fn word_start(cs: Seq<char>, k: int) -> int {
    match last_space(cs, k) {
        Some(w) => w + 1,
        None => 0,
    }
}

/// The words after which the next word is still a command name.
pub open spec fn is_precommand(w: Seq<char>) -> bool {
    w == "sudo"@ || w == "doas"@ || w == "command"@ || w == "time"@ || w == "env"@ || w == "xargs"@
}

/// Whether what comes before a word puts a command name there: the start of the line, a word
/// that only ever precedes a command, or something that begins a new command.
pub open spec fn is_command_position(before: Seq<char>) -> bool {
    let trimmed = before.subrange(0, trim_end_at(before, before.len() as int));
    if trimmed.len() == 0 {
        true
    } else {
        let last = trimmed.subrange(word_start(trimmed, trimmed.len() as int), trimmed.len() as int);
        let c = trimmed.last();
        is_precommand(last) || c == '|' || c == '&' || c == ';' || c == '(' || c == '{'
    }
}

/// Where the cursor is, as a character index: `cursor` bytes in, or the end.
pub open spec fn cursor_index(cs: Seq<char>, cursor: nat) -> int {
    index_from(cs, cursor as int, 0)
}

/// What `expand` may be asked: a cursor on a character boundary (or past the end), and a word
/// that starts after a one-byte space, as every space before a word typed at a prompt is.
pub open spec fn expandable(cs: Seq<char>, cursor: nat) -> bool {
    let k = cursor_index(cs, cursor);
    &&& (cursor >= utf8_bytes(cs) || utf8_bytes(cs.subrange(0, k)) == cursor)
    &&& (last_space(cs, k) matches Some(w) ==> (cs[w] as u32) < 0x80)
}

/// The line and cursor that expanding the word ending at the cursor gives, or `None` when it is
/// not an abbreviation that may fire there.
pub open spec fn spec_expand(es: Seq<AbbrView>, cs: Seq<char>, cursor: nat) -> Option<(Seq<char>, nat)> {
    let k = cursor_index(cs, cursor);
    let start = word_start(cs, k);
    let word = cs.subrange(start, k);
    if word.len() == 0 {
        None
    } else {
        match lookup(es, word) {
            None => None,
            Some((e, p)) => if p == Placement::Command && !is_command_position(cs.subrange(0, start)) {
                None
            } else {
                let (exp, offset) = match find(e, seq!['%']) {
                    Some(at) => (e.subrange(0, at) + e.subrange(at + 1, e.len() as int), utf8_bytes(e.subrange(0, at))),
                    None => (e, utf8_bytes(e)),
                };
                Some((cs.subrange(0, start) + exp + cs.subrange(k, cs.len() as int), utf8_bytes(cs.subrange(0, start)) + offset))
            },
        }
    }
}

pub proof fn lemma_index_from(cs: Seq<char>, b: int, k: int)
    requires
        0 <= k <= cs.len(),
    ensures
        k <= index_from(cs, b, k) <= cs.len(),
    decreases cs.len() - k,
{
    if k < cs.len() && utf8_bytes(cs.subrange(0, k)) < b {
        lemma_index_from(cs, b, k + 1);
    }
}

pub proof fn lemma_last_space(cs: Seq<char>, k: int)
    requires
        0 <= k <= cs.len(),
    ensures
        last_space(cs, k) matches Some(w) ==> 0 <= w < k && spec_is_whitespace(cs[w]),
        last_space(cs, k) is None ==> forall|j: int| 0 <= j < k ==> !spec_is_whitespace(#[trigger] cs[j]),
    decreases k,
{
    if k > 0 && !spec_is_whitespace(cs[k - 1]) {
        lemma_last_space(cs, k - 1);
    }
}

/// The bytes `cs[..k]` takes, walked a character at a time.
pub(crate) fn bytes_to(cs: &[char], k: usize, total: usize) -> (r: usize)
    requires
        k <= cs@.len(),
        total == utf8_bytes(cs@),
    ensures
        r == utf8_bytes(cs@.subrange(0, k as int)),
{
    let mut acc: usize = 0;
    let mut i: usize = 0;
    proof {
        assert(cs@.subrange(0, 0) =~= Seq::<char>::empty());
    }
    while i < k
        invariant
            i <= k <= cs@.len(),
            total == utf8_bytes(cs@),
            acc == utf8_bytes(cs@.subrange(0, i as int)),
        decreases k - i,
    {
        proof {
            text::lemma_utf8_push(cs@.subrange(0, i as int), cs@[i as int]);
            assert(cs@.subrange(0, i as int).push(cs@[i as int]) =~= cs@.subrange(0, i + 1));
            text::lemma_utf8_prefix(cs@, i + 1);
        }
        acc = acc + text::char_utf8_len(cs[i]);
        i += 1;
    }
    acc
}

pub(crate) fn last_space_x(cs: &[char], k: usize) -> (r: Option<usize>)
    requires
        k <= cs@.len(),
    ensures
        match r {
            Some(w) => last_space(cs@, k as int) == Some(w as int),
            None => last_space(cs@, k as int) is None,
        },
{
    let mut j = k;
    while j > 0 && !text::is_whitespace(cs[j - 1])
        invariant
            j <= k <= cs@.len(),
            last_space(cs@, j as int) == last_space(cs@, k as int),
        decreases j,
    {
        j -= 1;
    }
    if j == 0 {
        None
    } else {
        Some(j - 1)
    }
}

fn command_position_x(before: &[char]) -> (r: bool)
    ensures
        r == is_command_position(before@),
{
    let mut end = before.len();
    while end > 0 && text::is_whitespace(before[end - 1])
        invariant
            end <= before@.len(),
            trim_end_at(before@, end as int) == trim_end_at(before@, before@.len() as int),
        decreases end,
    {
        end -= 1;
    }
    let trimmed = text::slice_vec(before, 0, end);
    if trimmed.len() == 0 {
        return true;
    }
    proof {
        lemma_last_space(trimmed@, trimmed@.len() as int);
    }
    let start = match last_space_x(trimmed.as_slice(), trimmed.len()) {
        Some(w) => w + 1,
        None => 0,
    };
    let last = text::slice_vec(trimmed.as_slice(), start, trimmed.len());
    let c = trimmed[trimmed.len() - 1];
    let l = last.as_slice();
    let pre = text::eq_str(l, "sudo") || text::eq_str(l, "doas") || text::eq_str(l, "command") || text::eq_str(l, "time")
        || text::eq_str(l, "env") || text::eq_str(l, "xargs");
    pre || c == '|' || c == '&' || c == ';' || c == '(' || c == '{'
}

fn lookup_x(table: &Vec<(String, Abbreviation)>, word: &[char], es: Ghost<Seq<AbbrView>>) -> (r: Option<(Vec<char>, Placement)>)
    requires
        es@ == Seq::new(table@.len(), |i: int| entry_view(table@[i])),
        sorted(es@),
    ensures
        match r {
            Some((e, p)) => lookup(es@, word@) == Some((e@, p)),
            None => lookup(es@, word@) is None,
        },
{
    let mut i: usize = 0;
    while i < table.len()
        invariant
            i <= table@.len(),
            es@ == Seq::new(table@.len(), |i: int| entry_view(table@[i])),
            sorted(es@),
            forall|k: int| 0 <= k < i ==> (#[trigger] es@[k]).0 != word@,
        decreases table.len() - i,
    {
        let here = text::chars_of(table[i].0.as_str());
        if text::chars_eq(here.as_slice(), word) {
            proof {
                lemma_lookup_at(es@, i as int);
            }
            return Some((text::chars_of(table[i].1.expansion.as_str()), table[i].1.placement));
        }
        i += 1;
    }
    proof {
        lemma_lookup_absent(es@, word@);
    }
    None
}

impl Abbreviations {
    /// Expand the word ending at `cursor` (a byte offset), if it is an abbreviation that may fire
    /// there: the line as it should become and where the cursor should sit, or `None` to leave the
    /// line exactly as it was. A `%` in the expansion marks where the cursor goes and is dropped;
    /// without one the cursor follows the end of the expansion.
    pub fn expand(&self, line: &str, cursor: usize) -> (r: Option<(String, usize)>)
        requires
            self.wf(),
            expandable(line@, cursor as nat),
        ensures
            match r {
                Some((t, c)) => spec_expand(self.entries(), line@, cursor as nat) == Some((t@, c as nat)),
                None => spec_expand(self.entries(), line@, cursor as nat) is None,
            },
    {
        let cs = text::chars_of(line);
        let cs = cs.as_slice();
        let total = line.as_bytes().len();
        proof {
            lemma_index_from(cs@, cursor as int, 0);
        }
        let mut k: usize = 0;
        let mut acc: usize = 0;
        proof {
            assert(cs@.subrange(0, 0) =~= Seq::<char>::empty());
        }
        while k < cs.len() && acc < cursor
            invariant
                k <= cs@.len(),
                cs@ == line@,
                total == utf8_bytes(cs@),
                acc == utf8_bytes(cs@.subrange(0, k as int)),
                index_from(cs@, cursor as int, k as int) == index_from(cs@, cursor as int, 0),
            decreases cs.len() - k,
        {
            proof {
                text::lemma_utf8_push(cs@.subrange(0, k as int), cs@[k as int]);
                assert(cs@.subrange(0, k as int).push(cs@[k as int]) =~= cs@.subrange(0, k + 1));
                text::lemma_utf8_prefix(cs@, k + 1);
            }
            acc = acc + text::char_utf8_len(cs[k]);
            k += 1;
        }
        proof {
            lemma_last_space(cs@, k as int);
        }
        let start = match last_space_x(cs, k) {
            Some(w) => w + 1,
            None => 0,
        };
        if start == k {
            return None;
        }
        let word = text::slice_vec(cs, start, k);
        let found = lookup_x(&self.table, word.as_slice(), Ghost(self.entries()));
        let (e, p) = match found {
            None => return None,
            Some(f) => f,
        };
        if p == Placement::Command {
            let before = text::slice_vec(cs, 0, start);
            if !command_position_x(before.as_slice()) {
                return None;
            }
        }
        let e_total = {
            let es = text::string_of(e.as_slice());
            es.as_str().as_bytes().len()
        };
        proof {
            text::lemma_find_from_bounds(e@, seq!['%'], 0);
        }
        let (exp, at) = match text::find_char(e.as_slice(), '%') {
            Some(at) => {
                assert(text::occurs_at(e@, seq!['%'], at as int));
                let n = e.len();
                assert(at < n);
                let a = text::slice_vec(e.as_slice(), 0, at);
                let b = text::slice_vec(e.as_slice(), at + 1, n);
                (text::concat(a.as_slice(), b.as_slice()), at)
            },
            None => (text::slice_vec(e.as_slice(), 0, e.len()), e.len()),
        };
        proof {
            assert(e@.subrange(0, e@.len() as int) =~= e@);
        }
        let offset = bytes_to(e.as_slice(), at, e_total);
        let head = text::slice_vec(cs, 0, start);
        let tail = text::slice_vec(cs, k, cs.len());
        let out = text::concat(head.as_slice(), exp.as_slice());
        let out = text::concat(out.as_slice(), tail.as_slice());
        let out = text::string_of(out.as_slice());
        let out_total = out.as_str().as_bytes().len();
        let start_bytes = bytes_to(cs, start, total);
        proof {
            text::lemma_utf8_concat(head@ + exp@, tail@);
            text::lemma_utf8_concat(head@, exp@);
            if at < e@.len() {
                text::lemma_utf8_concat(e@.subrange(0, at as int), e@.subrange(at + 1, e@.len() as int));
            } else {
                text::lemma_utf8_prefix(e@, at as int);
            }
        }
        Some((out, start_bytes + offset))
    }
}

/// Adding a definition and then looking its name up gives the definition back; every other name
/// is as it was.
pub proof fn law_add_then_lookup(es: Seq<AbbrView>, after: Seq<AbbrView>, name: Seq<char>, e: Seq<char>, p: Placement, other: Seq<char>)
    requires
        forall|n: Seq<char>| #[trigger] lookup(after, n) == if n == name { Some((e, p)) } else { lookup(es, n) },
        other != name,
    ensures
        lookup(after, name) == Some((e, p)),
        lookup(after, other) == lookup(es, other),
{
    assert(lookup(after, name) == if name == name { Some((e, p)) } else { lookup(es, name) });
    assert(lookup(after, other) == if other == name { Some((e, p)) } else { lookup(es, other) });
}


proof fn lemma_sorted_drop_last(es: Seq<AbbrView>)
    requires
        sorted(es),
        es.len() > 0,
    ensures
        sorted(es.drop_last()),
        forall|i: int| 0 <= i < es.len() - 1 ==> (#[trigger] es.drop_last()[i]).0 != es.last().0,
{
    let rest = es.drop_last();
    assert forall|a: int, b: int| 0 <= a < b < rest.len() implies name_lt(#[trigger] rest[a].0, #[trigger] rest[b].0) by {
        assert(rest[a] == es[a] && rest[b] == es[b]);
    }
    assert forall|i: int| 0 <= i < es.len() - 1 implies (#[trigger] rest[i]).0 != es.last().0 by {
        assert(rest[i] == es[i]);
        assert(name_lt(es[i].0, es[es.len() - 1].0));
        lemma_name_lt_irreflexive(es[i].0);
    }
}

/// A name that is not defined appears in no entry of a table kept in name order.
proof fn lemma_absent_everywhere(es: Seq<AbbrView>, n: Seq<char>)
    requires
        sorted(es),
        lookup(es, n) is None,
    ensures
        forall|i: int| 0 <= i < es.len() ==> (#[trigger] es[i]).0 != n,
{
    assert forall|i: int| 0 <= i < es.len() implies (#[trigger] es[i]).0 != n by {
        if es[i].0 == n {
            lemma_lookup_at(es, i);
        }
    }
}

/// A table kept in name order is determined by what each name looks up to.
proof fn lemma_lookup_determines(a: Seq<AbbrView>, b: Seq<AbbrView>)
    requires
        sorted(a),
        sorted(b),
        forall|n: Seq<char>| #[trigger] lookup(a, n) == lookup(b, n),
    ensures
        a == b,
    decreases a.len() + b.len(),
{
    if a.len() == 0 {
        if b.len() > 0 {
            lemma_lookup_at(b, b.len() - 1);
            assert(lookup(a, b[b.len() - 1].0) == lookup(b, b[b.len() - 1].0));
        }
        assert(a =~= b);
    } else if b.len() == 0 {
        lemma_lookup_at(a, a.len() - 1);
        assert(lookup(a, a[a.len() - 1].0) == lookup(b, a[a.len() - 1].0));
    } else {
        let la = a[a.len() - 1];
        let lb = b[b.len() - 1];
        lemma_lookup_at(a, a.len() - 1);
        lemma_lookup_at(b, b.len() - 1);
        assert(lookup(a, la.0) == lookup(b, la.0));
        assert(lookup(a, lb.0) == lookup(b, lb.0));
        if la.0 != lb.0 {
            lemma_lookup_found(b, la.0);
            let j = choose|i: int| 0 <= i < b.len() && (#[trigger] b[i]).0 == la.0 && lookup(b, la.0) == Some((b[i].1, b[i].2));
            assert(j != b.len() - 1);
            assert(name_lt(b[j].0, b[b.len() - 1].0));
            lemma_lookup_found(a, lb.0);
            let k = choose|i: int| 0 <= i < a.len() && (#[trigger] a[i]).0 == lb.0 && lookup(a, lb.0) == Some((a[i].1, a[i].2));
            assert(k != a.len() - 1);
            assert(name_lt(a[k].0, a[a.len() - 1].0));
            lemma_name_lt_transitive(la.0, lb.0, la.0);
            lemma_name_lt_irreflexive(la.0);
        }
        assert(la == lb);
        lemma_sorted_drop_last(a);
        lemma_sorted_drop_last(b);
        assert forall|n: Seq<char>| #[trigger] lookup(a.drop_last(), n) == lookup(b.drop_last(), n) by {
            assert(lookup(a, n) == lookup(b, n));
            if n == la.0 {
                lemma_lookup_absent(a.drop_last(), n);
                lemma_lookup_absent(b.drop_last(), n);
            }
        }
        lemma_lookup_determines(a.drop_last(), b.drop_last());
        assert(a =~= a.drop_last().push(la));
        assert(b =~= b.drop_last().push(lb));
    }
}

/// A table is listed once per name, in name order, and is fixed by what each name means: two
/// tables in name order that define every name alike are the same list, so `all` gives the same
/// answer whenever the definitions are the same. After clearing and defining one name twice, the
/// table holds that name once, with the later definition.
pub proof fn law_the_listing_is_the_definitions(
    a: Seq<AbbrView>,
    b: Seq<AbbrView>,
    cleared: Seq<AbbrView>,
    once: Seq<AbbrView>,
    twice: Seq<AbbrView>,
    n: Seq<char>,
    e1: Seq<char>,
    p1: Placement,
    e2: Seq<char>,
    p2: Placement,
)
    requires
        sorted(a),
        sorted(b),
        forall|m: Seq<char>| #[trigger] lookup(a, m) == lookup(b, m),
        cleared == Seq::<AbbrView>::empty(),
        sorted(twice),
        forall|m: Seq<char>| #[trigger] lookup(once, m) == if m == n { Some((e1, p1)) } else { lookup(cleared, m) },
        forall|m: Seq<char>| #[trigger] lookup(twice, m) == if m == n { Some((e2, p2)) } else { lookup(once, m) },
    ensures
        a == b,
        twice == seq![(n, e2, p2)],
{
    lemma_lookup_determines(a, b);
    let only = seq![(n, e2, p2)];
    assert(sorted(only));
    assert forall|m: Seq<char>| #[trigger] lookup(twice, m) == lookup(only, m) by {
        assert(lookup(twice, m) == if m == n { Some((e2, p2)) } else { lookup(once, m) });
        assert(lookup(once, m) == if m == n { Some((e1, p1)) } else { lookup(cleared, m) });
        assert(only.drop_last() =~= Seq::<AbbrView>::empty());
    }
    lemma_lookup_determines(twice, only);
}

/// Removing a name leaves no entry of that name, every other definition as it was, and the word
/// no longer expands anywhere.
pub proof fn law_remove_forgets_the_name(
    before: Seq<AbbrView>,
    after: Seq<AbbrView>,
    name: Seq<char>,
    line: Seq<char>,
    cursor: nat,
)
    requires
        sorted(after),
        forall|m: Seq<char>| #[trigger] lookup(after, m) == if m == name { None } else { lookup(before, m) },
        line.subrange(word_start(line, cursor_index(line, cursor)), cursor_index(line, cursor)) == name,
    ensures
        forall|i: int| 0 <= i < after.len() ==> (#[trigger] after[i]).0 != name,
        forall|m: Seq<char>| m != name ==> #[trigger] lookup(after, m) == lookup(before, m),
        spec_expand(after, line, cursor) is None,
{
    assert(lookup(after, name) is None);
    lemma_absent_everywhere(after, name);
    assert forall|m: Seq<char>| m != name implies #[trigger] lookup(after, m) == lookup(before, m) by {
        assert(lookup(after, m) == if m == name { None } else { lookup(before, m) });
    }
}

/// Whether every character of `s` is whitespace.
pub open spec fn all_space(s: Seq<char>) -> bool {
    forall|i: int| 0 <= i < s.len() ==> spec_is_whitespace(#[trigger] s[i])
}

proof fn lemma_trim_trailing_space(x: Seq<char>, ws: Seq<char>)
    requires
        all_space(ws),
        x.len() == 0 || !spec_is_whitespace(x.last()),
    ensures
        trim_end_at(x + ws, (x + ws).len() as int) == x.len(),
    decreases ws.len(),
{
    let s = x + ws;
    if ws.len() == 0 {
        assert(s =~= x);
        if x.len() > 0 {
            assert(s[s.len() - 1] == x.last());
        }
    } else {
        let d = ws.drop_last();
        assert(all_space(d)) by {
            assert forall|i: int| 0 <= i < d.len() implies spec_is_whitespace(#[trigger] d[i]) by {
                assert(d[i] == ws[i]);
            }
        }
        lemma_trim_trailing_space(x, d);
        assert(s[s.len() - 1] == ws[ws.len() - 1]);
        assert(spec_is_whitespace(ws[ws.len() - 1]));
        assert((x + d) =~= s.subrange(0, (x + d).len() as int));
        lemma_trim_prefix_agrees(s, x + d, (s.len() - 1) as int);
    }
}

/// Trimming back from `j` looks only at what lies before `j`.
proof fn lemma_trim_prefix_agrees(s: Seq<char>, t: Seq<char>, j: int)
    requires
        0 <= j <= t.len() <= s.len(),
        t == s.subrange(0, t.len() as int),
    ensures
        trim_end_at(s, j) == trim_end_at(t, j),
    decreases j,
{
    if j > 0 {
        assert(s[j - 1] == t[j - 1]);
        lemma_trim_prefix_agrees(s, t, j - 1);
    }
}

proof fn lemma_last_space_after(p: Seq<char>, w: Seq<char>, k: int)
    requires
        0 <= k <= w.len(),
        forall|i: int| 0 <= i < w.len() ==> !spec_is_whitespace(#[trigger] w[i]),
    ensures
        last_space(p + w, p.len() + k) == last_space(p, p.len() as int),
    decreases k,
{
    let s = p + w;
    if k > 0 {
        assert(s[p.len() + k - 1] == w[k - 1]);
        lemma_last_space_after(p, w, k - 1);
    } else {
        assert(p =~= s.subrange(0, p.len() as int));
        lemma_last_space_prefix(s, p, p.len() as int);
    }
}

proof fn lemma_last_space_prefix(s: Seq<char>, p: Seq<char>, k: int)
    requires
        0 <= k <= p.len() <= s.len(),
        p == s.subrange(0, p.len() as int),
    ensures
        last_space(s, k) == last_space(p, k),
    decreases k,
{
    if k > 0 {
        assert(s[k - 1] == p[k - 1]);
        lemma_last_space_prefix(s, p, k - 1);
    }
}

/// Where a command name may stand, before whatever whitespace the cursor's word follows: at
/// the start of the line; after `;`, `|`, `&`, `(` or `{`; and after a whole word exactly when
/// it is one of the words that only ever precede a command (`sudo`, `doas`, `command`, `time`,
/// `env`, `xargs`) or ends in one of those characters.
pub proof fn law_where_a_command_begins(p: Seq<char>, c: char, w: Seq<char>, ws: Seq<char>)
    requires
        all_space(ws),
    ensures
        is_command_position(ws),
        (c == ';' || c == '|' || c == '&' || c == '(' || c == '{') ==> is_command_position(p + seq![c] + ws),
        w.len() > 0 && (forall|i: int| 0 <= i < w.len() ==> !spec_is_whitespace(#[trigger] w[i])) && (p.len() == 0
            || spec_is_whitespace(p.last())) ==> is_command_position(p + w + ws) == (w == "sudo"@ || w == "doas"@
            || w == "command"@ || w == "time"@ || w == "env"@ || w == "xargs"@ || w.last() == ';' || w.last() == '|'
            || w.last() == '&' || w.last() == '(' || w.last() == '{'),
{
    lemma_trim_trailing_space(Seq::<char>::empty(), ws);
    assert(Seq::<char>::empty() + ws =~= ws);
    if c == ';' || c == '|' || c == '&' || c == '(' || c == '{' {
        let x = p + seq![c];
        assert(x.last() == c);
        lemma_trim_trailing_space(x, ws);
        let before = p + seq![c] + ws;
        assert(before.subrange(0, x.len() as int) =~= x);
    }
    if w.len() > 0 && (forall|i: int| 0 <= i < w.len() ==> !spec_is_whitespace(#[trigger] w[i])) && (p.len() == 0
        || spec_is_whitespace(p.last())) {
        let x = p + w;
        assert(x.last() == w[w.len() - 1]);
        lemma_trim_trailing_space(x, ws);
        let before = p + w + ws;
        let trimmed = before.subrange(0, x.len() as int);
        assert(trimmed =~= x);
        lemma_last_space_after(p, w, w.len() as int);
        if p.len() > 0 {
            assert(last_space(p, p.len() as int) == Some(p.len() - 1));
        }
        assert(word_start(x, x.len() as int) == p.len());
        assert(x.subrange(p.len() as int, x.len() as int) =~= w);
        assert(x.last() == w.last());
    }
}

proof fn lemma_utf8_strict_prefix(cs: Seq<char>, k: int)
    requires
        0 <= k < cs.len(),
    ensures
        utf8_bytes(cs.subrange(0, k)) < utf8_bytes(cs),
{
    let t = cs.subrange(k, cs.len() as int);
    text::lemma_utf8_concat(cs.subrange(0, k), t);
    assert(cs.subrange(0, k) + t =~= cs);
    assert(vstd::utf8::encode_utf8(t).len() >= 1) by {
        assert(vstd::utf8::encode_utf8(t) == vstd::utf8::encode_scalar(t[0] as u32) + vstd::utf8::encode_utf8(t.drop_first()));
    }
}

proof fn lemma_index_at_end(cs: Seq<char>, k: int)
    requires
        0 <= k <= cs.len(),
    ensures
        index_from(cs, utf8_bytes(cs) as int, k) == cs.len(),
    decreases cs.len() - k,
{
    if k < cs.len() {
        lemma_utf8_strict_prefix(cs, k);
        lemma_index_at_end(cs, k + 1);
    }
}

/// Whether `e` holds `%` first at `at`.
pub open spec fn first_marker(e: Seq<char>, at: int) -> bool {
    0 <= at < e.len() && e[at] == '%' && forall|m: int| 0 <= m < at ==> #[trigger] e[m] != '%'
}

proof fn lemma_marker_found(e: Seq<char>, at: int)
    requires
        first_marker(e, at),
    ensures
        find(e, seq!['%']) == Some(at),
{
    assert(text::occurs_at(e, seq!['%'], at)) by {
        assert(e.subrange(at, at + 1) =~= seq!['%']);
    }
    lemma_find_from_finds_abbr(e, 0, at);
    text::lemma_find_from_bounds(e, seq!['%'], 0);
    let f = find(e, seq!['%']).unwrap();
    assert(e.subrange(f, f + 1)[0] == e[f]);
    assert(!(f < at));
    lemma_find_from_least(e, 0, at);
}

proof fn lemma_find_from_finds_abbr(e: Seq<char>, from: int, at: int)
    requires
        0 <= from <= at,
        text::occurs_at(e, seq!['%'], at),
    ensures
        text::find_from(e, seq!['%'], from) is Some,
    decreases at - from,
{
    if !text::occurs_at(e, seq!['%'], from) {
        lemma_find_from_finds_abbr(e, from + 1, at);
    }
}

proof fn lemma_find_from_least(e: Seq<char>, from: int, at: int)
    requires
        0 <= from <= at,
        text::occurs_at(e, seq!['%'], at),
    ensures
        text::find_from(e, seq!['%'], from) matches Some(f) ==> f <= at,
    decreases at - from,
{
    if from < at && !text::occurs_at(e, seq!['%'], from) {
        lemma_find_from_least(e, from + 1, at);
    }
}

proof fn lemma_no_marker(e: Seq<char>)
    requires
        forall|m: int| 0 <= m < e.len() ==> #[trigger] e[m] != '%',
    ensures
        find(e, seq!['%']) is None,
{
    text::lemma_find_from_bounds(e, seq!['%'], 0);
    if let Some(f) = find(e, seq!['%']) {
        assert(e.subrange(f, f + 1)[0] == e[f]);
    }
}

/// Expanding the word just typed at the end of a line, after a space or at its start: a word
/// that is no abbreviation is left alone; a command abbreviation away from a command position
/// is left alone; and otherwise the word becomes the expansion with its first `%` taken out, the
/// cursor landing where that `%` was, or at the end of the expansion when it has none, counted
/// in bytes.
pub proof fn law_an_abbreviation_replaces_the_word_typed(
    es: Seq<AbbrView>,
    p: Seq<char>,
    w: Seq<char>,
    at: int,
)
    requires
        w.len() > 0,
        forall|i: int| 0 <= i < w.len() ==> !spec_is_whitespace(#[trigger] w[i]),
        p.len() == 0 || spec_is_whitespace(p.last()),
    ensures
        ({
            let cs = p + w;
            let cursor = utf8_bytes(cs);
            &&& lookup(es, w) is None ==> spec_expand(es, cs, cursor) is None
            &&& lookup(es, w) matches Some((e, pl)) ==> {
                &&& pl == Placement::Command && !is_command_position(p) ==> spec_expand(es, cs, cursor) is None
                &&& (pl == Placement::Anywhere || is_command_position(p)) && first_marker(e, at) ==> spec_expand(
                    es,
                    cs,
                    cursor,
                ) == Some(
                    (
                        p + e.subrange(0, at) + e.subrange(at + 1, e.len() as int),
                        utf8_bytes(p) + utf8_bytes(e.subrange(0, at)),
                    ),
                )
                &&& (pl == Placement::Anywhere || is_command_position(p)) && (forall|m: int|
                    0 <= m < e.len() ==> #[trigger] e[m] != '%') ==> spec_expand(es, cs, cursor) == Some(
                    (p + e, utf8_bytes(p) + utf8_bytes(e)),
                )
            }
        }),
{
    let cs = p + w;
    lemma_index_at_end(cs, 0);
    assert(cursor_index(cs, utf8_bytes(cs)) == cs.len());
    lemma_last_space_after(p, w, w.len() as int);
    if p.len() > 0 {
        assert(last_space(p, p.len() as int) == Some(p.len() - 1));
    }
    assert(word_start(cs, cs.len() as int) == p.len());
    assert(cs.subrange(p.len() as int, cs.len() as int) =~= w);
    assert(cs.subrange(0, p.len() as int) =~= p);
    assert(cs.subrange(cs.len() as int, cs.len() as int) =~= Seq::<char>::empty());
    if let Some((e, pl)) = lookup(es, w) {
        if first_marker(e, at) {
            lemma_marker_found(e, at);
        }
        if forall|m: int| 0 <= m < e.len() ==> #[trigger] e[m] != '%' {
            lemma_no_marker(e);
        }
        assert(p + e.subrange(0, at) + e.subrange(at + 1, e.len() as int) + Seq::<char>::empty()
            =~= p + e.subrange(0, at) + e.subrange(at + 1, e.len() as int));
        assert(p + e + Seq::<char>::empty() =~= p + e);
    }
}

} // verus!
