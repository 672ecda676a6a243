//! The knobs a config sets, other than colours.
//!
//! Read from `oslo.completion`, `oslo.suggest`, `oslo.history` and `oslo.keys` once the config has
//! run, and merged over the defaults: naming one field must not blank the rest. `false` and
//! "absent" are told apart, or `descriptions = false` could never turn anything off. A name
//! nothing answers to is reported, never ignored.
//!
//! The config's tables reach this module as [`Value`]s: plain data holding what the reader looks
//! at, built by whoever ran the config.

use vstd::prelude::*;
use crate::abbr::{lemma_name_lt_irreflexive, lemma_name_lt_total, lemma_name_lt_transitive, name_lt, name_lt_x};
use crate::dropdown::MAX_ROWS;
use crate::text;

verus! {

/// A value of the config, as the settings reader sees it.
#[derive(Debug)]
pub enum Value {
    Nil,
    Bool(bool),
    /// A number, by its integer value when it has one (`5` and `5.0`, but not `5.5`).
    Number(Option<i64>),
    Str(String),
    Table(Table),
    /// Anything else: a function, say. True, as every value but `nil` and `false` is.
    Other,
}

/// A table of the config: the values under the keys `1, 2, 3, …` in order, which is what a list
/// is made of, and the values under string keys.
#[derive(Debug)]
pub struct Table {
    pub items: Vec<Value>,
    pub fields: Vec<(String, Value)>,
}

/// The value under `name`, `nil` when there is none.
pub open spec fn field(fs: Seq<(String, Value)>, name: Seq<char>) -> Value
    decreases fs.len(),
{
    if fs.len() == 0 {
        Value::Nil
    } else if fs[0].0@ == name {
        fs[0].1
    } else {
        field(fs.drop_first(), name)
    }
}

/// Whether a value counts as true: everything but `nil` and `false`.
pub open spec fn truthy(v: Value) -> bool {
    match v {
        Value::Nil => false,
        Value::Bool(b) => b,
        _ => true,
    }
}

/// The integer under `name`, when it holds one.
pub open spec fn number(t: Table, name: Seq<char>) -> Option<i64> {
    match field(t.fields@, name) {
        Value::Number(n) => n,
        _ => None,
    }
}

/// A flag under `name`: left as `current` when the table does not mention it.
pub open spec fn flag(t: Table, name: Seq<char>, current: bool) -> bool {
    match field(t.fields@, name) {
        Value::Nil => current,
        v => truthy(v),
    }
}

impl Table {
    /// Where `name` is among the string keys, when it is there.
    pub fn find(&self, name: &str) -> (r: Option<usize>)
        ensures
            match r {
                Some(i) => i < self.fields@.len() && field(self.fields@, name@) == self.fields@[i as int].1,
                None => field(self.fields@, name@) == Value::Nil,
            },
    {
        let want = text::chars_of(name);
        let mut i: usize = 0;
        assert(self.fields@.subrange(0, self.fields@.len() as int) =~= self.fields@);
        while i < self.fields.len()
            invariant
                i <= self.fields@.len(),
                want@ == name@,
                field(self.fields@, name@) == field(self.fields@.subrange(i as int, self.fields@.len() as int), name@),
            decreases self.fields.len() - i,
        {
            let here = text::chars_of(self.fields[i].0.as_str());
            let ghost rest = self.fields@.subrange(i as int, self.fields@.len() as int);
            assert(rest[0] == self.fields@[i as int]);
            if text::chars_eq(here.as_slice(), want.as_slice()) {
                return Some(i);
            }
            assert(rest.drop_first() =~= self.fields@.subrange(i + 1, self.fields@.len() as int));
            i += 1;
        }
        None
    }

    /// The integer under `name`, when it holds one.
    pub fn number(&self, name: &str) -> (r: Option<i64>)
        ensures
            r == number(*self, name@),
    {
        match self.find(name) {
            Some(i) => match &self.fields[i].1 {
                Value::Number(n) => *n,
                _ => None,
            },
            None => None,
        }
    }

    /// A flag under `name`, or `current` when the table does not mention it.
    pub fn flag(&self, name: &str, current: bool) -> (r: bool)
        ensures
            r == flag(*self, name@, current),
    {
        match self.find(name) {
            Some(i) => match &self.fields[i].1 {
                Value::Nil => current,
                Value::Bool(b) => *b,
                _ => true,
            },
            None => current,
        }
    }
}

// ------------------------------------------------------------------ the settings

/// How completion candidates are ordered.
#[derive(Debug, Clone, Copy, PartialEq, Eq, Structural)]
pub enum Sort {
    /// Most-used first, name as the tie-break.
    Frecency,
    /// Name only, ignoring how often anything has been used.
    Alpha,
}

/// `oslo.completion`.
#[derive(Debug, Clone, Copy, PartialEq, Eq, Structural)]
pub struct Completion {
    /// Rows the dropdown shows before it scrolls.
    pub max_rows: usize,
    /// Whether the description column is drawn at all.
    pub descriptions: bool,
    /// Whether the kind badge is drawn.
    pub show_kind: bool,
    /// Whether a candidate must match the typed case.
    pub case_sensitive: bool,
    pub sort: Sort,
}

impl Default for Completion {
    fn default() -> (r: Completion)
        ensures
            r == default_completion(),
    {
        Completion { max_rows: 15, descriptions: true, show_kind: true, case_sensitive: false, sort: Sort::Frecency }
    }
}

/// Fifteen rows, descriptions and badges shown, case ignored, the most used first.
pub open spec fn default_completion() -> Completion {
    Completion { max_rows: 15, descriptions: true, show_kind: true, case_sensitive: false, sort: Sort::Frecency }
}

/// Where a ghost suggestion may come from.
#[derive(Debug, Clone, Copy, PartialEq, Eq, Structural)]
pub enum Source {
    /// A line the user has actually run.
    History,
    /// A command name being typed.
    Completion,
    /// A file or directory.
    Path,
}

/// The source a name means.
pub open spec fn spec_source(name: Seq<char>) -> Option<Source> {
    if name == "history"@ {
        Some(Source::History)
    } else if name == "completion"@ || name == "completions"@ {
        Some(Source::Completion)
    } else if name == "path"@ || name == "paths"@ || name == "file"@ {
        Some(Source::Path)
    } else {
        None
    }
}

impl Source {
    pub fn parse(name: &str) -> (r: Option<Source>)
        ensures
            r == spec_source(name@),
    {
        let n = text::chars_of(name);
        let n = n.as_slice();
        if text::eq_str(n, "history") {
            Some(Source::History)
        } else if text::eq_str(n, "completion") || text::eq_str(n, "completions") {
            Some(Source::Completion)
        } else if text::eq_str(n, "path") || text::eq_str(n, "paths") || text::eq_str(n, "file") {
            Some(Source::Path)
        } else {
            None
        }
    }
}

/// `oslo.suggest`.
#[derive(Debug, Clone, PartialEq, Eq)]
pub struct Suggest {
    /// The sources to try, in order. Empty turns suggestions off entirely.
    pub sources: Vec<Source>,
    /// The key that takes the whole ghost suggestion, e.g. `"right"`.
    pub accept: Option<String>,
    /// The key that takes one word of it.
    pub accept_word: Option<String>,
}

impl Default for Suggest {
    fn default() -> (r: Suggest)
        ensures
            r.sources@ == seq![Source::History, Source::Completion, Source::Path],
            r.accept.is_none(),
            r.accept_word.is_none(),
    {
        Suggest { sources: vec![Source::History, Source::Completion, Source::Path], accept: None, accept_word: None }
    }
}

/// `oslo.history`.
#[derive(Debug, Clone, PartialEq, Eq)]
pub struct History {
    pub size: Option<usize>,
    pub file: Option<String>,
    /// Whether a line beginning with a space is kept out of the history.
    pub ignore_space: bool,
    /// Whether a line identical to the one before it is dropped. Off by default: dropping a
    /// repeat renumbers every later event, so `!-2` would point one line further back.
    pub ignore_dups: bool,
}

impl Default for History {
    fn default() -> (r: History)
        ensures
            r.size.is_none(),
            r.file.is_none(),
            r.ignore_space,
            !r.ignore_dups,
    {
        History { size: None, file: None, ignore_space: true, ignore_dups: false }
    }
}

/// `oslo.notify`: when a finished command is worth a desktop notification.
#[derive(Debug, Clone, Copy, PartialEq, Eq, Structural)]
pub struct Notify {
    /// Seconds a command must run before its finishing is worth telling you about; `0` never
    /// notifies.
    pub after: u64,
}

impl Default for Notify {
    /// Ten seconds: long enough that you have looked away, short enough to catch a test run.
    fn default() -> (r: Notify)
        ensures
            r.after == 10,
    {
        Notify { after: 10 }
    }
}

/// `oslo.notify`'s words: a title in place of the command, and a command run in place of the
/// terminal's own notification escape. `{cmd}`, `{status}` and `{duration}` are substituted in
/// both.
#[derive(Debug, Clone, PartialEq, Eq)]
pub struct NotifyText {
    pub title: Option<String>,
    pub command: Option<String>,
}

impl Default for NotifyText {
    fn default() -> (r: NotifyText)
        ensures
            r.title.is_none(),
            r.command.is_none(),
    {
        NotifyText { title: None, command: None }
    }
}

/// `oslo.misc`: the settings that belong to no other group.
#[derive(Debug, Clone, PartialEq, Eq)]
pub struct Misc {
    /// Whether to print the version banner and the exit hint at startup.
    pub welcome: bool,
    /// Printed instead of the banner.
    pub greeting: Option<String>,
    /// Milliseconds to wait for the rest of an escape sequence before a lone `ESC` is the Esc
    /// key.
    pub escape_delay: u64,
    /// A colour depth forced instead of detected: `truecolor`, `256`, `16` or `none`.
    pub color_depth: Option<String>,
}

impl Default for Misc {
    /// The banner on, no greeting, the standard 25 ms escape pause, the depth detected.
    fn default() -> (r: Misc)
        ensures
            r.welcome,
            r.greeting.is_none(),
            r.escape_delay == 25,
            r.color_depth.is_none(),
    {
        Misc { welcome: true, greeting: None, escape_delay: 25, color_depth: None }
    }
}

/// `oslo.finder`: the full-screen history search.
#[derive(Debug, Clone, PartialEq, Eq)]
pub struct Finder {
    /// Off means Up keeps walking history a line at a time.
    pub enabled: bool,
    /// The key that opens it, by any name `oslo.keys` understands.
    pub key: String,
    /// How many distinct commands to load when it opens.
    pub limit: usize,
    /// Whether Delete asks before forgetting a command, which cannot be undone.
    pub confirm_delete: bool,
}

impl Default for Finder {
    /// On, opened by Up, ten thousand commands at most, and Delete asks first.
    fn default() -> (r: Finder)
        ensures
            r.enabled,
            r.key@ == seq!['u', 'p'],
            r.limit == 10_000,
            r.confirm_delete,
    {
        let mut key = String::new();
        text::push_char(&mut key, 'u');
        text::push_char(&mut key, 'p');
        Finder { enabled: true, key, limit: 10_000, confirm_delete: true }
    }
}

/// Everything configurable that is not a colour.
#[derive(Debug, Clone, PartialEq, Eq)]
pub struct Settings {
    pub completion: Completion,
    pub suggest: Suggest,
    pub history: History,
    /// `oslo.keys`: key name to action name, both as written, in order.
    pub keys: Vec<(String, String)>,
}

impl Default for Settings {
    fn default() -> (r: Settings)
        ensures
            r.completion == default_completion(),
            r.suggest.sources@ == seq![Source::History, Source::Completion, Source::Path],
            r.suggest.accept.is_none(),
            r.suggest.accept_word.is_none(),
            r.history.size.is_none(),
            r.history.file.is_none(),
            r.history.ignore_space,
            !r.history.ignore_dups,
            r.keys@.len() == 0,
    {
        Settings {
            completion: Completion::default(),
            suggest: Suggest::default(),
            history: History::default(),
            keys: Vec::new(),
        }
    }
}

/// The views of some strings.
pub open spec fn texts(v: Seq<String>) -> Seq<Seq<char>> {
    Seq::new(v.len(), |i: int| v[i]@)
}

/// The view of an optional string.
pub open spec fn opt_text(o: Option<String>) -> Option<Seq<char>> {
    match o {
        Some(s) => Some(s@),
        None => None,
    }
}

// ------------------------------------------------------------------ oslo.completion

/// A row count clamped to something drawable: at least one, and no more than the dropdown shows.
pub open spec fn clamp_rows(n: i64) -> usize {
    let m = (if n > 1 { n } else { 1 }) as usize;
    if m < MAX_ROWS { m } else { MAX_ROWS }
}

/// The order a name means, when it means one.
pub open spec fn spec_sort(name: Seq<char>) -> Option<Sort> {
    if name == "frecency"@ || name == "frequency"@ {
        Some(Sort::Frecency)
    } else if name == "alpha"@ || name == "alphabetical"@ || name == "name"@ {
        Some(Sort::Alpha)
    } else {
        None
    }
}

/// `oslo.completion` read over `c`.
pub open spec fn completion_from(t: Table, c: Completion) -> Completion {
    let max_rows = match number(t, "max_rows"@) {
        Some(n) => clamp_rows(n),
        None => c.max_rows,
    };
    let sort = match field(t.fields@, "sort"@) {
        Value::Str(s) => match spec_sort(s@) {
            Some(o) => o,
            None => c.sort,
        },
        _ => c.sort,
    };
    Completion {
        max_rows,
        descriptions: flag(t, "descriptions"@, c.descriptions),
        show_kind: flag(t, "show_kind"@, c.show_kind),
        case_sensitive: flag(t, "case_sensitive"@, c.case_sensitive),
        sort,
    }
}

/// What is wrong with `oslo.completion`: an order nothing answers to.
pub open spec fn completion_problems(t: Table) -> Seq<Seq<char>> {
    match field(t.fields@, "sort"@) {
        Value::Str(s) => if spec_sort(s@) is None {
            seq!["oslo.completion.sort: '"@ + s@ + "' is not an order; use 'frecency' or 'alpha'"@]
        } else {
            seq![]
        },
        _ => seq![],
    }
}

fn read_completion(t: &Table, c: Completion, problems: &mut Vec<String>) -> (r: Completion)
    ensures
        r == completion_from(*t, c),
        texts(final(problems)@) == texts(old(problems)@) + completion_problems(*t),
{
    let mut c = c;
    if let Some(n) = t.number("max_rows") {
        let m = if n > 1 {
            n
        } else {
            1
        };
        let m = m as usize;
        c.max_rows = if m < MAX_ROWS {
            m
        } else {
            MAX_ROWS
        };
    }
    c.descriptions = t.flag("descriptions", c.descriptions);
    c.show_kind = t.flag("show_kind", c.show_kind);
    c.case_sensitive = t.flag("case_sensitive", c.case_sensitive);
    let ghost before = problems@;
    match t.find("sort") {
        Some(i) => match &t.fields[i].1 {
            Value::Str(name) => {
                let n = text::chars_of(name.as_str());
                let n = n.as_slice();
                if text::eq_str(n, "frecency") || text::eq_str(n, "frequency") {
                    c.sort = Sort::Frecency;
                } else if text::eq_str(n, "alpha") || text::eq_str(n, "alphabetical") || text::eq_str(n, "name") {
                    c.sort = Sort::Alpha;
                } else {
                    let mut msg = String::new();
                    text::push_str(&mut msg, "oslo.completion.sort: '");
                    text::push_str(&mut msg, name.as_str());
                    text::push_str(&mut msg, "' is not an order; use 'frecency' or 'alpha'");
                    problems.push(msg);
                }
            },
            _ => {},
        },
        None => {},
    }
    assert(texts(problems@) =~= texts(before) + completion_problems(*t));
    c
}

// ------------------------------------------------------------------ oslo.history

/// A history size: a negative count is none at all.
pub open spec fn history_size(n: i64) -> usize {
    (if n > 0 { n } else { 0 }) as usize
}

fn read_history(t: &Table, h: &mut History)
    ensures
        final(h).size == (match number(*t, "size"@) {
            Some(n) => Some(history_size(n)),
            None => old(h).size,
        }),
        opt_text(final(h).file) == (match field(t.fields@, "file"@) {
            Value::Str(f) => Some(f@),
            _ => opt_text(old(h).file),
        }),
        final(h).ignore_space == flag(*t, "ignore_space"@, old(h).ignore_space),
        final(h).ignore_dups == flag(*t, "ignore_dups"@, old(h).ignore_dups),
{
    if let Some(n) = t.number("size") {
        let m = if n > 0 {
            n
        } else {
            0
        };
        h.size = Some(m as usize);
    }
    match t.find("file") {
        Some(i) => match &t.fields[i].1 {
            Value::Str(f) => {
                h.file = Some(text::string_of(text::chars_of(f.as_str()).as_slice()));
            },
            _ => {},
        },
        None => {},
    }
    h.ignore_space = t.flag("ignore_space", h.ignore_space);
    h.ignore_dups = t.flag("ignore_dups", h.ignore_dups);
}

// ------------------------------------------------------------------ oslo.suggest

/// What a list of sources names: the sources, in the order first written, each once; and a
/// problem for every name that is not a source. Entries that are not strings are passed over.
pub open spec fn sources_from(items: Seq<Value>) -> (Seq<Source>, Seq<Seq<char>>)
    decreases items.len(),
{
    if items.len() == 0 {
        (seq![], seq![])
    } else {
        let (s, p) = sources_from(items.drop_last());
        match items.last() {
            Value::Str(n) => match spec_source(n@) {
                Some(src) => if s.contains(src) {
                    (s, p)
                } else {
                    (s.push(src), p)
                },
                None => (s, p.push(
                    "oslo.suggest.sources: '"@ + n@ + "' is not a source; the sources are history, completion and path"@,
                )),
            },
            _ => (s, p),
        }
    }
}

fn read_sources(items: &Vec<Value>, problems: &mut Vec<String>) -> (r: Vec<Source>)
    ensures
        r@ == sources_from(items@).0,
        texts(final(problems)@) == texts(old(problems)@) + sources_from(items@).1,
{
    let ghost start = texts(problems@);
    let mut out: Vec<Source> = Vec::new();
    let mut i: usize = 0;
    while i < items.len()
        invariant
            i <= items@.len(),
            out@ == sources_from(items@.subrange(0, i as int)).0,
            texts(problems@) == start + sources_from(items@.subrange(0, i as int)).1,
        decreases items.len() - i,
    {
        let ghost prefix = items@.subrange(0, i + 1);
        assert(prefix.drop_last() =~= items@.subrange(0, i as int));
        assert(prefix.last() == items@[i as int]);
        let ghost before = problems@;
        match &items[i] {
            Value::Str(name) => match Source::parse(name.as_str()) {
                Some(src) => {
                    let mut seen = false;
                    let mut k: usize = 0;
                    while k < out.len()
                        invariant
                            k <= out@.len(),
                            seen == (exists|j: int| 0 <= j < k && out@[j] == src),
                        decreases out.len() - k,
                    {
                        if out[k] == src {
                            seen = true;
                        }
                        k += 1;
                    }
                    assert(seen == out@.contains(src));
                    if !seen {
                        out.push(src);
                    }
                },
                None => {
                    let mut msg = String::new();
                    text::push_str(&mut msg, "oslo.suggest.sources: '");
                    text::push_str(&mut msg, name.as_str());
                    text::push_str(&mut msg, "' is not a source; the sources are history, completion and path");
                    problems.push(msg);
                    assert(texts(problems@) =~= texts(before).push(msg@));
                },
            },
            _ => {},
        }
        i += 1;
    }
    assert(items@.subrange(0, items@.len() as int) =~= items@);
    out
}

// ------------------------------------------------------------------ oslo.keys

/// A key binding as text: the key's name and the action's.
pub type Binding = (Seq<char>, Seq<char>);

/// `a` sorts before `b`: by key name, then by action name.
pub open spec fn binding_lt(a: Binding, b: Binding) -> bool {
    name_lt(a.0, b.0) || (a.0 == b.0 && name_lt(a.1, b.1))
}

/// Bindings in order, equal ones side by side.
pub open spec fn bindings_sorted(s: Seq<Binding>) -> bool {
    forall|i: int, j: int| 0 <= i < j < s.len() ==> !binding_lt(#[trigger] s[j], #[trigger] s[i])
}

/// The bindings a list of string pairs holds, as text.
pub open spec fn binding_texts(v: Seq<(String, String)>) -> Seq<Binding> {
    Seq::new(v.len(), |i: int| (v[i].0@, v[i].1@))
}

/// The bindings `oslo.keys` holds: every string key whose value is a string, in the table's
/// order.
pub open spec fn bindings_in(fs: Seq<(String, Value)>) -> Seq<Binding>
    decreases fs.len(),
{
    if fs.len() == 0 {
        seq![]
    } else {
        let rest = bindings_in(fs.drop_last());
        match fs.last().1 {
            Value::Str(a) => rest.push((fs.last().0@, a@)),
            _ => rest,
        }
    }
}

/// The entries of `oslo.keys` that are not a name mapped to a name: every list entry, whose key
/// is a number, and every string key whose value is not a string.
pub open spec fn stray_entries(t: Table) -> nat {
    t.items@.len() + stray_fields(t.fields@)
}

pub open spec fn stray_fields(fs: Seq<(String, Value)>) -> nat
    decreases fs.len(),
{
    if fs.len() == 0 {
        0
    } else {
        stray_fields(fs.drop_last()) + match fs.last().1 {
            Value::Str(_) => 0nat,
            _ => 1nat,
        }
    }
}

/// The problem reported for each stray entry of `oslo.keys`.
pub open spec fn keys_problem() -> Seq<char> {
    "oslo.keys: every entry must be a key name mapped to an action name"@
}

/// `n` reports of a stray key entry.
pub open spec fn keys_problems(n: nat) -> Seq<Seq<char>> {
    Seq::new(n, |_i: int| keys_problem())
}

proof fn lemma_binding_lt_irreflexive(a: Binding)
    ensures
        !binding_lt(a, a),
{
    lemma_name_lt_irreflexive(a.0);
    lemma_name_lt_irreflexive(a.1);
}

proof fn lemma_binding_lt_transitive(a: Binding, b: Binding, c: Binding)
    requires
        binding_lt(a, b),
        binding_lt(b, c),
    ensures
        binding_lt(a, c),
{
    if name_lt(a.0, b.0) && name_lt(b.0, c.0) {
        lemma_name_lt_transitive(a.0, b.0, c.0);
    } else if a.0 == b.0 && b.0 == c.0 {
        lemma_name_lt_transitive(a.1, b.1, c.1);
    }
}

fn binding_lt_x(a: &(String, String), b: &(String, String)) -> (r: bool)
    ensures
        r == binding_lt((a.0@, a.1@), (b.0@, b.1@)),
{
    let a0 = text::chars_of(a.0.as_str());
    let b0 = text::chars_of(b.0.as_str());
    if name_lt_x(a0.as_slice(), b0.as_slice()) {
        return true;
    }
    if !text::chars_eq(a0.as_slice(), b0.as_slice()) {
        return false;
    }
    let a1 = text::chars_of(a.1.as_str());
    let b1 = text::chars_of(b.1.as_str());
    name_lt_x(a1.as_slice(), b1.as_slice())
}

/// `b` put into the sorted `out` after every binding it does not sort before.
fn insert_sorted(out: &mut Vec<(String, String)>, b: (String, String))
    requires
        bindings_sorted(binding_texts(old(out)@)),
    ensures
        bindings_sorted(binding_texts(final(out)@)),
        binding_texts(final(out)@).to_multiset() == binding_texts(old(out)@).to_multiset().insert((b.0@, b.1@)),
{
    let ghost s = binding_texts(out@);
    let ghost x = (b.0@, b.1@);
    let mut pos: usize = 0;
    while pos < out.len() && !binding_lt_x(&b, &out[pos])
        invariant
            pos <= out@.len(),
            s == binding_texts(out@),
            x == (b.0@, b.1@),
            forall|k: int| 0 <= k < pos ==> !binding_lt(x, #[trigger] s[k]),
        decreases out.len() - pos,
    {
        pos += 1;
    }
    out.insert(pos, b);
    let ghost t = binding_texts(out@);
    assert(t =~= s.insert(pos as int, x));
    proof {
        vstd::seq_lib::to_multiset_insert(s, pos as int, x);
        assert forall|i: int, j: int| 0 <= i < j < t.len() implies !binding_lt(#[trigger] t[j], #[trigger] t[i]) by {
            if j < pos {
                assert(t[i] == s[i] && t[j] == s[j]);
            } else if j == pos {
                assert(t[i] == s[i]);
            } else if i < pos {
                assert(t[i] == s[i] && t[j] == s[j - 1]);
            } else if i == pos {
                assert(t[j] == s[j - 1]);
                assert(binding_lt(x, s[pos as int]));
                if binding_lt(s[j - 1], x) {
                    lemma_binding_lt_transitive(s[j - 1], x, s[pos as int]);
                    if j - 1 == pos {
                        lemma_binding_lt_irreflexive(s[pos as int]);
                    }
                }
            } else {
                assert(t[i] == s[i - 1] && t[j] == s[j - 1]);
            }
        }
    }
}

fn read_keys(t: &Table, problems: &mut Vec<String>) -> (r: Vec<(String, String)>)
    ensures
        bindings_sorted(binding_texts(r@)),
        binding_texts(r@).to_multiset() == bindings_in(t.fields@).to_multiset(),
        texts(final(problems)@) == texts(old(problems)@) + keys_problems(stray_entries(*t)),
{
    let ghost start = texts(problems@);
    let mut i: usize = 0;
    while i < t.items.len()
        invariant
            i <= t.items@.len(),
            texts(problems@) == start + keys_problems(i as nat),
        decreases t.items.len() - i,
    {
        let ghost before = problems@;
        let msg = text::string_of(text::chars_of("oslo.keys: every entry must be a key name mapped to an action name").as_slice());
        problems.push(msg);
        assert(texts(problems@) =~= texts(before).push(keys_problem()));
        assert(texts(problems@) =~= start + keys_problems((i + 1) as nat));
        i += 1;
    }
    let mut out: Vec<(String, String)> = Vec::new();
    let mut j: usize = 0;
    assert(binding_texts(out@) =~= bindings_in(t.fields@.subrange(0, 0)));
    let ghost items = t.items@.len();
    while j < t.fields.len()
        invariant
            j <= t.fields@.len(),
            items == t.items@.len(),
            bindings_sorted(binding_texts(out@)),
            binding_texts(out@).to_multiset() == bindings_in(t.fields@.subrange(0, j as int)).to_multiset(),
            texts(problems@) == start + keys_problems(items + stray_fields(t.fields@.subrange(0, j as int))),
        decreases t.fields.len() - j,
    {
        let ghost prefix = t.fields@.subrange(0, j + 1);
        assert(prefix.drop_last() =~= t.fields@.subrange(0, j as int));
        assert(prefix.last() == t.fields@[j as int]);
        match &t.fields[j].1 {
            Value::Str(action) => {
                let key = text::string_of(text::chars_of(t.fields[j].0.as_str()).as_slice());
                let act = text::string_of(text::chars_of(action.as_str()).as_slice());
                let ghost x = (key@, act@);
                insert_sorted(&mut out, (key, act));
                proof {
                    vstd::seq_lib::to_multiset_build(bindings_in(t.fields@.subrange(0, j as int)), x);
                }
            },
            _ => {
                let ghost before = problems@;
                let msg = text::string_of(text::chars_of("oslo.keys: every entry must be a key name mapped to an action name").as_slice());
                problems.push(msg);
                assert(texts(problems@) =~= texts(before).push(keys_problem()));
                assert(texts(problems@) =~= start + keys_problems(items + stray_fields(prefix)));
            },
        }
        j += 1;
    }
    assert(t.fields@.subrange(0, t.fields@.len() as int) =~= t.fields@);
    out
}

// ------------------------------------------------------------------ the whole of `oslo`

/// The table `oslo.<name>`, when `oslo` is a table and that is one too.
pub open spec fn section(oslo: Value, name: Seq<char>) -> Option<Table> {
    match oslo {
        Value::Table(t) => match field(t.fields@, name) {
            Value::Table(s) => Some(s),
            _ => None,
        },
        _ => None,
    }
}

/// `oslo.completion` over the defaults.
pub open spec fn spec_completion(oslo: Value) -> Completion {
    match section(oslo, "completion"@) {
        Some(t) => completion_from(t, default_completion()),
        None => default_completion(),
    }
}

/// The list `oslo.suggest.sources`, when there is one.
pub open spec fn sources_list(oslo: Value) -> Option<Table> {
    match section(oslo, "suggest"@) {
        Some(t) => match field(t.fields@, "sources"@) {
            Value::Table(l) => Some(l),
            _ => None,
        },
        None => None,
    }
}

/// The suggestion sources: the list's when there is one, and otherwise fish's order.
pub open spec fn spec_sources(oslo: Value) -> Seq<Source> {
    match sources_list(oslo) {
        Some(l) => sources_from(l.items@).0,
        None => seq![Source::History, Source::Completion, Source::Path],
    }
}

/// A string under `oslo.<sec>.<name>`, when there is one.
pub open spec fn spec_text(oslo: Value, sec: Seq<char>, name: Seq<char>) -> Option<Seq<char>> {
    match section(oslo, sec) {
        Some(t) => match field(t.fields@, name) {
            Value::Str(k) => Some(k@),
            _ => None,
        },
        None => None,
    }
}

/// The bindings `oslo.keys` holds.
pub open spec fn spec_bindings(oslo: Value) -> Seq<Binding> {
    match section(oslo, "keys"@) {
        Some(t) => bindings_in(t.fields@),
        None => seq![],
    }
}

/// A setting of `oslo.history` over its defaults.
pub open spec fn spec_history_flag(oslo: Value, name: Seq<char>, default: bool) -> bool {
    match section(oslo, "history"@) {
        Some(t) => flag(t, name, default),
        None => default,
    }
}

/// `oslo.history.size`.
pub open spec fn spec_history_size(oslo: Value) -> Option<usize> {
    match section(oslo, "history"@) {
        Some(t) => match number(t, "size"@) {
            Some(n) => Some(history_size(n)),
            None => None,
        },
        None => None,
    }
}

/// Everything wrong with the config, in the order the sections are read: completion, the
/// suggestion sources, then the key bindings.
pub open spec fn spec_problems(oslo: Value) -> Seq<Seq<char>> {
    let c = match section(oslo, "completion"@) {
        Some(t) => completion_problems(t),
        None => seq![],
    };
    let s = match sources_list(oslo) {
        Some(l) => sources_from(l.items@).1,
        None => seq![],
    };
    let k = match section(oslo, "keys"@) {
        Some(t) => keys_problems(stray_entries(t)),
        None => seq![],
    };
    c + s + k
}

/// The table `oslo.<name>`, when `oslo` is a table and that is one too.
fn section_of<'a>(oslo: &'a Value, name: &str) -> (r: Option<&'a Table>)
    ensures
        match r {
            Some(t) => section(*oslo, name@) == Some(*t),
            None => section(*oslo, name@) is None,
        },
{
    match oslo {
        Value::Table(t) => match t.find(name) {
            Some(i) => match &t.fields[i].1 {
                Value::Table(s) => Some(s),
                _ => None,
            },
            None => None,
        },
        _ => None,
    }
}

/// A string under `name` in `t`, copied out.
fn text_of(t: &Table, name: &str) -> (r: Option<String>)
    ensures
        opt_text(r) == match field(t.fields@, name@) {
            Value::Str(k) => Some(k@),
            _ => None,
        },
{
    match t.find(name) {
        Some(i) => match &t.fields[i].1 {
            Value::Str(k) => Some(text::string_of(text::chars_of(k.as_str()).as_slice())),
            _ => None,
        },
        None => None,
    }
}

/// Read the settings out of the `oslo` table, and what was wrong with them.
///
/// Every section is merged over the defaults; a value that is not `oslo` being a table reads as
/// the defaults with nothing wrong.
pub fn read_lua_settings(oslo: &Value) -> (r: (Settings, Vec<String>))
    ensures
        r.0.completion == spec_completion(*oslo),
        r.0.suggest.sources@ == spec_sources(*oslo),
        opt_text(r.0.suggest.accept) == spec_text(*oslo, "suggest"@, "accept"@),
        opt_text(r.0.suggest.accept_word) == spec_text(*oslo, "suggest"@, "accept_word"@),
        bindings_sorted(binding_texts(r.0.keys@)),
        binding_texts(r.0.keys@).to_multiset() == spec_bindings(*oslo).to_multiset(),
        r.0.history.size == spec_history_size(*oslo),
        opt_text(r.0.history.file) == spec_text(*oslo, "history"@, "file"@),
        r.0.history.ignore_space == spec_history_flag(*oslo, "ignore_space"@, true),
        r.0.history.ignore_dups == spec_history_flag(*oslo, "ignore_dups"@, false),
        texts(r.1@) == spec_problems(*oslo),
{
    let mut settings = Settings::default();
    let mut problems: Vec<String> = Vec::new();
    assert(texts(problems@) =~= Seq::<Seq<char>>::empty());
    let ghost p0 = texts(problems@);

    if let Some(t) = section_of(oslo, "completion") {
        settings.completion = read_completion(t, settings.completion, &mut problems);
    }
    let ghost p1 = texts(problems@);
    assert(p1 =~= match section(*oslo, "completion"@) {
        Some(t) => completion_problems(t),
        None => seq![],
    });

    if let Some(t) = section_of(oslo, "suggest") {
        match t.find("sources") {
            Some(i) => match &t.fields[i].1 {
                Value::Table(list) => {
                    settings.suggest.sources = read_sources(&list.items, &mut problems);
                },
                _ => {},
            },
            None => {},
        }
        settings.suggest.accept = text_of(t, "accept");
        settings.suggest.accept_word = text_of(t, "accept_word");
    }
    let ghost p2 = texts(problems@);
    assert(p2 =~= p1 + match sources_list(*oslo) {
        Some(l) => sources_from(l.items@).1,
        None => seq![],
    });

    if let Some(t) = section_of(oslo, "keys") {
        settings.keys = read_keys(t, &mut problems);
    } else {
        assert(binding_texts(settings.keys@) =~= spec_bindings(*oslo));
    }
    assert(texts(problems@) =~= spec_problems(*oslo));

    if let Some(t) = section_of(oslo, "history") {
        read_history(t, &mut settings.history);
    }
    (settings, problems)
}

// ------------------------------------------------------------------ laws

proof fn lemma_binding_lt_total(a: Binding, b: Binding)
    requires
        a != b,
    ensures
        binding_lt(a, b) || binding_lt(b, a),
{
    if a.0 != b.0 {
        lemma_name_lt_total(a.0, b.0);
    } else {
        assert(a.1 != b.1);
        lemma_name_lt_total(a.1, b.1);
    }
}

/// Two sorted lists of the same bindings are the same list.
pub proof fn lemma_sorted_bindings_unique(a: Seq<Binding>, b: Seq<Binding>)
    requires
        bindings_sorted(a),
        bindings_sorted(b),
        a.to_multiset() == b.to_multiset(),
    ensures
        a == b,
    decreases a.len(),
{
    vstd::seq_lib::to_multiset_len(a);
    vstd::seq_lib::to_multiset_len(b);
    if a.len() == 0 {
        assert(a =~= b);
    } else {
        let x = a[0];
        let y = b[0];
        vstd::seq_lib::to_multiset_contains(a, x);
        vstd::seq_lib::to_multiset_contains(b, x);
        vstd::seq_lib::to_multiset_contains(a, y);
        vstd::seq_lib::to_multiset_contains(b, y);
        assert(a.contains(x));
        assert(b.contains(y));
        if x != y {
            let k = choose|k: int| 0 <= k < b.len() && b[k] == x;
            let m = choose|m: int| 0 <= m < a.len() && a[m] == y;
            lemma_binding_lt_total(x, y);
            if binding_lt(x, y) {
                assert(k > 0);
                assert(!binding_lt(b[k], b[0]));
            } else {
                assert(m > 0);
                assert(!binding_lt(a[m], a[0]));
            }
        }
        vstd::seq_lib::to_multiset_remove(a, 0);
        vstd::seq_lib::to_multiset_remove(b, 0);
        assert(a.remove(0) =~= a.drop_first());
        assert(b.remove(0) =~= b.drop_first());
        assert(bindings_sorted(a.drop_first())) by {
            assert forall|i: int, j: int| 0 <= i < j < a.drop_first().len() implies !binding_lt(
                #[trigger] a.drop_first()[j],
                #[trigger] a.drop_first()[i],
            ) by {
                assert(a.drop_first()[j] == a[j + 1] && a.drop_first()[i] == a[i + 1]);
            }
        }
        assert(bindings_sorted(b.drop_first())) by {
            assert forall|i: int, j: int| 0 <= i < j < b.drop_first().len() implies !binding_lt(
                #[trigger] b.drop_first()[j],
                #[trigger] b.drop_first()[i],
            ) by {
                assert(b.drop_first()[j] == b[j + 1] && b.drop_first()[i] == b[i + 1]);
            }
        }
        lemma_sorted_bindings_unique(a.drop_first(), b.drop_first());
        assert(a =~= b) by {
            assert forall|i: int| 0 <= i < a.len() implies a[i] == b[i] by {
                if i > 0 {
                    assert(a[i] == a.drop_first()[i - 1]);
                    assert(b[i] == b.drop_first()[i - 1]);
                }
            }
        }
    }
}

/// The key bindings read do not depend on the order the table was walked in: two configs whose
/// `oslo.keys` hold the same bindings give the same list, as a binding that depended on which of
/// two entries came first would behave differently between runs.
pub proof fn law_bindings_do_not_depend_on_table_order(a: Seq<(String, String)>, b: Seq<(String, String)>, x: Value, y: Value)
    requires
        bindings_sorted(binding_texts(a)),
        binding_texts(a).to_multiset() == spec_bindings(x).to_multiset(),
        bindings_sorted(binding_texts(b)),
        binding_texts(b).to_multiset() == spec_bindings(y).to_multiset(),
        spec_bindings(x).to_multiset() == spec_bindings(y).to_multiset(),
    ensures
        binding_texts(a) == binding_texts(b),
{
    lemma_sorted_bindings_unique(binding_texts(a), binding_texts(b));
}

/// A source is never offered twice, however often the config names it.
pub proof fn law_sources_are_never_repeated(items: Seq<Value>)
    ensures
        sources_from(items).0.no_duplicates(),
    decreases items.len(),
{
    if items.len() > 0 {
        law_sources_are_never_repeated(items.drop_last());
        let s = sources_from(items.drop_last()).0;
        match items.last() {
            Value::Str(n) => match spec_source(n@) {
                Some(src) => if !s.contains(src) {
                    assert forall|i: int, j: int| 0 <= i < s.push(src).len() && 0 <= j < s.push(src).len() && i != j
                        implies s.push(src)[i] != s.push(src)[j] by {
                        if i == s.len() {
                            assert(s[j] != src);
                        } else if j == s.len() {
                            assert(s[i] != src);
                        }
                    }
                },
                None => {},
            },
            _ => {},
        }
    }
}

/// A row count from the config that a machine word holds is always one the dropdown can draw:
/// at least one row, and no more than it ever shows.
pub proof fn law_a_row_count_is_drawable(n: i64)
    requires
        n <= usize::MAX,
    ensures
        1 <= clamp_rows(n) <= MAX_ROWS,
{
}

} // verus!
