//! `ui file`: walk the filesystem and pick something.
//!
//! A list whose items are a directory's entries and whose Enter sometimes means "go in here"
//! instead of "this one". That one difference is decided here; reading directories, the keys and
//! the screen are the caller's.

use vstd::prelude::*;
use super::Answer;
use vstd::multiset::Multiset;
use crate::abbr::{lemma_name_lt_irreflexive, lemma_name_lt_total, lemma_name_lt_transitive, name_lt, name_lt_x};
use crate::ask::choice::last_row;
use crate::term::Key;
use crate::text;

verus! {

/// What may be picked.
#[derive(Debug, Clone, Copy, PartialEq, Eq, Structural)]
pub enum Want {
    Files,
    Directories,
    /// Either: Enter on a directory picks it, and Right goes into it.
    Both,
}

/// How the picker is asked.
#[derive(Debug, Clone)]
pub struct Browse {
    /// Where the walk starts.
    pub start: String,
    pub want: Want,
    /// Show entries whose name begins with a dot.
    pub hidden: bool,
    pub height: usize,
    /// The legend, the border, the screen and where on it.
    pub chrome: crate::ask::chrome::Chrome,
}

impl Default for Browse {
    fn default() -> (r: Browse)
        ensures
            r.start@ == "."@,
            r.want == Want::Files,
            !r.hidden,
            r.height == 12,
            r.chrome == crate::ask::chrome::Chrome::default_spec(),
    {
        Browse {
            start: text::string_of(text::chars_of(".").as_slice()),
            want: Want::Files,
            hidden: false,
            height: 12,
            chrome: crate::ask::chrome::Chrome::default(),
        }
    }
}

/// What Enter on an entry does.
#[derive(Debug, Clone, Copy, PartialEq, Eq, Structural)]
pub enum Enter {
    /// Go into the directory.
    GoInto,
    /// Nothing: a file where only directories will do.
    Stay,
    /// Answer with the entry.
    Pick,
}

/// Enter on a directory goes in unless directories are what is wanted; Enter on a file picks it
/// unless only directories will do.
pub open spec fn spec_on_enter(want: Want, directory: bool) -> Enter {
    if directory && want == Want::Files {
        Enter::GoInto
    } else if !directory && want == Want::Directories {
        Enter::Stay
    } else {
        Enter::Pick
    }
}

impl Browse {
    /// With no terminal there is nobody to ask.
    pub fn headless(&self) -> (r: Answer<String>)
        ensures
            r == Answer::<String>::NoTerminal,
    {
        Answer::NoTerminal
    }

    /// What Enter does on an entry that is a directory or not.
    pub fn on_enter(&self, directory: bool) -> (r: Enter)
        ensures
            r == spec_on_enter(self.want, directory),
    {
        if directory && self.want == Want::Files {
            Enter::GoInto
        } else if !directory && self.want == Want::Directories {
            Enter::Stay
        } else {
            Enter::Pick
        }
    }

    /// Whether an entry called `name` is listed: a dotfile only when hidden entries were asked
    /// for.
    pub fn lists(&self, name: &str) -> (r: bool)
        ensures
            r == (self.hidden || !(name@.len() > 0 && name@[0] == '.')),
    {
        if self.hidden {
            return true;
        }
        let n = text::chars_of(name);
        !(n.len() > 0 && n[0] == '.')
    }
}

/// Whatever is wanted, Enter never leaves a picker stuck on a file it cannot choose when files
/// are wanted, nor goes into a directory when directories are wanted.
pub proof fn law_enter_picks_what_is_wanted(want: Want, directory: bool)
    ensures
        want == Want::Files && !directory ==> spec_on_enter(want, directory) == Enter::Pick,
        want == Want::Directories && directory ==> spec_on_enter(want, directory) == Enter::Pick,
        want == Want::Both ==> spec_on_enter(want, directory) == Enter::Pick,
{
}


/// An entry of a directory as its name and whether it is a directory.
pub open spec fn entry_view(e: (String, bool)) -> (Seq<char>, bool) {
    (e.0@, e.1)
}

pub open spec fn entry_views(es: Seq<(String, bool)>) -> Seq<(Seq<char>, bool)> {
    es.map_values(|e: (String, bool)| entry_view(e))
}

/// Whether an entry called `name` is listed: a dotfile only when hidden entries were asked for.
pub open spec fn shown_name(name: Seq<char>, hidden: bool) -> bool {
    hidden || !(name.len() > 0 && name[0] == '.')
}

/// The entries that are listed, in the order they were read.
pub open spec fn kept(es: Seq<(Seq<char>, bool)>, hidden: bool) -> Seq<(Seq<char>, bool)>
    decreases es.len(),
{
    if es.len() == 0 {
        seq![]
    } else {
        let rest = kept(es.drop_last(), hidden);
        if shown_name(es.last().0, hidden) {
            rest.push(es.last())
        } else {
            rest
        }
    }
}

/// Entry `a` is listed before entry `b`: directories before files, then by name.
pub open spec fn entry_lt(a: (Seq<char>, bool), b: (Seq<char>, bool)) -> bool {
    (a.1 && !b.1) || (a.1 == b.1 && name_lt(a.0, b.0))
}

/// No entry is listed after one it comes before.
pub open spec fn listed_in_order(t: Seq<(Seq<char>, bool)>) -> bool {
    forall|i: int, j: int| 0 <= i < j < t.len() ==> !entry_lt(#[trigger] t[j], #[trigger] t[i])
}

proof fn lemma_entry_lt_transitive(a: (Seq<char>, bool), b: (Seq<char>, bool), c: (Seq<char>, bool))
    requires
        entry_lt(a, b),
        entry_lt(b, c),
    ensures
        entry_lt(a, c),
{
    if a.1 == b.1 && b.1 == c.1 {
        lemma_name_lt_transitive(a.0, b.0, c.0);
    }
}

proof fn lemma_entry_lt_irreflexive(a: (Seq<char>, bool))
    ensures
        !entry_lt(a, a),
{
    lemma_name_lt_irreflexive(a.0);
}

fn entry_lt_x(a: &(String, bool), b: &(String, bool)) -> (r: bool)
    ensures
        r == entry_lt(entry_view(*a), entry_view(*b)),
{
    if a.1 && !b.1 {
        return true;
    }
    if a.1 != b.1 {
        return false;
    }
    let an = text::chars_of(a.0.as_str());
    let bn = text::chars_of(b.0.as_str());
    name_lt_x(an.as_slice(), bn.as_slice())
}

fn insert_listed(out: &mut Vec<(String, bool)>, e: (String, bool))
    requires
        listed_in_order(entry_views(old(out)@)),
    ensures
        listed_in_order(entry_views(final(out)@)),
        entry_views(final(out)@).to_multiset() == entry_views(old(out)@).to_multiset().insert(
            entry_view(e),
        ),
{
    let ghost s = entry_views(out@);
    let ghost x = entry_view(e);
    let mut pos: usize = 0;
    while pos < out.len() && !entry_lt_x(&e, &out[pos])
        invariant
            pos <= out@.len(),
            s == entry_views(out@),
            x == entry_view(e),
            forall|k: int| 0 <= k < pos ==> !entry_lt(x, #[trigger] s[k]),
        decreases out.len() - pos,
    {
        pos += 1;
    }
    out.insert(pos, e);
    let ghost t = entry_views(out@);
    assert(t =~= s.insert(pos as int, x));
    proof {
        vstd::seq_lib::to_multiset_insert(s, pos as int, x);
        assert forall|i: int, j: int| 0 <= i < j < t.len() implies !entry_lt(#[trigger] t[j], #[trigger] t[i]) by {
            if j < pos {
                assert(t[i] == s[i] && t[j] == s[j]);
            } else if j == pos {
                assert(t[i] == s[i]);
            } else if i < pos {
                assert(t[i] == s[i] && t[j] == s[j - 1]);
            } else if i == pos {
                assert(t[j] == s[j - 1]);
                assert(entry_lt(x, s[pos as int]));
                if entry_lt(s[j - 1], x) {
                    lemma_entry_lt_transitive(s[j - 1], x, s[pos as int]);
                    if j - 1 == pos {
                        lemma_entry_lt_irreflexive(s[pos as int]);
                    }
                }
            } else {
                assert(t[i] == s[i - 1] && t[j] == s[j - 1]);
            }
        }
    }
}

/// A directory's entries as the picker lists them: dotfiles only when hidden entries were asked
/// for, directories first, then by name.
pub fn listing(entries: Vec<(String, bool)>, hidden: bool) -> (r: Vec<(String, bool)>)
    ensures
        listed_in_order(entry_views(r@)),
        entry_views(r@).to_multiset() == kept(entry_views(entries@), hidden).to_multiset(),
{
    let mut out: Vec<(String, bool)> = Vec::new();
    let mut rest = entries;
    let ghost all = entry_views(rest@);
    let n = rest.len();
    proof {
        assert(entry_views(out@) =~= Seq::<(Seq<char>, bool)>::empty());
        assert(all.take(n as int) =~= all);
        assert(entry_views(out@).to_multiset() =~= Multiset::empty()) by {
            broadcast use vstd::seq_lib::group_to_multiset_ensures;
        }
        assert(Multiset::<(Seq<char>, bool)>::empty().add(kept(all, hidden).to_multiset()) =~= kept(all, hidden).to_multiset());
    }
    // Taken from the back so each entry is moved out rather than copied.
    while rest.len() > 0
        invariant
            all.len() == n,
            rest@.len() <= n,
            entry_views(rest@) == all.take(rest@.len() as int),
            listed_in_order(entry_views(out@)),
            entry_views(out@).to_multiset().add(kept(entry_views(rest@), hidden).to_multiset())
                == kept(all, hidden).to_multiset(),
        decreases rest.len(),
    {
        let ghost before = entry_views(rest@);
        let e = rest.pop().unwrap();
        proof {
            assert(entry_views(rest@) =~= before.drop_last());
            assert(before.last() == entry_view(e));
            assert(entry_views(rest@) =~= all.take(rest@.len() as int));
        }
        let keep = if hidden {
            true
        } else {
            let cs = text::chars_of(e.0.as_str());
            !(cs.len() > 0 && cs[0] == '.')
        };
        if keep {
            let ghost o = entry_views(out@);
            insert_listed(&mut out, e);
            proof {
                assert(kept(before, hidden) == kept(before.drop_last(), hidden).push(before.last()));
                vstd::seq_lib::lemma_multiset_commutative(kept(before.drop_last(), hidden), seq![before.last()]);
                assert(kept(before.drop_last(), hidden).push(before.last()) =~= kept(before.drop_last(), hidden) + seq![before.last()]);
                assert(seq![before.last()].to_multiset() =~= Multiset::empty().insert(before.last())) by {
                    broadcast use vstd::seq_lib::group_to_multiset_ensures;
                    assert(seq![before.last()] =~= Seq::<(Seq<char>, bool)>::empty().push(before.last()));
                }
                assert(entry_views(out@).to_multiset().add(kept(entry_views(rest@), hidden).to_multiset())
                    =~= o.to_multiset().add(kept(before, hidden).to_multiset()));
            }
        } else {
            proof {
                assert(kept(before, hidden) == kept(before.drop_last(), hidden));
            }
        }
    }
    proof {
        assert(entry_views(rest@) =~= Seq::<(Seq<char>, bool)>::empty());
        assert(kept(entry_views(rest@), hidden).to_multiset() =~= Multiset::empty()) by {
            broadcast use vstd::seq_lib::group_to_multiset_ensures;
        }
        assert(entry_views(out@).to_multiset().add(Multiset::empty()) =~= entry_views(out@).to_multiset());
    }
    out
}


/// Where a walk stands: the directory's entries as listed, the ones shown for the query, by
/// index, the row under the cursor, the first row drawn, and what has been typed.
#[derive(Debug, Clone)]
pub struct Walking {
    pub entries: Vec<(String, bool)>,
    pub shown: Vec<usize>,
    pub selected: usize,
    pub offset: usize,
    pub query: String,
}

/// What a key left the walk at.
#[derive(Debug, Clone, PartialEq, Eq)]
pub enum WalkStep {
    /// Still walking; draw again.
    Moving,
    /// The query changed: narrow the entries against it and hand the order to
    /// [`Walking::show`].
    Requery,
    /// Read the directory of this name, under the one listed, and hand it to [`Walking::arrive`].
    GoInto(String),
    /// Read the directory above, when there is one, and hand it to [`Walking::arrive`].
    GoUp,
    /// The entry of this name, in the directory listed, is the answer.
    Pick(String),
    /// Esc or Ctrl-C.
    Cancelled,
}

/// The entry under the cursor, when there is one.
pub open spec fn under(entries: Seq<(String, bool)>, shown: Seq<usize>, selected: nat) -> Option<(Seq<char>, bool)> {
    if selected < shown.len() && shown[selected as int] < entries.len() {
        Some(entry_view(entries[shown[selected as int] as int]))
    } else {
        None
    }
}

impl Walking {
    /// Every entry shown is an entry.
    pub open spec fn wf(&self) -> bool {
        forall|k: int| 0 <= k < self.shown@.len() ==> #[trigger] self.shown@[k] < self.entries@.len()
    }

    /// A directory just read: every entry shown, in order, the cursor on the top, the query
    /// cleared, because what was typed was about the directory left behind.
    pub fn arrive(entries: Vec<(String, bool)>) -> (w: Walking)
        ensures
            w.wf(),
            w.entries@ == entries@,
            w.shown@ == Seq::new(entries@.len(), |i: int| i as usize),
            w.selected == 0,
            w.offset == 0,
            w.query@ == Seq::<char>::empty(),
    {
        let n = entries.len();
        let mut shown: Vec<usize> = Vec::new();
        let mut i: usize = 0;
        while i < n
            invariant
                i <= n,
                shown@ == Seq::new(i as nat, |k: int| k as usize),
            decreases n - i,
        {
            shown.push(i);
            i += 1;
            assert(shown@ =~= Seq::new(i as nat, |k: int| k as usize));
        }
        Walking { entries, shown, selected: 0, offset: 0, query: String::new() }
    }

    /// Show the entries in `order`, best first, with the cursor back on the top.
    pub fn show(&mut self, order: Vec<usize>)
        requires
            forall|k: int| 0 <= k < order@.len() ==> #[trigger] order@[k] < old(self).entries@.len(),
        ensures
            final(self).wf(),
            final(self).entries@ == old(self).entries@,
            final(self).shown@ == order@,
            final(self).selected == 0,
            final(self).offset == 0,
            final(self).query@ == old(self).query@,
    {
        self.shown = order;
        self.selected = 0;
        self.offset = 0;
    }

    /// Keep the cursor on an entry that exists and inside the `height` rows drawn.
    pub fn fit_window(&mut self, height: usize)
        requires
            height >= 1,
        ensures
            final(self).entries@ == old(self).entries@,
            final(self).shown@ == old(self).shown@,
            final(self).query@ == old(self).query@,
            final(self).selected == (if old(self).selected >= old(self).shown@.len() {
                last_row(old(self).shown@.len())
            } else {
                old(self).selected as nat
            }),
            final(self).offset == (if final(self).selected < old(self).offset {
                final(self).selected as int
            } else if final(self).selected >= old(self).offset + height {
                final(self).selected + 1 - height
            } else {
                old(self).offset as int
            }),
    {
        let n = self.shown.len();
        if self.selected >= n {
            self.selected = if n > 0 {
                n - 1
            } else {
                0
            };
        }
        if self.selected < self.offset {
            self.offset = self.selected;
        } else if self.selected - self.offset >= height {
            self.offset = self.selected + 1 - height;
        }
    }

    /// What pressing `key` does: Esc or Ctrl-C cancels; Enter on an entry does what
    /// [`spec_on_enter`] says and nothing on an empty list; Right goes into a directory under the
    /// cursor; Left goes up; the arrows and Home, End, Page Up and Down move the cursor; and
    /// typing and backspace edit the query.
    pub fn step(&mut self, spec: &Browse, key: Key) -> (r: WalkStep)
        requires
            old(self).wf(),
        ensures
            final(self).wf(),
            final(self).entries@ == old(self).entries@,
            final(self).shown@ == old(self).shown@,
            final(self).offset == old(self).offset,
            (key is Cancel || key is Abort) ==> r == WalkStep::Cancelled,
            key is Accept ==> match under(old(self).entries@, old(self).shown@, old(self).selected as nat) {
                None => r == WalkStep::Moving,
                Some(e) => match spec_on_enter(spec.want, e.1) {
                    Enter::GoInto => r matches WalkStep::GoInto(n) && n@ == e.0,
                    Enter::Stay => r == WalkStep::Moving,
                    Enter::Pick => r matches WalkStep::Pick(n) && n@ == e.0,
                },
            },
            key is Right ==> match under(old(self).entries@, old(self).shown@, old(self).selected as nat) {
                Some(e) => if e.1 {
                    r matches WalkStep::GoInto(n) && n@ == e.0
                } else {
                    r == WalkStep::Moving
                },
                None => r == WalkStep::Moving,
            },
            key is Left ==> r == WalkStep::GoUp,
            key is Up ==> r == WalkStep::Moving && final(self).selected == (if old(self).selected > 0 {
                old(self).selected - 1
            } else {
                0
            }),
            key is Down ==> r == WalkStep::Moving && final(self).selected == (if old(self).selected + 1
                < last_row(old(self).shown@.len()) {
                old(self).selected + 1
            } else {
                last_row(old(self).shown@.len()) as int
            }),
            (key is PageUp || key is Home) ==> r == WalkStep::Moving && final(self).selected == 0,
            (key is PageDown || key is End) ==> r == WalkStep::Moving && final(self).selected == last_row(
                old(self).shown@.len(),
            ),
            key matches Key::Char(c) ==> r == WalkStep::Requery && final(self).query@ == old(self).query@.push(
                key->Char_0,
            ) && final(self).selected == old(self).selected,
            key is Backspace ==> r == WalkStep::Requery && final(self).query@ == (if old(self).query@.len()
                > 0 {
                old(self).query@.drop_last()
            } else {
                old(self).query@
            }) && final(self).selected == old(self).selected,
            !(key is Char || key is Backspace) ==> final(self).query@ == old(self).query@,
            (key is Cancel || key is Abort || key is Accept || key is Right || key is Left)
                ==> final(self).selected == old(self).selected,
            !(key is Cancel || key is Abort || key is Accept || key is Right || key is Left || key is Up
                || key is Down || key is PageUp || key is Home || key is PageDown || key is End || key is Char
                || key is Backspace) ==> r == WalkStep::Moving && final(self).selected == old(self).selected,
    {
        let n = self.shown.len();
        let last = if n > 0 {
            n - 1
        } else {
            0
        };
        match key {
            Key::Cancel | Key::Abort => WalkStep::Cancelled,
            Key::Accept | Key::Right => {
                if self.selected < n {
                    let at = self.shown[self.selected];
                    let name = text::string_of(text::chars_of(self.entries[at].0.as_str()).as_slice());
                    let directory = self.entries[at].1;
                    let accept = match key {
                        Key::Accept => true,
                        _ => false,
                    };
                    if !accept {
                        return if directory {
                            WalkStep::GoInto(name)
                        } else {
                            WalkStep::Moving
                        };
                    }
                    match spec.on_enter(directory) {
                        Enter::GoInto => WalkStep::GoInto(name),
                        Enter::Stay => WalkStep::Moving,
                        Enter::Pick => WalkStep::Pick(name),
                    }
                } else {
                    WalkStep::Moving
                }
            },
            Key::Left => WalkStep::GoUp,
            Key::Up => {
                if self.selected > 0 {
                    self.selected = self.selected - 1;
                }
                WalkStep::Moving
            },
            Key::Down => {
                self.selected = if self.selected < last && self.selected + 1 < last {
                    self.selected + 1
                } else {
                    last
                };
                WalkStep::Moving
            },
            Key::PageUp | Key::Home => {
                self.selected = 0;
                WalkStep::Moving
            },
            Key::PageDown | Key::End => {
                self.selected = last;
                WalkStep::Moving
            },
            Key::Char(c) => {
                text::push_char(&mut self.query, c);
                WalkStep::Requery
            },
            Key::Backspace => {
                let mut q = text::chars_of(self.query.as_str());
                if q.len() > 0 {
                    q.pop();
                }
                self.query = text::string_of(q.as_slice());
                WalkStep::Requery
            },
            _ => WalkStep::Moving,
        }
    }
}

} // verus!
