//! `ui choose` and `ui filter`: pick from a list.
//!
//! One widget, two doors: `choose` shows the list and moves through it; `filter` does the same and
//! also narrows it as you type. Space checks a row in a multi-select, and Enter takes everything
//! checked, or the row under the cursor when nothing is, so that "I pressed Enter and got
//! nothing" is never a state. What each key does is decided here; ranking the rows against the
//! query, reading the keys and drawing the list are the caller's.

use vstd::prelude::*;
use super::Answer;
use crate::term::Key;
use crate::text;

verus! {

/// How a list is asked.
#[derive(Debug, Clone)]
pub struct Choice {
    pub header: String,
    pub items: Vec<String>,
    /// Let the person check more than one.
    pub multi: bool,
    /// Narrow the list as they type.
    pub filter: bool,
    /// Rows of list to show at once.
    pub height: usize,
}

impl Default for Choice {
    fn default() -> (r: Choice)
        ensures
            r.header@ == Seq::<char>::empty(),
            r.items@.len() == 0,
            !r.multi,
            !r.filter,
            r.height == 10,
    {
        Choice { header: String::new(), items: Vec::new(), multi: false, filter: false, height: 10 }
    }
}

impl Choice {
    /// What the list answers before anything is drawn: an empty list is a cancel, and with no
    /// terminal there is nobody to ask, and no sensible default to answer with. `None` means ask.
    pub fn unasked(&self, terminal: bool) -> (r: Option<Answer<Vec<String>>>)
        ensures
            r matches Some(Answer::Cancelled) <==> self.items@.len() == 0,
            r matches Some(Answer::NoTerminal) <==> self.items@.len() > 0 && !terminal,
            r is None <==> self.items@.len() > 0 && terminal,
    {
        if self.items.len() == 0 {
            Some(Answer::Cancelled)
        } else if !terminal {
            Some(Answer::NoTerminal)
        } else {
            None
        }
    }
}

/// Where a list stands: the items shown, best first, by index; which items are checked; the
/// row under the cursor; the first row drawn; and what has been typed.
#[derive(Debug, Clone)]
pub struct Picking {
    pub shown: Vec<usize>,
    pub checked: Vec<bool>,
    pub selected: usize,
    pub offset: usize,
    pub query: String,
}

/// What a key left the list at.
#[derive(Debug, Clone, PartialEq, Eq)]
pub enum ChooseStep {
    /// Still choosing; draw the list again.
    Moving,
    /// The query changed: rank the items against it and hand the order to
    /// [`Picking::show`].
    Requery,
    /// The question is settled.
    Done(Answer<Vec<String>>),
}

/// The items checked, in the list's own order.
pub open spec fn checked_items(items: Seq<String>, checked: Seq<bool>) -> Seq<Seq<char>>
    decreases items.len(),
{
    if items.len() == 0 {
        seq![]
    } else {
        let rest = checked_items(items.drop_last(), checked);
        if checked[items.len() - 1] { rest.push(items.last()@) } else { rest }
    }
}

/// The item under the cursor, when there is one.
pub open spec fn under_cursor(items: Seq<String>, shown: Seq<usize>, selected: nat) -> Seq<Seq<char>> {
    if selected < shown.len() { seq![items[shown[selected as int] as int]@] } else { seq![] }
}

/// What Enter takes: everything checked in a multi-select, or the item under the cursor when
/// nothing is checked or only one may be chosen.
pub open spec fn spec_picked(items: Seq<String>, shown: Seq<usize>, checked: Seq<bool>, selected: nat, multi: bool) -> Seq<Seq<char>> {
    let explicit = checked_items(items, checked);
    if multi && explicit.len() > 0 { explicit } else { under_cursor(items, shown, selected) }
}

/// The last row's index, or 0 for an empty list.
pub open spec fn last_row(n: nat) -> nat {
    if n > 0 { (n - 1) as nat } else { 0 }
}

/// The strings' texts.
pub open spec fn texts(v: Seq<String>) -> Seq<Seq<char>> {
    Seq::new(v.len(), |i: int| v[i]@)
}

impl Picking {
    /// Every item shown is an item, and every item has a check box.
    pub open spec fn wf(&self, spec: &Choice) -> bool {
        &&& self.checked@.len() == spec.items@.len()
        &&& forall|k: int| 0 <= k < self.shown@.len() ==> #[trigger] self.shown@[k] < spec.items@.len()
    }

    /// A list as it first appears: every item in order, nothing checked, the cursor on the top.
    pub fn start(spec: &Choice) -> (p: Picking)
        ensures
            p.wf(spec),
            p.shown@ == Seq::new(spec.items@.len(), |i: int| i as usize),
            p.checked@ == Seq::new(spec.items@.len(), |_i: int| false),
            p.selected == 0,
            p.offset == 0,
            p.query@ == Seq::<char>::empty(),
    {
        let n = spec.items.len();
        let mut shown: Vec<usize> = Vec::new();
        let mut checked: Vec<bool> = Vec::new();
        let mut i: usize = 0;
        while i < n
            invariant
                i <= n,
                n == spec.items@.len(),
                shown@ == Seq::new(i as nat, |k: int| k as usize),
                checked@ == Seq::new(i as nat, |_k: int| false),
            decreases n - i,
        {
            shown.push(i);
            checked.push(false);
            i += 1;
            assert(shown@ =~= Seq::new(i as nat, |k: int| k as usize));
            assert(checked@ =~= Seq::new(i as nat, |_k: int| false));
        }
        Picking { shown, checked, selected: 0, offset: 0, query: String::new() }
    }

    /// Show the items in `order`, best first, with the cursor back on the top.
    pub fn show(&mut self, spec: &Choice, order: Vec<usize>)
        requires
            old(self).wf(spec),
            forall|k: int| 0 <= k < order@.len() ==> #[trigger] order@[k] < spec.items@.len(),
        ensures
            final(self).wf(spec),
            final(self).shown@ == order@,
            final(self).checked@ == old(self).checked@,
            final(self).selected == 0,
            final(self).offset == 0,
            final(self).query@ == old(self).query@,
    {
        self.shown = order;
        self.selected = 0;
        self.offset = 0;
    }

    /// Keep the cursor on a row that exists and inside the `height` rows drawn.
    pub fn fit_window(&mut self, height: usize)
        requires
            height >= 1,
        ensures
            final(self).shown@ == old(self).shown@,
            final(self).checked@ == old(self).checked@,
            final(self).query@ == old(self).query@,
            final(self).selected == (if old(self).selected >= old(self).shown@.len() {
                last_row(old(self).shown@.len())
            } else {
                old(self).selected as nat
            }),
            final(self).offset == (if final(self).selected < old(self).offset {
                final(self).selected as int
            } else if final(self).selected >= old(self).offset + height {
                final(self).selected + 1 - height
            } else {
                old(self).offset as int
            }),
            final(self).offset <= final(self).selected < final(self).offset + height,
    {
        let n = self.shown.len();
        if self.selected >= n {
            self.selected = if n > 0 {
                n - 1
            } else {
                0
            };
        }
        if self.selected < self.offset {
            self.offset = self.selected;
        } else if self.selected - self.offset >= height {
            self.offset = self.selected + 1 - height;
        }
    }

    /// What Enter takes; see [`spec_picked`].
    fn picked(&self, spec: &Choice) -> (r: Vec<String>)
        requires
            self.wf(spec),
        ensures
            texts(r@) == spec_picked(spec.items@, self.shown@, self.checked@, self.selected as nat, spec.multi),
    {
        let mut explicit: Vec<String> = Vec::new();
        let mut i: usize = 0;
        assert(texts(explicit@) =~= checked_items(spec.items@.subrange(0, 0), self.checked@));
        while i < spec.items.len()
            invariant
                i <= spec.items@.len(),
                self.wf(spec),
                texts(explicit@) == checked_items(spec.items@.subrange(0, i as int), self.checked@),
            decreases spec.items.len() - i,
        {
            proof {
                assert(spec.items@.subrange(0, i + 1).drop_last() =~= spec.items@.subrange(0, i as int));
                assert(spec.items@.subrange(0, i + 1).last() == spec.items@[i as int]);
            }
            if self.checked[i] {
                let ghost before = explicit@;
                explicit.push(text::string_of(text::chars_of(spec.items[i].as_str()).as_slice()));
                assert(texts(explicit@) =~= texts(before).push(spec.items@[i as int]@));
            }
            i += 1;
        }
        assert(spec.items@.subrange(0, spec.items@.len() as int) =~= spec.items@);
        if spec.multi && explicit.len() > 0 {
            return explicit;
        }
        let mut one: Vec<String> = Vec::new();
        if self.selected < self.shown.len() {
            let item = self.shown[self.selected];
            one.push(text::string_of(text::chars_of(spec.items[item].as_str()).as_slice()));
        }
        assert(texts(one@) =~= under_cursor(spec.items@, self.shown@, self.selected as nat));
        one
    }

    /// What pressing `key` does: Esc or Ctrl-C cancels; Enter answers with what is picked, or cancels when
    /// that is nothing; the arrows and Home, End, Page Up and Down move the cursor; Space and Tab
    /// check the row in a multi-select; and typing, backspace and Ctrl-U edit the query of a
    /// filtering list.
    pub fn step(&mut self, spec: &Choice, key: Key) -> (r: ChooseStep)
        requires
            old(self).wf(spec),
        ensures
            final(self).wf(spec),
            final(self).shown@ == old(self).shown@,
            final(self).offset == old(self).offset,
            (key is Cancel || key is Abort) ==> r == ChooseStep::Done(Answer::Cancelled),
            (key is Cancel || key is Abort || key is Accept) ==> final(self).selected == old(self).selected
                && final(self).checked@ == old(self).checked@ && final(self).query@ == old(self).query@,
            key is Accept ==> ({
                let p = spec_picked(spec.items@, old(self).shown@, old(self).checked@, old(self).selected as nat, spec.multi);
                if p.len() == 0 {
                    r == ChooseStep::Done(Answer::Cancelled)
                } else {
                    r matches ChooseStep::Done(Answer::Given(v)) && texts(v@) == p
                }
            }),
            key is Up ==> final(self).selected == (if old(self).selected > 0 { old(self).selected - 1 } else { 0 }),
            key is Down ==> final(self).selected == (if old(self).selected + 1 < last_row(old(self).shown@.len()) {
                old(self).selected + 1
            } else {
                last_row(old(self).shown@.len()) as int
            }),
            (key is PageUp || key is Home) ==> final(self).selected == 0,
            (key is PageDown || key is End) ==> final(self).selected == last_row(old(self).shown@.len()),
            (key is Up || key is Down || key is PageUp || key is Home || key is PageDown || key is End) ==> r
                == ChooseStep::Moving && final(self).query@ == old(self).query@ && final(self).checked@
                == old(self).checked@,
            ((key is ToggleScope || key == Key::Char(' ')) && spec.multi) ==> ({
                &&& r == ChooseStep::Moving
                &&& final(self).query@ == old(self).query@
                &&& final(self).selected == old(self).selected
                &&& final(self).checked@ == (if old(self).selected < old(self).shown@.len() {
                    let item = old(self).shown@[old(self).selected as int] as int;
                    old(self).checked@.update(item, !old(self).checked@[item])
                } else {
                    old(self).checked@
                })
            }),
            (key matches Key::Char(c) && !(c == ' ' && spec.multi) && spec.filter) ==> ({
                &&& r == ChooseStep::Requery
                &&& final(self).query@ == old(self).query@.push(key->Char_0)
                &&& final(self).selected == old(self).selected
                &&& final(self).checked@ == old(self).checked@
            }),
            (key is Backspace && spec.filter) ==> ({
                &&& r == ChooseStep::Requery
                &&& final(self).query@ == (if old(self).query@.len() > 0 {
                    old(self).query@.drop_last()
                } else {
                    old(self).query@
                })
                &&& final(self).selected == old(self).selected
                &&& final(self).checked@ == old(self).checked@
            }),
            (key is Clear && spec.filter) ==> r == ChooseStep::Requery && final(self).query@ == Seq::<char>::empty()
                && final(self).selected == old(self).selected && final(self).checked@ == old(self).checked@,
            !(key is Cancel || key is Abort || key is Accept || key is Up || key is Down || key is PageUp || key is Home
                || key is PageDown || key is End || ((key is ToggleScope || key == Key::Char(' ')) && spec.multi)
                || (key is Char && spec.filter) || (key is Backspace && spec.filter) || (key is Clear && spec.filter))
                ==> r == ChooseStep::Moving && final(self).selected == old(self).selected
                    && final(self).checked@ == old(self).checked@ && final(self).query@ == old(self).query@,
    {
        let n = self.shown.len();
        let last = if n > 0 {
            n - 1
        } else {
            0
        };
        match key {
            Key::Cancel | Key::Abort => ChooseStep::Done(Answer::Cancelled),
            Key::Accept => {
                let picked = self.picked(spec);
                if picked.len() == 0 {
                    ChooseStep::Done(Answer::Cancelled)
                } else {
                    ChooseStep::Done(Answer::Given(picked))
                }
            },
            Key::Up => {
                if self.selected > 0 {
                    self.selected = self.selected - 1;
                }
                ChooseStep::Moving
            },
            Key::Down => {
                self.selected = if self.selected < last && self.selected + 1 < last {
                    self.selected + 1
                } else {
                    last
                };
                ChooseStep::Moving
            },
            Key::PageUp | Key::Home => {
                self.selected = 0;
                ChooseStep::Moving
            },
            Key::PageDown | Key::End => {
                self.selected = last;
                ChooseStep::Moving
            },
            _ => {
                let toggle = match key {
                    Key::ToggleScope => true,
                    Key::Char(c) => c == ' ',
                    _ => false,
                };
                if toggle && spec.multi {
                    if self.selected < n {
                        let item = self.shown[self.selected];
                        let was = self.checked[item];
                        self.checked[item] = !was;
                    }
                    return ChooseStep::Moving;
                }
                if spec.filter {
                    match key {
                        Key::Char(c) => {
                            text::push_char(&mut self.query, c);
                            return ChooseStep::Requery;
                        },
                        Key::Backspace => {
                            let mut q = text::chars_of(self.query.as_str());
                            if q.len() > 0 {
                                q.pop();
                            }
                            self.query = text::string_of(q.as_slice());
                            return ChooseStep::Requery;
                        },
                        Key::Clear => {
                            self.query = String::new();
                            return ChooseStep::Requery;
                        },
                        _ => {},
                    }
                }
                ChooseStep::Moving
            },
        }
    }
}

} // verus!
