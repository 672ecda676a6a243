//! The remembered answers of the worktree-wide suggestion query.
//!
//! Asking the store what was run anywhere in this worktree costs milliseconds, on every
//! keystroke, so its answers are remembered, keyed by the worktree, the language and the prefix
//! asked about. Two facts about a prefix search make a remembered answer sound for a longer line:
//! if nothing starts with a prefix of `line`, nothing starts with `line` either; and if the best
//! line for a shorter prefix still starts with `line`, it is still the best, as typing more can
//! only remove candidates from the field.

use vstd::prelude::*;
use crate::matching::is_prefix;
use crate::text;

verus! {

/// How many prefixes are remembered before the oldest is dropped.
pub const MEMOS: usize = 32;

/// One answer the widened query gave, and the prefix it was asked about.
#[derive(Debug, Clone)]
pub struct Memo {
    pub root: String,
    pub mode: String,
    pub asked: String,
    pub found: Option<String>,
}

/// A memo as text: the worktree, the language, the prefix asked, and what it found.
pub type MemoView = (Seq<char>, Seq<char>, Seq<char>, Option<Seq<char>>);

pub open spec fn opt_view(o: Option<String>) -> Option<Seq<char>> {
    match o {
        Some(s) => Some(s@),
        None => None,
    }
}

pub open spec fn memo_view(m: Memo) -> MemoView {
    (m.root@, m.mode@, m.asked@, opt_view(m.found))
}

/// The remembered answers, oldest first.
#[derive(Debug)]
pub struct Memos {
    memos: Vec<Memo>,
}

/// Whether memo `m` was asked about `root` and `mode`, for a prefix of `line`.
pub open spec fn applies(m: MemoView, root: Seq<char>, mode: Seq<char>, line: Seq<char>) -> bool {
    m.0 == root && m.1 == mode && is_prefix(m.2, line)
}

/// Among the memos that apply, the one asked about the longest prefix; the latest of equals.
pub open spec fn longest(ms: Seq<MemoView>, root: Seq<char>, mode: Seq<char>, line: Seq<char>) -> Option<int>
    decreases ms.len(),
{
    if ms.len() == 0 {
        None
    } else {
        let before = longest(ms.drop_last(), root, mode, line);
        let last = ms.last();
        if applies(last, root, mode, line) && (match before {
            Some(b) => ms[b].2.len() <= last.2.len(),
            None => true,
        }) {
            Some(ms.len() - 1)
        } else {
            before
        }
    }
}

/// What the widened query would answer for `line` without asking it: `None` means ask.
///
/// The longest remembered prefix answers. Nothing found there answers nothing; a line found
/// there that still starts with `line`, and is more than it, answers itself; anything else has
/// to be asked again.
pub open spec fn spec_remembered(ms: Seq<MemoView>, root: Seq<char>, mode: Seq<char>, line: Seq<char>) -> Option<Option<Seq<char>>> {
    match longest(ms, root, mode, line) {
        None => None,
        Some(i) => match ms[i].3 {
            None => Some(None),
            Some(f) => if is_prefix(line, f) && f != line {
                Some(Some(f))
            } else {
                None
            },
        },
    }
}

/// Whether a memo survives `line` being run in `language`: it is another language's, or `line`
/// does not start with the prefix it was asked about, or `line` is the very answer it holds.
pub open spec fn survives(m: MemoView, line: Seq<char>, language: Seq<char>) -> bool {
    m.1 != language || !is_prefix(m.2, line) || m.3 == Some(line)
}

/// The memos that survive `line` being run in `language`, in order.
pub open spec fn surviving(ms: Seq<MemoView>, line: Seq<char>, language: Seq<char>) -> Seq<MemoView>
    decreases ms.len(),
{
    if ms.len() == 0 {
        seq![]
    } else {
        let rest = surviving(ms.drop_last(), line, language);
        if survives(ms.last(), line, language) { rest.push(ms.last()) } else { rest }
    }
}

fn copy(s: &String) -> (r: String)
    ensures
        r@ == s@,
{
    let mut r = String::new();
    text::push_str(&mut r, s.as_str());
    r
}

fn copy_opt(o: &Option<String>) -> (r: Option<String>)
    ensures
        opt_view(r) == opt_view(*o),
{
    match o {
        Some(s) => Some(copy(s)),
        None => None,
    }
}

fn prefix_of(p: &str, s: &str) -> (r: bool)
    ensures
        r == is_prefix(p@, s@),
{
    let pc = text::chars_of(p);
    let sc = text::chars_of(s);
    text::starts_with(sc.as_slice(), pc.as_slice())
}

fn same(a: &str, b: &str) -> (r: bool)
    ensures
        r == (a@ == b@),
{
    let ac = text::chars_of(a);
    let bc = text::chars_of(b);
    text::chars_eq(ac.as_slice(), bc.as_slice())
}

impl Memos {
    /// The memos as text, oldest first.
    pub closed spec fn view_seq(&self) -> Seq<MemoView> {
        Seq::new(self.memos@.len(), |i: int| memo_view(self.memos@[i]))
    }

    /// Never more than [`MEMOS`] of them.
    pub closed spec fn wf(&self) -> bool {
        self.memos@.len() <= MEMOS
    }

    pub fn new() -> (r: Memos)
        ensures
            r.wf(),
            r.view_seq() == Seq::<MemoView>::empty(),
    {
        let r = Memos { memos: Vec::new() };
        assert(r.view_seq() =~= Seq::<MemoView>::empty());
        r
    }

    /// What the widened query would answer for `line`, without asking it; `None` means ask.
    pub fn remembered_answer(&self, root: &str, mode: &str, line: &str) -> (r: Option<Option<String>>)
        ensures
            match r {
                None => spec_remembered(self.view_seq(), root@, mode@, line@) is None,
                Some(a) => spec_remembered(self.view_seq(), root@, mode@, line@) == Some(opt_view(a)),
            },
    {
        let ghost ms = self.view_seq();
        let mut best: Option<usize> = None;
        let mut i: usize = 0;
        while i < self.memos.len()
            invariant
                i <= self.memos@.len(),
                ms == self.view_seq(),
                match longest(ms.subrange(0, i as int), root@, mode@, line@) {
                    Some(b) => 0 <= b < i && best == Some(b as usize),
                    None => best is None,
                },
            decreases self.memos.len() - i,
        {
            let m = &self.memos[i];
            let ghost pre = ms.subrange(0, i + 1);
            proof {
                assert(pre.drop_last() =~= ms.subrange(0, i as int));
                assert(pre.last() == memo_view(self.memos@[i as int]));
            }
            if same(m.root.as_str(), root) && same(m.mode.as_str(), mode) && prefix_of(m.asked.as_str(), line) {
                let take = match best {
                    Some(b) => {
                        assert(pre[b as int] == ms[b as int]);
                        self.memos[b].asked.unicode_len() <= m.asked.unicode_len()
                    },
                    None => true,
                };
                if take {
                    best = Some(i);
                }
            }
            i += 1;
        }
        assert(ms.subrange(0, ms.len() as int) =~= ms);
        match best {
            None => None,
            Some(b) => {
                let m = &self.memos[b];
                assert(ms[b as int] == memo_view(*m));
                match &m.found {
                    None => Some(None),
                    Some(f) => {
                        if prefix_of(line, f.as_str()) && !same(f.as_str(), line) {
                            Some(Some(copy(f)))
                        } else {
                            None
                        }
                    },
                }
            },
        }
    }

    /// Remember what the widened query answered for `asked`, dropping the oldest memo when
    /// there are already [`MEMOS`].
    pub fn remember_answer(&mut self, root: &str, mode: &str, asked: &str, found: Option<&str>)
        requires
            old(self).wf(),
        ensures
            final(self).wf(),
            final(self).view_seq() == (if old(self).view_seq().len() >= MEMOS {
                old(self).view_seq().drop_first()
            } else {
                old(self).view_seq()
            }).push((root@, mode@, asked@, match found {
                Some(f) => Some(f@),
                None => None,
            })),
    {
        let ghost before = self.view_seq();
        if self.memos.len() >= MEMOS {
            self.memos.remove(0);
        }
        let ghost mid = self.view_seq();
        assert(mid =~= (if before.len() >= MEMOS { before.drop_first() } else { before }));
        let mut r = String::new();
        text::push_str(&mut r, root);
        let mut m = String::new();
        text::push_str(&mut m, mode);
        let mut a = String::new();
        text::push_str(&mut a, asked);
        let f = match found {
            Some(f) => {
                let mut s = String::new();
                text::push_str(&mut s, f);
                Some(s)
            },
            None => None,
        };
        self.memos.push(Memo { root: r, mode: m, asked: a, found: f });
        assert(self.view_seq() =~= mid.push((root@, mode@, asked@, match found {
            Some(f) => Some(f@),
            None => None,
        })));
    }

    /// Drop every remembered answer that running `line` in `language` could change: a line can
    /// only join, leave or reorder the candidates for a prefix of itself, and running the very
    /// line an answer names leaves that answer on top.
    pub fn forget_answers_for(&mut self, line: &str, language: &str)
        requires
            old(self).wf(),
        ensures
            final(self).wf(),
            final(self).view_seq() == surviving(old(self).view_seq(), line@, language@),
    {
        let ghost ms = self.view_seq();
        let mut kept: Vec<Memo> = Vec::new();
        let mut i: usize = 0;
        assert(Seq::new(kept@.len(), |k: int| memo_view(kept@[k])) =~= surviving(ms.subrange(0, 0), line@, language@));
        while i < self.memos.len()
            invariant
                i <= self.memos@.len(),
                self.memos@.len() <= MEMOS,
                ms == self.view_seq(),
                kept@.len() <= i,
                Seq::new(kept@.len(), |k: int| memo_view(kept@[k])) == surviving(ms.subrange(0, i as int), line@, language@),
            decreases self.memos.len() - i,
        {
            let m = &self.memos[i];
            let ghost pre = ms.subrange(0, i + 1);
            proof {
                assert(pre.drop_last() =~= ms.subrange(0, i as int));
                assert(pre.last() == memo_view(self.memos@[i as int]));
            }
            let keep = !same(m.mode.as_str(), language) || !prefix_of(m.asked.as_str(), line) || match &m.found {
                Some(f) => same(f.as_str(), line),
                None => false,
            };
            if keep {
                let ghost before = kept@;
                kept.push(Memo {
                    root: copy(&m.root),
                    mode: copy(&m.mode),
                    asked: copy(&m.asked),
                    found: copy_opt(&m.found),
                });
                assert(Seq::new(kept@.len(), |k: int| memo_view(kept@[k])) =~= Seq::new(
                    before.len(),
                    |k: int| memo_view(before[k]),
                ).push(memo_view(*m)));
            }
            i += 1;
        }
        assert(ms.subrange(0, ms.len() as int) =~= ms);
        self.memos = kept;
    }

    /// Drop them all: the history itself has been replaced or wiped.
    pub fn forget_answers(&mut self)
        ensures
            final(self).wf(),
            final(self).view_seq() == Seq::<MemoView>::empty(),
    {
        self.memos = Vec::new();
        assert(self.view_seq() =~= Seq::<MemoView>::empty());
    }
}

/// What is left of a remembered line once what has been typed is taken off the front: `None`
/// for a line that does not start with it or adds nothing, and for a multi-line one, as ghost
/// text is drawn on one row.
pub open spec fn spec_tail_of(candidate: Seq<char>, line: Seq<char>) -> Option<Seq<char>> {
    if is_prefix(line, candidate) && line.len() < candidate.len() && !candidate.contains('\n') {
        Some(candidate.subrange(line.len() as int, candidate.len() as int))
    } else {
        None
    }
}

pub fn tail_of(candidate: &str, line: &str) -> (r: Option<String>)
    ensures
        opt_view(r) == spec_tail_of(candidate@, line@),
{
    let c = text::chars_of(candidate);
    let l = text::chars_of(line);
    if !text::starts_with(c.as_slice(), l.as_slice()) || l.len() >= c.len() {
        return None;
    }
    let mut k: usize = 0;
    while k < c.len()
        invariant
            k <= c@.len(),
            c@ == candidate@,
            l@ == line@,
            is_prefix(line@, candidate@) && line@.len() < candidate@.len(),
            forall|j: int| 0 <= j < k ==> c@[j] != '\n',
        decreases c.len() - k,
    {
        if c[k] == '\n' {
            assert(c@.contains('\n'));
            return None;
        }
        k += 1;
    }
    assert(!c@.contains('\n'));
    let tail = text::slice_vec(c.as_slice(), l.len(), c.len());
    Some(text::string_of(tail.as_slice()))
}

/// An optional string, seen as its characters.
pub open spec fn opt_str_view(o: Option<&str>) -> Option<Seq<char>> {
    match o {
        Some(s) => Some(s@),
        None => None,
    }
}

/// What the suggestion for `line` needs next.
#[derive(Debug)]
pub enum NearbyStep {
    /// It is settled: this tail, or nothing.
    Found(Option<String>),
    /// Ask the store what was run anywhere in the worktree at this root, then hand its answer to
    /// [`Memos::after_workspace`].
    AskWorkspace(String),
}

/// The tail of an optional candidate.
pub open spec fn opt_tail(found: Option<Seq<char>>, line: Seq<char>) -> Option<Seq<char>> {
    match found {
        Some(f) => spec_tail_of(f, line),
        None => None,
    }
}

/// Once the exact directory has answered `here`: its tail when it extends the line; otherwise
/// nothing outside a worktree; otherwise the remembered answer of the worktree when there is
/// one. The first of the pair says the worktree must be asked instead.
pub open spec fn spec_after_here(
    ms: Seq<MemoView>,
    here: Option<Seq<char>>,
    root: Option<Seq<char>>,
    mode: Seq<char>,
    line: Seq<char>,
) -> (bool, Option<Seq<char>>) {
    if opt_tail(here, line) is Some {
        (false, opt_tail(here, line))
    } else {
        match root {
            None => (false, None),
            Some(rt) => match spec_remembered(ms, rt, mode, line) {
                Some(known) => (false, opt_tail(known, line)),
                None => (true, None),
            },
        }
    }
}

impl Memos {
    /// This directory first, then this worktree: given what the store answered for the exact
    /// directory, the suggestion when that settles it, or the worktree to ask when its answer is
    /// neither found nor remembered.
    pub fn after_here(&self, here: Option<&str>, root: Option<&str>, mode: &str, line: &str) -> (r: NearbyStep)
        ensures
            match r {
                NearbyStep::Found(t) => !spec_after_here(self.view_seq(), opt_str_view(here), opt_str_view(root), mode@, line@).0
                    && opt_view(t) == spec_after_here(self.view_seq(), opt_str_view(here), opt_str_view(root), mode@, line@).1,
                NearbyStep::AskWorkspace(at) => spec_after_here(self.view_seq(), opt_str_view(here), opt_str_view(root), mode@, line@).0
                    && opt_str_view(root) == Some(at@),
            },
    {
        if let Some(h) = here {
            let t = tail_of(h, line);
            if t.is_some() {
                return NearbyStep::Found(t);
            }
        }
        match root {
            None => NearbyStep::Found(None),
            Some(rt) => match self.remembered_answer(rt, mode, line) {
                Some(known) => match known {
                    Some(f) => NearbyStep::Found(tail_of(f.as_str(), line)),
                    None => NearbyStep::Found(None),
                },
                None => {
                    let mut at = String::new();
                    text::push_str(&mut at, rt);
                    NearbyStep::AskWorkspace(at)
                },
            },
        }
    }

    /// What the worktree answered for `line`, remembered for the longer lines still to come, and
    /// its tail as the suggestion.
    pub fn after_workspace(&mut self, root: &str, mode: &str, line: &str, asked: Option<&str>) -> (r: Option<String>)
        requires
            old(self).wf(),
        ensures
            final(self).wf(),
            final(self).view_seq() == (if old(self).view_seq().len() >= MEMOS {
                old(self).view_seq().drop_first()
            } else {
                old(self).view_seq()
            }).push((root@, mode@, line@, opt_str_view(asked))),
            opt_view(r) == opt_tail(opt_str_view(asked), line@),
    {
        self.remember_answer(root, mode, line, asked);
        match asked {
            Some(a) => tail_of(a, line),
            None => None,
        }
    }
}

/// A remembered answer never names the line already typed, and never one that does not extend
/// it: whatever `Some(Some(f))` the memos give, `f` is strictly longer than `line` and starts
/// with it.
pub proof fn law_a_remembered_answer_extends_the_line(ms: Seq<MemoView>, root: Seq<char>, mode: Seq<char>, line: Seq<char>)
    ensures
        spec_remembered(ms, root, mode, line) matches Some(Some(f)) ==> is_prefix(line, f) && f != line,
{
}

/// Running a line never disturbs what another language would be offered: a memo of another
/// language survives it untouched.
pub proof fn law_another_language_is_untouched(ms: Seq<MemoView>, line: Seq<char>, language: Seq<char>)
    ensures
        surviving(ms, line, language).len() <= ms.len(),
        forall|m: MemoView| #[trigger] ms.contains(m) && m.1 != language ==> surviving(ms, line, language).contains(m),
    decreases ms.len(),
{
    if ms.len() > 0 {
        law_another_language_is_untouched(ms.drop_last(), line, language);
        let rest = surviving(ms.drop_last(), line, language);
        assert forall|m: MemoView| #[trigger] ms.contains(m) && m.1 != language implies surviving(ms, line, language).contains(m) by {
            let k = choose|k: int| 0 <= k < ms.len() && ms[k] == m;
            if k < ms.len() - 1 {
                assert(ms.drop_last()[k] == m);
                assert(ms.drop_last().contains(m));
                let j = choose|j: int| 0 <= j < rest.len() && rest[j] == m;
                if survives(ms.last(), line, language) {
                    assert(rest.push(ms.last())[j] == m);
                }
            } else {
                assert(rest.push(ms.last())[rest.len() as int] == m);
            }
        }
    }
}

} // verus!
