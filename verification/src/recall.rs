//! Which remembered lines belong to the language being typed.
//!
//! The shell reads two languages, and a shell line and a Lua line are not alternatives for the
//! same slot: offering `ls -la` at a Lua prompt suggests something that cannot run. So every
//! remembered line carries the language it was typed in, and a suggestion is drawn only from the
//! lines of the language the prompt is reading now.

use vstd::prelude::*;
use crate::matching::is_prefix;
use crate::text;

pub mod nearby;

verus! {

/// Every remembered line with the language it was typed in, oldest first.
pub struct Recall {
    remembered: Vec<(String, String)>,
}

pub open spec fn pair_view(p: (String, String)) -> (Seq<char>, Seq<char>) {
    (p.0@, p.1@)
}

/// The lines typed in `language`, oldest first.
pub open spec fn lines_in(all: Seq<(Seq<char>, Seq<char>)>, language: Seq<char>) -> Seq<Seq<char>>
    decreases all.len(),
{
    if all.len() == 0 {
        seq![]
    } else {
        let rest = lines_in(all.drop_last(), language);
        if all.last().1 == language {
            rest.push(all.last().0)
        } else {
            rest
        }
    }
}

/// The newest line in `language` that starts with `line` and is not `line` itself.
pub open spec fn newest_extending(all: Seq<(Seq<char>, Seq<char>)>, language: Seq<char>, line: Seq<char>) -> Option<Seq<char>>
    decreases all.len(),
{
    if all.len() == 0 {
        None
    } else {
        let (candidate, l) = all.last();
        if l == language && is_prefix(line, candidate) && candidate != line {
            Some(candidate)
        } else {
            newest_extending(all.drop_last(), language, line)
        }
    }
}

/// What completes `line` in `language`: the rest of the newest line that extends it.
pub open spec fn spec_suggest(all: Seq<(Seq<char>, Seq<char>)>, line: Seq<char>, language: Option<Seq<char>>) -> Option<Seq<char>> {
    if line.len() == 0 {
        None
    } else {
        match language {
            None => None,
            Some(l) => match newest_extending(all, l, line) {
                None => None,
                Some(c) => Some(c.subrange(line.len() as int, c.len() as int)),
            },
        }
    }
}

fn copy(s: &String) -> (r: String)
    ensures
        r@ == s@,
{
    let mut r = String::new();
    text::push_str(&mut r, s.as_str());
    r
}

impl Recall {
    /// Every remembered line with its language, oldest first.
    pub closed spec fn entries(&self) -> Seq<(Seq<char>, Seq<char>)> {
        Seq::new(self.remembered@.len(), |i: int| pair_view(self.remembered@[i]))
    }

    /// Nothing remembered.
    pub fn new() -> (r: Recall)
        ensures
            r.entries() == Seq::<(Seq<char>, Seq<char>)>::empty(),
    {
        let r = Recall { remembered: Vec::new() };
        assert(r.entries() =~= Seq::<(Seq<char>, Seq<char>)>::empty());
        r
    }

    /// Replace everything remembered, oldest first.
    pub fn seed(&mut self, entries: Vec<(String, String)>)
        ensures
            final(self).entries() == Seq::new(entries@.len(), |i: int| pair_view(entries@[i])),
    {
        self.remembered = entries;
        assert(self.entries() =~= Seq::new(entries@.len(), |i: int| pair_view(entries@[i])));
    }

    /// Remember a line typed this session.
    pub fn remember(&mut self, line: &str, language: &str)
        ensures
            final(self).entries() == old(self).entries().push((line@, language@)),
    {
        let mut l = String::new();
        text::push_str(&mut l, line);
        let mut g = String::new();
        text::push_str(&mut g, language);
        self.remembered.push((l, g));
        proof {
            assert(l@ =~= line@);
            assert(g@ =~= language@);
            assert(self.entries() =~= old(self).entries().push((line@, language@)));
        }
    }

    /// Every line typed in `language`, oldest first.
    pub fn for_language(&self, language: &str) -> (r: Vec<String>)
        ensures
            r@.len() == lines_in(self.entries(), language@).len(),
            forall|i: int| 0 <= i < r@.len() ==> (#[trigger] r@[i])@ == lines_in(self.entries(), language@)[i],
    {
        let want = text::chars_of(language);
        let mut out: Vec<String> = Vec::new();
        let mut i: usize = 0;
        while i < self.remembered.len()
            invariant
                i <= self.remembered@.len(),
                want@ == language@,
                out@.len() == lines_in(self.entries().subrange(0, i as int), language@).len(),
                forall|k: int| 0 <= k < out@.len() ==> (#[trigger] out@[k])@ == lines_in(self.entries().subrange(0, i as int), language@)[k],
            decreases self.remembered.len() - i,
        {
            let (line, l) = &self.remembered[i];
            let lc = text::chars_of(l.as_str());
            proof {
                assert(self.entries().subrange(0, i + 1).drop_last() =~= self.entries().subrange(0, i as int));
                assert(self.entries().subrange(0, i + 1).last() == pair_view(self.remembered@[i as int]));
            }
            if text::chars_eq(lc.as_slice(), want.as_slice()) {
                out.push(copy(line));
            }
            i += 1;
        }
        proof {
            assert(self.entries().subrange(0, self.remembered@.len() as int) =~= self.entries());
        }
        out
    }

    /// The rest of the newest line in `language` that starts with `line` and is longer than it —
    /// the suggestion for what is being typed, drawn only from the language the prompt is reading.
    /// `None` for an empty line, or with no language showing.
    pub fn suggest(&self, line: &str, language: Option<&str>) -> (r: Option<String>)
        ensures
            match r {
                Some(s) => spec_suggest(self.entries(), line@, match language {
                    Some(l) => Some(l@),
                    None => None,
                }) == Some(s@),
                None => spec_suggest(self.entries(), line@, match language {
                    Some(l) => Some(l@),
                    None => None,
                }) is None,
            },
    {
        let typed = text::chars_of(line);
        if typed.len() == 0 {
            return None;
        }
        let lang = match language {
            None => return None,
            Some(l) => text::chars_of(l),
        };
        let mut k = self.remembered.len();
        proof {
            assert(self.entries().subrange(0, k as int) =~= self.entries());
        }
        while k > 0
            invariant
                k <= self.remembered@.len(),
                typed@ == line@,
                typed@.len() > 0,
                language matches Some(l) && lang@ == l@,
                newest_extending(self.entries(), lang@, typed@) == newest_extending(self.entries().subrange(0, k as int), lang@, typed@),
            decreases k,
        {
            let (cand, l) = &self.remembered[k - 1];
            let cc = text::chars_of(cand.as_str());
            let lc = text::chars_of(l.as_str());
            proof {
                let pre = self.entries().subrange(0, k as int);
                assert(pre.drop_last() =~= self.entries().subrange(0, k - 1));
                assert(pre.last() == pair_view(self.remembered@[k - 1]));
            }
            if text::chars_eq(lc.as_slice(), lang.as_slice()) && text::starts_with(cc.as_slice(), typed.as_slice())
                && !text::chars_eq(cc.as_slice(), typed.as_slice()) {
                let tail = text::slice_vec(cc.as_slice(), typed.len(), cc.len());
                proof {
                    let pre = self.entries().subrange(0, k as int);
                    assert(pre.last().0 == cc@);
                    assert(pre.last().1 == lang@);
                    assert(is_prefix(typed@, cc@));
                    assert(newest_extending(pre, lang@, typed@) == Some(cc@));
                    assert(tail@ == cc@.subrange(line@.len() as int, cc@.len() as int));
                    let lv = match language {
                        Some(x) => Some(x@),
                        None => None,
                    };
                    assert(lv == Some(lang@));
                    assert(spec_suggest(self.entries(), line@, lv) == Some(tail@));
                }
                return Some(text::string_of(tail.as_slice()));
            }
            k -= 1;
        }
        None
    }
}

/// A suggestion never crosses languages: lines remembered in another language are not among a
/// language's lines, whatever order they were typed in.
pub proof fn law_lines_stay_in_their_language(all: Seq<(Seq<char>, Seq<char>)>, line: Seq<char>, typed_in: Seq<char>, language: Seq<char>)
    requires
        typed_in != language,
    ensures
        lines_in(all.push((line, typed_in)), language) == lines_in(all, language),
        lines_in(all.push((line, language)), language) == lines_in(all, language).push(line),
{
    assert(all.push((line, typed_in)).drop_last() =~= all);
    assert(all.push((line, language)).drop_last() =~= all);
}

} // verus!
