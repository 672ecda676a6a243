//! Frequency and recency of the commands used, for ranking completions.
//!
//! Each command keeps how often it has been used and when it was last used, in seconds since the
//! epoch. The score that weighs the two is computed by the caller from these counts.

use vstd::prelude::*;
use crate::text;

verus! {

/// A command's record: its name, how often it was used, and when last.
pub type Use = (Seq<char>, u64, u64);

/// Every command used, each once.
#[derive(Debug)]
pub struct FrecencyTracker {
    history: Vec<(String, u64, u64)>,
}

/// The record of `cmd` among `h`, when there is one.
pub open spec fn find_use(h: Seq<Use>, cmd: Seq<char>) -> Option<int>
    decreases h.len(),
{
    if h.len() == 0 {
        None
    } else if h.last().0 == cmd {
        Some(h.len() - 1)
    } else {
        find_use(h.drop_last(), cmd)
    }
}

/// No command is recorded twice.
pub open spec fn distinct(h: Seq<Use>) -> bool {
    forall|i: int, j: int| 0 <= i < j < h.len() ==> (#[trigger] h[i]).0 != (#[trigger] h[j]).0
}

proof fn lemma_find_use(h: Seq<Use>, cmd: Seq<char>)
    ensures
        find_use(h, cmd) matches Some(i) ==> 0 <= i < h.len() && h[i].0 == cmd,
        find_use(h, cmd) is None ==> forall|i: int| 0 <= i < h.len() ==> (#[trigger] h[i]).0 != cmd,
    decreases h.len(),
{
    if h.len() > 0 {
        lemma_find_use(h.drop_last(), cmd);
        if find_use(h, cmd) is None {
            assert forall|i: int| 0 <= i < h.len() implies (#[trigger] h[i]).0 != cmd by {
                if i < h.len() - 1 {
                    assert(h.drop_last()[i] == h[i]);
                }
            }
        }
    }
}

/// What the history becomes after `count` uses of `cmd`, the last at `last_used`: an existing
/// record gains the uses (saturating) and keeps the later of the two times; a new one is added.
pub open spec fn merged(h: Seq<Use>, cmd: Seq<char>, count: u64, last_used: u64) -> Seq<Use> {
    match find_use(h, cmd) {
        Some(i) => h.update(
            i,
            (
                cmd,
                (if h[i].1 + count > u64::MAX { u64::MAX as int } else { h[i].1 + count }) as u64,
                if h[i].2 >= last_used { h[i].2 } else { last_used },
            ),
        ),
        None => h.push((cmd, count, last_used)),
    }
}

/// What the history becomes after one use of `cmd` at `now`: one more use, last at `now`.
pub open spec fn used(h: Seq<Use>, cmd: Seq<char>, now: u64) -> Seq<Use> {
    match find_use(h, cmd) {
        Some(i) => h.update(i, (cmd, (if h[i].1 + 1 > u64::MAX { u64::MAX as int } else { h[i].1 + 1 }) as u64, now)),
        None => h.push((cmd, 1, now)),
    }
}

/// Seconds since the epoch, by the system clock; 0 when the clock is before the epoch.
#[verifier::external_body]
fn now_secs() -> (r: u64) {
    std::time::SystemTime::now().duration_since(std::time::UNIX_EPOCH).map(|d| d.as_secs()).unwrap_or(0)
}

impl FrecencyTracker {
    /// The records, in the order they were first made.
    pub closed spec fn uses(&self) -> Seq<Use> {
        Seq::new(self.history@.len(), |i: int| (self.history@[i].0@, self.history@[i].1, self.history@[i].2))
    }

    pub open spec fn wf(&self) -> bool {
        distinct(self.uses())
    }

    pub fn new() -> (t: FrecencyTracker)
        ensures
            t.wf(),
            t.uses() == Seq::<Use>::empty(),
    {
        let t = FrecencyTracker { history: Vec::new() };
        assert(t.uses() =~= Seq::<Use>::empty());
        t
    }

    /// Where `cmd` is recorded, when it is.
    fn position(&self, cmd: &str) -> (r: Option<usize>)
        ensures
            match r {
                Some(i) => find_use(self.uses(), cmd@) == Some(i as int),
                None => find_use(self.uses(), cmd@) is None,
            },
    {
        let want = text::chars_of(cmd);
        let mut i = self.history.len();
        assert(self.uses().subrange(0, i as int) =~= self.uses());
        while i > 0
            invariant
                i <= self.history@.len(),
                want@ == cmd@,
                find_use(self.uses(), cmd@) == find_use(self.uses().subrange(0, i as int), cmd@),
            decreases i,
        {
            let here = text::chars_of(self.history[i - 1].0.as_str());
            let ghost pre = self.uses().subrange(0, i as int);
            assert(pre.drop_last() =~= self.uses().subrange(0, i - 1));
            assert(pre.last() == self.uses()[i - 1]);
            if text::chars_eq(here.as_slice(), want.as_slice()) {
                return Some(i - 1);
            }
            i -= 1;
        }
        None
    }

    /// Fold in `count` uses of `cmd`, the last at `last_used`, from an earlier session. A
    /// reloaded record keeps its own time, so replaying a log does not date every past use to
    /// startup.
    pub fn merge(&mut self, cmd: &str, count: u64, last_used: u64)
        requires
            old(self).wf(),
        ensures
            final(self).wf(),
            final(self).uses() == merged(old(self).uses(), cmd@, count, last_used),
    {
        let ghost h = self.uses();
        proof {
            lemma_find_use(h, cmd@);
        }
        match self.position(cmd) {
            Some(i) => {
                let (name, n, last) = self.history.remove(i);
                let n2 = n.saturating_add(count);
                let l2 = if last >= last_used {
                    last
                } else {
                    last_used
                };
                self.history.insert(i, (name, n2, l2));
                assert(self.uses() =~= merged(h, cmd@, count, last_used));
            },
            None => {
                self.history.push((text::string_of(text::chars_of(cmd).as_slice()), count, last_used));
                assert(self.uses() =~= merged(h, cmd@, count, last_used));
            },
        }
    }

    /// Record one use of `cmd` at `now`, seconds since the epoch.
    pub fn record_use_at(&mut self, cmd: &str, now: u64)
        requires
            old(self).wf(),
        ensures
            final(self).wf(),
            final(self).uses() == used(old(self).uses(), cmd@, now),
    {
        let ghost h = self.uses();
        proof {
            lemma_find_use(h, cmd@);
        }
        match self.position(cmd) {
            Some(i) => {
                let (name, n, _last) = self.history.remove(i);
                self.history.insert(i, (name, n.saturating_add(1), now));
                assert(self.uses() =~= used(h, cmd@, now));
            },
            None => {
                self.history.push((text::string_of(text::chars_of(cmd).as_slice()), 1, now));
                assert(self.uses() =~= used(h, cmd@, now));
            },
        }
    }

    /// Record one use of `cmd` now, by the system clock.
    pub fn record_use(&mut self, cmd: &str)
        requires
            old(self).wf(),
        ensures
            final(self).wf(),
            exists|now: u64| final(self).uses() == used(old(self).uses(), cmd@, now),
    {
        let now = now_secs();
        self.record_use_at(cmd, now);
    }

    /// Every recorded command with its use count and last-use time, for persistence.
    pub fn entries(&self) -> (r: Vec<(String, u64, u64)>)
        ensures
            Seq::new(r@.len(), |i: int| (r@[i].0@, r@[i].1, r@[i].2)) == self.uses(),
    {
        let mut out: Vec<(String, u64, u64)> = Vec::new();
        let mut i: usize = 0;
        while i < self.history.len()
            invariant
                i <= self.history@.len(),
                Seq::new(out@.len(), |k: int| (out@[k].0@, out@[k].1, out@[k].2)) == self.uses().subrange(0, i as int),
            decreases self.history.len() - i,
        {
            let (name, n, last) = &self.history[i];
            let ghost before = out@;
            out.push((text::string_of(text::chars_of(name.as_str()).as_slice()), *n, *last));
            assert(Seq::new(out@.len(), |k: int| (out@[k].0@, out@[k].1, out@[k].2)) =~= Seq::new(
                before.len(),
                |k: int| (before[k].0@, before[k].1, before[k].2),
            ).push(self.uses()[i as int]));
            i += 1;
            assert(Seq::new(out@.len(), |k: int| (out@[k].0@, out@[k].1, out@[k].2)) =~= self.uses().subrange(0, i as int));
        }
        assert(self.uses().subrange(0, self.uses().len() as int) =~= self.uses());
        out
    }
}

/// Merging keeps every command recorded once, and a record's time never goes backwards: merging
/// an older use keeps the newer time.
pub proof fn law_merging_never_loses_recency(h: Seq<Use>, cmd: Seq<char>, count: u64, last_used: u64)
    requires
        distinct(h),
    ensures
        distinct(merged(h, cmd, count, last_used)),
        forall|i: int| 0 <= i < h.len() && h[i].0 == cmd ==> (#[trigger] merged(h, cmd, count, last_used)[i]).2 >= h[i].2
            && merged(h, cmd, count, last_used)[i].2 >= last_used,
{
    lemma_find_use(h, cmd);
    let m = merged(h, cmd, count, last_used);
    assert forall|i: int, j: int| 0 <= i < j < m.len() implies (#[trigger] m[i]).0 != (#[trigger] m[j]).0 by {
        if find_use(h, cmd) is None && j == h.len() {
            assert(h[i].0 != cmd);
        }
    }
    assert forall|i: int| 0 <= i < h.len() && h[i].0 == cmd implies (#[trigger] m[i]).2 >= h[i].2 && m[i].2 >= last_used by {
        if let Some(k) = find_use(h, cmd) {
            if k != i {
                assert(h[k].0 == h[i].0);
            }
        }
    }
}

} // verus!
