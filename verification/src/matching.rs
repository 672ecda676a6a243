//! How a candidate is matched against what has been typed.
//!
//! A prefix test answers "does this start with what I typed". A transform answers "could what I
//! typed have been an abbreviation of this": `/u/s/b` reaching `/usr/share/bin` and `f-b` reaching
//! `foo-bar`. The ways are tried in order, and the first that finds something wins.

use vstd::prelude::*;
use crate::text::{self, lowercase};

verus! {

/// `s` with every character lowered the way `char::to_lowercase` lowers it (one character may
/// become several).
pub open spec fn folded(s: Seq<char>) -> Seq<char>
    decreases s.len(),
{
    if s.len() == 0 {
        seq![]
    } else {
        folded(s.drop_last()) + lowercase(s.last())
    }
}

/// Whether `p` begins `s`.
pub open spec fn is_prefix(p: Seq<char>, s: Seq<char>) -> bool {
    p.len() <= s.len() && s.subrange(0, p.len() as int) == p
}

/// A prefix match that ignores case: what was typed, lowered, begins the candidate, lowered.
pub open spec fn spec_matches_ignoring_case(candidate: Seq<char>, typed: Seq<char>) -> bool {
    is_prefix(folded(typed), folded(candidate))
}

/// What separates the pieces a person thinks of a name in.
pub open spec fn is_separator(c: char) -> bool {
    c == '/' || c == '-' || c == '_' || c == '.'
}

/// `s` split at every separator, empty pieces kept, as `str::split` does.
pub open spec fn pieces(s: Seq<char>) -> Seq<Seq<char>>
    decreases s.len(),
{
    if s.len() == 0 {
        seq![seq![]]
    } else {
        let ps = pieces(s.drop_last());
        let c = s.last();
        if is_separator(c) {
            ps.push(seq![])
        } else {
            ps.update(ps.len() - 1, ps.last().push(c))
        }
    }
}

/// Every typed piece prefixes (ignoring case) the corresponding piece of the candidate, an empty
/// typed piece matching anything — when something was typed with a separator in it at all.
pub open spec fn spec_matches_by_piece(candidate: Seq<char>, typed: Seq<char>) -> bool {
    let wanted = pieces(typed);
    let have = pieces(candidate);
    &&& exists|i: int| 0 <= i < typed.len() && is_separator(#[trigger] typed[i])
    &&& wanted.len() <= have.len()
    &&& pieces_match(wanted, have)
}

/// Every typed piece is empty or prefixes the candidate's piece in the same place, ignoring case.
pub open spec fn pieces_match(wanted: Seq<Seq<char>>, have: Seq<Seq<char>>) -> bool {
    forall|i: int| 0 <= i < wanted.len() ==> (#[trigger] wanted[i]).len() == 0
        || spec_matches_ignoring_case(have[i], wanted[i])
}

/// How a candidate may be matched, tried in order until one finds something.
#[derive(Debug, Clone, Copy, PartialEq, Eq, Structural)]
pub enum Match {
    /// What was typed, exactly.
    Exact,
    /// The same, ignoring case — so `re` reaches `README.md`.
    Ignoring,
    /// Each separator-delimited piece is a prefix of the corresponding piece of the candidate.
    Pieces,
}

/// Whether `candidate` matches `typed` the way `m` matches.
pub open spec fn spec_matches(m: Match, candidate: Seq<char>, typed: Seq<char>) -> bool {
    match m {
        Match::Exact => is_prefix(typed, candidate),
        Match::Ignoring => spec_matches_ignoring_case(candidate, typed),
        Match::Pieces => spec_matches_by_piece(candidate, typed),
    }
}

/// Every way of matching, in the order they are tried.
pub fn matchers() -> (r: [Match; 3])
    ensures
        r@ == seq![Match::Exact, Match::Ignoring, Match::Pieces],
{
    let r = [Match::Exact, Match::Ignoring, Match::Pieces];
    assert(r@ =~= seq![Match::Exact, Match::Ignoring, Match::Pieces]);
    r
}

fn fold_x(s: &[char]) -> (r: Vec<char>)
    ensures
        r@ == folded(s@),
{
    let mut out: Vec<char> = Vec::new();
    let mut i: usize = 0;
    while i < s.len()
        invariant
            i <= s@.len(),
            out@ == folded(s@.subrange(0, i as int)),
        decreases s.len() - i,
    {
        let low = text::to_lowercase(s[i]);
        proof {
            assert(s@.subrange(0, i + 1).drop_last() =~= s@.subrange(0, i as int));
        }
        out = text::concat(out.as_slice(), low.as_slice());
        i += 1;
    }
    proof {
        assert(s@.subrange(0, s@.len() as int) =~= s@);
    }
    out
}

fn matches_ignoring_case_chars(candidate: &[char], typed: &[char]) -> (r: bool)
    ensures
        r == spec_matches_ignoring_case(candidate@, typed@),
{
    let c = fold_x(candidate);
    let t = fold_x(typed);
    text::starts_with(c.as_slice(), t.as_slice())
}

/// A prefix match that ignores case, folding each character the way `char::to_lowercase` does.
pub fn matches_ignoring_case(candidate: &str, typed: &str) -> (r: bool)
    ensures
        r == spec_matches_ignoring_case(candidate@, typed@),
{
    let c = text::chars_of(candidate);
    let t = text::chars_of(typed);
    matches_ignoring_case_chars(c.as_slice(), t.as_slice())
}

fn pieces_x(s: &[char]) -> (r: Vec<Vec<char>>)
    ensures
        r@.len() == pieces(s@).len(),
        forall|i: int| 0 <= i < r@.len() ==> (#[trigger] r@[i])@ == pieces(s@)[i],
{
    let mut out: Vec<Vec<char>> = Vec::new();
    out.push(Vec::new());
    let mut i: usize = 0;
    proof {
        assert(s@.subrange(0, 0) =~= Seq::<char>::empty());
    }
    while i < s.len()
        invariant
            i <= s@.len(),
            out@.len() == pieces(s@.subrange(0, i as int)).len(),
            out@.len() > 0,
            forall|k: int| 0 <= k < out@.len() ==> (#[trigger] out@[k])@ == pieces(s@.subrange(0, i as int))[k],
        decreases s.len() - i,
    {
        let c = s[i];
        let ghost before = out@;
        proof {
            assert(s@.subrange(0, i + 1).drop_last() =~= s@.subrange(0, i as int));
        }
        if c == '/' || c == '-' || c == '_' || c == '.' {
            out.push(Vec::new());
        } else {
            let n = out.len();
            let mut last = out.remove(n - 1);
            last.push(c);
            out.push(last);
        }
        i += 1;
        proof {
            let ps = pieces(s@.subrange(0, i - 1));
            assert forall|k: int| 0 <= k < out@.len() implies (#[trigger] out@[k])@ == pieces(s@.subrange(0, i as int))[k] by {
                if k < out@.len() - 1 {
                    assert(out@[k] == before[k]);
                }
            }
        }
    }
    proof {
        assert(s@.subrange(0, s@.len() as int) =~= s@);
    }
    out
}

fn has_separator(s: &[char]) -> (r: bool)
    ensures
        r == exists|i: int| 0 <= i < s@.len() && is_separator(#[trigger] s@[i]),
{
    let mut i: usize = 0;
    while i < s.len()
        invariant
            i <= s@.len(),
            forall|j: int| 0 <= j < i ==> !is_separator(#[trigger] s@[j]),
        decreases s.len() - i,
    {
        let c = s[i];
        if c == '/' || c == '-' || c == '_' || c == '.' {
            return true;
        }
        i += 1;
    }
    false
}

/// Whether every piece of `typed` prefixes the corresponding piece of `candidate`, ignoring case.
///
/// The separators divide a name into the parts a person thinks in: `/`, `-`, `_` and `.`. A piece
/// that is empty matches anything, so a doubled separator does not refuse the whole candidate.
/// Only tried when something was typed with a separator in it.
pub fn matches_by_piece(candidate: &str, typed: &str) -> (r: bool)
    ensures
        r == spec_matches_by_piece(candidate@, typed@),
{
    let c = text::chars_of(candidate);
    let t = text::chars_of(typed);
    if !has_separator(t.as_slice()) {
        return false;
    }
    let wanted = pieces_x(t.as_slice());
    let have = pieces_x(c.as_slice());
    if wanted.len() > have.len() {
        return false;
    }
    let mut i: usize = 0;
    while i < wanted.len()
        invariant
            i <= wanted@.len() <= have@.len(),
            t@ == typed@,
            c@ == candidate@,
            wanted@.len() == pieces(t@).len(),
            have@.len() == pieces(c@).len(),
            forall|k: int| 0 <= k < wanted@.len() ==> (#[trigger] wanted@[k])@ == pieces(t@)[k],
            forall|k: int| 0 <= k < have@.len() ==> (#[trigger] have@[k])@ == pieces(c@)[k],
            forall|k: int| 0 <= k < i ==> (#[trigger] pieces(t@)[k]).len() == 0
                || spec_matches_ignoring_case(pieces(c@)[k], pieces(t@)[k]),
        decreases wanted.len() - i,
    {
        let w = &wanted[i];
        let h = &have[i];
        proof {
            assert(w@ == pieces(t@)[i as int]);
            assert(h@ == pieces(c@)[i as int]);
        }
        if w.len() != 0 && !matches_ignoring_case_chars(h.as_slice(), w.as_slice()) {
            proof {
                assert(!(pieces(t@)[i as int].len() == 0 || spec_matches_ignoring_case(pieces(c@)[i as int], pieces(t@)[i as int])));
                assert(!pieces_match(pieces(t@), pieces(c@)));
            }
            return false;
        }
        i += 1;
    }
    proof {
        assert(pieces_match(pieces(t@), pieces(c@)));
    }
    true
}

impl Match {
    /// Whether `candidate` matches `typed` this way.
    pub fn matches(self, candidate: &str, typed: &str) -> (r: bool)
        ensures
            r == spec_matches(self, candidate@, typed@),
    {
        match self {
            Match::Exact => {
                let c = text::chars_of(candidate);
                let t = text::chars_of(typed);
                text::starts_with(c.as_slice(), t.as_slice())
            },
            Match::Ignoring => matches_ignoring_case(candidate, typed),
            Match::Pieces => matches_by_piece(candidate, typed),
        }
    }
}

/// An exact match is also a match ignoring case: folding both sides keeps a prefix a prefix.
pub proof fn law_exact_implies_ignoring(candidate: Seq<char>, typed: Seq<char>)
    requires
        is_prefix(typed, candidate),
    ensures
        spec_matches_ignoring_case(candidate, typed),
{
    let rest = candidate.subrange(typed.len() as int, candidate.len() as int);
    assert(candidate =~= typed + rest);
    lemma_fold_concat(typed, rest);
    assert(folded(candidate).subrange(0, folded(typed).len() as int) =~= folded(typed));
}

proof fn lemma_fold_concat(a: Seq<char>, b: Seq<char>)
    ensures
        folded(a + b) == folded(a) + folded(b),
    decreases b.len(),
{
    if b.len() == 0 {
        assert(a + b =~= a);
        assert(folded(a) + folded(b) =~= folded(a));
    } else {
        lemma_fold_concat(a, b.drop_last());
        assert((a + b).drop_last() =~= a + b.drop_last());
        assert(folded(a) + folded(b.drop_last()) + lowercase(b.last()) =~= folded(a) + (folded(b.drop_last()) + lowercase(b.last())));
    }
}

/// How many separators `s` holds.
pub open spec fn separators_in(s: Seq<char>) -> nat
    decreases s.len(),
{
    if s.len() == 0 {
        0
    } else {
        separators_in(s.drop_last()) + if is_separator(s.last()) { 1nat } else { 0nat }
    }
}

/// Cutting at the separators gives one piece more than there are separators, and no piece
/// holds a separator.
pub proof fn law_pieces_are_cut_at_every_separator(s: Seq<char>)
    ensures
        pieces(s).len() == separators_in(s) + 1,
        forall|i: int, k: int|
            0 <= i < pieces(s).len() && 0 <= k < pieces(s)[i].len() ==> !is_separator(#[trigger] pieces(s)[i][k]),
    decreases s.len(),
{
    if s.len() > 0 {
        law_pieces_are_cut_at_every_separator(s.drop_last());
        let ps = pieces(s.drop_last());
        let c = s.last();
        if !is_separator(c) {
            assert forall|i: int, k: int|
                0 <= i < pieces(s).len() && 0 <= k < pieces(s)[i].len() implies !is_separator(
                #[trigger] pieces(s)[i][k],
            ) by {
                if i < ps.len() - 1 {
                    assert(pieces(s)[i] == ps[i]);
                } else if k < ps.last().len() {
                    assert(pieces(s)[i][k] == ps[ps.len() - 1][k]);
                }
            }
        } else {
            assert forall|i: int, k: int|
                0 <= i < pieces(s).len() && 0 <= k < pieces(s)[i].len() implies !is_separator(
                #[trigger] pieces(s)[i][k],
            ) by {
                assert(pieces(s)[i] == ps[i]);
            }
        }
    }
}

/// Matching piece by piece holds exactly when something was typed with a separator in it, the
/// candidate has at least as many pieces, and every typed piece, the last one included, is empty
/// or begins, lowered, the candidate's piece in the same place, lowered.
pub proof fn law_every_typed_piece_begins_its_piece(candidate: Seq<char>, typed: Seq<char>)
    ensures
        spec_matches_by_piece(candidate, typed) <==> ({
            &&& separators_in(typed) > 0
            &&& pieces(typed).len() <= pieces(candidate).len()
            &&& forall|i: int|
                0 <= i < pieces(typed).len() ==> (#[trigger] pieces(typed)[i]).len() == 0 || (folded(
                    pieces(typed)[i],
                ).len() <= folded(pieces(candidate)[i]).len() && folded(pieces(candidate)[i]).subrange(
                    0,
                    folded(pieces(typed)[i]).len() as int,
                ) == folded(pieces(typed)[i]))
        }),
{
    lemma_separators_exist(typed);
    let w = pieces(typed);
    let h = pieces(candidate);
    assert forall|i: int| 0 <= i < w.len() implies ((#[trigger] w[i]).len() == 0 || spec_matches_ignoring_case(h[i], w[i]))
        == (w[i].len() == 0 || (folded(w[i]).len() <= folded(h[i]).len() && folded(h[i]).subrange(
        0,
        folded(w[i]).len() as int,
    ) == folded(w[i]))) by {}
}

proof fn lemma_separators_exist(s: Seq<char>)
    ensures
        (separators_in(s) > 0) == (exists|i: int| 0 <= i < s.len() && is_separator(#[trigger] s[i])),
    decreases s.len(),
{
    if s.len() > 0 {
        let d = s.drop_last();
        lemma_separators_exist(d);
        if exists|i: int| 0 <= i < d.len() && is_separator(#[trigger] d[i]) {
            let i = choose|i: int| 0 <= i < d.len() && is_separator(#[trigger] d[i]);
            assert(is_separator(s[i]));
        }
        if exists|i: int| 0 <= i < s.len() && is_separator(#[trigger] s[i]) {
            let i = choose|i: int| 0 <= i < s.len() && is_separator(#[trigger] s[i]);
            if i < d.len() {
                assert(is_separator(d[i]));
            }
        }
    }
}

/// An exact match is the typed text followed by the rest of the candidate.
pub proof fn law_an_exact_match_is_what_was_typed_and_more(candidate: Seq<char>, typed: Seq<char>)
    ensures
        spec_matches(Match::Exact, candidate, typed) <==> exists|rest: Seq<char>| #[trigger] (typed + rest) == candidate,
{
    if spec_matches(Match::Exact, candidate, typed) {
        let rest = candidate.subrange(typed.len() as int, candidate.len() as int);
        assert(typed + rest =~= candidate);
    }
    if exists|rest: Seq<char>| #[trigger] (typed + rest) == candidate {
        let rest = choose|rest: Seq<char>| #[trigger] (typed + rest) == candidate;
        assert(candidate.subrange(0, typed.len() as int) =~= typed);
    }
}

/// Typing more only narrows an exact or case-ignoring match: a candidate that matches the
/// longer text matches the shorter one too; and nothing typed matches every candidate.
pub proof fn law_typing_more_only_narrows(candidate: Seq<char>, typed: Seq<char>, more: Seq<char>)
    ensures
        spec_matches(Match::Exact, candidate, typed + more) ==> spec_matches(Match::Exact, candidate, typed),
        spec_matches(Match::Ignoring, candidate, typed + more) ==> spec_matches(Match::Ignoring, candidate, typed),
        spec_matches(Match::Exact, candidate, Seq::<char>::empty()),
        spec_matches(Match::Ignoring, candidate, Seq::<char>::empty()),
{
    let t = typed + more;
    if is_prefix(t, candidate) {
        assert(candidate.subrange(0, typed.len() as int) =~= t.subrange(0, typed.len() as int));
        assert(t.subrange(0, typed.len() as int) =~= typed);
    }
    lemma_fold_concat(typed, more);
    let ft = folded(t);
    let fc = folded(candidate);
    if is_prefix(ft, fc) {
        assert(fc.subrange(0, folded(typed).len() as int) =~= ft.subrange(0, folded(typed).len() as int));
        assert(ft.subrange(0, folded(typed).len() as int) =~= folded(typed));
    }
    assert(candidate.subrange(0, 0) =~= Seq::<char>::empty());
    assert(folded(Seq::<char>::empty()) == Seq::<char>::empty());
    assert(fc.subrange(0, 0) =~= Seq::<char>::empty());
}

} // verus!
