//! `ui format`: what kind of text is being formatted, and filling in a template.
//!
//! Pure text in, pure text out. A template's `{{name}}` is replaced from the caller's pairs, and
//! an unknown name is left as it was written: a template that silently loses a field looks like
//! it worked.

use vstd::prelude::*;
use crate::text;

verus! {

/// What the input is.
#[derive(Debug, Clone, Copy, PartialEq, Eq, Structural)]
pub enum As {
    Markdown,
    /// `{{name}}` replaced from the caller's pairs.
    Template,
    /// Left exactly as it is.
    Text,
    /// Every line indented and dimmed.
    Code,
}

/// The kind a name means.
pub open spec fn spec_as(name: Seq<char>) -> Option<As> {
    if name == "markdown"@ || name == "md"@ {
        Some(As::Markdown)
    } else if name == "template"@ || name == "tmpl"@ {
        Some(As::Template)
    } else if name == "text"@ || name == "plain"@ {
        Some(As::Text)
    } else if name == "code"@ {
        Some(As::Code)
    } else {
        None
    }
}

impl As {
    pub fn parse(name: &str) -> (r: Option<As>)
        ensures
            r == spec_as(name@),
    {
        let n = text::chars_of(name);
        let n = n.as_slice();
        if text::eq_str(n, "markdown") || text::eq_str(n, "md") {
            Some(As::Markdown)
        } else if text::eq_str(n, "template") || text::eq_str(n, "tmpl") {
            Some(As::Template)
        } else if text::eq_str(n, "text") || text::eq_str(n, "plain") {
            Some(As::Text)
        } else if text::eq_str(n, "code") {
            Some(As::Code)
        } else {
            None
        }
    }
}

/// `s` with every occurrence of `pat` replaced by `rep`, left to right and without overlap, as
/// `str::replace` does for a pattern that is not empty.
pub open spec fn replaced(s: Seq<char>, pat: Seq<char>, rep: Seq<char>) -> Seq<char>
    decreases s.len(),
{
    if s.len() == 0 || pat.len() == 0 {
        s
    } else if pat.len() <= s.len() && s.subrange(0, pat.len() as int) == pat {
        rep + replaced(s.subrange(pat.len() as int, s.len() as int), pat, rep)
    } else {
        seq![s[0]] + replaced(s.subrange(1, s.len() as int), pat, rep)
    }
}

/// The placeholder a name is written as: `{{name}}`.
pub open spec fn placeholder(key: Seq<char>) -> Seq<char> {
    seq!['{', '{'] + key + seq!['}', '}']
}

/// A template filled from `values`, each pair in turn.
pub open spec fn filled(t: Seq<char>, values: Seq<(Seq<char>, Seq<char>)>) -> Seq<char>
    decreases values.len(),
{
    if values.len() == 0 {
        t
    } else {
        let before = filled(t, values.drop_last());
        replaced(before, placeholder(values.last().0), values.last().1)
    }
}

/// `s` with `pat` replaced by `rep`.
fn replace_chars(s: &[char], pat: &[char], rep: &[char]) -> (r: Vec<char>)
    requires
        pat@.len() > 0,
    ensures
        r@ == replaced(s@, pat@, rep@),
{
    let mut out: Vec<char> = Vec::new();
    let mut i: usize = 0;
    let n = s.len();
    assert(s@.subrange(0, n as int) =~= s@);
    while i < n
        invariant
            i <= n,
            n == s@.len(),
            pat@.len() > 0,
            out@ + replaced(s@.subrange(i as int, n as int), pat@, rep@) == replaced(s@, pat@, rep@),
        decreases n - i,
    {
        let ghost rest = s@.subrange(i as int, n as int);
        let here = text::slice_vec(s, i, n);
        if text::starts_with(here.as_slice(), pat) {
            let ghost before = out@;
            let mut k: usize = 0;
            while k < rep.len()
                invariant
                    k <= rep@.len(),
                    out@ == before + rep@.subrange(0, k as int),
                decreases rep.len() - k,
            {
                out.push(rep[k]);
                k += 1;
                assert(out@ =~= before + rep@.subrange(0, k as int));
            }
            assert(rep@.subrange(0, rep@.len() as int) =~= rep@);
            assert(rest.subrange(pat@.len() as int, rest.len() as int) =~= s@.subrange(i + pat@.len(), n as int));
            assert(before + (rep@ + replaced(s@.subrange(i + pat@.len(), n as int), pat@, rep@)) =~= out@
                + replaced(s@.subrange(i + pat@.len(), n as int), pat@, rep@));
            i = i + pat.len();
        } else {
            let ghost before = out@;
            out.push(s[i]);
            assert(rest.subrange(1, rest.len() as int) =~= s@.subrange(i + 1, n as int));
            assert(before + (seq![s@[i as int]] + replaced(s@.subrange(i + 1, n as int), pat@, rep@)) =~= out@
                + replaced(s@.subrange(i + 1, n as int), pat@, rep@));
            i = i + 1;
        }
    }
    assert(s@.subrange(n as int, n as int) =~= Seq::<char>::empty());
    assert(out@ + Seq::<char>::empty() =~= out@);
    out
}

/// The texts of some pairs of strings.
pub open spec fn pair_texts(v: Seq<(String, String)>) -> Seq<(Seq<char>, Seq<char>)> {
    Seq::new(v.len(), |i: int| (v[i].0@, v[i].1@))
}

/// `{{name}}` from the caller's pairs, each pair in turn; an unknown name is left as it was
/// written.
pub fn template(t: &str, values: &[(String, String)]) -> (r: String)
    ensures
        r@ == filled(t@, pair_texts(values@)),
{
    let mut out = text::chars_of(t);
    let mut i: usize = 0;
    assert(pair_texts(values@).subrange(0, 0) =~= Seq::<(Seq<char>, Seq<char>)>::empty());
    while i < values.len()
        invariant
            i <= values@.len(),
            out@ == filled(t@, pair_texts(values@).subrange(0, i as int)),
        decreases values.len() - i,
    {
        let mut pat: Vec<char> = Vec::new();
        pat.push('{');
        pat.push('{');
        let key = text::chars_of(values[i].0.as_str());
        let mut k: usize = 0;
        while k < key.len()
            invariant
                k <= key@.len(),
                pat@ == seq!['{', '{'] + key@.subrange(0, k as int),
            decreases key.len() - k,
        {
            pat.push(key[k]);
            k += 1;
            assert(pat@ =~= seq!['{', '{'] + key@.subrange(0, k as int));
        }
        pat.push('}');
        pat.push('}');
        assert(key@.subrange(0, key@.len() as int) =~= key@);
        assert(pat@ =~= placeholder(values@[i as int].0@));
        let rep = text::chars_of(values[i].1.as_str());
        out = replace_chars(out.as_slice(), pat.as_slice(), rep.as_slice());
        proof {
            let p = pair_texts(values@).subrange(0, i + 1);
            assert(p.drop_last() =~= pair_texts(values@).subrange(0, i as int));
            assert(p.last() == (values@[i as int].0@, values@[i as int].1@));
        }
        i += 1;
    }
    assert(pair_texts(values@).subrange(0, values@.len() as int) =~= pair_texts(values@));
    text::string_of(out.as_slice())
}

/// A template with nothing to fill in is left exactly as it was.
pub proof fn law_a_template_with_no_placeholder_is_unchanged(t: Seq<char>, pat: Seq<char>, rep: Seq<char>)
    requires
        pat.len() > 0,
        forall|i: int| !#[trigger] text::occurs_at(t, pat, i),
    ensures
        replaced(t, pat, rep) == t,
    decreases t.len(),
{
    if t.len() > 0 {
        let rest = t.subrange(1, t.len() as int);
        assert forall|i: int| !#[trigger] text::occurs_at(rest, pat, i) by {
            if 0 <= i && i + pat.len() <= rest.len() {
                assert(rest.subrange(i, i + pat.len()) =~= t.subrange(i + 1, i + 1 + pat.len()));
                assert(!text::occurs_at(t, pat, i + 1));
            }
        }
        law_a_template_with_no_placeholder_is_unchanged(rest, pat, rep);
        assert(!text::occurs_at(t, pat, 0));
        assert(seq![t[0]] + rest =~= t);
    }
}

} // verus!
