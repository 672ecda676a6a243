//! The prompt's arithmetic: how wide a painted prompt is, where a right prompt goes, how a path is
//! written in it, and the row the prompt was last drawn on.
//!
//! A right prompt is drawn by moving right, drawing, and coming back — never by saving and
//! restoring the cursor, whose single slot is shared with everything else drawing on the terminal.
//! It is dropped when it would come within two columns of what is being typed.

use vstd::prelude::*;
use crate::dropdown::width::spec_display_width;
use crate::text::{self, decimal, fits, join_with, split_on, spec_trim, utf8_bytes};
use crate::abbr::cursor_index;
use crate::matching::is_prefix;
use vstd::string::StringSliceAdditionalSpecFns;

verus! {

/// Where a CSI that reached `j` ends: just past its first byte that is neither a digit nor `;`,
/// or the end of the text.
pub open spec fn csi_end(cs: Seq<char>, j: int) -> int
    decreases cs.len() - j,
{
    if !(0 <= j < cs.len()) {
        j
    } else if !(('0' <= cs[j] <= '9') || cs[j] == ';') {
        j + 1
    } else {
        csi_end(cs, j + 1)
    }
}

/// The cells `cs[i..]` occupies once its escape sequences are discounted: `ESC [` runs to its
/// final byte, any other `ESC x` is two characters, and every other character is as wide as it
/// is on its own.
pub open spec fn width_from(cs: Seq<char>, i: int) -> nat
    decreases cs.len() - i,
{
    if !(0 <= i < cs.len()) {
        0
    } else if cs[i] != '\x1b' {
        spec_display_width(seq![cs[i]]) + width_from(cs, i + 1)
    } else if i + 1 >= cs.len() {
        0
    } else if cs[i + 1] == '[' {
        proof {
            lemma_csi_end(cs, i + 2);
        }
        width_from(cs, csi_end(cs, i + 2))
    } else {
        width_from(cs, i + 2)
    }
}

pub proof fn lemma_csi_end(cs: Seq<char>, j: int)
    requires
        0 <= j,
    ensures
        j <= csi_end(cs, j),
        j <= cs.len() ==> csi_end(cs, j) <= cs.len(),
    decreases cs.len() - j,
{
    if 0 <= j < cs.len() && (('0' <= cs[j] <= '9') || cs[j] == ';') {
        lemma_csi_end(cs, j + 1);
    }
}

/// Escapes only ever take cells away: at most two cells per character.
pub proof fn lemma_width_bound(cs: Seq<char>, i: int)
    requires
        0 <= i <= cs.len(),
    ensures
        width_from(cs, i) <= 2 * (cs.len() - i),
    decreases cs.len() - i,
{
    if i < cs.len() {
        if cs[i] != '\x1b' {
            lemma_width_bound(cs, i + 1);
            crate::dropdown::width::lemma_width_bound(seq![cs[i]]);
        } else if i + 1 < cs.len() {
            if cs[i + 1] == '[' {
                lemma_csi_end(cs, i + 2);
                lemma_width_bound(cs, csi_end(cs, i + 2));
            } else {
                lemma_width_bound(cs, i + 2);
            }
        }
    }
}

/// Text with no escape in it, whose width is the sum of its characters'.
pub open spec fn plain_text(s: Seq<char>) -> bool {
    forall|i: int| 0 <= i < s.len() ==> s[i] != '\x1b'
}

proof fn lemma_csi_shift(a: Seq<char>, b: Seq<char>, k: int)
    requires
        0 <= k,
    ensures
        csi_end(a + b, a.len() + k) == a.len() + csi_end(b, k),
    decreases b.len() - k,
{
    if k < b.len() {
        assert((a + b)[a.len() + k] == b[k]);
        if ('0' <= b[k] <= '9') || b[k] == ';' {
            lemma_csi_shift(a, b, k + 1);
        }
    }
}

/// What follows some text is measured the same wherever it stands.
proof fn lemma_width_shift(a: Seq<char>, b: Seq<char>, j: int)
    requires
        0 <= j <= b.len(),
    ensures
        width_from(a + b, a.len() + j) == width_from(b, j),
    decreases b.len() - j,
{
    if j < b.len() {
        assert((a + b)[a.len() + j] == b[j]);
        if b[j] != '\x1b' {
            lemma_width_shift(a, b, j + 1);
        } else if j + 1 < b.len() {
            assert((a + b)[a.len() + j + 1] == b[j + 1]);
            if b[j + 1] == '[' {
                lemma_csi_shift(a, b, j + 2);
                lemma_csi_end(b, j + 2);
                lemma_width_shift(a, b, csi_end(b, j + 2));
            } else {
                lemma_width_shift(a, b, j + 2);
            }
        }
    }
}

proof fn lemma_width_plain_prefix(a: Seq<char>, b: Seq<char>, i: int)
    requires
        0 <= i <= a.len(),
        plain_text(a),
    ensures
        width_from(a + b, i) == width_from(a, i) + width_from(b, 0),
    decreases a.len() - i,
{
    if i == a.len() {
        lemma_width_shift(a, b, 0);
    } else {
        assert((a + b)[i] == a[i]);
        lemma_width_plain_prefix(a, b, i + 1);
    }
}

/// Plain text followed by anything is as wide as the two apart.
pub proof fn lemma_width_concat(a: Seq<char>, b: Seq<char>)
    requires
        plain_text(a),
    ensures
        width_from(a + b, 0) == width_from(a, 0) + width_from(b, 0),
{
    lemma_width_plain_prefix(a, b, 0);
}

/// One character that is neither an escape nor a variation selector is as wide as it is.
pub proof fn lemma_one_char_width(c: char)
    requires
        c != '\x1b',
        c != '\u{fe0f}',
    ensures
        width_from(seq![c], 0) == crate::dropdown::width::spec_char_width(c),
{
    let s = seq![c];
    assert(s.drop_last() =~= Seq::<char>::empty());
    assert(s[0] == c);
    assert(seq![s[0]] =~= s);
    assert(s.last() == c);
    let empty = crate::dropdown::width::width_scan(s.drop_last());
    assert(empty.width == 0 && !empty.in_esc);
    assert(crate::dropdown::width::width_scan(s).width == crate::dropdown::width::spec_char_width(c));
    assert(width_from(s, 1) == 0);
}

/// `n` copies of one ordinary character are `n` times as wide as it is.
pub proof fn lemma_run_width(c: char, n: nat)
    requires
        c != '\x1b',
        c != '\u{fe0f}',
    ensures
        width_from(Seq::new(n, |_i: int| c), 0) == n * crate::dropdown::width::spec_char_width(c),
        plain_text(Seq::new(n, |_i: int| c)),
    decreases n,
{
    let s = Seq::new(n, |_i: int| c);
    if n > 0 {
        let t = Seq::new((n - 1) as nat, |_i: int| c);
        lemma_run_width(c, (n - 1) as nat);
        assert(s =~= seq![c] + t);
        lemma_one_char_width(c);
        lemma_width_concat(seq![c], t);
        assert(n * crate::dropdown::width::spec_char_width(c) == crate::dropdown::width::spec_char_width(c)
            + (n - 1) * crate::dropdown::width::spec_char_width(c)) by (nonlinear_arith);
    } else {
        assert(width_from(s, 0) == 0);
    }
}

/// How many cells a string occupies once its escape sequences are discounted. The rule is the
/// line editor's own, so both agree about where the cursor is.
pub fn printed_width(t: &str) -> (w: usize)
    requires
        fits(t@),
    ensures
        w == width_from(t@, 0),
{
    let cs = text::chars_of(t);
    printed_width_chars(cs.as_slice())
}

/// The cells the characters `cs` occupy once escape sequences are discounted.
pub fn printed_width_chars(cs: &[char]) -> (w: usize)
    requires
        fits(cs@),
    ensures
        w == width_from(cs@, 0),
{
    proof {
        lemma_width_bound(cs@, 0);
    }
    let mut width: usize = 0;
    let mut i: usize = 0;
    while i < cs.len()
        invariant
            i <= cs@.len(),
            fits(cs@),
            width + width_from(cs@, i as int) == width_from(cs@, 0),
            width_from(cs@, 0) <= 2 * cs@.len(),
        decreases cs.len() - i,
    {
        proof {
            lemma_width_bound(cs@, i as int);
        }
        let c = cs[i];
        if c != '\x1b' {
            let one = text::string_of(&[c]);
            proof {
                assert(one@ =~= seq![c]);
                lemma_width_bound(cs@, i + 1);
            }
            let cw = crate::dropdown::width::display_width(one.as_str());
            width = width + cw;
            i += 1;
        } else if i + 1 >= cs.len() {
            i = cs.len();
        } else if cs[i + 1] == '[' {
            let mut j = i + 2;
            proof {
                lemma_csi_end(cs@, j as int);
            }
            while j < cs.len() && (('0' <= cs[j] && cs[j] <= '9') || cs[j] == ';')
                invariant
                    i + 2 <= j <= cs@.len(),
                    csi_end(cs@, j as int) == csi_end(cs@, i + 2),
                decreases cs.len() - j,
            {
                j += 1;
            }
            if j < cs.len() {
                j += 1;
            }
            i = j;
        } else {
            i = i + 2;
        }
    }
    width
}

/// What drawing `right` flush right prints when the cursor is `used` cells in, on a `cols`-wide
/// terminal: forward over the gap, the text, then back to column 1 and forward to where it was.
pub open spec fn right_escape(right: Seq<char>, used: nat, cols: nat) -> Seq<char> {
    let w = width_from(right, 0);
    if right.len() == 0 || cols == 0 || used + w + 2 > cols {
        seq![]
    } else {
        "\x1b["@ + decimal((cols - w - used) as nat) + "C"@ + right + "\r"@ + if used == 0 {
            seq![]
        } else {
            "\x1b["@ + decimal(used) + "C"@
        }
    }
}

/// The escape that draws a right prompt, or empty when there is no room for one: it must leave
/// two columns between itself and what is being typed.
pub fn right_prompt_escape(right: &str, used: usize, cols: usize) -> (r: String)
    requires
        fits(right@),
        used + width_from(right@, 0) + 2 <= usize::MAX,
    ensures
        r@ == right_escape(right@, used as nat, cols as nat),
{
    if right.unicode_len() == 0 || cols == 0 {
        return String::new();
    }
    let right_w = printed_width(right);
    if used + right_w + 2 > cols {
        return String::new();
    }
    let gap = cols - right_w - used;
    let mut out = String::new();
    text::push_str(&mut out, "\x1b[");
    text::push_decimal(&mut out, gap);
    text::push_str(&mut out, "C");
    text::push_str(&mut out, right);
    text::push_str(&mut out, "\r");
    if used != 0 {
        text::push_str(&mut out, "\x1b[");
        text::push_decimal(&mut out, used);
        text::push_str(&mut out, "C");
    }
    proof {
        assert(out@ =~= right_escape(right@, used as nat, cols as nat));
    }
    out
}

/// `path` with `home` written as `~`, only at a component boundary: `/home/bo` is not under
/// `/home/b`.
pub open spec fn spec_tilde(path: Seq<char>, home: Seq<char>) -> Seq<char> {
    if home.len() == 0 || !(home.len() <= path.len() && path.subrange(0, home.len() as int) == home) {
        path
    } else {
        let rest = path.subrange(home.len() as int, path.len() as int);
        if rest.len() == 0 || rest[0] == '/' {
            seq!['~'] + rest
        } else {
            path
        }
    }
}

/// A path with `home` written as `~`.
pub fn tilde(path: &str, home: &str) -> (r: String)
    ensures
        r@ == spec_tilde(path@, home@),
{
    let p = text::chars_of(path);
    let h = text::chars_of(home);
    if h.len() == 0 || !text::starts_with(p.as_slice(), h.as_slice()) {
        return text::string_of(p.as_slice());
    }
    let rest = text::slice_vec(p.as_slice(), h.len(), p.len());
    if rest.len() == 0 || rest[0] == '/' {
        let mut out = String::new();
        text::push_char(&mut out, '~');
        let tail = text::string_of(rest.as_slice());
        text::push_str(&mut out, tail.as_str());
        proof {
            assert(out@ =~= seq!['~'] + rest@);
        }
        out
    } else {
        text::string_of(p.as_slice())
    }
}

/// A component cut to its first character — or to the dot and the character after it, so every
/// dotted directory does not look alike.
pub open spec fn abbreviated(part: Seq<char>) -> Seq<char> {
    if part.len() == 0 {
        part
    } else if part[0] == '.' {
        if part.len() >= 2 {
            seq!['.', part[1]]
        } else {
            seq!['.']
        }
    } else {
        seq![part[0]]
    }
}

/// `~/d/o/t/rush`: every component but the last `keep` cut down.
pub open spec fn spec_shorten(path: Seq<char>, keep: nat, home: Seq<char>) -> Seq<char> {
    let p = spec_tilde(path, home);
    let parts = split_on(p, '/');
    if parts.len() <= keep {
        p
    } else {
        let cut = parts.len() - keep;
        join_with(
            Seq::new(parts.len(), |i: int| if i >= cut || parts[i].len() == 0 {
                parts[i]
            } else {
                abbreviated(parts[i])
            }),
            '/',
        )
    }
}

fn abbreviated_x(part: &[char]) -> (r: Vec<char>)
    ensures
        r@ == abbreviated(part@),
{
    let mut r: Vec<char> = Vec::new();
    if part.len() == 0 {
        return r;
    }
    if part[0] == '.' {
        r.push('.');
        if part.len() >= 2 {
            r.push(part[1]);
        }
    } else {
        r.push(part[0]);
    }
    proof {
        assert(r@ =~= abbreviated(part@));
    }
    r
}

/// `path` under `home` with `~`, and every component but the last `keep` cut to its first
/// character.
pub fn shorten(path: &str, keep: usize, home: &str) -> (r: String)
    ensures
        r@ == spec_shorten(path@, keep as nat, home@),
{
    let t = tilde(path, home);
    let p = text::chars_of(t.as_str());
    let parts = text::split_char(p.as_slice(), '/');
    proof {
        text::lemma_split_nonempty(p@, '/');
    }
    if parts.len() <= keep {
        return t;
    }
    let cut = parts.len() - keep;
    let ghost want = Seq::new(parts@.len(), |i: int| if i >= cut || split_on(p@, '/')[i].len() == 0 {
        split_on(p@, '/')[i]
    } else {
        abbreviated(split_on(p@, '/')[i])
    });
    let mut out: Vec<char> = Vec::new();
    let mut i: usize = 0;
    while i < parts.len()
        invariant
            i <= parts@.len(),
            cut <= parts@.len(),
            parts@.len() == split_on(p@, '/').len(),
            forall|k: int| 0 <= k < parts@.len() ==> (#[trigger] parts@[k])@ == split_on(p@, '/')[k],
            want.len() == parts@.len(),
            want == Seq::new(parts@.len(), |i: int| if i >= cut || split_on(p@, '/')[i].len() == 0 {
                split_on(p@, '/')[i]
            } else {
                abbreviated(split_on(p@, '/')[i])
            }),
            out@ == join_with(want.subrange(0, i as int), '/'),
        decreases parts.len() - i,
    {
        let part = &parts[i];
        let piece = if i >= cut || part.len() == 0 {
            text::slice_vec(part.as_slice(), 0, part.len())
        } else {
            abbreviated_x(part.as_slice())
        };
        proof {
            assert(part@ == split_on(p@, '/')[i as int]);
            assert(part@.subrange(0, part@.len() as int) =~= part@);
            assert(piece@ == want[i as int]);
            assert(want.subrange(0, i + 1).drop_last() =~= want.subrange(0, i as int));
        }
        if i > 0 {
            out.push('/');
        }
        out = text::concat(out.as_slice(), piece.as_slice());
        i += 1;
        proof {
            if i == 1 {
                assert(out@ =~= piece@);
                assert(want.subrange(0, 1) =~= seq![want[0]]);
            }
        }
    }
    proof {
        assert(want.subrange(0, want.len() as int) =~= want);
    }
    text::string_of(out.as_slice())
}

/// What was last drawn on the prompt's row: the language segment, the status, and the cells the
/// prompt itself takes.
#[derive(Debug, Clone)]
struct Row {
    language: String,
    status: i32,
    prompt_width: usize,
}

/// The prompt row as it was last recorded, so it can be drawn again without the line editor.
pub struct PromptRow {
    row: Option<Row>,
}

spec fn row_view(r: Option<Row>) -> Option<(Seq<char>, i32, usize)> {
    match r {
        Some(x) => Some((x.language@, x.status, x.prompt_width)),
        None => None,
    }
}

impl PromptRow {
    pub closed spec fn recorded(&self) -> Option<(Seq<char>, i32, usize)> {
        row_view(self.row)
    }

    /// Nothing recorded yet: the first prompt of a session.
    pub fn new() -> (p: PromptRow)
        ensures
            p.recorded() is None,
    {
        PromptRow { row: None }
    }

    /// Record the row. Called on every redraw.
    pub fn note_row(&mut self, language: &str, status: i32, prompt_width: usize)
        ensures
            final(self).recorded() == Some((language@, status, prompt_width)),
    {
        let mut l = String::new();
        text::push_str(&mut l, language);
        proof {
            assert(l@ =~= language@);
        }
        self.row = Some(Row { language: l, status, prompt_width });
    }

    /// Switch the language the prompt shows between `sh` and `lua`, answering the one now in
    /// force; `sh`, and nothing switched, when no row is recorded.
    pub fn toggle_language(&mut self) -> (r: String)
        ensures
            match old(self).recorded() {
                None => r@ == "sh"@ && final(self).recorded() is None,
                Some((l, s, w)) => {
                    let now = if l == "sh"@ { "lua"@ } else { "sh"@ };
                    r@ == now && final(self).recorded() == Some((now, s, w))
                },
            },
    {
        let mut out = String::new();
        match &mut self.row {
            None => {
                text::push_str(&mut out, "sh");
            },
            Some(row) => {
                let cs = text::chars_of(row.language.as_str());
                let was_sh = text::eq_str(cs.as_slice(), "sh");
                let mut next = String::new();
                if was_sh {
                    text::push_str(&mut next, "lua");
                    text::push_str(&mut out, "lua");
                } else {
                    text::push_str(&mut next, "sh");
                    text::push_str(&mut out, "sh");
                }
                row.language = next;
            },
        }
        proof {
            reveal_strlit("sh");
            reveal_strlit("lua");
        }
        out
    }

    /// The language the prompt is currently showing.
    pub fn language(&self) -> (r: Option<String>)
        ensures
            match self.recorded() {
                None => r is None,
                Some((l, _, _)) => r matches Some(x) && x@ == l,
            },
    {
        match &self.row {
            None => None,
            Some(row) => {
                let mut l = String::new();
                text::push_str(&mut l, row.language.as_str());
                Some(l)
            },
        }
    }

    /// The status the recorded prompt was drawn for.
    pub fn status(&self) -> (r: Option<i32>)
        ensures
            match self.recorded() {
                None => r is None,
                Some((_, s, _)) => r == Some(s),
            },
    {
        match &self.row {
            None => None,
            Some(row) => Some(row.status),
        }
    }

    /// Draw the prompt row again: `left` over the prompt, then the cursor back to `line_cursor`
    /// cells into the line. Only the prompt is rewritten, and nothing is erased. Empty when nothing
    /// is recorded.
    pub fn repaint(&self, left: &str, line_cursor: usize) -> (r: String)
        requires
            self.recorded() matches Some((_, _, w)) ==> w + line_cursor <= usize::MAX,
        ensures
            match self.recorded() {
                None => r@ == Seq::<char>::empty(),
                Some((_, _, w)) => r@ == "\r"@ + left@ + "\r"@ + if w + line_cursor > 0 {
                    "\x1b["@ + decimal((w + line_cursor) as nat) + "C"@
                } else {
                    seq![]
                },
            },
    {
        match &self.row {
            None => String::new(),
            Some(row) => {
                let cursor = row.prompt_width + line_cursor;
                let mut out = String::new();
                text::push_str(&mut out, "\r");
                text::push_str(&mut out, left);
                text::push_str(&mut out, "\r");
                if cursor > 0 {
                    text::push_str(&mut out, "\x1b[");
                    text::push_decimal(&mut out, cursor);
                    text::push_str(&mut out, "C");
                }
                proof {
                    assert(out@ =~= "\r"@ + left@ + "\r"@ + if cursor > 0 {
                        "\x1b["@ + decimal(cursor as nat) + "C"@
                    } else {
                        seq![]
                    });
                }
                out
            },
        }
    }
}

/// Toggling the language twice puts the prompt back as it was, once a language is showing.
pub proof fn law_toggling_twice_restores(l: Seq<char>, s: i32, w: usize)
    requires
        l == "sh"@ || l == "lua"@,
    ensures
        ({
            let once = if l == "sh"@ { "lua"@ } else { "sh"@ };
            let twice = if once == "sh"@ { "lua"@ } else { "sh"@ };
            twice == l
        }),
{
    reveal_strlit("sh");
    reveal_strlit("lua");
}

/// What `.git/HEAD` holds on a branch, before the branch's name.
pub open spec fn head_ref() -> Seq<char> {
    "ref: refs/heads/"@
}

/// The branch `.git/HEAD` names, or the first seven bytes of the commit it holds when detached,
/// which is what everyone shows; `None` for anything shorter.
pub open spec fn spec_branch_of_head(content: Seq<char>) -> Option<Seq<char>> {
    let t = spec_trim(content);
    if is_prefix(head_ref(), t) {
        Some(t.subrange(head_ref().len() as int, t.len() as int))
    } else if utf8_bytes(t) >= 7 {
        Some(t.subrange(0, cursor_index(t, 7)))
    } else {
        None
    }
}

/// Whether the seven bytes a detached head is cut to end on a character boundary, as a commit
/// hash always does.
pub open spec fn head_cuttable(content: Seq<char>) -> bool {
    let t = spec_trim(content);
    !is_prefix(head_ref(), t) && utf8_bytes(t) >= 7 ==> utf8_bytes(t.subrange(0, cursor_index(t, 7))) == 7
}

/// The branch the contents of `.git/HEAD` name, or a short hash when detached.
pub fn branch_of_head(content: &str) -> (r: Option<String>)
    requires
        head_cuttable(content@),
    ensures
        match r {
            Some(b) => spec_branch_of_head(content@) == Some(b@),
            None => spec_branch_of_head(content@) is None,
        },
{
    let cs = text::chars_of(content);
    let t = text::trim(cs.as_slice());
    let pre = text::chars_of("ref: refs/heads/");
    if text::starts_with(t.as_slice(), pre.as_slice()) {
        let rest = text::slice_vec(t.as_slice(), pre.len(), t.len());
        return Some(text::string_of(rest.as_slice()));
    }
    let ts = text::string_of(t.as_slice());
    let total = ts.as_str().as_bytes().len();
    if total >= 7 {
        let k = crate::editor::cursor_char(t.as_slice(), 7, total);
        let short = text::slice_vec(t.as_slice(), 0, k);
        return Some(text::string_of(short.as_slice()));
    }
    None
}

/// What a host name is shown as in the prompt: its first label, everything before the first
/// dot, because a fully qualified name is most of the prompt's width and the first label is the
/// part that identifies the machine to a person. `?` when there is no name to show.
pub open spec fn spec_host_label(name: Option<Seq<char>>) -> Seq<char> {
    match name {
        Some(h) => split_on(h, '.')[0],
        None => seq!['?'],
    }
}

/// The prompt's label for a host name, or for its absence.
pub fn host_label(name: Option<&str>) -> (r: String)
    ensures
        r@ == spec_host_label(
            match name {
                Some(h) => Some(h@),
                None => None,
            },
        ),
{
    match name {
        Some(h) => {
            let cs = text::chars_of(h);
            let parts = text::split_char(cs.as_slice(), '.');
            proof {
                text::lemma_split_nonempty(h@, '.');
            }
            text::string_of(parts[0].as_slice())
        },
        None => {
            let mut out = String::new();
            text::push_char(&mut out, '?');
            out
        },
    }
}

/// This machine's name as the prompt shows it.
pub fn hostname() -> (r: String)
    ensures
        exists|name: Option<Seq<char>>| r@ == #[trigger] spec_host_label(name),
{
    match crate::marks::host_name() {
        Some(h) => {
            let r = host_label(Some(h.as_str()));
            proof {
                assert(r@ == spec_host_label(Some(h@)));
            }
            r
        },
        None => host_label(None),
    }
}

} // verus!
