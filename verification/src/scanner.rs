//! A light sweeping left and right, the way the car in Knight Rider did.
//!
//! There is no frame table and no state: the frame is computed from how long the thing has been
//! going, so nothing has to be ticked and nothing can drift.
//!
//! ```text
//! frame = elapsed_ms / step_ms  %  cycle
//! cycle = width + hold + (width - 1) + hold
//! ```
//!
//! Distance from the head is measured in the direction of travel, so the tail is behind the head
//! on both passes; during a hold the hold's progress is added to it, so the tail drains off the
//! end instead of freezing while the head waits.

use vstd::prelude::*;
use crate::text::{self, decimal};

verus! {

/// The lit head.
pub const HEAD: char = '■';
/// The unlit track.
pub const TRACK: char = '⬝';
/// How many cells behind the head still glow.
pub const TRAIL: i32 = 6;
/// The palette index at the head; the tail fades downward from it.
pub const BRIGHTEST: u8 = 243;
/// The palette index an unlit cell is drawn in, so the track stays visible.
pub const UNLIT: u8 = 240;

/// How the scanner is drawn.
#[derive(Debug, Clone, Copy)]
pub struct Scanner {
    /// Cells wide. Clamped to `2..=32`.
    pub width: u8,
    /// Milliseconds per frame. Zero is read as one.
    pub step_ms: u64,
    /// Frames the head pauses at each end while its tail drains. At most 60 are used.
    pub hold: u8,
}

impl Default for Scanner {
    fn default() -> (s: Scanner)
        ensures
            s.width == 8 && s.step_ms == 75 && s.hold == 9,
    {
        Scanner { width: 8, step_ms: 75, hold: 9 }
    }
}

/// Where the head is, which way it is going, and how long it has been holding.
#[derive(Debug, Clone, Copy, PartialEq, Eq)]
struct Sweep {
    at: i32,
    forward: bool,
    holding: bool,
    held_for: i32,
}

/// The width in cells, clamped to `2..=32`.
pub open spec fn spec_cells(s: Scanner) -> int {
    if s.width < 2 {
        2
    } else if s.width > 32 {
        32
    } else {
        s.width as int
    }
}

/// The hold in frames, at most 60.
pub open spec fn spec_hold(s: Scanner) -> int {
    if s.hold > 60 {
        60
    } else {
        s.hold as int
    }
}

/// Frames in one full there-and-back cycle: out, hold, back, hold.
pub open spec fn spec_cycle(s: Scanner) -> int {
    spec_cells(s) + spec_hold(s) + (spec_cells(s) - 1) + spec_hold(s)
}

/// The step in milliseconds, with zero read as one.
pub open spec fn spec_step(s: Scanner) -> int {
    if s.step_ms == 0 {
        1
    } else {
        s.step_ms as int
    }
}

/// The frame of the cycle that `elapsed` milliseconds land on.
pub open spec fn spec_frame_at(s: Scanner, elapsed: int) -> int {
    (elapsed / spec_step(s)) % spec_cycle(s)
}

/// The head at frame `f`: where it is, whether it is going forward, whether it is holding, and
/// for how many frames it has held.
pub open spec fn spec_sweep(s: Scanner, f: int) -> (int, bool, bool, int) {
    let w = spec_cells(s);
    let end_hold = w + spec_hold(s);
    let back_end = end_hold + w - 1;
    if f < w {
        (f, true, false, 0)
    } else if f < end_hold {
        (w - 1, true, true, f - w)
    } else if f < back_end {
        (w - 2 - (f - end_hold), false, false, 0)
    } else {
        (0, false, true, f - back_end)
    }
}

/// How far `cell` is behind the head, or `None` when it is dark.
pub open spec fn spec_trail(cell: int, sw: (int, bool, bool, int)) -> Option<int> {
    let behind = if sw.1 {
        sw.0 - cell
    } else {
        cell - sw.0
    };
    let d = if sw.2 {
        behind + sw.3
    } else {
        behind
    };
    if 0 <= d < TRAIL {
        Some(d)
    } else {
        None
    }
}

/// Whether `cell` is lit `elapsed` milliseconds in.
pub open spec fn lit(s: Scanner, elapsed: int, cell: int) -> Option<int> {
    spec_trail(cell, spec_sweep(s, spec_frame_at(s, elapsed)))
}

/// The frame as plain text: a head glyph where the light is, the track elsewhere.
pub open spec fn spec_plain(s: Scanner, elapsed: int) -> Seq<char> {
    Seq::new(spec_cells(s) as nat, |c: int| if lit(s, elapsed, c) is Some { HEAD } else { TRACK })
}

/// The palette index of `cell`: brightest at the head, fading with distance; the track is unlit.
pub open spec fn colour_of(s: Scanner, elapsed: int, cell: int) -> int {
    match lit(s, elapsed, cell) {
        Some(behind) => BRIGHTEST - behind,
        None => UNLIT as int,
    }
}

/// One cell in a 256-colour foreground.
pub open spec fn painted_cell(colour: int, glyph: char) -> Seq<char> {
    "\x1b[38;5;"@ + decimal(colour as nat) + "m"@ + seq![glyph] + "\x1b[0m"@
}

/// The first `n` cells of the frame, painted.
pub open spec fn spec_render(s: Scanner, elapsed: int, n: int) -> Seq<char>
    decreases n,
{
    if n <= 0 {
        seq![]
    } else {
        spec_render(s, elapsed, n - 1) + painted_cell(
            colour_of(s, elapsed, n - 1),
            spec_plain(s, elapsed)[n - 1],
        )
    }
}

impl Scanner {
    fn cells(self) -> (r: i32)
        ensures
            r == spec_cells(self),
    {
        if self.width < 2 {
            2
        } else if self.width > 32 {
            32
        } else {
            self.width as i32
        }
    }

    fn hold_frames(self) -> (r: i32)
        ensures
            r == spec_hold(self),
    {
        if self.hold > 60 {
            60
        } else {
            self.hold as i32
        }
    }

    /// Frames in one full there-and-back cycle.
    pub fn cycle(self) -> (r: u64)
        ensures
            r == spec_cycle(self),
            3 <= r <= 183,
    {
        let w = self.cells();
        let hold = self.hold_frames();
        (w + hold + (w - 1) + hold) as u64
    }

    /// Which frame of the cycle `elapsed_ms` lands on.
    pub fn frame_at(self, elapsed_ms: u64) -> (r: u64)
        ensures
            r == spec_frame_at(self, elapsed_ms as int),
            r < spec_cycle(self),
    {
        let step = if self.step_ms == 0 {
            1
        } else {
            self.step_ms
        };
        (elapsed_ms / step) % self.cycle()
    }

    fn sweep(self, frame: u64) -> (r: Sweep)
        requires
            frame < spec_cycle(self),
        ensures
            (r.at as int, r.forward, r.holding, r.held_for as int) == spec_sweep(self, frame as int),
            0 <= r.held_for <= 60,
            -1 <= r.at < 32,
    {
        let w = self.cells();
        let hold = self.hold_frames();
        let frame = frame as i32;
        let end_hold = w + hold;
        let back_end = end_hold + w - 1;
        if frame < w {
            Sweep { at: frame, forward: true, holding: false, held_for: 0 }
        } else if frame < end_hold {
            Sweep { at: w - 1, forward: true, holding: true, held_for: frame - w }
        } else if frame < back_end {
            Sweep { at: w - 2 - (frame - end_hold), forward: false, holding: false, held_for: 0 }
        } else {
            Sweep { at: 0, forward: false, holding: true, held_for: frame - back_end }
        }
    }

    fn trail_at(self, cell: i32, sweep: Sweep) -> (r: Option<i32>)
        requires
            0 <= cell < 32,
            0 <= sweep.held_for <= 60,
            -1 <= sweep.at < 32,
        ensures
            match r {
                Some(d) => spec_trail(cell as int, (sweep.at as int, sweep.forward, sweep.holding, sweep.held_for as int)) == Some(d as int),
                None => spec_trail(cell as int, (sweep.at as int, sweep.forward, sweep.holding, sweep.held_for as int)) is None,
            },
            r matches Some(d) ==> 0 <= d < TRAIL,
    {
        let behind = if sweep.forward {
            sweep.at - cell
        } else {
            cell - sweep.at
        };
        let d = if sweep.holding {
            behind + sweep.held_for
        } else {
            behind
        };
        if 0 <= d && d < TRAIL {
            Some(d)
        } else {
            None
        }
    }

    /// The frame at `elapsed_ms` as plain text, for anything that measures it.
    ///
    /// Every frame is exactly as many characters as the scanner is wide.
    pub fn plain(self, elapsed_ms: u64) -> (r: String)
        ensures
            r@ == spec_plain(self, elapsed_ms as int),
            r@.len() == spec_cells(self),
    {
        let sweep = self.sweep(self.frame_at(elapsed_ms));
        let n = self.cells();
        let mut out: Vec<char> = Vec::new();
        let mut cell: i32 = 0;
        while cell < n
            invariant
                n == spec_cells(self),
                0 <= cell <= n,
                0 <= sweep.held_for <= 60,
                -1 <= sweep.at < 32,
                (sweep.at as int, sweep.forward, sweep.holding, sweep.held_for as int) == spec_sweep(self, spec_frame_at(self, elapsed_ms as int)),
                out@ == spec_plain(self, elapsed_ms as int).subrange(0, cell as int),
            decreases n - cell,
        {
            let g = if self.trail_at(cell, sweep).is_some() {
                HEAD
            } else {
                TRACK
            };
            out.push(g);
            cell += 1;
            proof {
                assert(out@ =~= spec_plain(self, elapsed_ms as int).subrange(0, cell as int));
            }
        }
        proof {
            assert(out@ =~= spec_plain(self, elapsed_ms as int));
        }
        text::string_of(out.as_slice())
    }

    /// The frame at `elapsed_ms`, each cell in its 256-colour palette index.
    pub fn render(self, elapsed_ms: u64) -> (r: String)
        ensures
            r@ == spec_render(self, elapsed_ms as int, spec_cells(self)),
    {
        let sweep = self.sweep(self.frame_at(elapsed_ms));
        let n = self.cells();
        let mut out = String::new();
        let mut cell: i32 = 0;
        while cell < n
            invariant
                n == spec_cells(self),
                0 <= cell <= n,
                0 <= sweep.held_for <= 60,
                -1 <= sweep.at < 32,
                (sweep.at as int, sweep.forward, sweep.holding, sweep.held_for as int) == spec_sweep(self, spec_frame_at(self, elapsed_ms as int)),
                out@ == spec_render(self, elapsed_ms as int, cell as int),
            decreases n - cell,
        {
            let (glyph, colour) = match self.trail_at(cell, sweep) {
                Some(behind) => (HEAD, (BRIGHTEST as i32 - behind) as usize),
                None => (TRACK, UNLIT as usize),
            };
            let ghost before = out@;
            text::push_str(&mut out, "\x1b[38;5;");
            text::push_decimal(&mut out, colour);
            text::push_str(&mut out, "m");
            text::push_char(&mut out, glyph);
            text::push_str(&mut out, "\x1b[0m");
            proof {
                assert(out@ =~= before + painted_cell(colour_of(self, elapsed_ms as int, cell as int), spec_plain(self, elapsed_ms as int)[cell as int]));
            }
            cell += 1;
        }
        out
    }
}

/// Whatever the clock says, the frame is inside the cycle and the text is exactly as wide as the
/// scanner.
pub proof fn law_every_frame_has_the_width(s: Scanner, elapsed: u64)
    ensures
        0 <= spec_frame_at(s, elapsed as int) < spec_cycle(s),
        spec_plain(s, elapsed as int).len() == spec_cells(s),
        2 <= spec_cells(s) <= 32,
{
}

/// Time drives it: a whole cycle later, the frame is the same.
pub proof fn law_a_cycle_later_is_the_same_frame(s: Scanner, elapsed: nat)
    ensures
        spec_frame_at(s, elapsed + spec_cycle(s) * spec_step(s)) == spec_frame_at(s, elapsed as int),
        spec_plain(s, elapsed + spec_cycle(s) * spec_step(s)) == spec_plain(s, elapsed as int),
{
    let st = spec_step(s);
    let c = spec_cycle(s);
    vstd::arithmetic::div_mod::lemma_hoist_over_denominator(elapsed as int, c, st as nat);
    vstd::arithmetic::div_mod::lemma_mod_multiples_vanish(1, elapsed as int / st, c);
    assert(spec_plain(s, elapsed + c * st) =~= spec_plain(s, elapsed as int));
}

} // verus!
