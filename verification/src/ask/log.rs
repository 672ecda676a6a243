//! `ui log` levels: how serious a line is. The set is small because a level nobody can order is
//! not a level, and one the shell knows about is one `--level` can filter on.

use vstd::prelude::*;
use crate::text::{self, spec_ascii_lower_all};

verus! {

/// How serious a line is, least to most.
#[derive(Debug, Clone, Copy, PartialEq, Eq, PartialOrd, Ord, Structural)]
pub enum Level {
    Debug,
    Info,
    Warn,
    Error,
    /// Like `error`, and then the shell stops.
    Fatal,
}

pub open spec fn spec_level(n: Seq<char>) -> Option<Level> {
    if n == "debug"@ {
        Some(Level::Debug)
    } else if n == "info"@ {
        Some(Level::Info)
    } else if n == "warn"@ || n == "warning"@ {
        Some(Level::Warn)
    } else if n == "error"@ || n == "err"@ {
        Some(Level::Error)
    } else if n == "fatal"@ {
        Some(Level::Fatal)
    } else {
        None
    }
}

/// The label a level is written with.
pub open spec fn spec_label(l: Level) -> Seq<char> {
    match l {
        Level::Debug => "DEBUG"@,
        Level::Info => "INFO"@,
        Level::Warn => "WARN"@,
        Level::Error => "ERROR"@,
        Level::Fatal => "FATAL"@,
    }
}

impl Level {
    /// A level by name, in any ASCII case: `warning` is `warn` and `err` is `error`.
    pub fn parse(name: &str) -> (r: Option<Level>)
        ensures
            r == spec_level(spec_ascii_lower_all(name@)),
    {
        let all = text::chars_of(name);
        let n = text::ascii_lower_all(all.as_slice());
        let n = n.as_slice();
        if text::eq_str(n, "debug") {
            Some(Level::Debug)
        } else if text::eq_str(n, "info") {
            Some(Level::Info)
        } else if text::eq_str(n, "warn") || text::eq_str(n, "warning") {
            Some(Level::Warn)
        } else if text::eq_str(n, "error") || text::eq_str(n, "err") {
            Some(Level::Error)
        } else if text::eq_str(n, "fatal") {
            Some(Level::Fatal)
        } else {
            None
        }
    }

    /// The label the level is written with.
    pub fn label(self) -> (r: &'static str)
        ensures
            r@ == spec_label(self),
    {
        match self {
            Level::Debug => "DEBUG",
            Level::Info => "INFO",
            Level::Warn => "WARN",
            Level::Error => "ERROR",
            Level::Fatal => "FATAL",
        }
    }
}

} // verus!
