//! Hygiene checks of the deterministic test harness: leaked fibers and
//! unclosed scopes are counted during a test run, and a run with any of them
//! fails with a message naming the count.
use vstd::prelude::*;

use crate::logger::{decimal, decimal_text};

verus! {

/// Leaked fibers and unclosed scopes recorded during one test run.
#[derive(Clone, Copy, Debug, Default, PartialEq, Eq)]
pub struct HygieneCounters {
    /// Fibers still running when the test finished.
    pub leaked_fibers: usize,
    /// Scopes never closed when the test finished.
    pub unclosed_scopes: usize,
}

/// The message for `n` leaked fibers.
pub open spec fn leaked_fibers_text(n: usize) -> Seq<char> {
    "deterministic test harness detected leaked fibers: "@ + decimal_text(n as nat)
}

/// The message for `n` unclosed scopes.
pub open spec fn unclosed_scopes_text(n: usize) -> Seq<char> {
    "deterministic test harness detected unclosed scopes: "@ + decimal_text(n as nat)
}

/// The failure of a check on a counter: none when it is zero, else the message.
pub open spec fn counter_failure(n: usize, text: Seq<char>) -> Option<Seq<char>> {
    if n == 0 {
        None
    } else {
        Some(text)
    }
}

/// The optional message as characters.
pub open spec fn message_view(m: Option<String>) -> Option<Seq<char>> {
    match m {
        Some(s) => Some(s@),
        None => None,
    }
}

impl HygieneCounters {
    /// Counters at the start of a run: nothing recorded.
    pub fn new() -> (c: Self)
        ensures
            c.leaked_fibers == 0,
            c.unclosed_scopes == 0,
    {
        HygieneCounters { leaked_fibers: 0, unclosed_scopes: 0 }
    }

    /// Records one leaked fiber (the count saturates at `usize::MAX`).
    pub fn record_leaked_fiber(&mut self)
        ensures
            final(self).leaked_fibers == if old(self).leaked_fibers == usize::MAX {
                usize::MAX as int
            } else {
                old(self).leaked_fibers + 1
            },
            final(self).unclosed_scopes == old(self).unclosed_scopes,
    {
        self.leaked_fibers = self.leaked_fibers.saturating_add(1);
    }

    /// Records one unclosed scope (the count saturates at `usize::MAX`).
    pub fn record_unclosed_scope(&mut self)
        ensures
            final(self).unclosed_scopes == if old(self).unclosed_scopes == usize::MAX {
                usize::MAX as int
            } else {
                old(self).unclosed_scopes + 1
            },
            final(self).leaked_fibers == old(self).leaked_fibers,
    {
        self.unclosed_scopes = self.unclosed_scopes.saturating_add(1);
    }

    /// The failure of the leaked-fiber check, if any fiber leaked.
    pub fn leaked_fibers_failure(&self) -> (m: Option<String>)
        ensures
            message_view(m) == counter_failure(self.leaked_fibers, leaked_fibers_text(self.leaked_fibers)),
    {
        if self.leaked_fibers == 0 {
            return None;
        }
        let mut s = String::from_str("deterministic test harness detected leaked fibers: ");
        let d = decimal(self.leaked_fibers);
        s.append(d.as_str());
        Some(s)
    }

    /// The failure of the unclosed-scope check, if any scope was left open.
    pub fn unclosed_scopes_failure(&self) -> (m: Option<String>)
        ensures
            message_view(m) == counter_failure(self.unclosed_scopes, unclosed_scopes_text(self.unclosed_scopes)),
    {
        if self.unclosed_scopes == 0 {
            return None;
        }
        let mut s = String::from_str("deterministic test harness detected unclosed scopes: ");
        let d = decimal(self.unclosed_scopes);
        s.append(d.as_str());
        Some(s)
    }

    /// The failure that ends a test run: leaked fibers are checked first,
    /// then unclosed scopes.
    pub fn run_failure(&self) -> (m: Option<String>)
        ensures
            message_view(m) == if self.leaked_fibers != 0 {
                Some(leaked_fibers_text(self.leaked_fibers))
            } else {
                counter_failure(self.unclosed_scopes, unclosed_scopes_text(self.unclosed_scopes))
            },
    {
        let f = self.leaked_fibers_failure();
        if f.is_some() {
            return f;
        }
        self.unclosed_scopes_failure()
    }
}

} // verus!
