use vstd::prelude::*;

verus! {

/// The panes of the session; exactly one is active at a time.
#[derive(Clone, Copy, Debug, PartialEq, Eq, Structural)]
pub enum Pane {
    Terminal,
    ShellCode,
    Payload,
}

/// Number of pane variants in the cycle.
pub const PANE_COUNT: usize = 3;

/// The position of a pane in the fixed cyclic order.
pub open spec fn pane_index(p: Pane) -> nat {
    match p {
        Pane::Terminal => 0,
        Pane::ShellCode => 1,
        Pane::Payload => 2,
    }
}

/// The pane at a given position of the cyclic order.
pub open spec fn pane_at(i: nat) -> Pane {
    if i % 3 == 0 {
        Pane::Terminal
    } else if i % 3 == 1 {
        Pane::ShellCode
    } else {
        Pane::Payload
    }
}

/// The pane that follows `p` in the cyclic order, wrapping from the last to the first.
pub open spec fn next_pane(p: Pane) -> Pane {
    pane_at(pane_index(p) + 1)
}

/// The pane reached from `p` after `k` switches.
pub open spec fn switch_times(p: Pane, k: nat) -> Pane
    decreases k,
{
    if k == 0 {
        p
    } else {
        next_pane(switch_times(p, (k - 1) as nat))
    }
}

impl Pane {
    /// The pane that is active when a session starts.
    pub fn initial() -> (r: Pane)
        ensures
            r == Pane::Terminal,
    {
        Pane::Terminal
    }

    /// The pane that a single switch moves to.
    pub fn next(self) -> (r: Pane)
        ensures
            r == next_pane(self),
    {
        match self {
            Pane::Terminal => Pane::ShellCode,
            Pane::ShellCode => Pane::Payload,
            Pane::Payload => Pane::Terminal,
        }
    }
}

/// Switching panes as many times as there are panes comes back to the pane one
/// started from, and a single switch always changes the active pane.
pub proof fn lemma_pane_cycle(p: Pane)
    ensures
        switch_times(p, PANE_COUNT as nat) == p,
        next_pane(p) != p,
{
    reveal_with_fuel(switch_times, 4);
}

} // verus!
