//! Switches that flip a protocol rule, for comparing runs.
use vstd::prelude::*;

verus! {

/// Which rules are flipped. None is, unless a run asks for it.
#[derive(Debug, Clone, Copy, PartialEq, Eq, Structural)]
pub struct Ablation {
    nearer: bool,
}

impl Ablation {
    /// Whether routes are chosen by hop count first.
    pub closed spec fn nearer_first(self) -> bool {
        self.nearer
    }

    /// The rules as they ship.
    pub fn new() -> (a: Ablation)
        ensures
            !a.nearer_first(),
    {
        Ablation { nearer: false }
    }

    /// Whether routes are chosen by hop count first, freshness only breaking
    /// ties.
    pub fn prefer_nearer(&self) -> (r: bool)
        ensures
            r == self.nearer_first(),
    {
        self.nearer
    }

    pub fn set_prefer_nearer(&mut self, v: bool)
        ensures
            final(self).nearer_first() == v,
    {
        self.nearer = v;
    }
}

} // verus!
