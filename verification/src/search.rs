//! The searcher's lattice handle and the ranking metric across shells.
use vstd::prelude::*;

use crate::leech::Leech;

verus! {

/// Ranking metric across shells.
#[derive(Clone, Copy, Debug, PartialEq, Eq, Structural)]
pub enum Metric {
    /// Minimise `‖x − v‖²` (spherical shaping).
    Euclidean,
    /// Maximise `⟨x, v⟩ / ‖v‖` (shape–gain).
    Angular,
}

/// Nearest-neighbour searcher over Leech shells.
pub struct Searcher {
    leech: Leech,
}

impl Searcher {
    pub closed spec fn wf(&self) -> bool {
        self.leech.wf()
    }

    /// The lattice the searcher works on.
    pub closed spec fn lattice(&self) -> Leech {
        self.leech
    }

    pub fn new() -> (s: Self)
        ensures
            s.wf(),
    {
        Searcher { leech: Leech::new() }
    }

    /// The underlying lattice.
    pub fn leech(&self) -> (l: &Leech)
        requires
            self.wf(),
        ensures
            l.wf(),
            *l == self.lattice(),
    {
        &self.leech
    }
}


impl Default for Searcher {
    fn default() -> (r: Self)
        ensures
            r.wf(),
    {
        Self::new()
    }
}

} // verus!
