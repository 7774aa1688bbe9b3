//! The simulation: Conway's rules as a mathematical step on sets of cells,
//! and a sparse universe that applies them and keeps a bounded history.

pub mod laws;
pub mod life;
pub mod sparse;

pub use crate::collections::Cell;
use crate::universe::life::next_generation;
use rustc_hash::FxHashSet;
use vstd::prelude::*;

verus! {

/// What every universe offers: ticking by Conway's rules, its live cells,
/// stepping back through what it remembers, and a generation counter.
pub trait Universe {
    /// The live cells on show.
    spec fn live_set(&self) -> Set<Cell>;

    /// The number of the generation on show.
    spec fn generation_number(&self) -> nat;

    /// Whether the generation on show is older than the newest one known.
    spec fn replaying(&self) -> bool;

    /// The universe's invariant.
    spec fn valid(&self) -> bool;

    /// Whether a tick can run without leaving the ranges of its counters
    /// and coordinates.
    spec fn tick_allowed(&self) -> bool;

    /// Advances one generation: the cells on show become the next
    /// generation of those shown before, by Conway's rules.
    fn tick(&mut self)
        requires
            old(self).valid(),
            old(self).tick_allowed(),
        ensures
            final(self).valid(),
            final(self).live_set() == next_generation(old(self).live_set()),
            final(self).generation_number() == old(self).generation_number() + 1,
    ;

    /// The live cells on show.
    fn live_cells(&self) -> (cells: &FxHashSet<Cell>)
        requires
            self.valid(),
        ensures
            cells@ == self.live_set(),
    ;

    /// Shows the previous generation if it is remembered: one whose next
    /// generation is the one shown before; otherwise changes nothing shown.
    fn step_back(&mut self)
        requires
            old(self).valid(),
        ensures
            final(self).valid(),
            final(self).generation_number() == old(self).generation_number() ==> final(self).live_set()
                == old(self).live_set(),
            final(self).generation_number() == old(self).generation_number()
                || final(self).generation_number() + 1 == old(self).generation_number(),
            final(self).generation_number() + 1 == old(self).generation_number() ==> next_generation(
                final(self).live_set(),
            ) == old(self).live_set(),
    ;

    /// Whether the generation on show is older than the newest one known.
    fn is_replaying(&self) -> (b: bool)
        requires
            self.valid(),
        ensures
            b == self.replaying(),
    ;

    /// The number of the generation on show.
    fn generation(&self) -> (g: u64)
        requires
            self.valid(),
        ensures
            g == self.generation_number(),
    ;
}

} // verus!
