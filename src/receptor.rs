use crate::cell::Fraction;
use vstd::prelude::*;

verus! {

/// The physical state of a cell, as the receptors see it.
pub trait Body: Clone {
    /// Moves the cell over `dt` nanoseconds by the acceleration of the last
    /// tick: velocity first, then position.
    fn sim_movement(&mut self, dt: u64);

    /// Sets the acceleration and the force total of this tick to zero.
    fn clear_force(&mut self);

    /// Turns the force total into the acceleration (force over mass).
    fn apply_force(&mut self);
}

/// A per-tick reducer: it takes in every peer of one cell, then adds one
/// force to that cell.
pub trait InteractionAccumulator<B> {
    /// Takes in one peer of `cell`; `other_cell` is never `cell` itself.
    fn add_interaction(&mut self, cell: &B, other_cell: &B);

    /// The energy that the force gathered so far costs; zero for a force that
    /// costs nothing.
    fn energy_cost(&self, cell: &B) -> u64;

    /// Adds the gathered force, scaled by the share `granted` of its cost that
    /// the cell could pay, to the cell's force total.
    fn complete(&mut self, cell: &mut B, granted: Fraction)
        requires
            granted.wf(),
    ;
}

/// A behaviour attached to a cell: each tick it hands out a fresh
/// accumulator.
pub trait Receptor<B> {
    type Accumulator: InteractionAccumulator<B>;

    fn interaction_accumulator(&self) -> Self::Accumulator;
}

/// The receptor that every cell carries from its creation: repulsion from
/// its neighbours and friction against its own motion. It costs no energy.
#[derive(Debug, Clone, Copy, PartialEq, Eq, Structural)]
pub struct BaseReceptor;

impl BaseReceptor {
    pub fn new() -> (r: Self)
        ensures
            r == BaseReceptor,
    {
        BaseReceptor
    }
}

/// A reducer over items of type `T` with a result of type `R`.
pub trait Accumulator<T, R> {
    fn accumulate(&mut self, item: T);

    fn complete(&mut self) -> R;
}

/// A source of draw-ready objects, computed afresh on each call.
pub trait ObjectProvider<I> {
    fn iter_objects(&self) -> Vec<I>;
}

} // verus!
