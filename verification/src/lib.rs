//! A greedy solver for a grid-partitioning puzzle: every cell of a
//! rectangular grid holds one of two ingredients, and the solver places
//! non-overlapping axis-aligned rectangular slices, each holding at most
//! `max_cells_per_slice` cells and at least `min_of_each_per_slice` cells of
//! each ingredient.  Placement runs in two phases: a seed pass grows minimal
//! valid slices from unclaimed cells, and an expansion pass grows the placed
//! slices outward until no slice can grow any further.

pub mod pizza;
pub mod solver;

