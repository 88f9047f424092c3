//! Rhombic strips over ranked face lattices: the lattice model with its
//! bridge table, the seed orderings of its bottom rank, the gap assignments
//! between two ranks, the extension of a layer to the next rank, and the
//! strip search itself; besides, the tube lattices of graphs, the reading of
//! a strip as a sequence of moves, and the text formats of lattices and
//! graphs.

pub mod interval;
pub mod gaps;
pub mod lattice;
pub mod extend;
pub mod search;
pub mod hamilton;
pub mod graph;
pub mod sequence;
pub mod text;
pub mod files;
pub mod distribute;
