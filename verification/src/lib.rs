//! Logic of a hybrid Clifford/statevector quantum circuit simulator.
//!
//! * `pauli`, `tableau`, `group`, `laws`: Pauli strings, the symplectic tableau, and what it
//!   means in the Pauli group.
//! * `gates`, `angle`, `frame`: gates, their classification, and the record of Clifford
//!   operations beside the tableau.
//! * `double`, `state`, `packing`, `codebook`, `quantizer`, `givens`, `compression`: compressed
//!   statevectors. Floating-point numbers are held as bit patterns.
//! * `dither`, `measure`, `bacqs`, `rpdq`, `circuit`: the two compressed simulators, which
//!   decide what dense work is to be done, and the routing of circuits to them.

pub mod pauli;
pub mod tableau;
pub mod group;
pub mod laws;

pub mod angle;
pub mod frame;
pub mod gates;

pub mod codebook;
pub mod compression;
pub mod double;
pub mod givens;
mod memory;
pub mod packing;
pub mod quantizer;
pub mod state;

pub mod bacqs;
pub mod circuit;
pub mod dither;
pub mod measure;
pub mod rpdq;
