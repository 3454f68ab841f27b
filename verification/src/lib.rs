//! Arena data structures of the Spiess-Florian optimal-strategy transit
//! assignment: node interning and the link graph, the indexed binary heap
//! that orders links by their key, and the attractive-set bookkeeping of
//! the strategy search.

pub mod hyperpath;
pub mod hyperpath_queue;
pub mod solver;

pub use hyperpath::{verbose, Admission, AttractiveSet};
pub use hyperpath_queue::PriorityQueue;
pub use solver::{clear_columns, intern, Graph};
