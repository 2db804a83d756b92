//! Core of a simulated-annealing search for the travelling salesman problem:
//! a packed symmetric distance table, a tour held as a permutation with its
//! local moves (segment reversal and pairwise swap), the iteration clock of a
//! cooling schedule, and the choice of distance metric.
pub mod pair;
pub mod table;
pub mod error;
pub mod route;
pub mod metric;
pub mod schedule;
pub mod cost;

pub use error::SearchError;
pub use metric::DistType;
pub use route::{EdgeChange, Route};
pub use schedule::ScheduleClock;
pub use table::PairTable;
