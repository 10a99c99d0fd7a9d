//! Step-by-step sorting engines: each call to `step_sort` performs one bounded
//! unit of sorting work on a shared array model, so that a host loop can
//! animate the algorithm frame by frame.

pub mod array;
pub mod bogo;
pub mod bubble;
pub mod cocktail;
pub mod engine;
pub mod quick;
