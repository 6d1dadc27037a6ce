//! Single-machine scheduling with release, processing and delivery times
//! (Schrage's rule), on a verified binary max-heap.
pub mod task;
pub mod heap;
pub mod model;
pub mod engine;
pub mod scan;
pub mod preemptive;
pub mod random;
pub mod fixture;
