//! A dependency resolver core for conda-style packages: candidate-set algebra over the
//! variants of one package, the variant ordering policy, the dependency-provider decisions
//! that drive a conflict-driven search, and the lock-file ordering rules.
pub mod bits;
pub mod record;
pub mod candidates;
pub mod index;
pub mod lock;
pub mod laws;
pub mod cli;
