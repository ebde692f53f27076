pub mod algebra;
pub mod ceremony;
pub mod group;
pub mod polynomial;
pub mod prover;
pub mod verification;
