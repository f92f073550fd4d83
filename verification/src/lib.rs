//! A chain-state engine for a small proof-of-work node: block ingestion under
//! a heaviest-chain rule, orphan tracking, and a fee-ordered transaction pool.

pub mod bits;
pub mod bytes;
pub mod clock;
pub mod uint256;
pub mod types;
pub mod hashing;
pub mod lineage;
pub mod txset;
pub mod pool;
pub mod model;
pub mod node;
pub mod laws;
pub mod independence;
