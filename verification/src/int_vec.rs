//! Integer vector interfaces and implementations.

pub mod block_type;
pub mod traits;
pub mod int_vector;

pub use self::traits::{IntVec, IntVecMut};
pub use self::int_vector::IntVector;
