//! Bit vector interfaces and implementations.

pub mod traits;
pub mod bit_vector;
pub mod prim;

pub use self::traits::{BitVec, BitVecMut, BitVecPush};
pub use self::bit_vector::BitVector;
