//! Succinct data structures: bit vectors, integer vectors, rank and select.

pub mod bits;
pub mod broadword;
pub mod storage;
pub mod internal;
pub mod bit_vec;
pub mod int_vec;
pub mod rank;
pub mod space_usage;
pub mod errors;
pub mod stream;
pub mod select;
pub mod rsdict;
pub mod coding;

pub use space_usage::SpaceUsage;
pub use bit_vec::{BitVec, BitVecMut, BitVecPush, BitVector};
pub use rank::{BitRankSupport, JacobsonRank, RankSupport, Rank9};
pub use int_vec::{IntVec, IntVecMut, IntVector};
pub use select::{BinSearchSelect, SelectSupport, SelectSupport0, SelectSupport1};
