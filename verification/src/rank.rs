//! Support for fast rank queries.

pub mod traits;
pub mod prim;
pub mod rank9;
pub mod jacobson;

pub use self::traits::{RankSupport, BitRankSupport};
pub use self::rank9::Rank9;
pub use self::jacobson::JacobsonRank;
