//! Support for fast select queries.

pub mod traits;
pub mod bin_search;

pub use self::traits::{SelectSupport, SelectSupport0, SelectSupport1};
pub use self::bin_search::BinSearchSelect;
