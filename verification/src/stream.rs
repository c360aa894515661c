//! Bit-oriented streams.

pub mod traits;
pub mod bit_buffer;

pub use self::traits::{BitRead, BitWrite};
pub use self::bit_buffer::BitBuffer;
