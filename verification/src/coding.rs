//! Codes used for data compression.

pub mod traits;
pub mod unary;
pub mod trans;
pub mod elias;
pub mod comma;
pub mod fib;

pub use self::traits::UniversalCode;
pub use self::unary::Unary;
pub use self::trans::Lift0;
pub use self::elias::{Elias, Gamma, Delta, Omega};
pub use self::comma::Comma;
pub use self::fib::Fibonacci;
