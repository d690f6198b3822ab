//! Number-theoretic transform engine for negacyclic polynomial
//! multiplication over a prime field.

pub mod congruence;
pub mod context;
pub mod evaluation;
pub mod math;
pub mod ntt;
pub mod polymath;

pub use congruence::CongruenceClass;
pub use context::{NttContext, NttError};
pub use polymath::PolyRing;
pub use ntt::NttPolynomial;
