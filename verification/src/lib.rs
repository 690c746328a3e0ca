//! Information geometry on the probability simplex: the numerically
//! stabilized core of the Fisher–Rao and Hellinger distances between
//! categorical distributions.
//!
//! The verified code reasons over integers only. A double-precision number is
//! therefore handled through its IEEE 754 encoding, a [`Binary64`], and every
//! contract is stated over the exact value that the encoding stands for.
//!
//! Validating the distributions and summing the square roots is the work of
//! `logp`, and the arc cosine that of the platform; both are floating-point
//! computations and stay with the caller. For the Rao distance a caller hands
//! the outcome of `logp::bhattacharyya_coeff` to [`rao_coefficient`] and takes
//! twice the arc cosine of what comes back. For the Hellinger distance it
//! hands the outcome of `logp::hellinger` to [`adopt`].
pub mod binary64;
pub mod error;
pub mod rao;
pub mod rounding;
pub mod snap;

pub use binary64::Binary64;
pub use error::{adopt, Error};
pub use rao::rao_coefficient;
pub use snap::{stabilize, SNAP_FACTOR};
