//! A sweep-and-convergence-analysis engine: verified bookkeeping for
//! numerical experiments.
//!
//! For a family of approximation schemes the engine sweeps a control
//! parameter, records each scheme's error against an exact reference,
//! and prepares named numeric arrays for a directory-based binary array
//! store.  Approximate values, errors and step sizes are carried through
//! the library as IEEE-754 binary64 bit patterns (`u64`), so that the
//! record-keeping, grouping and naming logic is verified while the
//! floating-point arithmetic itself stays with the caller.

pub mod binary32;
pub mod bits;
pub mod catalog;
pub mod metrics;
pub mod naming;
pub mod store;
pub mod sweep;
