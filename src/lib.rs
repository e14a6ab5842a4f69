//! Stream combinators that merge two independently paced sources into a
//! stream of "latest value" pairs.
//!
//! Both combinators are driven by repeated calls of a non-blocking `poll`
//! step. Each step polls every side once through a [`GuardedSource`], which
//! never polls a source again once it has ended, and feeds the two signals
//! into a verified state machine: [`LatestPair`] for the symmetric combinator
//! and [`LatestRightPair`] for the right-triggered one.

pub mod signal;
pub mod right_triggered;
pub mod symmetric;

pub use signal::{GuardedSource, Phase, Side, Signal, Source};
pub use right_triggered::{zip_latest_right, LatestRightPair, ZipLatestRight};
pub use symmetric::{zip_latest, LatestPair, ZipLatest};
