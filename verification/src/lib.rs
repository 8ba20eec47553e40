//! Verified combinatorial core of a multi-target angle-of-arrival localizer.
//!
//! A search is given an array of rays and finds the points that enough rays
//! pass close to, one target at a time. Rays are identified by their index in
//! the caller's measurement array, and positions are values of a type that
//! the caller chooses; this crate never looks inside one. The numerical
//! kernels (the seed position of three rays, the test whether a ray passes
//! close to a position, the damped least-squares solve, the residual of a
//! position) are functions that the caller hands in. Everything else is
//! decided here and proved:
//!
//! - `target_processor::find_targets` runs the search: it lists the free
//!   rays, has a consensus fit run over them, maps the inliers of the fit
//!   back to the measurement array, numbers the targets and decides when no
//!   further target can be found;
//! - `consensus::ransac_fit_lines` runs one consensus fit: it samples rays,
//!   decides which rays are inliers of a hypothesis and which hypothesis
//!   wins;
//! - `refiner::levenberg_marquardt_optimize` runs one refinement: it decides
//!   which trial steps are taken, how the damping moves and when to stop;
//! - `sampler` draws three distinct rays for a hypothesis;
//! - `pool` keeps the set of rays that located targets have consumed;
//! - `target` holds the located target and what holds of the targets of
//!   every search, `ident` their identifiers;
//! - `indices` holds what the modules share about ascending index lists.
//!
//! Each of the three runs has a state type behind it
//! (`target_processor::TargetSearch`, `consensus::Consensus`,
//! `refiner::Refinement`) for callers that want to run the loop themselves:
//! the state says what it is waiting for, the caller computes it and hands
//! it in.
//!
//! The kernels are only ever called on rays of the measurement array: the
//! seed kernel on three distinct free rays, the inlier test on a free ray,
//! the refinement and the residual on the ascending list of rays of the
//! target at hand.

pub mod consensus;
pub mod ident;
pub mod indices;
pub mod pool;
pub mod refiner;
pub mod sampler;
pub mod target;
pub mod target_processor;
