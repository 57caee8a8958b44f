//! Offline search for cost-minimal integral configuration schedules.
//!
//! A controller chooses, at each of `T` time steps, a configuration of `D`
//! non-negative integers. Holding a configuration costs its hitting cost and
//! raising a dimension costs that dimension's switching cost per unit. The
//! engine in [`graph_search`] finds a schedule by stitching heuristic-guided
//! shortest subpaths through a time-expanded configuration graph, over all
//! configurations within the bounds or over the combinations of a thinner
//! list of candidate levels for each dimension.
//!
//! Costs are measured in whole cost units.
//!
//! - [`config`], [`problem`], [`result`]: configurations, schedules, paths,
//!   problem instances and failures.
//! - [`values`], [`universe`]: candidate levels and their combinations.
//! - [`vertice`]: the graph, its edges and the estimate that guides a
//!   search.
//! - [`subpath`], [`cache`]: the search between two layers and the cache of
//!   the best known paths.
//! - [`graph_search`]: the sweep over the layers, with what it guarantees.
//! - [`walk`], [`reach`], [`priced`], [`optimal`], [`mirror`]: the proofs
//!   behind these guarantees.
//! - [`objective`], [`verifiers`]: the cost of a schedule, and validity
//!   of schedules and candidates.
//! - [`hom`], [`refine`], [`online`], [`lanes`]: homogeneous problems in
//!   one dimension, their schedules by refinement, online steps, and lanes
//!   of load.

pub mod cache;
pub mod config;
pub mod graph_search;
pub mod hom;
pub mod lanes;
pub mod mirror;
pub mod objective;
pub mod online;
pub mod optimal;
pub mod priced;
pub mod problem;
pub mod reach;
pub mod refine;
pub mod result;
pub mod subpath;
pub mod universe;
pub mod values;
pub mod verifiers;
pub mod vertice;
pub mod walk;
