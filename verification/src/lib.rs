//! Combinatorial core of the PLATO nervous system: the event bus, alert
//! dependency cohomology, the index logic of alert spectra, event-history
//! simplicial complexes and their boundary maps, configuration categories,
//! room sheaves and health bookkeeping.
//!
//! Real-valued quantities (timestamps, severities, weights, costs, metric
//! values) are carried through this crate as IEEE-754 binary64 bit patterns
//! (`u64`); the arithmetic on them lives with the numeric front end.

pub mod binary64;
pub mod alert_spectral;
pub mod connectivity;
pub mod nervous_system;
pub mod text;
pub mod alert_cohomology;
pub mod matrix;
pub mod history_homology;
pub mod chain_complex;
pub mod gf2;
pub mod keyed;
pub mod config_category;
pub mod room_sheaf;
pub mod health_conservation;
