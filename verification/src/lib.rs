//! Core of a force-directed graph viewer: parsing of a textual graph
//! description, an in-memory graph model with degree bookkeeping, a seeded
//! initial placement, a fixed-point force relaxation engine, and the
//! bounding-box calculation over the final positions.
//!
//! All geometry is carried in fixed-point milliunits (one unit of the
//! drawing space is 1000 milliunits), so every step of the layout is exact
//! and reproducible for a given seed.

pub mod scan;
pub mod model;
pub mod parse;
pub mod rng;
pub mod layout;
