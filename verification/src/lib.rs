//! Caption rendering core: highlight-aware text segmentation, greedy line
//! wrapping, font-size fitting, alignment and paint planning, and a byte-budget
//! image compressor.
//!
//! Text metrics are modelled as exact integer arithmetic over font units
//! (advance widths and line height scaled by `units_per_em`), so every layout
//! decision is computed and proved in plain integers.

pub mod color;
pub mod config;
pub mod compress;
pub mod data_manager;
pub mod data_model;
pub mod fit;
pub mod keyboard;
pub mod layout;
pub mod metrics;
pub mod render;
pub mod segment;
pub mod text;
pub mod wrap;
