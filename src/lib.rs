//! Water-feature synthesis over an elevation grid: basin detection, river
//! source selection, downhill flow with path merging, and lake carving.
pub mod grid;
pub mod count;
pub mod basins;
pub mod sources;
pub mod flow;
pub mod lake;
pub mod water_map;
