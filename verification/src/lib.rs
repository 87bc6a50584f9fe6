//! Game rules of a hex-grid tower defense: the path network, the terrain
//! map file format, the shop and draft bookkeeping, and wave progression.

pub mod components;
pub mod editor;
pub mod file_round_trip;
pub mod game;
pub mod hex;
pub mod paths;
pub mod resources;
pub mod strat;
pub mod regions;
pub mod terrain;
pub mod terrain_file;
pub mod text;
pub mod tooltip;
pub mod tower_definitions;
pub mod unlocks;
pub mod validation;
