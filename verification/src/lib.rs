//! Vector tile generation: a tile grid, a typed geometry model, conversion of
//! datasource-native geometries and records, clipping and encoding of features
//! into Mapbox Vector Tile layers, and the service that assembles a tile.
//!
//! Coordinates are integers throughout: a geographic coordinate is a whole
//! number of grid units, a tile-local coordinate a whole number of tile units.

pub mod adapter;
pub mod clip;
pub mod commands;
pub mod datasource;
pub mod error;
pub mod feature;
pub mod geom;
pub mod grid;
pub mod layer;
pub mod pbf;
pub mod screen;
pub mod service;
pub mod tile;
