//! Rendering of a sparse grid of tiles as styled terminal text.
//!
//! `layout` holds the formatting rules and the exact text they produce from
//! the tokens of the cells; `grid` the coordinates and rectangles; `tile` the
//! trait through which a value is shown; `tilemap` the map and its renderer.

pub mod grid;
pub mod layout;
pub mod tile;
pub mod tilemap;

pub use grid::{Bounds, Coord};
pub use layout::{fill_tokens, layout_text, Formatting};
pub use tile::Tile;
pub use tilemap::{entries_within, TileMap};
