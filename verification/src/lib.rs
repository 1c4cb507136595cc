//! A grid-based procedural layout generator.
//!
//! The generator places a fixed anchor room at the grid's center, scatters
//! further rooms at random origins with strict overlap rejection, derives
//! door and hallway-seed tiles from each room template, and then repairs the
//! corridor network: it merges disconnected components and resolves dead-end
//! hallway tiles by carving new corridor through empty space, until exactly
//! one connected component without unintended dead ends remains. A
//! classifier maps each final hallway tile's four-neighborhood to one of
//! fifteen sprite-selection variants.

pub mod room;

pub mod tile;

pub mod search;

pub mod generator;

pub mod randsrc;
