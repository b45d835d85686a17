//! Analysis of a hexagonal tile-laying board: a spatial index over the placed
//! tiles, the partition of their terrain segments into connected groups, and
//! a ranking of the places where the next tile fits best.
//!
//! - `hex`: axial coordinates, neighbours and opposite sides.
//! - `data`: terrains, segment forms, and the rules by which edges match.
//! - `raw_data`: raw tile records and their normalization into tiles.
//! - `map`, `load`: the board and its dense index over the placed tiles.
//! - `connectivity`: the graph of meeting segments, and walks over tiles.
//! - `group`, `group_assignments`: connected groups and the frontier.
//! - `group_laws`: what holds of every complete group analysis.
//! - `best_placements`: scoring and ranking of the next tile's placements.
//! - `shader`: the words of the buffer that renders a board.
pub mod hex;
pub mod data;
pub mod raw_data;
pub mod map;
pub mod load;
pub mod group;
pub mod connectivity;
pub mod group_assignments;
pub mod group_laws;
pub mod best_placements;
pub mod shader;
