//! Procedural 2D dungeon-map generation: a cell grid carrying rooms, a
//! randomized corridor-carving walk, a per-strand corridor tree, and a
//! section-merging pass that discovers gaps between sections, opens a
//! spanning set of connections, and prunes shallow dead-end corridors.

pub mod cell_matrix;
pub mod corridor_tree;
pub mod direction;
pub mod labyrinth_generator;
pub mod map_generator;
pub mod rng;
pub mod room;
pub mod room_generator;
pub mod sections;

pub use crate::cell_matrix::Cell;
pub use crate::cell_matrix::CellMatrix;
pub use crate::map_generator::Generator;
