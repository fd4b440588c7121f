//! Procedural level generation for a top-down tile game.
//!
//! A seeded binary space partition carves a rectangular map into leaf
//! regions, each leaf receives a room (an authored template or a random
//! rectangle), consecutive rooms are linked by L-shaped corridors, and
//! three raster passes then grow walls around the floors, cut doors on
//! room perimeters, and select window cells on the outer hull.

pub mod bsp;
pub mod doors;
pub mod grid;
pub mod hallway;
pub mod level;
pub mod placer;
pub mod rect;
pub mod rng;
pub mod rooms;
pub mod tables;
pub mod walls;
pub mod windows;

pub use bsp::BspTree;
pub use bsp::Leaf;
pub use doors::place_doors;
pub use grid::Grid;
pub use hallway::connect_terminals;
pub use hallway::draw_hallway;
pub use level::bsp_generate_level;
pub use level::build_full_level;
pub use level::GeneratedLevel;
pub use placer::place_rooms;
pub use rect::Rect;
pub use rng::LevelRng;
pub use rooms::assign_doors;
pub use rooms::create_room;
pub use rooms::load_rooms;
pub use rooms::write_room;
pub use rooms::Room;
pub use rooms::RoomLayout;
pub use rooms::RoomRes;
pub use rooms::RoomVec;
pub use tables::generate_tables_from_grid;
pub use tables::TablePositions;
pub use walls::generate_walls;
pub use windows::place_windows;
pub use windows::WindowConfig;
