//! Simulation kernel of a top-down factory game: handle registries, item piles
//! and crafting, the rail path, the x-sorted drone index and machine automation.

pub mod game;
pub mod items;
pub mod lgrn;
pub mod machine;
pub mod rail;
pub mod spatial;
pub mod tiles;
pub mod world;
