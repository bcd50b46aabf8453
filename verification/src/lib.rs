//! Simulation kernel of a grid-based dungeon crawler: level generation, field of view,
//! pursuit and melee combat over one shared grid.

pub mod actor;
pub mod combat;
pub mod connectivity;
pub mod generator;
pub mod map;
pub mod monster;
pub mod pathing;
pub mod player;
pub mod sight;
pub mod walks;
