//! The rules of a Sokoban puzzle: a grid of tiles on which a player pushes coloured boxes onto
//! spots. The library resolves pushes, moves entities, emits move events, classifies box
//! placements and decides when the level is won; drawing, sound and input stay outside.

pub mod components;
pub mod entities;
pub mod events;
pub mod gameplay_state;
pub mod grid;
pub mod map;
pub mod movement;
pub mod sokoban;
pub mod sound;
