#![verifier::loop_isolation(false)]

pub mod controls;
pub mod fixed;
pub mod maze;
pub mod player;
pub mod raycasting;
pub mod render;
pub mod textures;
pub mod trig;
