//! Search for checksum collisions in game-console boot code: a verified
//! model of the boot checksum, its CPU implementation, the hand-off to a
//! parallel search of the trailing word, and the orchestration around it.
pub mod cli;
pub mod cpu;
pub mod gpu;
pub mod hasher;
pub mod kernel;
pub mod payload;
