//! Terminal video rendering: half-block character maps, a delta-XOR frame
//! recording format, and the incremental ANSI renderer that draws them.

pub mod modules;
pub mod session;
