pub mod frame;
pub mod renderer;
pub mod screen;
pub mod codec;
pub mod recorder;
pub mod size_log;
