pub mod backend;
pub mod utils;
pub mod wayland;
