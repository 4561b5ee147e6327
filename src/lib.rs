pub mod command;
pub mod peer;
pub mod session;
pub mod state;
pub mod tile;
