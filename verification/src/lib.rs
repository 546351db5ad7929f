pub mod bytes;
pub mod cli;
pub mod clip;
pub mod files;
pub mod follow;
pub mod laws;
pub mod link;
pub mod number;
pub mod open;
pub mod path;
pub mod server;
pub mod shell;
pub mod text;
