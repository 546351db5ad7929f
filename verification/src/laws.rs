//! What the library is for, as laws over all inputs: what a result must satisfy, and how the
//! results of two calls relate. They speak of the models that the contracts use, but take as little
//! as they can from how those are written down.

pub mod cli;
pub mod clip;
pub mod files;
pub mod link;
pub mod number;
pub mod open;
pub mod path;
pub mod server;
pub mod shell;
pub mod text;
