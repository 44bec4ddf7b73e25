pub mod cache;
pub mod classify;
pub mod cli;
pub mod graph;
pub mod model;
pub mod pipeline;
pub mod route;
pub mod snap;
pub mod vindex;
