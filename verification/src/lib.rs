//! The decisions behind the push benchmark, each with a proved contract.

pub mod cli;
pub mod inventory;
pub mod manifest;
pub mod mode;
pub mod number;
pub mod order;
pub mod path;
pub mod placement;
pub mod plan;
pub mod remote;
pub mod report;
pub mod selection;
pub mod session;
pub mod source;
pub mod text;
pub mod timing;
pub mod tree;
pub mod walk;
