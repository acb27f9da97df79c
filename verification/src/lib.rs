//! Keeps a stack of jujutsu branches and the GitHub pull requests made from them in step.

pub mod branch_graph;
pub mod branches;
pub mod command;
pub mod comment;
pub mod draft;
pub mod error;
pub mod github;
pub mod graph;
pub mod links;
pub mod pull_request;
pub mod repo;
pub mod session;
pub mod stack;
pub mod sync;
pub mod text;
