//! The rules every container shares: which layer runs where, and which row of
//! a sequence a class marker becomes.
pub mod class;
pub mod graph;
pub mod init;
pub mod order;
pub mod packing;
pub mod padding;
pub mod schedule;
pub mod text;
pub mod untied;
