//! The composition types: what each container is made of, and what each call
//! of it does.
pub mod bidi;
pub mod block;
pub mod builder;
pub mod built;
pub mod cache;
pub mod gqa;
pub mod insert;
pub mod laws;
pub mod layer;
pub mod layers;
pub mod linear;
pub mod mlp;
pub mod multi_gate;
pub mod network;
pub mod packed;
pub mod pair_passes;
pub mod passes;
pub mod recurrence;
pub mod shape;
pub mod stack;
pub mod validity;
