pub mod engine;
pub mod gf2;
pub mod label;
pub mod synth;
pub mod tracker;
