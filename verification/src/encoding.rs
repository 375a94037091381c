//! The bencode value model and its codec.

pub mod order;
pub mod model;
pub mod grammar;
pub mod text;
pub mod types;
pub mod errors;
pub mod parser;
pub mod laws;
pub mod display;
