//! Decoding of DER-encoded data into a tree of tagged values, and a
//! navigation model for exploring that tree.

pub mod der_parser;
pub mod tree;
pub mod app;
pub mod input;
pub mod encode;
