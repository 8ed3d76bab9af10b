//! Flattens a hardware design's module hierarchy: from a stream of module
//! declaration, instantiation and body-end events, builds the tree of
//! concrete instances under a chosen top module and enumerates the
//! root-to-leaf path of every leaf instance.

pub mod expander;
pub mod tree;
