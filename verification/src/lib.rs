//! A small esoteric-language toolchain: a parser that turns source text into a
//! run-length-coalesced instruction tree, a tree-walking interpreter over a
//! fixed-size byte tape, and a lowering of the tree to a block-structured
//! intermediate representation for native code generation.

pub mod compiler;
pub mod parser;
pub mod runner;
