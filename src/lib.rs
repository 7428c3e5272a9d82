//! A small virtual machine for the eight-operator tape language: a
//! run-length encoder, a loop-clear rewrite, a bracket indexer and an
//! interpreter that decodes the compacted text as it runs.

pub mod instruction;
pub mod encode;
mod text;
pub mod brackets;
pub mod engine;
pub mod cell;
