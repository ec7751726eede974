//! Locating a compilation database near a source file, and writing Google Mock
//! class definitions for the pure virtual member functions of a C++ interface.

pub mod ast;
pub mod ast_iterators;
pub mod cli;
pub mod commands;
pub mod distance;
pub mod error;
pub mod fs_iterators;
pub mod mock_generation;
pub mod text;
