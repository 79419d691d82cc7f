//! A merge-tree engine that folds many compressed read files into one.
//!
//! Files live in an in-memory [`workspace::Workspace`]. Every other input is
//! first recompressed into a Zstandard accumulator, the files are then merged
//! pairwise, level by level, until a single accumulator is left, and that
//! accumulator is published as one gzip file.

pub mod codec;
pub mod discovery;
pub mod error;
pub mod lines;
pub mod merge;
pub mod names;
pub mod output;
pub mod pipeline;
pub mod prepare;
pub mod publish;
pub mod run;
pub mod text;
pub mod tree;
pub mod workspace;
