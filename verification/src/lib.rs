//! Storage of tries that are indexed by block. The trie that is being built is
//! kept in RAM; the others lie in files, one for each block, in a directory.
//!
//! The library decides and computes, and leaves file operations and the table
//! of forks to its caller: where they are needed, a function takes an event, says
//! in an action what to do next, and is called again with what came of it.

pub mod error;
pub mod hash;
pub mod node;
pub mod stats;
pub mod index;
pub mod ram;
pub mod dump;
pub mod layout;
pub mod walk;
pub mod paths;
pub mod storage;
pub mod setup;
pub mod blocks;
pub mod flush;
pub mod scan;
pub mod roots;
pub mod runs;
pub mod forest;
pub mod transfer;
