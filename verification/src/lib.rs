//! Verified data-structure library: a directed graph with traversal,
//! cycle detection and shortest-path search, together with the container
//! types that accompany it (queue, stack, array, set, trie).

pub mod array;
pub mod graph;
pub mod queue;
pub mod seqs;
pub mod set;
pub mod stack;
pub mod trie;
