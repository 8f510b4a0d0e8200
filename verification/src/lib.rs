//! Detects duplicated directory structures in a large corpus of file paths:
//! sibling directories whose contents overlap heavily, found by sorting path
//! entries, scanning adjacent pairs for shared suffixes, and comparing the
//! diverging subtrees with a sorted merge-join.
pub mod order;
pub mod search;
pub mod intern;
pub mod tally;
pub mod stats;
pub mod overlap;
pub mod load;
pub mod pipeline;
pub mod files;
pub mod trusted;
