//! The dataflow graph and ordering engine of a node editor: nodes carrying
//! an operation tag and the audio fragment it selects, mirrored links
//! between them, an execution rank per node with a one-hop repair rule, and
//! the rebuild pass that turns edits into a rank-ordered composed graph.

pub mod fragment;
pub mod graph;
pub mod laws;
pub mod order;
pub mod rebuild;
pub mod seqs;
