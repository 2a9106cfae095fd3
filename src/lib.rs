//! Optimisation passes over a positional graph of circuit signal nodes:
//! constant folding to a fixed point and pruning of unreachable nodes.

pub mod op;
pub mod ir;
pub mod fold;
pub mod prune;
pub mod ast;
