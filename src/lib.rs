//! Expressions over integer and boolean literals: a right-recursive grammar
//! that reads a token stream into a tree, an evaluator, and a precedence
//! climber that regroups the parsed tree by operator priority.

pub mod ast;
pub mod climb;
pub mod parse;
