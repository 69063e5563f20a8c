use vstd::prelude::*;

pub mod token;
pub mod scan;
pub mod repl;
pub mod object;
pub mod instruct;
pub mod chunk;
pub mod heap;
pub mod parse;
pub mod cli;
pub mod builtin;
pub mod runtime;
pub mod bytes;
pub mod strings;
pub mod messages;
pub mod lists;
pub mod numbers;
pub mod program;

verus! {
} // verus!
