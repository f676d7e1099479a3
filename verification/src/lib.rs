//! Verified core of a sampling CPU profiler: symbol tables, stack
//! aggregation, folded-stack output and flame-graph trees.

pub mod text;
pub mod num;
pub mod symtab;
pub mod kallsyms;
pub mod symbolize;
pub mod folded;
pub mod order;
pub mod assoc;
pub mod usersym;
pub mod svg;
pub mod cli;
pub mod sample;
pub mod drain;
