//! Ogham schema language: lexer, lossless parser, typed syntax tree,
//! diagnostics and breaking-change detection, with verified contracts.

pub mod ast;
pub mod breaking;
pub mod cli;
pub mod core_id;
pub mod diagnostics;
pub mod grammar;
pub mod hir;
pub mod imports;
pub mod index;
pub mod ir;
pub mod lexer;
pub mod literal;
pub mod lower;
pub mod manifest;
pub mod parser;
pub mod pick_omit;
pub mod pipeline;
pub mod populate;
pub mod projections;
pub mod resolve;
pub mod rpcs;
pub mod shapes;
pub mod syntax_kind;
pub mod tree;
pub mod workflow;
