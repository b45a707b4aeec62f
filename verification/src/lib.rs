//! Glob matching for paths: a parser, a compiler to a small bytecode
//! program, fast paths for common pattern shapes and a backtracking matcher.

pub mod options;
pub mod util;
pub mod search;
pub mod ast;
pub mod compile;
pub mod vm;
pub mod matcher;
pub mod parse;
pub mod set;
pub mod scan;
pub mod regex_emit;
pub mod api;
pub mod laws;
pub mod shift;
pub mod layout;
pub mod screen;
pub mod congruence;
pub mod folding;
pub mod lang;
pub mod agree;
pub mod reparse;
pub mod meaning;
