//! A toolbox: an e-graph engine with equality saturation, a variable that
//! remembers its history, and helpers for strings and files.

pub mod egraph;
pub mod filesystem;
pub mod history_var;
pub mod string;
pub mod text;
