//! Compiles a small search-query language (free-text keywords, `column OP value`
//! comparisons and `sortby:column[,order]` directives) into the parts of a
//! parameterized SQLite query.

pub mod ast;
pub mod converters;
pub mod parser;
