//! QuickQL: a pipeline query language over JSON rows.
pub mod text;
pub mod value;
pub mod number;
pub mod json;
pub mod order;
pub mod paths;
pub mod query;
pub mod functions;
pub mod call;
pub mod eval;
pub mod descriptor;
pub mod grouping;
pub mod pipeline;
pub mod lexer;
pub mod parser;
pub mod files;
pub mod paging;
pub mod csv_source;
pub mod sample;
pub mod stream;
pub mod gitlab;
pub mod run;
pub mod writing;
pub mod laws;
