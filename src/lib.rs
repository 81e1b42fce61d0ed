//! The front end of a source-language toolchain: it turns a set of source
//! files, grouped into packages with named-address bindings, into one parsed
//! program, with per-file comment maps and a diagnostics report.
pub mod aggregate;
pub mod diagnostics;
pub mod file_table;
pub mod hash;
pub mod parser;
pub mod paths;
pub mod program;
