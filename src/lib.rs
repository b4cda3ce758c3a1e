//! Merges an ordered directory of host-file fragments into one hosts list, with a small
//! line-oriented language of comments, warnings, variables, conditional blocks and probes.
pub mod cli;
pub mod lang;
pub mod laws;
pub mod order;
pub mod parser;
pub mod report;
pub mod scope;
pub mod text;
pub mod types;
