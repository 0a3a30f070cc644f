//! An incremental line filter: a corpus captured once is filtered against a
//! stream of requests, each answered with its best lines and an end marker.
pub mod field;
pub mod fzf;
pub mod query;
pub mod select;
