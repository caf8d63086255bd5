//! Record selection of the log-structured merge tree.

pub mod compact;
pub mod output;
