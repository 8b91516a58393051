pub mod dataset;
pub mod parse;
pub mod query;
pub mod solution;
