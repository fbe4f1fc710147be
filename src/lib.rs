//! Best sequence of non-overlapping buy/sell transactions over a matrix of
//! daily opening prices, one held instrument at a time.
pub mod actions;
pub mod matrix;
pub mod planner;
pub mod report;
