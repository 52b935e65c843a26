//! Frequency histograms over newline-delimited JSON logs.
//!
//! Every line of a log is counted under exactly one category: the text of its
//! `type` member, or a sentinel that says why the line has none. Partial
//! histograms can be accumulated independently and merged in any order.

pub mod line;
pub mod json;
pub mod classify;
pub mod tally;
pub mod laws;
pub mod histogram;
pub mod report;
pub mod aggregate;
