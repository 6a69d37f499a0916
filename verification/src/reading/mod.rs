//! What texts mean, told from their parts.

pub mod block;
pub mod directives;
pub mod documents;
pub mod flow;
pub mod folds;
pub mod literals;
pub mod refusals;
pub mod steps;
pub mod values;
pub mod words;
