//! A line-oriented sort library: a configurable key-transformation pipeline
//! (leading-blank stripping, dictionary-order stripping, case folding)
//! composed with a selectable comparison strategy (lexicographic,
//! general-numeric, natural, version-aware), driven by a parallel sort
//! engine with stable, reverse and unique switches.

pub mod compare;
pub mod engine;
pub mod filter;
pub mod numeric;
pub mod output;
pub mod strategy;
