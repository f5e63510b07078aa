//! Scores text records against labelled byte patterns.
//!
//! A configuration names labels; each label owns weighted byte patterns
//! written as hexadecimal strings. A record is a row of text fields. The
//! fields are joined by single spaces, every decodable pattern is counted in
//! the joined text without overlap, and each label receives the terms
//! `count × weight` of its score. The collected rows are laid out as a table
//! whose label columns are in alphabetical order and whose rows are in
//! ascending order of their identity.
//!
//! Weights are binary64 numbers. The library never computes with them: it
//! carries each as its IEEE-754 bit pattern and hands a score out as the
//! ordered terms of its sum, which the caller adds up.

pub mod config;
pub mod executor;
pub mod matcher;
pub mod order;
pub mod pattern;
pub mod pipeline;
pub mod scoring;
pub mod table;
