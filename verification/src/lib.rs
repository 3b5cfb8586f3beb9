//! Metric dependencies among Prometheus recording rules.
//!
//! A recording rule reads some metrics and produces a new one. This crate
//! finds the metrics that each rule's query reads, collects them into a
//! multigraph from metric to dependent rule, and writes that graph in the
//! DOT language.

pub mod aggregate;
pub mod ast;
pub mod durations;
pub mod graph;
pub mod parser;
pub mod render;
pub mod rules;
pub mod times;
pub mod walker;
