//! Structured analysis of JavaScript, TypeScript and Svelte projects:
//! symbols, imports and exports, dependency graphs, complexity metrics and
//! project overviews.
pub mod analyze;
pub mod cli;
pub mod complexity;
pub mod config;
pub mod deps;
pub mod language;
pub mod metrics;
pub mod order;
pub mod output;
pub mod overview;
pub mod parse;
pub mod queries;
pub mod ranking;
pub mod report;
pub mod resolve;
pub mod symbols;
pub mod syntax;
pub mod text;
pub mod treesitter;
pub mod walk;
