//! crit-core: the verified engine behind a tree-sitter based multi-language
//! SAST and code-quality scanner.
//!
//! A source text is parsed with tree-sitter and its query matches are
//! turned into plain tables ([`tables`], [`syntax`]); everything computed
//! from them — scopes, access paths, binding resolution, taint propagation,
//! cross-file linking, findings and fingerprints — is verified here.

pub mod text;
pub mod findings;
pub mod paths;
pub mod state;
pub mod structure;
pub mod hashing;
pub mod summary;
pub mod solve;
pub mod engine;
pub mod sinks;
pub mod model;
pub mod sorting;
pub mod syntax;
pub mod binder;
pub mod resolved;
pub mod linker;
pub mod profile;
pub mod matcher;
pub mod taint;
pub mod extract;
pub mod explain;
pub mod persist;
pub mod languages;
pub mod scanner;
pub mod output;
pub mod rules;
pub mod compiled;
pub mod config;
pub mod diff;
pub mod sarif;
pub mod coverage;
pub mod tables;
