//! Verified core of the linear ADR optimizer: point keys, command-line
//! grammar, keyed candidate collections, the phase 1 search domain and the
//! safety bookkeeping that the search phases share.

pub mod cli;
pub mod config;
pub mod domain;
pub mod export;
pub mod keyed;
pub mod labels;
pub mod options;
pub mod overrides;
pub mod ranking;
pub mod safety;
pub mod text;
pub mod types;
