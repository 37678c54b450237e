//! Policy-free Nix flake tooling.

pub mod activity;
pub mod cli;
pub mod command;
pub mod document;
pub mod excerpt;
pub mod flake;
pub mod graph;
pub mod json;
pub mod meaning;
pub mod model;
pub mod ordered;
pub mod outcome;
pub mod plan;
pub mod process;
pub mod reading;
pub mod redaction;
pub mod requirements;
pub mod results;
pub mod runtime;
pub mod store;
pub mod target;
pub mod text;
pub mod topology;
pub mod transcript;
pub mod ui;
