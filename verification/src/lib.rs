//! Code analysis: file inventories, physical line counts, dependency graphs,
//! cycle explanations, reachability queries, documentation coverage and
//! review policy evaluation.

pub mod order;
pub mod text;
pub mod paths;
pub mod lines;
pub mod report;
pub mod analyzer;
pub mod dependencies;
pub mod graph;
pub mod cycles;
pub mod query;
pub mod hierarchy;
pub mod analysis;
pub mod documentation;
pub mod inventory;
pub mod review;
pub mod error;
pub mod output;
pub mod render;
pub mod snapshot;
pub mod context;
pub mod config;
pub mod config_file;
pub mod excerpt;
pub mod selection;
pub mod json_output;
pub mod html_output;
pub mod json_report;
pub mod path_sets;
pub mod inventory_report;
pub mod analysis_report;
pub mod calls;
