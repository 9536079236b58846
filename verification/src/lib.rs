//! marina: the logic of a developer-process cockpit.
pub mod cli;
pub mod cli_laws;
pub mod config;
pub mod discover;
pub mod docker;
pub mod documents;
pub mod laws;
pub mod logs;
pub mod model;
pub mod msg;
pub mod naming_laws;
pub mod paths;
pub mod patterns;
pub mod ports;
pub mod proctree;
pub mod project;
pub mod project_laws;
pub mod resolve;
pub mod sampler;
pub mod smoothing;
pub mod sources;
pub mod text;
pub mod textmap;
pub mod ui;
pub mod verb_laws;
pub mod verbs;
