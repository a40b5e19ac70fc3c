pub mod text;
pub mod sort;
pub mod models;
pub mod tree;
pub mod api;
pub mod cli;
pub mod error;
pub mod config;
pub mod targets;
pub mod listing;
pub mod get;
pub mod cloning;
