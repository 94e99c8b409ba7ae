pub mod config;
pub mod idmap;
pub mod docker;
pub mod ids;
pub mod logs;
pub mod registry;
pub mod rotation;
pub mod stats;
pub mod text;
pub mod types;
pub mod web;
