//! The logic of a development-tools server for Rust projects.
pub mod actions;
pub mod commands;
pub mod config;
pub mod context;
pub mod display;
pub mod edits;
pub mod files;
pub mod locate;
pub mod manage;
pub mod notification;
pub mod paths;
pub mod progress;
pub mod project;
pub mod reply;
pub mod resources;
pub mod scope;
pub mod server;
pub mod store;
pub mod symbols;
pub mod text;
pub mod tools;
pub mod workspace;
