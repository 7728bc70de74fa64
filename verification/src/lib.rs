//! The logic of a launcher for Houdini: where its config root lies, which
//! packages, presets and favorites that root holds, how the placeholders in a
//! package's paths are resolved, and with which environment the application is
//! started.
//!
//! The library reads no file and starts no process. Where an answer depends on
//! what is on disk, it says which path to look at and is told what was found.

pub mod config;
pub mod discovery;
pub mod houdini;
pub mod json;
pub mod launch;
pub mod models;
pub mod order;
pub mod package;
pub mod paths;
pub mod resolve;
pub mod settings;
pub mod state;
pub mod store;
pub mod text;
