//! Verified core of a Python project and environment manager: path
//! normalization, build-backend configuration settings, interpreter version
//! files and requests, interpreter selection, the cache decisions of the
//! distribution database, and the decisions that pick, replace or overlay an
//! environment and dispatch a run command.

pub mod config_settings;
pub mod database;
pub mod discovery;
pub mod path;
pub mod project;
pub mod request;
pub mod run;
pub mod text;
pub mod version_files;
