//! The rules by which a switcher of AI coding tools edits their configuration.
//!
//! The tools keep providers, secrets, default models and MCP servers in files of their
//! own, which also hold what the user put there. This library decides what such a file is
//! to hold: it takes the text of the file and returns a plan, which tells whether the file
//! stays as it is or gets a new text. It does not touch the disk.
//!
//! - [`tree`] says what a document is; [`value`] holds one in memory, [`json`] and [`yaml`]
//!   read and write it, [`merge`] and [`snippet`] combine documents, and [`paths`] says what
//!   that does at each path of keys.
//! - [`dsh_config`] and [`zcode_config`] are the configuration of dsh and of zcode.
//! - [`mcp`] is the registry of MCP servers and its traffic with both applications.
//! - [`commands`] is what the commands of the user interface decide.
//! - [`plan`] and [`backup`] are what is to be done to files on disk.
//!
//! What holds of several functions together is stated by the `law_` functions, next to
//! what they speak of or in the modules whose names end in `laws`.

pub mod backup;
pub mod backup_laws;
pub mod command_laws;
pub mod commands;
pub mod dsh_config;
pub mod dsh_file_laws;
pub mod dsh_laws;
pub mod error;
pub mod json;
pub mod mcp;
pub mod merge;
pub mod numeric;
pub mod paths;
pub mod plan;
pub mod snippet;
pub mod text;
pub mod text_laws;
pub mod tree;
pub mod value;
pub mod yaml;
pub mod zcode_config;
pub mod zcode_file_laws;
pub mod zcode_laws;
