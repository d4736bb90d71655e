//! MCP servers: the registry of all of them, and the files of the applications
//! that use them.

pub mod blocks;
pub mod dsh;
pub mod dsh_laws;
pub mod form_laws;
pub mod import_laws;
pub mod item_laws;
pub mod items;
pub mod marks;
pub mod name_laws;
pub mod parts;
pub mod patch;
pub mod registry;
pub mod server_name;
pub mod sync_laws;
pub mod text_laws;
pub mod validation;
pub mod zcode;
pub mod zcode_file_laws;
pub mod zcode_laws;
