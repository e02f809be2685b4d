//! Building a project against a shipped SDK.

pub mod argfile;
pub mod argfile_laws;
pub mod edge_laws;
pub mod entry_laws;
pub mod error;
pub mod extern_map;
pub mod flag_laws;
pub mod generate;
pub mod generate_laws;
pub mod host;
pub mod invocation_laws;
pub mod json;
pub mod json_laws;
pub mod link_paths;
pub mod manifest;
pub mod manifest_laws;
pub mod order;
pub mod os_text;
pub mod package_id;
pub mod plan;
pub mod plan_laws;
pub mod redirect;
pub mod text;
pub mod text_laws;
pub mod wrapper;
pub mod wrapper_laws;
