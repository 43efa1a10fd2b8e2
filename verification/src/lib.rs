//! Which language models fit a machine, and what a library of them takes on disk.
//!
//! [`storage`] sizes a library of models and picks the drive for it,
//! [`storage_size`] reads the sizes that users write, and [`mcp_server`] decides
//! what agents are answered. What holds of them as a whole is stated and proved in
//! the modules whose names end in `laws`.

pub mod binary64;
pub mod binary64_laws;
pub mod fit;
pub mod json;
pub mod mcp_server;
pub mod mcp_server_laws;
pub mod natural;
pub mod storage;
pub mod storage_laws;
pub mod storage_size;
pub mod storage_size_laws;
pub mod text;
pub mod text_laws;
