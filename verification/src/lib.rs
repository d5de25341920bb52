//! Verified core of a remote MCP gateway: tool-exposure profiles, root-scoped
//! path resolution, bearer-token authentication and the decisions behind the
//! embedded tools.
pub mod text;
pub mod path;
pub mod guard;
pub mod profile;
pub mod auth;
pub mod server;
pub mod mcp_tools;
pub mod psession;
pub mod mcp;
