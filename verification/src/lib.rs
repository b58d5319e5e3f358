//! Core logic of the HELIX desktop backend: the llama.cpp engine manager and
//! the MCP plugin bridge, with their decisions stated as contracts.

pub mod text;
pub mod json;
pub mod chat;
pub mod stream;
pub mod engine;
pub mod hardware;
pub mod skills;
pub mod mcp;
pub mod desktop;
