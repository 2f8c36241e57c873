//! The decisions of a JavaScript runtime for Windows: loading ES modules from disk and from a dev
//! server, calling into WinRT by its metadata, and the host around both.
//!
//! Every module holds plain data and functions on it with exact contracts. What needs the engine, the
//! operating system or the network is the host's part: it performs the actions that the functions
//! hand out, and hands back what came of them.

pub mod bundle;
pub mod class_helpers;
pub mod crash_reporter;
pub mod delegate;
pub mod ffi;
pub mod host_abi;
pub mod host_object;
pub mod json;
pub mod loader;
pub mod metadata;
pub mod native;
pub mod order;
pub mod overloads;
pub mod sampler;
pub mod test_server;
pub mod text;
pub mod text_map;
pub mod text_set;
pub mod transform;
pub mod websocket;
pub mod window;
pub mod winhttp;
pub mod wrapper_cache;
