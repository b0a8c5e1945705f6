//! Page patches, from the prompt in an HTTP request to the line stream that answers it.
//!
//! A subscriber posts a prompt. A script writes a page for it, with the help of HTTP requests of
//! its own, and every patch of the page becomes one line of the stream that the subscriber reads.
//! This library holds what is decided and computed on the way; the tasks, the script engine and
//! the connections are around it.

pub mod bundle;
pub mod generate;
pub mod json;
pub mod prompt;
pub mod queue;
pub mod request;
pub mod response;
pub mod text;
