//! Incremental pipeline for styled terminal display of streamed model output.
//!
//! The stream of raw byte chunks is split into delimiter-bounded frames,
//! each frame is decoded into a semantic event, configured stop sequences
//! are matched across fragment boundaries, and the surviving text is
//! tokenized as lightweight markdown and prepared for terminal rendering,
//! all while bytes are still arriving.

pub mod arguments;
pub mod decoder;
pub mod executor;
pub mod markdown;
pub mod render;
pub mod session;
pub mod splitter;
pub mod stop;
pub mod token;
