//! A verified command bookmark store: saved shell commands with descriptions
//! and free-form tags, tag-filtered retrieval, and a JSON persistence codec.

pub mod json;
pub mod laws;
pub mod record;
pub mod store;
pub mod text;

pub use record::Cmd;
