//! A streaming reader for brace-delimited key-value documents (Valve's `.acf` / `.vdf`
//! format): a tokenizer, a navigator that selects fields by key without reading whole
//! subtrees, a JSON renderer, and a reader for the application registry.

pub mod token;
pub mod parse;
pub mod stream;
pub mod json;
pub mod registry;

pub use crate::token::{AcfToken, TokenView, ParseError};
pub use crate::parse::AcfTokenStream;
pub use crate::stream::{StreamError, StructuredAcfTokenStream, format_path};
pub use crate::json::{JsonWriter, JsonWriterCfg, pipe_to_json};
pub use crate::registry::{SteamRegistry, format_listing, load_registry};
