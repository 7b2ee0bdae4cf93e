//! A mapping-driven JSON reshaping engine.
//!
//! A JSON document is flattened into a sorted index of `(path, value)`
//! tokens; a declarative mapping names, for each output field, a path
//! expression (optionally carrying the `[*]` repetition marker) that is
//! resolved against that index; the resolved values are assembled into a
//! normalized document of free-content and table blocks.

pub mod json;
pub mod laws;
pub mod model;
pub mod paths;
pub mod tokenize;
pub mod transformer;

pub use json::JsonValue;
pub use model::ContentData;
pub use model::ContentModel;
pub use model::DocumentModel;
pub use model::TableModel;
pub use model::TransformError;
pub use tokenize::Token;
pub use tokenize::TokenIndex;
pub use tokenize::Tokenizer;
pub use transformer::Transformer;
