//! Schema-free settings inference for a search engine: feed a sample of
//! flattened JSON-like documents into a [`FieldAccumulator`], then let
//! [`FieldAccumulator::finish`] score every field and decide whether it should
//! be searchable, filterable and/or sortable downstream.

pub mod entropy;
pub mod json;
pub mod score;
pub mod settings;
pub mod accumulator;
pub mod ingest;
pub mod laws;
pub mod classify;

pub use entropy::entropy_of;
pub use entropy::entropy_of_counts;
pub use classify::look_like_id;
pub use json::{JsonElem, JsonValue};
pub use settings::FinalSettings;
pub use accumulator::FieldAccumulator;
pub use ingest::{guess, ArrayEntry, Document, GuessError, InputValue};
