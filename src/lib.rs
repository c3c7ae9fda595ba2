//! Derivation of a traditional-to-simplified character table from reviewed
//! simplifications and analogy rules.

pub mod model;
mod text;
pub mod parse;
pub mod classify;
pub mod derive;
pub mod emit;
pub mod laws;
pub mod pipeline;
pub mod doc;
pub mod lookup;

pub use model::{correct_mappings, is_radical, Mapping, Problem, Review, Rule};
pub use parse::{parse_review, parse_rule, ParseError};
pub use classify::{classify, Classified};
pub use derive::derive_mappings;
pub use emit::{emit, to_text, Conflict};
pub use pipeline::{build_table, count_outputs, TableOutput};
pub use doc::{collect_reviews, count_tags, percent_encode, polygons, sort_tags, TagCount};
pub use lookup::{outline_of_response, LookupError};
