//! A small library for exploring JSON documents: a JSON value model, a
//! pretty-printer, a parser, path-based navigation with longest-valid-prefix
//! resolution, per-node expansion state, and tree-row rendering.

pub mod value;
pub mod explorer;
pub mod nav;
pub mod parse;
pub mod pretty;
pub mod render;
pub mod roundtrip;

pub use explorer::JsonExplorer;
pub use parse::{parse_json, ParseError};
pub use pretty::to_pretty;
pub use render::TreeRow;
pub use value::JsonValue;
