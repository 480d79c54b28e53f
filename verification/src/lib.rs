//! Dotted-key configuration texts.
//!
//! A configuration file is a sequence of `dotted.key = value` lines; parsing
//! builds a nested tree of string leaves.  A schema file maps dotted keys to
//! type tags; validation resolves each schema key in the tree and checks the
//! leaf against the tag.

pub mod line;
pub mod parse;
pub mod schema;
pub mod text;
pub mod tree;
pub mod validate;

pub use parse::parse_config_text;
pub use schema::parse_schema_text;
pub use validate::ValidationError;
pub use validate::validate;
pub use tree::ConfigValue;
pub use tree::insert_recursive;
pub use tree::get_value;
