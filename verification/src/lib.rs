//! Codec for the canonical, length-prefixed, parenthesized token format
//! used to store asymmetric-key material: a parser from bytes to a token
//! tree, a serializer back to bytes with an exact round trip, and a small
//! accessor/mutator for the `comment` field of a record.

pub mod comment;
pub mod parse;
pub mod roundtrip;
pub mod ser;
pub mod tree;

pub use comment::get_comment;
pub use comment::upsert_comment;
pub use parse::ParseError;
pub use parse::deserialize;
pub use ser::serialize;
pub use tree::TokenTree;
pub use tree::TreeView;
