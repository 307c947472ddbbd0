//! Conversion between XML documents and a generic value tree.
//!
//! The parse engine turns the event stream of an XML tokenizer into a
//! [`value::Value`] tree, and the serialize engine turns such a tree back into
//! an XML document, under an encoding in which `@name` keys are attributes,
//! `#text` is the direct text of an element and arrays stand for repeated
//! sibling elements.

pub mod ariane;
pub mod events;
pub mod mapping;
pub mod parse;
pub mod roundtrip;
pub mod serialize;
pub mod strings;
pub mod text;
pub mod text_shape;
pub mod value;
