//! A streaming XML tokenizer and namespace-aware element-tree builder.
//!
//! Text is fed incrementally to [`Parser`], which emits [`Event`]s one at a
//! time; an [`ElementBuilder`] folds those events into [`Element`] trees,
//! which can be rendered back to XML text.

mod strutil;

pub mod attrs;
pub mod codec;
pub mod element;
pub mod element_builder;
pub mod parser;
pub mod strmap;

pub use attrs::AttrMap;
pub use attrs::Attribute;
pub use codec::escape;
pub use codec::unescape;
pub use element::ChildElements;
pub use element::Element;
pub use element::Xml;
pub use element_builder::BuilderError;
pub use element_builder::ElementBuilder;
pub use parser::EndTag;
pub use parser::Event;
pub use parser::Parser;
pub use parser::ParserError;
pub use parser::StartTag;
