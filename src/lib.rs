//! Structural annotation of markdown text for UI text widgets that index text
//! in 16-bit code units, and the plain records handed to that UI.
//!
//! The pass has two parts: [`offsets`] builds a table that maps every byte
//! offset of the text to its UTF-16 code-unit offset, and [`assemble`] turns a
//! tokenizer's event stream (byte ranges) into [`assemble::MarkdownTagRange`]
//! values located in code units. [`markdown`] joins the two with the
//! pulldown-cmark tokenizer.
pub mod assemble;
pub mod ffi;
pub mod markdown;
pub mod offsets;
pub mod plugin;

pub use assemble::{assemble, ListState, MarkdownTagRange, MdEvent, MdTag, SourceEvent};
pub use ffi::{FFIAbbrNote, FFIFolder, FFIResource, FFISearchNote};
pub use markdown::parse_markdown;
pub use offsets::utf16_offsets;
pub use plugin::PluginError;
