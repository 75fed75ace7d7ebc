//! Layout core of a rich-text editor: the document model with its style
//! ranges and table topology, and the layout engine that wraps paragraphs,
//! avoids floating images, paginates and maps positions.
use vstd::prelude::*;

pub mod document;
pub mod engine;
pub mod layout;
pub mod segments;
pub mod style;
pub mod table;
pub mod text;

verus! {

} // verus!
