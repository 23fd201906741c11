//! The editable-text core of a terminal editor: a piece table that composes
//! a document out of windows over two append-only byte stores.

pub mod buffer;
pub mod change;
pub mod document;
pub mod editor;
pub mod fragment;
pub mod indexed_string;
pub mod piece_table;
pub mod source_text;
pub mod transaction;

pub use buffer::Buffer;
pub use change::{FragmentOperation, FragmentUpdate};
pub use document::{DeletionRange, Document};
pub use editor::Editor;
pub use fragment::{Fragment, Source};
pub use indexed_string::IndexedString;
pub use source_text::SourceText;
pub use transaction::{Operation, Transaction};
