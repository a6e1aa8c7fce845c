//! The object layer of a PDF reader: objects, their syntax, stream filters
//! and the document-level dictionaries read as data.

mod bignat;
pub mod error;
pub mod filters;
pub mod form;
pub mod hash;
pub mod language;
pub mod legal;
pub mod lexer;
pub mod linearization;
pub mod measure;
pub mod names;
pub mod number;
pub mod object;
pub mod objstm;
pub mod oc;
pub mod outline;
pub mod output_intent;
pub mod page_label;
pub mod parser;
pub mod permission;
pub mod piece_info;
pub mod presentation;
pub mod refset;
pub mod requirement;
pub mod separation_info;
pub mod single;
pub mod source;
pub mod text;
pub mod tree;
pub mod written;

pub use error::{Error, Result};
pub use hash::{FastMap, FastSet, FxHasher};
pub use language::language_with;
pub use names::{name_tree_root_with, named_with, names_with, NameTree};
pub use object::{Dict, Name, ObjRef, Object, Stream};
pub use oc::OcState;
pub use outline::{outline_with, OutlineItem};
pub use page_label::{page_label, page_labels_with, LabelStyle, PageLabel};
pub use source::{resolve_sync_with, ObjectSource, MAX_RESOLVE_DEPTH};
