//! The document's natural language: the catalog's `/Lang`, the default for
//! every piece of text a structure element or a marked-content sequence does
//! not tag with a language of its own.

use crate::object;
use crate::object::{Dict, ObjRef, ObjectV};
use crate::source;
use crate::source::{ObjectSource, SourceV};
use crate::tree;
use crate::tree::{catalog_of, Entries};
use vstd::prelude::*;

verus! {

/// The language the catalog declares.
pub open spec fn language_of(src: SourceV, trailer: Map<Seq<char>, ObjectV>) -> Option<Seq<char>> {
    match tree::catalog(src, trailer) {
        Some(catalog) => tree::entry_text(src, catalog, "Lang"@),
        None => None,
    }
}

/// The language the catalog declares for the document's text (`/Lang`),
/// decoded as a text string, or `None` when the catalog declares none or
/// the entry is not a string. A structure element's or a marked-content
/// sequence's own `/Lang` overrides it for their text.
pub fn language_with<S: ObjectSource>(src: &S, trailer: &Dict) -> (out: Option<String>)
    ensures
        tree::string_opt(out) == language_of(src.model(), trailer@),
{
    match catalog_of(src, trailer) {
        Some(catalog) => (Entries { src, dict: &catalog }).text("Lang"),
        None => None,
    }
}

/// Law: the language is the catalog's text under its key, and a document without
/// a catalog has none.
pub proof fn the_language_is_as_written(
    src: SourceV,
    trailer: Map<Seq<char>, ObjectV>,
    root: ObjRef,
    catalog: Map<Seq<char>, ObjectV>,
    bytes: Seq<u8>,
)
    ensures
        trailer.contains_key("Root"@) && trailer["Root"@] == ObjectV::Ref(root) && (src.fetched)(
            root,
        ) == Ok::<ObjectV, source::FaultV>(ObjectV::Dict(catalog)) && catalog.contains_key("Lang"@)
            && catalog["Lang"@] == ObjectV::String(bytes) ==> language_of(src, trailer) == Some(
            object::text_chars(bytes),
        ),
        !trailer.contains_key("Root"@) ==> language_of(src, trailer) is None,
{
    source::references_lead_on(src, root, ObjectV::Dict(catalog), 32, 0);
}

} // verus!
