//! Page-piece dictionaries: the private product data a `/PieceInfo` entry
//! holds on the catalog, a page or a form XObject, read as data and left
//! uninterpreted.

use crate::object;
use crate::object::{Dict, Object, ObjectV};
use crate::source::{ObjectSource, SourceV};
use crate::text;
use crate::tree;
use crate::tree::{catalog_of, resolved_dict, Entries};
use vstd::prelude::*;

verus! {

/// One product's data dictionary from a page-piece dictionary: the private
/// data the named conforming product left on the document, a page or a form.
#[derive(Debug, Clone, PartialEq)]
pub struct PagePiece {
    /// The page-piece dictionary's key: the product's name, or a well-known
    /// data type a family of products shares.
    pub product: String,
    /// `/LastModified` as written: when the product last altered the
    /// content. It is meant to be compared with the page's or form's own
    /// `/LastModified` for equality only, never for order.
    pub last_modified: Option<String>,
    /// `/Private`: the product's data as written, typically a dictionary.
    pub private: Option<Object>,
}

/// Whether a record is what the entry of a page-piece dictionary under its
/// product's name says.
pub open spec fn describes(
    piece: PagePiece,
    src: SourceV,
    pieces: Map<Seq<char>, ObjectV>,
) -> bool {
    match tree::entry_dict(src, pieces, piece.product@) {
        Some(d) => {
            &&& tree::string_opt(piece.last_modified) == tree::entry_text(src, d, "LastModified"@)
            &&& object::owned_view(piece.private) == tree::entry(src, d, "Private"@)
        },
        None => false,
    }
}

/// Whether records are those of a page-piece dictionary: one for every product
/// whose entry is a dictionary, in the order of their names.
pub open spec fn records_of(
    records: Seq<PagePiece>,
    src: SourceV,
    pieces: Map<Seq<char>, ObjectV>,
) -> bool {
    &&& forall|i: int|
        0 <= i < records.len() ==> describes(#[trigger] records[i], src, pieces)
    &&& forall|i: int, j: int|
        0 <= i < j < records.len() ==> text::chars_before(
            (#[trigger] records[i]).product@,
            (#[trigger] records[j]).product@,
        )
    &&& forall|product: Seq<char>|
        #[trigger] tree::entry_dict(src, pieces, product) is Some ==> exists|i: int|
            0 <= i < records.len() && (#[trigger] records[i]).product@ == product
}

/// The page-piece dictionary `dict`'s `/PieceInfo` holds, one record per
/// product sorted by name: every entry whose value is a dictionary, the
/// required `/LastModified` tolerated missing. `dict` may be the catalog, a
/// page or a form XObject; no `/PieceInfo`, or one that is no dictionary,
/// yields none.
pub fn piece_info_with<S: ObjectSource>(src: &S, dict: &Dict) -> (out: Vec<PagePiece>)
    ensures
        match tree::entry_dict(src.model(), dict@, "PieceInfo"@) {
            Some(pieces) => records_of(out@, src.model(), pieces),
            None => out@.len() == 0,
        },
{
    let mut pieces: Vec<PagePiece> = Vec::new();
    let piece_info = match (Entries { src, dict }).sub_dict("PieceInfo") {
        Some(piece_info) => piece_info,
        None => {
            return pieces;
        },
    };
    let products = piece_info.iter();
    let mut i: usize = 0;
    while i < products.len()
        invariant
            i <= products@.len(),
            forall|j: int|
                0 <= j < products@.len() ==> object::lookup(
                    piece_info@,
                    #[trigger] products@[j].0@,
                ) == Some(products@[j].1@),
            forall|a: int, b: int|
                0 <= a < b < products@.len() ==> text::chars_before(
                    #[trigger] products@[a].0@,
                    #[trigger] products@[b].0@,
                ),
            forall|j: int|
                0 <= j < pieces@.len() ==> describes(
                    #[trigger] pieces@[j],
                    src.model(),
                    piece_info@,
                ),
            forall|a: int, b: int|
                0 <= a < b < pieces@.len() ==> text::chars_before(
                    (#[trigger] pieces@[a]).product@,
                    (#[trigger] pieces@[b]).product@,
                ),
            forall|j: int, k: int|
                0 <= j < pieces@.len() && i <= k < products@.len() ==> text::chars_before(
                    (#[trigger] pieces@[j]).product@,
                    #[trigger] products@[k].0@,
                ),
            forall|k: int|
                0 <= k < i && tree::dict_at(src.model(), #[trigger] products@[k].1@) is Some
                    ==> exists|j: int|
                    0 <= j < pieces@.len() && (#[trigger] pieces@[j]).product@
                        == products@[k].0@,
        decreases products@.len() - i,
    {
        let ghost before = pieces@;
        if let Some(data) = resolved_dict(src, products[i].1) {
            let entries = Entries { src, dict: &data };
            let piece = PagePiece {
                product: products[i].0.0.clone(),
                last_modified: entries.text("LastModified"),
                private: entries.value("Private"),
            };
            assert(object::lookup(piece_info@, products@[i as int].0@) is Some);
            pieces.push(piece);
            assert(pieces@[before.len() as int].product@ == products@[i as int].0@);
        }
        proof {
            assert forall|k: int|
                0 <= k < i + 1 && tree::dict_at(
                    src.model(),
                    #[trigger] products@[k].1@,
                ) is Some implies exists|j: int|
                0 <= j < pieces@.len() && (#[trigger] pieces@[j]).product@ == products@[k].0@ by {
                if k < i {
                    let j = choose|j: int|
                        0 <= j < before.len() && (#[trigger] before[j]).product@
                            == products@[k].0@;
                    assert(pieces@[j] == before[j]);
                }
            }
        }
        i += 1;
    }
    proof {
        assert forall|product: Seq<char>| #[trigger]
            tree::entry_dict(src.model(), piece_info@, product) is Some implies exists|j: int|
            0 <= j < pieces@.len() && (#[trigger] pieces@[j]).product@ == product by {
            assert(piece_info@.contains_key(product));
            let k = choose|k: int| 0 <= k < products@.len() && #[trigger] products@[k].0@ == product;
            assert(tree::dict_at(src.model(), products@[k].1@) is Some);
        }
    }
    pieces
}

/// The catalog's page-piece dictionary read through the trailer's `/Root`;
/// empty without a catalog or a `/PieceInfo`.
pub fn document_piece_info_with<S: ObjectSource>(src: &S, trailer: &Dict) -> (out: Vec<PagePiece>)
    ensures
        match tree::catalog_dict(src.model(), trailer@, "PieceInfo"@) {
            Some(pieces) => records_of(out@, src.model(), pieces),
            None => out@.len() == 0,
        },
{
    match catalog_of(src, trailer) {
        Some(catalog) => piece_info_with(src, &catalog),
        None => Vec::new(),
    }
}

/// Law: a piece is what the dictionary under its product's name says.
pub proof fn pieces_say_what_is_written(
    piece: PagePiece,
    src: SourceV,
    pieces: Map<Seq<char>, ObjectV>,
    d: Map<Seq<char>, ObjectV>,
    bytes: Seq<u8>,
    v: i64,
)
    requires
        describes(piece, src, pieces),
        tree::has(pieces, piece.product@, ObjectV::Dict(d)),
    ensures
        tree::has(d, "LastModified"@, ObjectV::String(bytes)) ==> tree::string_opt(
            piece.last_modified,
        ) == Some(object::text_chars(bytes)),
        !d.contains_key("LastModified"@) ==> piece.last_modified is None,
        tree::has(d, "Private"@, ObjectV::Int(v)) ==> object::owned_view(piece.private) == Some(
            ObjectV::Int(v),
        ),
        !d.contains_key("Private"@) ==> piece.private is None,
{
}

/// Law: the pieces are one for every product with a dictionary, in the order of
/// their names.
pub proof fn pieces_are_one_for_each_product(
    records: Seq<PagePiece>,
    src: SourceV,
    pieces: Map<Seq<char>, ObjectV>,
    product: Seq<char>,
    d: Map<Seq<char>, ObjectV>,
    i: int,
    j: int,
)
    requires
        records_of(records, src, pieces),
        0 <= i < records.len(),
        0 <= j < records.len(),
    ensures
        tree::has(pieces, product, ObjectV::Dict(d)) ==> exists|k: int|
            0 <= k < records.len() && (#[trigger] records[k]).product@ == product,
        pieces.contains_key(records[i].product@),
        records[i].product@ == records[j].product@ ==> i == j,
        i < j ==> text::chars_before(records[i].product@, records[j].product@),
{
    if tree::has(pieces, product, ObjectV::Dict(d)) {
        assert(tree::entry_dict(src, pieces, product) == Some(d));
    }
    text::lemma_before_total(records[i].product@, records[j].product@);
}

} // verus!
