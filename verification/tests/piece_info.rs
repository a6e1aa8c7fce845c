use pdfboss_core::error::{Error, Result};
use pdfboss_core::object::{Dict, Name, ObjRef, Object, Stream};
use pdfboss_core::parser::{NoResolve, Parser};
use pdfboss_core::piece_info::{document_piece_info_with, piece_info_with, PagePiece};
use pdfboss_core::source::{ObjectSource, SourceV};
use std::collections::HashMap;

/// A document in memory: its objects by number, and the trailer.
struct Document {
    objects: HashMap<u32, Object>,
    trailer: Dict,
}

impl ObjectSource for Document {
    fn model(&self) -> SourceV {
        unreachable!("a model is only spoken of")
    }

    fn get(&self, r: ObjRef) -> Result<Object> {
        match self.objects.get(&r.num) {
            Some(o) if r.gen == 0 => Ok(o.clone()),
            _ => Err(Error::Other("missing object".to_string())),
        }
    }

    fn stream_data(&self, s: &Stream) -> Result<Vec<u8>> {
        Ok(s.data.clone())
    }
}

/// Collects the objects of a document.
struct PdfBuilder {
    objects: HashMap<u32, Object>,
}

impl PdfBuilder {
    fn new() -> PdfBuilder {
        PdfBuilder { objects: HashMap::new() }
    }

    fn object(&mut self, num: u32, body: &str) {
        let object = Parser::new(body.as_bytes()).parse_object(&NoResolve).expect("an object");
        self.objects.insert(num, object);
    }

    fn build(self, root: u32) -> Document {
        let mut trailer = Dict::new();
        trailer.insert(Name("Root".to_string()), Object::Ref(ObjRef { num: root, gen: 0 }));
        Document { objects: self.objects, trailer }
    }
}

impl Document {
    fn piece_info(&self) -> Vec<PagePiece> {
        document_piece_info_with(self, &self.trailer)
    }

    fn page_piece_info(&self, page: &Dict) -> Vec<PagePiece> {
        piece_info_with(self, page)
    }

    /// The dictionary of the page at `index`.
    fn page(&self, index: usize) -> Option<Dict> {
        self.objects[&(3 + index as u32)].as_dict().cloned()
    }
}

fn doc_with(catalog_extra: &str, page_extra: &str) -> Document {
    let mut b = PdfBuilder::new();
    b.object(
        1,
        &format!("<< /Type /Catalog /Pages 2 0 R {catalog_extra} >>"),
    );
    b.object(2, "<< /Type /Pages /Kids [3 0 R] /Count 1 >>");
    b.object(
        3,
        &format!("<< /Type /Page /Parent 2 0 R /MediaBox [0 0 10 10] {page_extra} >>"),
    );
    b.object(
        7,
        "<< /LastModified (D:20230601120000Z) /Private (opaque) >>",
    );
    b.build(1)
}

#[test]
fn reads_each_products_data_dictionary_of_a_page_piece_dictionary() {
    let doc = doc_with(
        "/PieceInfo << /Photoshop 7 0 R /Junk 5 \
         /Illustrator << /LastModified (D:20240102030405Z) /Private << /Version 28 >> >> >>",
        "",
    );
    let pieces = doc.piece_info();
    assert_eq!(pieces.len(), 2);
    assert_eq!(pieces[0].product, "Illustrator");
    assert_eq!(
        pieces[0].last_modified.as_deref(),
        Some("D:20240102030405Z")
    );
    let mut version = Dict::new();
    version.insert(Name("Version".to_string()), Object::Int(28));
    assert_eq!(pieces[0].private, Some(Object::Dict(version)));
    assert_eq!(pieces[1].product, "Photoshop");
    assert_eq!(
        pieces[1].last_modified.as_deref(),
        Some("D:20230601120000Z")
    );
    assert_eq!(pieces[1].private, Some(Object::String(b"opaque".to_vec())));
}

#[test]
fn a_pages_piece_info_reads_the_same_way_and_a_missing_entry_is_empty() {
    let doc = doc_with(
        "/PieceInfo 42",
        "/PieceInfo << /Scanner << /Private << /Dpi 300 >> >> >>",
    );
    assert_eq!(doc.piece_info(), vec![]);
    let page = doc.page(0).unwrap();
    let pieces = doc.page_piece_info(&page);
    assert_eq!(pieces.len(), 1);
    assert_eq!(pieces[0].product, "Scanner");
    assert_eq!(pieces[0].last_modified, None);
    let plain = doc_with("", "");
    assert_eq!(plain.piece_info(), vec![]);
    assert_eq!(plain.page_piece_info(&plain.page(0).unwrap()), vec![]);
}
