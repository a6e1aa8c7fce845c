use pdfboss_core::error::{Error, Result};
use pdfboss_core::language::language_with;
use pdfboss_core::object::{Dict, Name, ObjRef, Object, Stream};
use pdfboss_core::parser::{NoResolve, Parser};
use pdfboss_core::source::{ObjectSource, SourceV};
use std::collections::HashMap;

/// A document in memory: its objects by number, and the trailer.
struct Document {
    objects: HashMap<u32, Object>,
    trailer: Dict,
}

impl ObjectSource for Document {
    fn model(&self) -> SourceV {
        unreachable!("a model is only spoken of")
    }

    fn get(&self, r: ObjRef) -> Result<Object> {
        match self.objects.get(&r.num) {
            Some(o) if r.gen == 0 => Ok(o.clone()),
            _ => Err(Error::Other("missing object".to_string())),
        }
    }

    fn stream_data(&self, s: &Stream) -> Result<Vec<u8>> {
        Ok(s.data.clone())
    }
}

/// Collects the objects of a document.
struct PdfBuilder {
    objects: HashMap<u32, Object>,
}

impl PdfBuilder {
    fn new() -> PdfBuilder {
        PdfBuilder { objects: HashMap::new() }
    }

    fn object(&mut self, num: u32, body: &str) {
        let object = Parser::new(body.as_bytes()).parse_object(&NoResolve).expect("an object");
        self.objects.insert(num, object);
    }

    fn build(self, root: u32) -> Document {
        let mut trailer = Dict::new();
        trailer.insert(Name("Root".to_string()), Object::Ref(ObjRef { num: root, gen: 0 }));
        Document { objects: self.objects, trailer }
    }
}

impl Document {
    fn language(&self) -> Option<String> {
        language_with(self, &self.trailer)
    }
}

fn doc(catalog_extra: &str, objects: &[(u32, &str)]) -> Document {
    let mut b = PdfBuilder::new();
    b.object(
        1,
        &format!("<< /Type /Catalog /Pages 2 0 R {catalog_extra} >>"),
    );
    b.object(2, "<< /Type /Pages /Kids [3 0 R] /Count 1 >>");
    b.object(3, "<< /Type /Page /Parent 2 0 R /MediaBox [0 0 100 100] >>");
    for (num, body) in objects {
        b.object(*num, body);
    }
    b.build(1)
}

#[test]
fn the_catalog_lang_is_the_document_language() {
    assert_eq!(
        doc("/Lang (en-US)", &[]).language().as_deref(),
        Some("en-US")
    );
    assert_eq!(
        doc("/Lang <FEFF00640065>", &[]).language().as_deref(),
        Some("de")
    );
    assert_eq!(
        doc("/Lang 4 0 R", &[(4, "(fr)")]).language().as_deref(),
        Some("fr")
    );
    assert_eq!(doc("", &[]).language(), None);
    assert_eq!(doc("/Lang 7", &[]).language(), None);
}
