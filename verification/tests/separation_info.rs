use pdfboss_core::error::{Error, Result};
use pdfboss_core::object::{Dict, Name, ObjRef, Object, Stream};
use pdfboss_core::parser::{NoResolve, Parser};
use pdfboss_core::separation_info::{separation_info_with, SeparationInfo};
use pdfboss_core::source::{ObjectSource, SourceV};
use std::collections::HashMap;

/// A document in memory: its objects by number, and the trailer.
struct Document {
    objects: HashMap<u32, Object>,
    trailer: Dict,
}

impl ObjectSource for Document {
    fn model(&self) -> SourceV {
        unreachable!("a model is only spoken of")
    }

    fn get(&self, r: ObjRef) -> Result<Object> {
        match self.objects.get(&r.num) {
            Some(o) if r.gen == 0 => Ok(o.clone()),
            _ => Err(Error::Other("missing object".to_string())),
        }
    }

    fn stream_data(&self, s: &Stream) -> Result<Vec<u8>> {
        Ok(s.data.clone())
    }
}

/// Collects the objects of a document.
struct PdfBuilder {
    objects: HashMap<u32, Object>,
}

impl PdfBuilder {
    fn new() -> PdfBuilder {
        PdfBuilder { objects: HashMap::new() }
    }

    fn object(&mut self, num: u32, body: &str) {
        let object = Parser::new(body.as_bytes()).parse_object(&NoResolve).expect("an object");
        self.objects.insert(num, object);
    }

    fn build(self, root: u32) -> Document {
        let mut trailer = Dict::new();
        trailer.insert(Name("Root".to_string()), Object::Ref(ObjRef { num: root, gen: 0 }));
        Document { objects: self.objects, trailer }
    }
}

impl Document {
    fn separation_info(&self, page: &Dict) -> Option<SeparationInfo> {
        separation_info_with(self, page)
    }

    /// The dictionary of the page at `index`.
    fn page(&self, index: usize) -> Option<Dict> {
        self.objects[&(3 + index as u32)].as_dict().cloned()
    }
}

fn doc_with(page_extra: &str) -> Document {
    let mut b = PdfBuilder::new();
    b.object(1, "<< /Type /Catalog /Pages 2 0 R >>");
    b.object(2, "<< /Type /Pages /Kids [3 0 R 4 0 R] /Count 2 >>");
    b.object(
        3,
        &format!("<< /Type /Page /Parent 2 0 R /MediaBox [0 0 10 10] {page_extra} >>"),
    );
    b.object(4, "<< /Type /Page /Parent 2 0 R /MediaBox [0 0 10 10] >>");
    b.build(1)
}

fn separation_info(page_extra: &str) -> Option<SeparationInfo> {
    let doc = doc_with(page_extra);
    doc.separation_info(&doc.page(0).unwrap())
}

#[test]
fn reads_the_separation_dictionary() {
    let cyan = separation_info(
        "/SeparationInfo << /Pages [3 0 R 4 0 R] /DeviceColorant /Cyan \
         /ColorSpace [/Separation /Cyan /DeviceCMYK 5 0 R] >>",
    )
    .unwrap();
    assert_eq!(
        cyan.pages,
        [ObjRef { num: 3, gen: 0 }, ObjRef { num: 4, gen: 0 }]
    );
    assert_eq!(cyan.device_colorant, "Cyan");
    let color_space = cyan.color_space.unwrap();
    assert_eq!(color_space.len(), 4);
    assert_eq!(
        color_space[0].as_name().map(|n| n.0.as_str()),
        Some("Separation")
    );
    let spot =
        separation_info("/SeparationInfo << /Pages [3 0 R] /DeviceColorant (PANTONE 300 C) >>")
            .unwrap();
    assert_eq!(spot.device_colorant, "PANTONE 300 C");
    assert_eq!(spot.color_space, None);
}

#[test]
fn missing_or_malformed_separation_info_reads_as_absent() {
    assert_eq!(separation_info(""), None);
    assert_eq!(separation_info("/SeparationInfo 5"), None);
    assert_eq!(
        separation_info("/SeparationInfo << /Pages [3 0 R] >>"),
        None
    );
    let no_pages =
        separation_info("/SeparationInfo << /DeviceColorant /Cyan /Pages 7 >>").unwrap();
    assert!(no_pages.pages.is_empty());
    let odd =
        separation_info("/SeparationInfo << /DeviceColorant /Cyan /Pages [3 0 R (x) 4 0 R] >>")
            .unwrap();
    assert_eq!(
        odd.pages,
        [ObjRef { num: 3, gen: 0 }, ObjRef { num: 4, gen: 0 }]
    );
}
