use pdfboss_core::error::{Error, Result};
use pdfboss_core::object::{Dict, Name, ObjRef, Object, Stream};
use pdfboss_core::outline::{outline_with, OutlineItem};
use pdfboss_core::parser::{NoResolve, Parser};
use pdfboss_core::single::Single;
use pdfboss_core::source::{ObjectSource, SourceV};
use std::collections::HashMap;

/// A single-precision number with the value of a float.
fn float(v: f32) -> Single {
    Single { bits: v.to_bits() }
}

/// A document in memory: its objects by number, and the trailer.
struct Document {
    objects: HashMap<u32, Object>,
    trailer: Dict,
}

impl ObjectSource for Document {
    fn model(&self) -> SourceV {
        unreachable!("a model is only spoken of")
    }

    fn get(&self, r: ObjRef) -> Result<Object> {
        match self.objects.get(&r.num) {
            Some(o) if r.gen == 0 => Ok(o.clone()),
            _ => Err(Error::Other("missing object".to_string())),
        }
    }

    fn stream_data(&self, s: &Stream) -> Result<Vec<u8>> {
        Ok(s.data.clone())
    }
}

/// Collects the objects of a document.
struct PdfBuilder {
    objects: HashMap<u32, Object>,
}

impl PdfBuilder {
    fn new() -> PdfBuilder {
        PdfBuilder { objects: HashMap::new() }
    }

    fn object(&mut self, num: u32, body: &str) {
        let object = Parser::new(body.as_bytes()).parse_object(&NoResolve).expect("an object");
        self.objects.insert(num, object);
    }

    fn build(self, root: u32) -> Document {
        let mut trailer = Dict::new();
        trailer.insert(Name("Root".to_string()), Object::Ref(ObjRef { num: root, gen: 0 }));
        Document { objects: self.objects, trailer }
    }
}

impl Document {
    fn outline(&self) -> Vec<OutlineItem> {
        outline_with(self, &self.trailer)
    }
}

fn doc(catalog_extra: &str, objects: &[(u32, &str)]) -> Document {
    let mut b = PdfBuilder::new();
    b.object(
        1,
        &format!("<< /Type /Catalog /Pages 2 0 R {catalog_extra} >>"),
    );
    b.object(2, "<< /Type /Pages /Kids [3 0 R] /Count 1 >>");
    b.object(3, "<< /Type /Page /Parent 2 0 R /MediaBox [0 0 100 100] >>");
    for (num, body) in objects {
        b.object(*num, body);
    }
    b.build(1)
}

fn titles(items: &[OutlineItem]) -> Vec<String> {
    items.iter().map(|i| i.title.clone()).collect()
}

/// What an outline item's destination reads as written.
fn written(text: &str) -> Option<Object> {
    Some(Parser::new(text.as_bytes()).parse_object(&NoResolve).expect("an object"))
}

#[test]
fn outline_items_nest_by_first_and_next() {
    let doc = doc(
        "/Outlines 10 0 R /Dests << /App [3 0 R /FitB] >>",
        &[
            (
                10,
                "<< /Type /Outlines /First 11 0 R /Last 16 0 R /Count 4 >>",
            ),
            (
                11,
                "<< /Title (Chapter 1) /Parent 10 0 R /Next 14 0 R /First 12 0 R /Last 13 0 R \
                 /Count 2 /Dest [3 0 R /XYZ 0 792 0] >>",
            ),
            (
                12,
                "<< /Title <FEFF00A70031> /Parent 11 0 R /Next 13 0 R /Dest [3 0 R /Fit] >>",
            ),
            (
                13,
                "<< /Title (1.2) /Parent 11 0 R /Prev 12 0 R \
                 /A << /S /GoTo /D [3 0 R /FitH 400] >> >>",
            ),
            (
                14,
                "<< /Title (Chapter 2) /Parent 10 0 R /Prev 11 0 R /Next 16 0 R \
                 /First 15 0 R /Last 15 0 R /Count -1 /SE 20 0 R >>",
            ),
            (
                15,
                "<< /Title (2.1) /Parent 14 0 R /A << /S /URI /URI (http://x) >> >>",
            ),
            (
                16,
                "<< /Title (Appendix) /Parent 10 0 R /Prev 14 0 R /Dest /App \
                 /C [1 0 0.5] /F 3 >>",
            ),
            (20, "<< /Type /StructElem /S /Sect >>"),
        ],
    );
    let items = doc.outline();
    assert_eq!(titles(&items), ["Chapter 1", "Chapter 2", "Appendix"]);

    let chapter1 = &items[0];
    assert!(chapter1.open);
    assert_eq!(
        chapter1.destination,
        written("[3 0 R /XYZ 0 792 0]")
    );
    assert_eq!(titles(&chapter1.children), ["§1", "1.2"]);
    assert_eq!(chapter1.children[0].destination, written("[3 0 R /Fit]"));
    assert_eq!(
        chapter1.children[1].destination,
        written("[3 0 R /FitH 400]"),
        "a /GoTo action's /D counts as the destination"
    );
    assert!(chapter1.children.iter().all(|c| c.children.is_empty()));

    let chapter2 = &items[1];
    assert!(!chapter2.open, "a negative /Count is closed");
    assert_eq!(chapter2.destination, None);
    assert_eq!(chapter2.structure_element, Some(ObjRef { num: 20, gen: 0 }));
    assert_eq!(titles(&chapter2.children), ["2.1"]);
    assert_eq!(
        chapter2.children[0].destination, None,
        "a URI action is not a destination"
    );

    let appendix = &items[2];
    assert_eq!(appendix.destination, written("/App"));
    assert_eq!(appendix.color, [float(1.0), float(0.0), float(0.5)]);
    assert!(appendix.italic && appendix.bold);
    assert!(!chapter1.italic && !chapter1.bold);
    assert_eq!(chapter1.color, [float(0.0), float(0.0), float(0.0)]);
}

#[test]
fn cycles_and_missing_outlines_end_quietly() {
    assert!(doc("", &[]).outline().is_empty(), "no /Outlines");
    assert!(
        doc(
            "/Outlines 10 0 R",
            &[(10, "<< /Type /Outlines /Count 0 >>")]
        )
        .outline()
        .is_empty(),
        "an outline without /First"
    );
    let doc = doc(
        "/Outlines 10 0 R",
        &[
            (10, "<< /Type /Outlines /First 11 0 R /Last 13 0 R >>"),
            (11, "<< /Title (A) /Parent 10 0 R /Next 12 0 R >>"),
            (
                12,
                "<< /Title (B) /Parent 10 0 R /Next 11 0 R /First 13 0 R >>",
            ),
            (
                13,
                "<< /Title (C) /Parent 12 0 R /First (oops) /Next 14 0 R >>",
            ),
            (14, "<< /Title (D) /Parent 12 0 R >>"),
        ],
    );
    let items = doc.outline();
    assert_eq!(titles(&items), ["A", "B"]);
    assert_eq!(titles(&items[1].children), ["C", "D"]);
    assert!(items[1].children[0].children.is_empty());
}

#[test]
fn an_item_is_copied_with_its_children() {
    let leaf = OutlineItem {
        title: "leaf".to_string(),
        destination: Some(Object::Int(3)),
        open: false,
        color: [float(0.0), float(0.5), float(1.0)],
        italic: true,
        bold: false,
        structure_element: Some(ObjRef { num: 9, gen: 0 }),
        children: Vec::new(),
    };
    let root = OutlineItem {
        title: "root".to_string(),
        destination: None,
        open: true,
        color: [float(0.0), float(0.0), float(0.0)],
        italic: false,
        bold: true,
        structure_element: None,
        children: vec![leaf.clone(), leaf],
    };
    assert_eq!(root.clone(), root);
}

#[test]
fn colours_are_drawn_into_range_and_narrowed() {
    let doc = doc(
        "/Outlines 10 0 R",
        &[
            (10, "<< /First 11 0 R >>"),
            (11, "<< /Title (A) /C [0.1 -3 7.5] /Next 12 0 R >>"),
            (12, "<< /Title (B) /C [0.2 0.30000001192092897 1] /Next 13 0 R >>"),
            (13, "<< /Title (C) /C [0.2 0.3] >>"),
        ],
    );
    let items = doc.outline();
    assert_eq!(items[0].color, [float(0.1), float(0.0), float(1.0)]);
    assert_eq!(items[1].color, [float(0.2), float(0.3), float(1.0)]);
    assert_eq!(items[2].color, [float(0.0), float(0.0), float(0.0)]);
}
