use pdfboss_core::error::{Error, Result};
use pdfboss_core::names::{name_tree_root_with, named_with, names_with, NameTree};
use pdfboss_core::object::{Dict, Name, ObjRef, Object, Stream};
use pdfboss_core::parser::{NoResolve, Parser};
use pdfboss_core::source::{ObjectSource, SourceV};
use std::collections::HashMap;

/// A document in memory: its objects by number, and the trailer.
struct Document {
    objects: HashMap<u32, Object>,
    trailer: Dict,
}

impl ObjectSource for Document {
    fn model(&self) -> SourceV {
        unreachable!("a model is only spoken of")
    }

    fn get(&self, r: ObjRef) -> Result<Object> {
        match self.objects.get(&r.num) {
            Some(o) if r.gen == 0 => Ok(o.clone()),
            _ => Err(Error::Other("missing object".to_string())),
        }
    }

    fn stream_data(&self, s: &Stream) -> Result<Vec<u8>> {
        Ok(s.data.clone())
    }
}

/// Collects the objects of a document.
struct PdfBuilder {
    objects: HashMap<u32, Object>,
}

impl PdfBuilder {
    fn new() -> PdfBuilder {
        PdfBuilder { objects: HashMap::new() }
    }

    fn object(&mut self, num: u32, body: &str) {
        let object = Parser::new(body.as_bytes()).parse_object(&NoResolve).expect("an object");
        self.objects.insert(num, object);
    }

    fn build(self, root: u32) -> Document {
        let mut trailer = Dict::new();
        trailer.insert(Name("Root".to_string()), Object::Ref(ObjRef { num: root, gen: 0 }));
        Document { objects: self.objects, trailer }
    }
}

impl Document {
    fn named(&self, tree: NameTree, key: &[u8]) -> Option<Object> {
        named_with(self, &self.trailer, tree, key)
    }

    fn names(&self, tree: NameTree) -> Vec<(Vec<u8>, Object)> {
        names_with(self, &self.trailer, tree)
    }
}

fn doc(catalog_extra: &str, objects: &[(u32, &str)]) -> Document {
    let mut b = PdfBuilder::new();
    b.object(
        1,
        &format!("<< /Type /Catalog /Pages 2 0 R {catalog_extra} >>"),
    );
    b.object(2, "<< /Type /Pages /Kids [3 0 R] /Count 1 >>");
    b.object(3, "<< /Type /Page /Parent 2 0 R /MediaBox [0 0 100 100] >>");
    for (num, body) in objects {
        b.object(*num, body);
    }
    b.build(1)
}

fn keys(pairs: &[(Vec<u8>, Object)]) -> Vec<String> {
    pairs
        .iter()
        .map(|(k, _)| String::from_utf8(k.clone()).unwrap())
        .collect()
}

#[test]
fn named_objects_come_from_the_catalog_name_dictionary() {
    let doc = doc(
        "/Names 10 0 R",
        &[
            (
                10,
                "<< /Dests 11 0 R /EmbeddedFiles << /Names [(a.txt) 14 0 R] >> >>",
            ),
            (11, "<< /Kids [12 0 R 13 0 R] >>"),
            (
                12,
                "<< /Limits [(Chapter1) (Chapter2)] /Names [(Chapter1) [3 0 R /Fit] (Chapter2) 15 0 R] >>",
            ),
            (
                13,
                "<< /Limits [(Index) (Index)] /Names [(Index) [3 0 R /XYZ 0 0 null]] >>",
            ),
            (14, "<< /Type /Filespec /F (a.txt) >>"),
            (15, "[3 0 R /FitH 700]"),
        ],
    );
    let page = Object::Ref(ObjRef { num: 3, gen: 0 });
    assert_eq!(
        doc.named(NameTree::Dests, b"Chapter1"),
        Some(Object::Array(vec![
            page.clone(),
            Object::Name(Name("Fit".into()))
        ]))
    );
    assert_eq!(
        doc.named(NameTree::Dests, b"Chapter2"),
        Some(Object::Array(vec![
            page,
            Object::Name(Name("FitH".into())),
            Object::Int(700)
        ]))
    );
    assert_eq!(doc.named(NameTree::Dests, b"Chapter3"), None);
    let spec = doc.named(NameTree::EmbeddedFiles, b"a.txt").unwrap();
    assert_eq!(
        spec.as_dict().unwrap().get("F"),
        Some(&Object::String(b"a.txt".to_vec()))
    );
    assert_eq!(
        keys(&doc.names(NameTree::Dests)),
        ["Chapter1", "Chapter2", "Index"]
    );
    assert_eq!(keys(&doc.names(NameTree::EmbeddedFiles)), ["a.txt"]);
    assert_eq!(doc.named(NameTree::JavaScript, b"init"), None);
    assert!(doc.names(NameTree::JavaScript).is_empty());
}

#[test]
fn documents_without_a_name_dictionary_have_no_names() {
    let plain = doc("", &[]);
    assert_eq!(plain.named(NameTree::Dests, b"x"), None);
    assert!(plain.names(NameTree::Dests).is_empty());
    for tree in NameTree::ALL {
        assert!(plain.names(tree).is_empty(), "{tree:?}");
    }
    let broken = doc("/Names 10 0 R", &[(10, "[1 2 3]")]);
    assert_eq!(broken.named(NameTree::Dests, b"x"), None);
    let broken = doc("/Names << /Dests (nope) >>", &[]);
    assert!(broken.names(NameTree::Dests).is_empty());
}

#[test]
fn every_table_31_tree_has_its_dictionary_key() {
    let keys: Vec<&str> = NameTree::ALL.iter().map(|t| t.key()).collect();
    assert_eq!(
        keys,
        [
            "Dests",
            "AP",
            "JavaScript",
            "Pages",
            "Templates",
            "IDS",
            "URLS",
            "EmbeddedFiles",
            "AlternatePresentations",
            "Renditions"
        ]
    );
}

#[test]
fn every_listed_name_is_found() {
    let doc = doc(
        "/Names << /Dests << /Kids [10 0 R 11 0 R] >> >>",
        &[
            (10, "<< /Names [(a) 1 (b) 2] /Limits [(a) (b)] >>"),
            (11, "<< /Names [(c) 3 (d) 4] /Limits [(c) (d)] >>"),
        ],
    );
    assert!(name_tree_root_with(&doc, &doc.trailer, NameTree::Dests).is_some());
    assert!(name_tree_root_with(&doc, &doc.trailer, NameTree::Pages).is_none());
    let listed = doc.names(NameTree::Dests);
    assert_eq!(listed.len(), 4);
    for (key, value) in listed {
        assert_eq!(doc.named(NameTree::Dests, &key), Some(value));
    }
}
