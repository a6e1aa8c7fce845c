use pdfboss_core::error::{Error, Result};
use pdfboss_core::object::{Dict, Name, ObjRef, Object, Stream};
use pdfboss_core::parser::{NoResolve, Parser};
use pdfboss_core::requirement::{requirements_with, Requirement, RequirementHandler};
use pdfboss_core::source::{ObjectSource, SourceV};
use std::collections::HashMap;

/// A document in memory: its objects by number, and the trailer.
struct Document {
    objects: HashMap<u32, Object>,
    trailer: Dict,
}

impl ObjectSource for Document {
    fn model(&self) -> SourceV {
        unreachable!("a model is only spoken of")
    }

    fn get(&self, r: ObjRef) -> Result<Object> {
        match self.objects.get(&r.num) {
            Some(o) if r.gen == 0 => Ok(o.clone()),
            _ => Err(Error::Other("missing object".to_string())),
        }
    }

    fn stream_data(&self, s: &Stream) -> Result<Vec<u8>> {
        Ok(s.data.clone())
    }
}

/// Collects the objects of a document.
struct PdfBuilder {
    objects: HashMap<u32, Object>,
}

impl PdfBuilder {
    fn new() -> PdfBuilder {
        PdfBuilder { objects: HashMap::new() }
    }

    fn object(&mut self, num: u32, body: &str) {
        let object = Parser::new(body.as_bytes()).parse_object(&NoResolve).expect("an object");
        self.objects.insert(num, object);
    }

    fn build(self, root: u32) -> Document {
        let mut trailer = Dict::new();
        trailer.insert(Name("Root".to_string()), Object::Ref(ObjRef { num: root, gen: 0 }));
        Document { objects: self.objects, trailer }
    }
}

impl Document {
    fn requirements(&self) -> Vec<Requirement> {
        requirements_with(self, &self.trailer)
    }
}

fn doc_with(catalog_extra: &str) -> Document {
    let mut b = PdfBuilder::new();
    b.object(
        1,
        &format!("<< /Type /Catalog /Pages 2 0 R {catalog_extra} >>"),
    );
    b.object(2, "<< /Type /Pages /Kids [] /Count 0 >>");
    b.object(
        20,
        "<< /Type /Requirement /S /EnableJavaScripts \
         /RH << /Type /ReqHandler /S /JS /Script (init) >> >>",
    );
    b.object(21, "<< /Type /ReqHandler /S /JS /Script (fallback) >>");
    b.build(1)
}

#[test]
fn reads_the_requirement_handlers() {
    let doc = doc_with(
        "/Requirements [20 0 R << /S /Custom /RH [ << /Type /ReqHandler /S /NoOp >> 21 0 R ] >>]",
    );
    let requirements = doc.requirements();
    assert_eq!(
        requirements[0].handlers,
        [RequirementHandler {
            kind: "JS".into(),
            script: Some("init".into()),
        }]
    );
    assert_eq!(
        requirements[1].handlers,
        [
            RequirementHandler {
                kind: "NoOp".into(),
                script: None,
            },
            RequirementHandler {
                kind: "JS".into(),
                script: Some("fallback".into()),
            },
        ]
    );
}

#[test]
fn missing_or_malformed_handlers_read_as_none() {
    let doc = doc_with(
        "/Requirements [ << /S /A >> << /S /B /RH 7 >> \
         << /S /C /RH [ 7 (text) << /Type /ReqHandler >> << /S /NoOp >> ] >> ]",
    );
    let counts: Vec<usize> = doc
        .requirements()
        .iter()
        .map(|requirement| requirement.handlers.len())
        .collect();
    assert_eq!(counts, [0, 0, 1]);
}

#[test]
fn reads_the_requirements_in_order() {
    let doc = doc_with("/Requirements [20 0 R << /Type /Requirement /S /Custom >>]");
    let requirements = doc.requirements();
    let kinds: Vec<&str> = requirements
        .iter()
        .map(|requirement| requirement.kind.as_str())
        .collect();
    assert_eq!(kinds, ["EnableJavaScripts", "Custom"]);
}

#[test]
fn missing_or_malformed_requirements_read_as_none() {
    assert!(doc_with("").requirements().is_empty());
    assert!(doc_with("/Requirements 20 0 R").requirements().is_empty());
    let odd =
        doc_with("/Requirements [7 (text) << /Type /Requirement >> 20 0 R]").requirements();
    assert_eq!(odd.len(), 1);
    assert_eq!(odd[0].kind, "EnableJavaScripts");
}
