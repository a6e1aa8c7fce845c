use pdfboss_core::error::{Error, Result};
use pdfboss_core::object::{Dict, Name, ObjRef, Object, Stream};
use pdfboss_core::parser::{NoResolve, Parser};
use pdfboss_core::permission::{permission_handlers_with, PermissionHandlers};
use pdfboss_core::source::{ObjectSource, SourceV};
use std::collections::HashMap;

/// A document in memory: its objects by number, and the trailer.
struct Document {
    objects: HashMap<u32, Object>,
    trailer: Dict,
}

impl ObjectSource for Document {
    fn model(&self) -> SourceV {
        unreachable!("a model is only spoken of")
    }

    fn get(&self, r: ObjRef) -> Result<Object> {
        match self.objects.get(&r.num) {
            Some(o) if r.gen == 0 => Ok(o.clone()),
            _ => Err(Error::Other("missing object".to_string())),
        }
    }

    fn stream_data(&self, s: &Stream) -> Result<Vec<u8>> {
        Ok(s.data.clone())
    }
}

/// Collects the objects of a document.
struct PdfBuilder {
    objects: HashMap<u32, Object>,
}

impl PdfBuilder {
    fn new() -> PdfBuilder {
        PdfBuilder { objects: HashMap::new() }
    }

    fn object(&mut self, num: u32, body: &str) {
        let object = Parser::new(body.as_bytes()).parse_object(&NoResolve).expect("an object");
        self.objects.insert(num, object);
    }

    fn build(self, root: u32) -> Document {
        let mut trailer = Dict::new();
        trailer.insert(Name("Root".to_string()), Object::Ref(ObjRef { num: root, gen: 0 }));
        Document { objects: self.objects, trailer }
    }
}

impl Document {
    fn permission_handlers(&self) -> Option<PermissionHandlers> {
        permission_handlers_with(self, &self.trailer)
    }
}

fn doc_with(catalog_extra: &str) -> Document {
    let mut b = PdfBuilder::new();
    b.object(
        1,
        &format!("<< /Type /Catalog /Pages 2 0 R {catalog_extra} >>"),
    );
    b.object(2, "<< /Type /Pages /Kids [] /Count 0 >>");
    b.object(
        15,
        "<< /Type /Sig /Filter /Adobe.PPKLite /SubFilter /adbe.pkcs7.detached \
         /ByteRange [0 10 20 30] /Contents <0102> /Name (Certifier) \
         /Reference [ << /TransformMethod /DocMDP /TransformParams << /P 1 >> >> ] >>",
    );
    b.build(1)
}

#[test]
fn reads_the_doc_mdp_and_usage_rights_handlers() {
    let doc = doc_with(
        "/Perms << /DocMDP 15 0 R /UR3 << /Filter /Adobe.PPKLite /SubFilter /adbe.pkcs7.sha1 \
         /ByteRange [0 1 2 3] /Contents <ff> /Reason (Usage rights) >> >>",
    );
    let handlers = doc.permission_handlers().unwrap();
    let doc_mdp = handlers.doc_mdp.unwrap();
    assert_eq!(doc_mdp.filter.as_deref(), Some("Adobe.PPKLite"));
    assert_eq!(doc_mdp.sub_filter.as_deref(), Some("adbe.pkcs7.detached"));
    assert_eq!(doc_mdp.byte_range, vec![(0, 10), (20, 30)]);
    assert_eq!(doc_mdp.contents, vec![1, 2]);
    assert_eq!(doc_mdp.name.as_deref(), Some("Certifier"));
    let usage_rights = handlers.usage_rights.unwrap();
    assert_eq!(usage_rights.sub_filter.as_deref(), Some("adbe.pkcs7.sha1"));
    assert_eq!(usage_rights.reason.as_deref(), Some("Usage rights"));
    assert_eq!(usage_rights.name, None);
}

#[test]
fn missing_or_malformed_permissions_read_as_absent() {
    assert_eq!(doc_with("").permission_handlers(), None);
    assert_eq!(doc_with("/Perms 7").permission_handlers(), None);
    let empty = doc_with("/Perms << >>").permission_handlers().unwrap();
    assert_eq!(empty.doc_mdp, None);
    assert_eq!(empty.usage_rights, None);
    let odd = doc_with("/Perms << /DocMDP 42 /UR3 [1 2] >>")
        .permission_handlers()
        .unwrap();
    assert_eq!(odd.doc_mdp, None);
    assert_eq!(odd.usage_rights, None);
}
