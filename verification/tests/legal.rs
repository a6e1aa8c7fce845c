use pdfboss_core::error::{Error, Result};
use pdfboss_core::legal::{legal_attestation_with, LegalAttestation};
use pdfboss_core::object::{Dict, Name, ObjRef, Object, Stream};
use pdfboss_core::parser::{NoResolve, Parser};
use pdfboss_core::source::{ObjectSource, SourceV};
use std::collections::HashMap;

/// A document in memory: its objects by number, and the trailer.
struct Document {
    objects: HashMap<u32, Object>,
    trailer: Dict,
}

impl ObjectSource for Document {
    fn model(&self) -> SourceV {
        unreachable!("a model is only spoken of")
    }

    fn get(&self, r: ObjRef) -> Result<Object> {
        match self.objects.get(&r.num) {
            Some(o) if r.gen == 0 => Ok(o.clone()),
            _ => Err(Error::Other("missing object".to_string())),
        }
    }

    fn stream_data(&self, s: &Stream) -> Result<Vec<u8>> {
        Ok(s.data.clone())
    }
}

/// Collects the objects of a document.
struct PdfBuilder {
    objects: HashMap<u32, Object>,
}

impl PdfBuilder {
    fn new() -> PdfBuilder {
        PdfBuilder { objects: HashMap::new() }
    }

    fn object(&mut self, num: u32, body: &str) {
        let object = Parser::new(body.as_bytes()).parse_object(&NoResolve).expect("an object");
        self.objects.insert(num, object);
    }

    fn build(self, root: u32) -> Document {
        let mut trailer = Dict::new();
        trailer.insert(Name("Root".to_string()), Object::Ref(ObjRef { num: root, gen: 0 }));
        Document { objects: self.objects, trailer }
    }
}

impl Document {
    fn legal_attestation(&self) -> Option<LegalAttestation> {
        legal_attestation_with(self, &self.trailer)
    }
}

fn doc_with(catalog_extra: &str) -> Document {
    let mut b = PdfBuilder::new();
    b.object(
        1,
        &format!("<< /Type /Catalog /Pages 2 0 R {catalog_extra} >>"),
    );
    b.object(2, "<< /Type /Pages /Kids [] /Count 0 >>");
    b.build(1)
}

#[test]
fn reads_the_legal_attestation_counts() {
    let legal = doc_with(
        "/Legal << /JavaScriptActions 2 /LaunchActions 1 /URIActions 3 /MovieActions 4 \
         /SoundActions 5 /HideAnnotationActions 6 /GoToRemoteActions 7 /AlternateImages 8 \
         /ExternalStreams 9 /TrueTypeFonts 10 /ExternalRefXobjects 11 /ExternalOPIdicts 12 \
         /NonEmbeddedFonts 13 /DevDepGS_OP 14 /DevDepGS_HT 15 /DevDepGS_TR 16 /DevDepGS_UCR 17 \
         /DevDepGS_BG 18 /DevDepGS_FL 19 /Annotations 20 /OptionalContent 21 \
         /Attestation (Reviewed by counsel) >>",
    )
    .legal_attestation()
    .unwrap();
    assert_eq!(
        legal,
        LegalAttestation {
            java_script_actions: 2,
            launch_actions: 1,
            uri_actions: 3,
            movie_actions: 4,
            sound_actions: 5,
            hide_annotation_actions: 6,
            go_to_remote_actions: 7,
            alternate_images: 8,
            external_streams: 9,
            true_type_fonts: 10,
            external_ref_xobjects: 11,
            external_opi_dicts: 12,
            non_embedded_fonts: 13,
            dev_dep_gs_op: 14,
            dev_dep_gs_ht: 15,
            dev_dep_gs_tr: 16,
            dev_dep_gs_ucr: 17,
            dev_dep_gs_bg: 18,
            dev_dep_gs_fl: 19,
            annotations: 20,
            optional_content: 21,
            attestation: Some("Reviewed by counsel".into()),
        }
    );
    let sparse = doc_with("/Legal << /URIActions 3 >>")
        .legal_attestation()
        .unwrap();
    assert_eq!(sparse.uri_actions, 3);
    assert_eq!(sparse.non_embedded_fonts, 0);
    assert_eq!(sparse.attestation, None);
}

#[test]
fn missing_or_malformed_legal_reads_as_absent() {
    assert_eq!(doc_with("").legal_attestation(), None);
    assert_eq!(doc_with("/Legal 5").legal_attestation(), None);
    assert_eq!(
        doc_with("/Legal << >>").legal_attestation(),
        Some(LegalAttestation::default())
    );
    let odd = doc_with("/Legal << /URIActions (x) /Annotations -3 /Attestation 7 >>")
        .legal_attestation()
        .unwrap();
    assert_eq!(odd.uri_actions, 0);
    assert_eq!(odd.annotations, 0);
    assert_eq!(odd.attestation, None);
}
