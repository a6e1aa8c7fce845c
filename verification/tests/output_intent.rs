use pdfboss_core::error::{Error, Result};
use pdfboss_core::object::{Dict, Name, ObjRef, Object, Stream};
use pdfboss_core::output_intent::{output_intents_with, OutputIntent};
use pdfboss_core::parser::{NoResolve, Parser};
use pdfboss_core::source::{ObjectSource, SourceV};
use std::collections::HashMap;

/// A document in memory: its objects by number, and the trailer.
struct Document {
    objects: HashMap<u32, Object>,
    trailer: Dict,
}

impl ObjectSource for Document {
    fn model(&self) -> SourceV {
        unreachable!("a model is only spoken of")
    }

    fn get(&self, r: ObjRef) -> Result<Object> {
        match self.objects.get(&r.num) {
            Some(o) if r.gen == 0 => Ok(o.clone()),
            _ => Err(Error::Other("missing object".to_string())),
        }
    }

    fn stream_data(&self, s: &Stream) -> Result<Vec<u8>> {
        Ok(s.data.clone())
    }
}

/// Collects the objects of a document.
struct PdfBuilder {
    objects: HashMap<u32, Object>,
}

impl PdfBuilder {
    fn new() -> PdfBuilder {
        PdfBuilder { objects: HashMap::new() }
    }

    fn object(&mut self, num: u32, body: &str) {
        let object = Parser::new(body.as_bytes()).parse_object(&NoResolve).expect("an object");
        self.objects.insert(num, object);
    }

    fn build(self, root: u32) -> Document {
        let mut trailer = Dict::new();
        trailer.insert(Name("Root".to_string()), Object::Ref(ObjRef { num: root, gen: 0 }));
        Document { objects: self.objects, trailer }
    }
}

impl Document {
    fn output_intents(&self) -> Vec<OutputIntent> {
        output_intents_with(self, &self.trailer)
    }
}

fn with_intents(output_intents: &str) -> Document {
    let mut b = PdfBuilder::new();
    b.object(
        1,
        &format!("<< /Type /Catalog /Pages 2 0 R /OutputIntents {output_intents} >>"),
    );
    b.object(2, "<< /Type /Pages /Kids [] /Count 0 >>");
    b.object(
        5,
        "<< /Type /OutputIntent /S /GTS_PDFX /OutputCondition (CGATS TR 001 (SWOP)) \
         /OutputConditionIdentifier (CGATS TR 001) /RegistryName (http://www.color.org) \
         /DestOutputProfile 100 0 R >>",
    );
    b.build(1)
}

fn plain_document() -> Document {
    let mut b = PdfBuilder::new();
    b.object(1, "<< /Type /Catalog /Pages 2 0 R >>");
    b.object(2, "<< /Type /Pages /Kids [] /Count 0 >>");
    b.build(1)
}

#[test]
fn reads_every_entry_of_the_output_intent_dictionaries() {
    let doc = with_intents(
        "[ 5 0 R << /S /GTS_PDFA1 /OutputConditionIdentifier (sRGB IEC61966-2.1) \
         /Info <FEFF007300520047004200200070007200650076006900650077> >> ]",
    );
    assert_eq!(
        doc.output_intents(),
        vec![
            OutputIntent {
                subtype: "GTS_PDFX".to_string(),
                output_condition: Some("CGATS TR 001 (SWOP)".to_string()),
                output_condition_identifier: Some("CGATS TR 001".to_string()),
                registry_name: Some("http://www.color.org".to_string()),
                info: None,
                destination_profile: Some(ObjRef { num: 100, gen: 0 }),
            },
            OutputIntent {
                subtype: "GTS_PDFA1".to_string(),
                output_condition: None,
                output_condition_identifier: Some("sRGB IEC61966-2.1".to_string()),
                registry_name: None,
                info: Some("sRGB preview".to_string()),
                destination_profile: None,
            },
        ]
    );
}

#[test]
fn malformed_intents_are_skipped_and_a_direct_profile_is_no_reference() {
    let doc = with_intents(
        "[ << /Type /OutputIntent /OutputConditionIdentifier (nameless) >> 42 \
         << /S /ISO_PDFE1 /DestOutputProfile << /N 3 >> >> ]",
    );
    let intents = doc.output_intents();
    assert_eq!(intents.len(), 1);
    assert_eq!(intents[0].subtype, "ISO_PDFE1");
    assert_eq!(intents[0].destination_profile, None);
    assert_eq!(with_intents("<< /S /GTS_PDFX >>").output_intents(), vec![]);
    let plain = plain_document();
    assert_eq!(plain.output_intents(), vec![]);
}
