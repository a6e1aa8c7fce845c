use pdfboss_core::error::{Error, Result};
use pdfboss_core::number::Real;
use pdfboss_core::object::{Dict, Name, ObjRef, Object, Stream};
use pdfboss_core::parser::{NoResolve, Parser};
use pdfboss_core::presentation::{
    presentation_with, Dimension, Motion, Presentation, Transition, TransitionDirection,
    TransitionStyle,
};
use pdfboss_core::source::{ObjectSource, SourceV};
use std::collections::HashMap;

/// A real with the value of a float.
fn float(v: f64) -> Real {
    Real { bits: v.to_bits() }
}

/// A document in memory: its objects by number, and the trailer.
struct Document {
    objects: HashMap<u32, Object>,
    trailer: Dict,
}

impl ObjectSource for Document {
    fn model(&self) -> SourceV {
        unreachable!("a model is only spoken of")
    }

    fn get(&self, r: ObjRef) -> Result<Object> {
        match self.objects.get(&r.num) {
            Some(o) if r.gen == 0 => Ok(o.clone()),
            _ => Err(Error::Other("missing object".to_string())),
        }
    }

    fn stream_data(&self, s: &Stream) -> Result<Vec<u8>> {
        Ok(s.data.clone())
    }
}

/// Collects the objects of a document.
struct PdfBuilder {
    objects: HashMap<u32, Object>,
}

impl PdfBuilder {
    fn new() -> PdfBuilder {
        PdfBuilder { objects: HashMap::new() }
    }

    fn object(&mut self, num: u32, body: &str) {
        let object = Parser::new(body.as_bytes()).parse_object(&NoResolve).expect("an object");
        self.objects.insert(num, object);
    }

    fn build(self, root: u32) -> Document {
        let mut trailer = Dict::new();
        trailer.insert(Name("Root".to_string()), Object::Ref(ObjRef { num: root, gen: 0 }));
        Document { objects: self.objects, trailer }
    }
}

impl Document {
    fn presentation(&self, page: &Dict) -> Option<Presentation> {
        presentation_with(self, page)
    }

    /// The dictionary of the page at `index`.
    fn page(&self, index: usize) -> Option<Dict> {
        self.objects[&(3 + index as u32)].as_dict().cloned()
    }
}

fn doc_with(page_extra: &str) -> Document {
    let mut b = PdfBuilder::new();
    b.object(1, "<< /Type /Catalog /Pages 2 0 R >>");
    b.object(2, "<< /Type /Pages /Kids [3 0 R] /Count 1 >>");
    b.object(
        3,
        &format!("<< /Type /Page /Parent 2 0 R /MediaBox [0 0 10 10] {page_extra} >>"),
    );
    b.build(1)
}

fn presentation(page_extra: &str) -> Option<Presentation> {
    let doc = doc_with(page_extra);
    doc.presentation(&doc.page(0).unwrap())
}

#[test]
fn reads_the_duration_and_the_transition_with_the_tables_defaults() {
    let shown =
        presentation("/Dur 5 /Trans << /Type /Trans /D 3.5 /S /Split /Dm /V /M /O >>").unwrap();
    assert_eq!(shown.duration, Some(float(5.0)));
    assert_eq!(
        shown.transition,
        Some(Transition {
            style: TransitionStyle::Split,
            duration: float(3.5),
            dimension: Dimension::Vertical,
            motion: Motion::Outward,
            direction: TransitionDirection::Angle(0),
            scale: float(1.0),
            opaque: false,
        })
    );
    let fly = presentation("/Trans << /S /Fly /Di /None /SS 0.5 /B true >>").unwrap();
    assert_eq!(fly.duration, None);
    let fly = fly.transition.unwrap();
    assert_eq!(fly.style, TransitionStyle::Fly);
    assert_eq!(fly.direction, TransitionDirection::NoDirection);
    assert_eq!((fly.scale, fly.opaque), (float(0.5), true));
    let wipe = presentation("/Trans << /S /Wipe /Di 270 >>")
        .unwrap()
        .transition
        .unwrap();
    assert_eq!(wipe.style, TransitionStyle::Wipe);
    assert_eq!(wipe.direction, TransitionDirection::Angle(270));
    assert_eq!(
        presentation("/Trans << >>").unwrap().transition,
        Some(Transition::default())
    );
    assert_eq!(Transition::default().style, TransitionStyle::Replace);
    assert_eq!(Transition::default().duration, float(1.0));
}

#[test]
fn pages_without_the_entries_have_no_presentation_and_odd_values_fall_back() {
    assert_eq!(presentation(""), None);
    assert_eq!(
        presentation("/Dur 7"),
        Some(Presentation {
            duration: Some(float(7.0)),
            transition: None,
        })
    );
    assert_eq!(presentation("/Trans 5"), None);
    assert_eq!(
        presentation("/Dur 2 /Trans 5"),
        Some(Presentation {
            duration: Some(float(2.0)),
            transition: None,
        })
    );
    let odd = presentation("/Trans << /S /Sparkle /Dm /Q /M /Z /Di 45 >>")
        .unwrap()
        .transition
        .unwrap();
    assert_eq!(odd.style, TransitionStyle::Replace);
    assert_eq!(odd.dimension, Dimension::Horizontal);
    assert_eq!(odd.motion, Motion::Inward);
    assert_eq!(odd.direction, TransitionDirection::Angle(45));
}

#[test]
fn names_of_presentation_entries_are_read() {
    assert_eq!(TransitionStyle::from_name("Blinds"), Some(TransitionStyle::Blinds));
    assert_eq!(TransitionStyle::from_name("R"), Some(TransitionStyle::Replace));
    assert_eq!(TransitionStyle::from_name("Nope"), None);
    assert_eq!(Dimension::from_name("H"), Some(Dimension::Horizontal));
    assert_eq!(Dimension::from_name("x"), None);
    assert_eq!(Motion::from_name("I"), Some(Motion::Inward));
    assert_eq!(Motion::from_name("x"), None);
}
