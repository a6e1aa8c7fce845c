use pdfboss_core::error::{Error, Result};
use pdfboss_core::measure::{
    viewports_with, Bounds, FractionFormat, LabelPosition, NumberFormat, Viewport,
};
use pdfboss_core::number::Real;
use pdfboss_core::object::{Dict, Name, ObjRef, Object, Stream};
use pdfboss_core::parser::{NoResolve, Parser};
use pdfboss_core::single::Single;
use pdfboss_core::source::{ObjectSource, SourceV};
use std::collections::HashMap;

/// A real with the value of a float.
fn float(v: f64) -> Real {
    Real { bits: v.to_bits() }
}

fn single(v: f32) -> Single {
    Single { bits: v.to_bits() }
}

fn bounds(x0: f32, y0: f32, x1: f32, y1: f32) -> Bounds {
    Bounds { x0: single(x0), y0: single(y0), x1: single(x1), y1: single(y1) }
}

/// A document in memory: its objects by number, and the trailer.
struct Document {
    objects: HashMap<u32, Object>,
    trailer: Dict,
}

impl ObjectSource for Document {
    fn model(&self) -> SourceV {
        unreachable!("a model is only spoken of")
    }

    fn get(&self, r: ObjRef) -> Result<Object> {
        match self.objects.get(&r.num) {
            Some(o) if r.gen == 0 => Ok(o.clone()),
            _ => Err(Error::Other("missing object".to_string())),
        }
    }

    fn stream_data(&self, s: &Stream) -> Result<Vec<u8>> {
        Ok(s.data.clone())
    }
}

/// Collects the objects of a document.
struct PdfBuilder {
    objects: HashMap<u32, Object>,
}

impl PdfBuilder {
    fn new() -> PdfBuilder {
        PdfBuilder { objects: HashMap::new() }
    }

    fn object(&mut self, num: u32, body: &str) {
        let object = Parser::new(body.as_bytes()).parse_object(&NoResolve).expect("an object");
        self.objects.insert(num, object);
    }

    fn build(self, root: u32) -> Document {
        let mut trailer = Dict::new();
        trailer.insert(Name("Root".to_string()), Object::Ref(ObjRef { num: root, gen: 0 }));
        Document { objects: self.objects, trailer }
    }
}

impl Document {
    fn viewports(&self, page: &Dict) -> Vec<Viewport> {
        viewports_with(self, page)
    }

    /// The dictionary of the page at `index`.
    fn page(&self, index: usize) -> Option<Dict> {
        self.objects[&(3 + index as u32)].as_dict().cloned()
    }
}

fn doc_with(page_extra: &str) -> Document {
    let mut b = PdfBuilder::new();
    b.object(1, "<< /Type /Catalog /Pages 2 0 R >>");
    b.object(2, "<< /Type /Pages /Kids [3 0 R] /Count 1 >>");
    b.object(
        3,
        &format!("<< /Type /Page /Parent 2 0 R /MediaBox [0 0 612 792] {page_extra} >>"),
    );
    b.object(
        20,
        "<< /Type /Viewport /BBox [0 0 612 792] /Name (Map) \
         /Measure << /Type /Measure /Subtype /RL /R (1in = 0.1 mi) \
         /X [ << /Type /NumberFormat /U (mi) /C 0.00139 /D 100000 >> ] \
         /D [ << /U (mi) /C 1 >> << /U (feet) /C 5280 /F /F /D 8 >> ] \
         /A [ << /U (acres) /C 640 >> ] >> >>",
    );
    b.build(1)
}

fn viewports(page_extra: &str) -> Vec<Viewport> {
    let doc = doc_with(page_extra);
    doc.viewports(&doc.page(0).unwrap())
}

#[test]
fn reads_viewports_with_their_measures_and_the_tables_defaults() {
    let viewports = viewports("/VP [ 20 0 R << /BBox [100 10 10 100] >> ]");
    assert_eq!(viewports.len(), 2);
    let map = &viewports[0];
    assert_eq!(map.bbox, bounds(0.0, 0.0, 612.0, 792.0));
    assert_eq!(map.name.as_deref(), Some("Map"));
    let measure = map.measure.as_ref().unwrap();
    assert_eq!(measure.subtype, "RL");
    assert_eq!(measure.scale_ratio.as_deref(), Some("1in = 0.1 mi"));
    assert_eq!(
        measure.x,
        [NumberFormat {
            unit: "mi".into(),
            conversion: float(0.00139),
            fraction: FractionFormat::Decimal,
            precision: 100000,
            fixed_denominator: false,
            thousands: ",".into(),
            radix: ".".into(),
            prefix_spacing: " ".into(),
            suffix_spacing: " ".into(),
            label: LabelPosition::Suffix,
        }]
    );
    assert_eq!(measure.distance.len(), 2);
    assert_eq!(measure.distance[0].unit, "mi");
    assert_eq!(measure.distance[0].conversion, float(1.0));
    assert_eq!(measure.distance[1].unit, "feet");
    assert_eq!(measure.distance[1].conversion, float(5280.0));
    assert_eq!(measure.distance[1].fraction, FractionFormat::Fraction);
    assert_eq!(measure.distance[1].precision, 8);
    assert_eq!(measure.area.len(), 1);
    assert_eq!(measure.area[0].unit, "acres");
    assert!(measure.y.is_empty());
    assert!(measure.angle.is_empty());
    assert!(measure.slope.is_empty());
    assert_eq!(measure.origin, (float(0.0), float(0.0)));
    assert_eq!(measure.y_to_x, None);
    let plain = &viewports[1];
    assert_eq!(plain.bbox, bounds(10.0, 10.0, 100.0, 100.0));
    assert_eq!(plain.name, None);
    assert_eq!(plain.measure, None);
}

#[test]
fn reads_the_optional_measure_entries() {
    let viewports = viewports(
        "/VP [ << /BBox [0 0 1 1] /Measure << /Subtype /GEO /Y [ << /U (m) /C 2 >> ] \
         /O [5 6] /CYX 2 /T [ << /U (deg) /C 1 /O /P /RT (.) /RD (,) /PS () /SS () \
         /FD true /F /R >> ] /S [ 7 << /U (%) >> << /C 1 >> ] /D [ << /U (m) /C 1 /F /Weird >> ] >> >> ]",
    );
    let measure = viewports[0].measure.as_ref().unwrap();
    assert_eq!(measure.subtype, "GEO");
    assert_eq!(measure.scale_ratio, None);
    assert_eq!(measure.y.len(), 1);
    assert_eq!(measure.y[0].unit, "m");
    assert_eq!(measure.y[0].precision, 100);
    assert_eq!(measure.origin, (float(5.0), float(6.0)));
    assert_eq!(measure.y_to_x, Some(float(2.0)));
    let angle = &measure.angle[0];
    assert_eq!(angle.label, LabelPosition::Prefix);
    assert_eq!(angle.thousands, ".");
    assert_eq!(angle.radix, ",");
    assert_eq!(angle.prefix_spacing, "");
    assert_eq!(angle.suffix_spacing, "");
    assert!(angle.fixed_denominator);
    assert_eq!(angle.fraction, FractionFormat::Round);
    assert!(measure.slope.is_empty());
    assert_eq!(measure.distance[0].fraction, FractionFormat::Decimal);
}

#[test]
fn missing_or_malformed_viewports_read_as_none() {
    assert!(viewports("").is_empty());
    assert!(viewports("/VP 5").is_empty());
    let odd = viewports(
        "/VP [ 7 << /Name (no box) >> << /BBox [0 0 1] >> << /BBox [0 0 5 5] /Measure 3 >> ]",
    );
    assert_eq!(odd.len(), 1);
    assert_eq!(odd[0].bbox, bounds(0.0, 0.0, 5.0, 5.0));
    assert_eq!(odd[0].measure, None);
}

#[test]
fn names_of_measure_entries_are_read() {
    assert_eq!(FractionFormat::from_name("D"), Some(FractionFormat::Decimal));
    assert_eq!(FractionFormat::from_name("T"), Some(FractionFormat::Truncate));
    assert_eq!(FractionFormat::from_name("x"), None);
    assert_eq!(LabelPosition::from_name("S"), Some(LabelPosition::Suffix));
    assert_eq!(LabelPosition::from_name("x"), None);
}

#[test]
fn a_viewport_is_copied_with_its_measure() {
    let viewports = viewports("/VP [ 20 0 R ]");
    assert!(viewports[0].measure.is_some());
    assert_eq!(viewports[0].clone(), viewports[0]);
}

#[test]
fn boxes_are_narrowed_and_turned_the_right_way_round() {
    let boxes = viewports("/VP [ << /BBox [0.1 16777217 -0.3 2.5] >> ]");
    assert_eq!(boxes[0].bbox, bounds(-0.3, 2.5, 0.1, 16777216.0));
}
