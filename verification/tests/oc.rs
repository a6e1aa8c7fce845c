use pdfboss_core::error::{Error, Result};
use pdfboss_core::number::Real;
use pdfboss_core::object::{Dict, Name, ObjRef, Object, Stream};
use pdfboss_core::oc::{
    optional_content_groups_with, OcEvent, OcGroup, OcState, OcUsage, MAX_VE_DEPTH,
};
use pdfboss_core::parser::{NoResolve, Parser};
use pdfboss_core::source::{ObjectSource, SourceV};
use std::collections::HashMap;
use std::sync::Arc;

/// A real with the value of a float.
fn float(v: f64) -> Real {
    Real { bits: v.to_bits() }
}

/// A document in memory: its objects by number, and the trailer.
struct Document {
    objects: HashMap<u32, Object>,
    trailer: Dict,
}

impl ObjectSource for Document {
    fn model(&self) -> SourceV {
        unreachable!("a model is only spoken of")
    }

    fn get(&self, r: ObjRef) -> Result<Object> {
        match self.objects.get(&r.num) {
            Some(o) if r.gen == 0 => Ok(o.clone()),
            _ => Err(Error::Other("missing object".to_string())),
        }
    }

    fn stream_data(&self, s: &Stream) -> Result<Vec<u8>> {
        Ok(s.data.clone())
    }
}

/// Collects the objects of a document.
struct PdfBuilder {
    objects: HashMap<u32, Object>,
}

impl PdfBuilder {
    fn new() -> PdfBuilder {
        PdfBuilder { objects: HashMap::new() }
    }

    fn object(&mut self, num: u32, body: &str) {
        let object = Parser::new(body.as_bytes()).parse_object(&NoResolve).expect("an object");
        self.objects.insert(num, object);
    }

    fn build(self, root: u32) -> Document {
        let mut trailer = Dict::new();
        trailer.insert(Name("Root".to_string()), Object::Ref(ObjRef { num: root, gen: 0 }));
        Document { objects: self.objects, trailer }
    }
}

impl Document {
    fn oc_state(&self) -> Option<OcState> {
        OcState::load_with(self, &self.trailer)
    }

    fn oc_state_for(&self, event: Option<OcEvent>) -> Option<OcState> {
        OcState::load_for_with(self, &self.trailer, event)
    }

    fn optional_content_groups(&self, event: Option<OcEvent>) -> Vec<OcGroup> {
        optional_content_groups_with(self, &self.trailer, event)
    }
}

fn gref(num: u32) -> ObjRef {
    ObjRef { num, gen: 0 }
}

fn doc_with_oc(oc_props: &str, extra: impl FnOnce(&mut PdfBuilder)) -> Document {
    let mut b = PdfBuilder::new();
    let oc = if oc_props.is_empty() {
        String::new()
    } else {
        format!(" /OCProperties {oc_props}")
    };
    b.object(1, &format!("<< /Type /Catalog /Pages 2 0 R{oc} >>"));
    b.object(2, "<< /Type /Pages /Kids [3 0 R] /Count 1 >>");
    b.object(3, "<< /Type /Page /Parent 2 0 R /MediaBox [0 0 100 100] >>");
    b.object(10, "<< /Type /OCG /Name (one) >>");
    b.object(11, "<< /Type /OCG /Name (two) >>");
    extra(&mut b);
    b.build(1)
}

fn visible(doc: &Document, state: &OcState, value: &Object) -> bool {
    state.visible_with(doc, value)
}

fn state_for(doc: &Document, event: Option<OcEvent>) -> OcState {
    doc.oc_state_for(event).expect("state")
}

#[test]
fn no_ocproperties_means_no_state() {
    let doc = doc_with_oc("", |_| {});
    assert_eq!(doc.oc_state(), None);
}

#[test]
fn base_state_defaults_on_and_off_hides() {
    let doc = doc_with_oc("<< /OCGs [10 0 R 11 0 R] /D << /OFF [11 0 R] >> >>", |_| {});
    let state = doc.oc_state().expect("state");
    assert!(!state.hidden(gref(10)));
    assert!(state.hidden(gref(11)));
}

#[test]
fn base_state_off_hides_all_but_on() {
    let doc = doc_with_oc(
        "<< /OCGs [10 0 R 11 0 R] /D << /BaseState /OFF /ON [10 0 R] >> >>",
        |_| {},
    );
    let state = doc.oc_state().expect("state");
    assert!(!state.hidden(gref(10)));
    assert!(state.hidden(gref(11)));
}

#[test]
fn off_is_applied_after_on() {
    let doc = doc_with_oc(
        "<< /OCGs [10 0 R] /D << /ON [10 0 R] /OFF [10 0 R] >> >>",
        |_| {},
    );
    let state = doc.oc_state().expect("state");
    assert!(state.hidden(gref(10)));
}

#[test]
fn configuration_resolves_indirection() {
    let doc = doc_with_oc("<< /OCGs 20 0 R /D 21 0 R >>", |b| {
        b.object(20, "[10 0 R 11 0 R]");
        b.object(21, "<< /BaseState 22 0 R /ON 23 0 R >>");
        b.object(22, "/OFF");
        b.object(23, "[10 0 R]");
    });
    let state = doc.oc_state().expect("state");
    assert!(!state.hidden(gref(10)));
    assert!(state.hidden(gref(11)));
}

fn split_state() -> (Document, OcState) {
    let doc = doc_with_oc("<< /OCGs [10 0 R 11 0 R] /D << /OFF [11 0 R] >> >>", |b| {
        b.object(30, "<< /Type /OCMD /OCGs [10 0 R 11 0 R] >>");
        b.object(31, "<< /Type /OCMD /OCGs [10 0 R 11 0 R] /P /AllOn >>");
        b.object(32, "<< /Type /OCMD /OCGs [10 0 R 11 0 R] /P /AnyOff >>");
        b.object(33, "<< /Type /OCMD /OCGs [10 0 R 11 0 R] /P /AllOff >>");
        b.object(34, "<< /Type /OCMD /OCGs [11 0 R] >>");
        b.object(35, "<< /Type /OCMD /OCGs [] /P /AllOff >>");
        b.object(36, "<< /Type /OCMD /OCGs [null null] /P /AllOff >>");
        b.object(37, "<< /Type /OCMD /OCGs 11 0 R /P /AnyOn >>");
        b.object(38, "<< /Type /OCMD /OCGs [11 0 R] /P /Bogus >>");
    });
    let state = doc.oc_state().expect("state");
    (doc, state)
}

#[test]
fn group_reference_visibility_follows_the_off_set() {
    let (doc, state) = split_state();
    assert!(visible(&doc, &state, &Object::Ref(gref(10))));
    assert!(!visible(&doc, &state, &Object::Ref(gref(11))));
}

#[test]
fn membership_policies_follow_the_specification() {
    let (doc, state) = split_state();
    let ocmd = |num| Object::Ref(gref(num));
    assert!(visible(&doc, &state, &ocmd(30)), "AnyOn default: 10 is on");
    assert!(!visible(&doc, &state, &ocmd(31)), "AllOn: 11 is off");
    assert!(visible(&doc, &state, &ocmd(32)), "AnyOff: 11 is off");
    assert!(!visible(&doc, &state, &ocmd(33)), "AllOff: 10 is on");
    assert!(
        !visible(&doc, &state, &ocmd(34)),
        "AnyOn over one off group"
    );
    assert!(visible(&doc, &state, &ocmd(35)), "empty /OCGs is visible");
    assert!(visible(&doc, &state, &ocmd(36)), "nulls are ignored");
    assert!(
        !visible(&doc, &state, &ocmd(37)),
        "single group by reference"
    );
    assert!(
        !visible(&doc, &state, &ocmd(38)),
        "unknown policy reads AnyOn"
    );
}

#[test]
fn malformed_values_stay_visible() {
    let (doc, state) = split_state();
    assert!(visible(&doc, &state, &Object::Null));
    assert!(visible(&doc, &state, &Object::Int(3)));
    assert!(visible(&doc, &state, &Object::Ref(gref(999))), "dangling");
    let direct_group = Object::Dict({
        let mut d = Dict::new();
        d.insert(Name("Type".into()), Object::Name(Name("OCG".into())));
        d
    });
    assert!(
        visible(&doc, &state, &direct_group),
        "a direct group dictionary has no identity to be off"
    );
}

fn ve_doc(ve: &str) -> (Document, OcState) {
    let doc = doc_with_oc("<< /OCGs [10 0 R 11 0 R] /D << /OFF [11 0 R] >> >>", |b| {
        b.object(40, &format!("<< /Type /OCMD /OCGs [10 0 R] /VE {ve} >>"));
    });
    let state = doc.oc_state().expect("state");
    (doc, state)
}

fn ve_visible(ve: &str) -> bool {
    let (doc, state) = ve_doc(ve);
    visible(&doc, &state, &Object::Ref(gref(40)))
}

#[test]
fn visibility_expressions_evaluate() {
    assert!(ve_visible("[/Not 11 0 R]"), "Not of an off group");
    assert!(!ve_visible("[/Not 10 0 R]"), "Not of an on group");
    assert!(!ve_visible("[/And 10 0 R 11 0 R]"));
    assert!(ve_visible("[/Or 10 0 R 11 0 R]"));
    assert!(!ve_visible("[/Or 11 0 R 11 0 R]"));
    assert!(
        ve_visible("[/Or 11 0 R [/Not 11 0 R]]"),
        "nested expression"
    );
    assert!(
        !ve_visible("[/And 10 0 R [/Not [/Not 11 0 R]]]"),
        "double negation"
    );
}

#[test]
fn expression_takes_precedence_over_policy() {
    assert!(!ve_visible("[/And 11 0 R]"));
}

#[test]
fn malformed_expressions_are_visible() {
    assert!(ve_visible("[]"), "no operator");
    assert!(ve_visible("[/And]"), "no operands");
    assert!(ve_visible("[/Not 11 0 R 11 0 R]"), "Not takes one operand");
    assert!(ve_visible("[/Xor 11 0 R]"), "unknown operator");
    assert!(ve_visible("[/And 11 0 R (text)]"), "non-group operand");
}

#[test]
fn expression_depth_is_capped() {
    let mut ve = "11 0 R".to_string();
    for _ in 0..(MAX_VE_DEPTH + 2) {
        ve = format!("[/Not {ve}]");
    }
    assert!(ve_visible(&ve), "past the cap reads as visible");
}

#[test]
fn named_properties_keep_group_identity() {
    let (doc, state) = split_state();
    let mut properties = Dict::new();
    properties.insert(Name("On".into()), Object::Ref(gref(10)));
    properties.insert(Name("Off".into()), Object::Ref(gref(11)));
    let mut res = Dict::new();
    res.insert(Name("Properties".into()), Object::Dict(properties));
    let chain = vec![Arc::new(res)];
    let named = |name: &str| Object::Name(Name(name.into()));
    assert!(state.props_visible_with(&doc, &chain, &named("On")));
    assert!(!state.props_visible_with(&doc, &chain, &named("Off")));
    assert!(
        state.props_visible_with(&doc, &chain, &named("Nope")),
        "an unresolvable name stays visible"
    );
}

fn usage_doc(config: &str) -> Document {
    doc_with_oc(
        &format!("<< /OCGs [10 0 R 11 0 R 12 0 R 13 0 R] /D {config} >>"),
        |b| {
            b.object(
                12,
                "<< /Type /OCG /Name (print only) /Usage << /View << /ViewState /OFF >> \
                 /Print << /PrintState /ON /Subtype /Watermark >> >> >>",
            );
            b.object(
                13,
                "<< /Type /OCG /Name (screen only) /Usage << /Export << /ExportState /OFF >> \
                 /Zoom << /min 2 >> >> >>",
            );
        },
    )
}

#[test]
fn view_usage_application_hides_a_view_state_off_group() {
    let doc = usage_doc(
        "<< /AS [ << /Event /View /OCGs [12 0 R 13 0 R] /Category [/View] >> \
         << /Event /Export /OCGs [13 0 R] /Category [/Export] >> ] >>",
    );
    let state = doc.oc_state().expect("state");
    assert!(state.hidden(gref(12)), "ViewState OFF under the View event");
    assert!(
        !state.hidden(gref(13)),
        "the Export dictionary is not applied"
    );
    assert!(
        !state.hidden(gref(10)),
        "a group without /Usage is unchanged"
    );
}

#[test]
fn each_event_applies_its_own_dictionaries() {
    let doc = usage_doc(
        "<< /OFF [12 0 R] /AS [ << /Event /View /OCGs [12 0 R 13 0 R] /Category [/View] >> \
         << /Event /Print /OCGs [12 0 R] /Category [/Print] >> \
         << /Event /Export /OCGs [13 0 R] /Category [/Export] >> ] >>",
    );
    let print = state_for(&doc, Some(OcEvent::Print));
    assert!(
        !print.hidden(gref(12)),
        "PrintState ON turns the /OFF group on"
    );
    assert!(!print.hidden(gref(13)));
    let export = state_for(&doc, Some(OcEvent::Export));
    assert!(export.hidden(gref(12)), "the /OFF array still applies");
    assert!(
        export.hidden(gref(13)),
        "ExportState OFF under the Export event"
    );
    let none = state_for(&doc, None);
    assert!(none.hidden(gref(12)));
    assert!(!none.hidden(gref(13)), "no usage application at all");
}

#[test]
fn usage_without_application_or_category_changes_nothing() {
    let doc = usage_doc("<< >>");
    assert!(!doc.oc_state().expect("state").hidden(gref(12)), "no /AS");
    let doc =
        usage_doc("<< /AS [ << /Event /View /OCGs [12 0 R] /Category [/Export /Zoom] >> ] >>");
    assert!(
        !doc.oc_state().expect("state").hidden(gref(12)),
        "categories the group has no usage entry for"
    );
    let doc = usage_doc(
        "<< /AS [ << /Event /View /OCGs [12 0 R] /Category [/View] >> \
         << /Event /View /OCGs [12 0 R] /Category [/Print] >> ] >>",
    );
    assert!(
        !doc.oc_state().expect("state").hidden(gref(12)),
        "the later dictionary's Print category (ON) wins"
    );
    let doc = usage_doc("<< /AS [ << /Event /View /Category [/View] >> ] >>");
    assert!(
        !doc.oc_state().expect("state").hidden(gref(12)),
        "no /OCGs means no groups are affected"
    );
}

fn intent_doc(config: &str) -> Document {
    doc_with_oc(
        &format!("<< /OCGs [10 0 R 11 0 R 14 0 R 15 0 R] /D {config} >>"),
        |b| {
            b.object(14, "<< /Type /OCG /Name (guides) /Intent /Design >>");
            b.object(15, "<< /Type /OCG /Name (both) /Intent [/Design /View] >>");
        },
    )
}

#[test]
fn a_group_of_another_intent_never_hides_content() {
    let doc = intent_doc("<< /OFF [11 0 R 14 0 R 15 0 R] >>");
    let state = doc.oc_state().expect("state");
    assert!(state.hidden(gref(11)), "default intents match");
    assert!(
        !state.hidden(gref(14)),
        "Design against a View configuration"
    );
    assert!(state.hidden(gref(15)), "[/Design /View] shares View");
    assert!(
        visible(&doc, &state, &Object::Ref(gref(14))),
        "content in the Design group paints"
    );
}

#[test]
fn the_configuration_intent_selects_the_groups_it_controls() {
    let design = intent_doc("<< /Intent /Design /OFF [11 0 R 14 0 R 15 0 R] >>");
    let state = design.oc_state().expect("state");
    assert!(
        !state.hidden(gref(11)),
        "a View group under a Design configuration"
    );
    assert!(state.hidden(gref(14)));
    assert!(state.hidden(gref(15)));
    let all = intent_doc("<< /Intent [/All] /OFF [11 0 R 14 0 R] >>");
    let state = all.oc_state().expect("state");
    assert!(state.hidden(gref(11)));
    assert!(state.hidden(gref(14)));
    let none = intent_doc("<< /Intent [] /OFF [11 0 R 14 0 R] >>");
    let state = none.oc_state().expect("state");
    assert!(!state.hidden(gref(11)), "an empty intent controls nothing");
    assert!(!state.hidden(gref(14)));
}

#[test]
fn the_intent_rule_applies_after_usage() {
    let doc = doc_with_oc(
        "<< /OCGs [10 0 R 16 0 R] /D << /AS [ << /Event /View /OCGs [16 0 R] /Category [/View] >> ] >> >>",
        |b| {
            b.object(
                16,
                "<< /Type /OCG /Name (design, view off) /Intent /Design \
                 /Usage << /View << /ViewState /OFF >> >> >>",
            );
        },
    );
    assert!(!doc.oc_state().expect("state").hidden(gref(16)));
}

#[test]
fn groups_read_as_data() {
    let doc = doc_with_oc(
        "<< /OCGs [10 0 R 17 0 R 999 0 R] /D << /OFF [17 0 R] \
         /AS [ << /Event /Print /OCGs [17 0 R] /Category [/Print] >> ] >> >>",
        |b| {
            b.object(
                17,
                "<< /Type /OCG /Name <FEFF00450073> /Intent [/Design /View] /Usage << \
                 /CreatorInfo << /Creator (CAD) /Subtype /Technical >> \
                 /Language << /Lang (es-MX) /Preferred /ON >> \
                 /Export << /ExportState /OFF >> \
                 /Zoom << /min 0.5 /max 4 >> \
                 /Print << /Subtype /Watermark /PrintState /ON >> \
                 /View << /ViewState /OFF >> \
                 /User << /Type /Org /Name [(Acme) (Globex)] >> \
                 /PageElement << /Subtype /HF >> >> >>",
            );
        },
    );
    let groups = doc.optional_content_groups(Some(OcEvent::View));
    assert_eq!(groups.len(), 2, "a dangling reference is skipped");
    assert_eq!(
        groups[0],
        OcGroup {
            reference: gref(10),
            name: Some("one".to_string()),
            intent: vec!["View".to_string()],
            usage: OcUsage::default(),
            visible: true,
        }
    );
    assert_eq!(
        groups[1],
        OcGroup {
            reference: gref(17),
            name: Some("Es".to_string()),
            intent: vec!["Design".to_string(), "View".to_string()],
            usage: OcUsage {
                view: Some(false),
                print: Some(true),
                print_subtype: Some("Watermark".to_string()),
                export: Some(false),
                zoom_min: Some(float(0.5)),
                zoom_max: Some(float(4.0)),
                language: Some("es-MX".to_string()),
                language_preferred: true,
                page_element: Some("HF".to_string()),
                creator: Some("CAD".to_string()),
                creator_subtype: Some("Technical".to_string()),
                user_type: Some("Org".to_string()),
                user_names: vec!["Acme".to_string(), "Globex".to_string()],
            },
            visible: false,
        }
    );
    let printed = doc.optional_content_groups(Some(OcEvent::Print));
    assert!(printed[1].visible, "PrintState ON under the Print event");
    assert!(
        doc_with_oc("", |_| {})
            .optional_content_groups(None)
            .is_empty(),
        "no /OCProperties, no groups"
    );
}

#[test]
fn events_have_names() {
    for event in [OcEvent::View, OcEvent::Print, OcEvent::Export] {
        assert_eq!(OcEvent::from_name(event.as_name()), Some(event));
    }
    assert_eq!(OcEvent::from_name("Show"), None);
}
