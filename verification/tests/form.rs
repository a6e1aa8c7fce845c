use pdfboss_core::error::{Error, Result};
use pdfboss_core::form::{
    form_fields_with, interactive_form_with, name_under, qualified_name,
    AppearanceCharacteristics, ButtonKind, CaptionPosition, ChoiceOption, FieldFlags, FieldType,
    FormField, InteractiveForm, Quadding, Signature, SignatureFlags, Widget,
};
use pdfboss_core::object::{Dict, Name, ObjRef, Object, Stream};
use pdfboss_core::parser::{NoResolve, Parser};
use pdfboss_core::source::{ObjectSource, SourceV};
use std::collections::HashMap;

/// A document in memory: its objects by number, and the trailer.
struct Document {
    objects: HashMap<u32, Object>,
    trailer: Dict,
}

impl ObjectSource for Document {
    fn model(&self) -> SourceV {
        unreachable!("a model is only spoken of")
    }

    fn get(&self, r: ObjRef) -> Result<Object> {
        match self.objects.get(&r.num) {
            Some(o) if r.gen == 0 => Ok(o.clone()),
            _ => Err(Error::Other("missing object".to_string())),
        }
    }

    fn stream_data(&self, s: &Stream) -> Result<Vec<u8>> {
        Ok(s.data.clone())
    }
}

/// Collects the objects of a document.
struct PdfBuilder {
    objects: HashMap<u32, Object>,
}

impl PdfBuilder {
    fn new() -> PdfBuilder {
        PdfBuilder { objects: HashMap::new() }
    }

    fn object(&mut self, num: u32, body: &str) {
        let object = Parser::new(body.as_bytes()).parse_object(&NoResolve).expect("an object");
        self.objects.insert(num, object);
    }

    fn stream(&mut self, num: u32, entries: &str, data: &[u8]) {
        self.object(num, &format!("<< {entries} >>"));
        let dict = self.objects[&num].as_dict().expect("a dictionary").clone();
        self.objects.insert(num, Object::Stream(Stream { dict, data: data.to_vec() }));
    }

    fn build(self, root: u32) -> Document {
        let mut trailer = Dict::new();
        trailer.insert(Name("Root".to_string()), Object::Ref(ObjRef { num: root, gen: 0 }));
        Document { objects: self.objects, trailer }
    }
}

impl Document {
    fn interactive_form(&self) -> Option<InteractiveForm> {
        interactive_form_with(self, &self.trailer)
    }

    fn form_fields(&self) -> Vec<FormField> {
        form_fields_with(self, &self.trailer)
    }
}

fn doc(catalog_extra: &str, objects: &[(u32, &str)]) -> Document {
    let mut b = PdfBuilder::new();
    b.object(
        1,
        &format!("<< /Type /Catalog /Pages 2 0 R {catalog_extra} >>"),
    );
    b.object(2, "<< /Type /Pages /Kids [3 0 R] /Count 1 >>");
    b.object(3, "<< /Type /Page /Parent 2 0 R /MediaBox [0 0 100 100] >>");
    for (num, body) in objects {
        b.object(*num, body);
    }
    b.build(1)
}

fn r(num: u32) -> ObjRef {
    ObjRef { num, gen: 0 }
}

fn widget_refs(field: &FormField) -> Vec<ObjRef> {
    field.widgets.iter().map(|widget| widget.object).collect()
}

fn doc_with_stream(
    catalog_extra: &str,
    objects: &[(u32, &str)],
    stream: (u32, &str, &[u8]),
) -> Document {
    let mut b = PdfBuilder::new();
    b.object(
        1,
        &format!("<< /Type /Catalog /Pages 2 0 R {catalog_extra} >>"),
    );
    b.object(2, "<< /Type /Pages /Kids [3 0 R] /Count 1 >>");
    b.object(3, "<< /Type /Page /Parent 2 0 R /MediaBox [0 0 100 100] >>");
    for (num, body) in objects {
        b.object(*num, body);
    }
    b.stream(stream.0, stream.1, stream.2);
    b.build(1)
}

#[test]
fn the_interactive_form_dictionary_is_read() {
    let found = doc(
        "/AcroForm 4 0 R",
        &[
            (
                4,
                "<< /Fields [5 0 R << /T (inline) >> 6 0 R] /NeedAppearances true \
                 /SigFlags 7 0 R /CO [6 0 R] /DR << /Font << /Helv 8 0 R >> >> \
                 /DA (/Helv 0 Tf 0 g) /Q 1 /XFA [(preamble) 9 0 R] >>",
            ),
            (5, "<< /T (a) /FT /Tx >>"),
            (6, "<< /T (b) /FT /Tx >>"),
            (7, "3"),
            (8, "<< /Type /Font /Subtype /Type1 /BaseFont /Helvetica >>"),
        ],
    )
    .interactive_form()
    .unwrap();
    assert_eq!(found.fields, vec![r(5), r(6)]);
    assert!(found.need_appearances);
    assert_eq!(
        found.signature_flags,
        SignatureFlags {
            signatures_exist: true,
            append_only: true,
        }
    );
    assert_eq!(found.calculation_order, vec![r(6)]);
    assert!(found
        .default_resources
        .as_ref()
        .and_then(|dr| dr.get_dict("Font"))
        .is_some());
    assert_eq!(found.default_appearance.as_deref(), Some("/Helv 0 Tf 0 g"));
    assert_eq!(found.quadding, Some(Quadding::Centered));
    assert!(found.xfa);
}

#[test]
fn missing_and_malformed_form_entries_take_the_defaults() {
    assert_eq!(doc("", &[]).interactive_form(), None);
    assert_eq!(doc("/AcroForm 5", &[]).interactive_form(), None);
    assert_eq!(
        doc("/AcroForm << >>", &[]).interactive_form(),
        Some(InteractiveForm {
            fields: Vec::new(),
            need_appearances: false,
            signature_flags: SignatureFlags::default(),
            calculation_order: Vec::new(),
            default_resources: None,
            default_appearance: None,
            quadding: None,
            xfa: false,
        })
    );
    let odd = doc(
        "/AcroForm << /Fields 5 0 R /Q 7 /SigFlags 4 >>",
        &[(5, "(x)")],
    )
    .interactive_form()
    .unwrap();
    assert_eq!(odd.fields, Vec::new());
    assert_eq!(odd.quadding, None);
    assert_eq!(odd.signature_flags, SignatureFlags::default());
}

#[test]
fn a_merged_field_is_read_with_itself_as_its_widget() {
    let fields = doc(
        "/AcroForm << /Fields [5 0 R] >>",
        &[
            (
                5,
                "<< /FT /Tx /T <FEFF004E0061006D0065> /TU (Your name) /TM (name_export) \
             /Ff 7 /V (Ada) /DV 6 0 R /AA << /F 7 0 R >> /Subtype /Widget \
             /Rect [0 0 10 10] >>",
            ),
            (6, "(nobody)"),
        ],
    )
    .form_fields();
    assert_eq!(fields.len(), 1);
    let field = &fields[0];
    assert_eq!(field.object, r(5));
    assert_eq!(field.parent, None);
    assert_eq!(field.kids, Vec::new());
    assert_eq!(widget_refs(field), vec![r(5)]);
    assert_eq!(field.field_type, Some(FieldType::Text));
    assert_eq!(field.partial_name.as_deref(), Some("Name"));
    assert_eq!(field.alternate_name.as_deref(), Some("Your name"));
    assert_eq!(field.mapping_name.as_deref(), Some("name_export"));
    assert!(field.flags.read_only() && field.flags.required() && field.flags.no_export());
    assert_eq!(field.value, Some(Object::String(b"Ada".to_vec())));
    assert_eq!(
        field.default_value,
        Some(Object::String(b"nobody".to_vec()))
    );
    assert!(field
        .additional_actions
        .as_ref()
        .is_some_and(|aa| aa.get("F").is_some()));
}

#[test]
fn widget_kids_belong_to_their_field_and_are_not_fields() {
    let fields = doc(
        "/AcroForm << /Fields [5 0 R] >>",
        &[
            (
                5,
                "<< /FT /Btn /Ff 32768 /T (card) /V /visa /Kids [6 0 R 7 0 R] >>",
            ),
            (
                6,
                "<< /Subtype /Widget /Parent 5 0 R /AS /visa /Rect [0 0 1 1] >>",
            ),
            (
                7,
                "<< /Subtype /Widget /Parent 5 0 R /AS /Off /Rect [0 0 1 1] >>",
            ),
        ],
    )
    .form_fields();
    assert_eq!(fields.len(), 1);
    assert_eq!(fields[0].kids, Vec::new());
    assert_eq!(widget_refs(&fields[0]), vec![r(6), r(7)]);
    assert_eq!(fields[0].value, Some(Object::Name(Name("visa".into()))));
}

#[test]
fn children_inherit_the_inheritable_entries_from_their_parent() {
    let fields = doc(
        "/AcroForm << /Fields [5 0 R 9 0 R] >>",
        &[
            (5, "<< /T (personal) /FT /Tx /Ff 1 /V (from parent) /DV (reset) /Kids [6 0 R 7 0 R] >>"),
            (6, "<< /T (first) /Parent 5 0 R /Subtype /Widget /Rect [0 0 1 1] >>"),
            (7, "<< /T (last) /Parent 5 0 R /Ff 2 /V (own) /Kids [8 0 R] >>"),
            (8, "<< /Subtype /Widget /Parent 7 0 R /Rect [0 0 1 1] >>"),
            (9, "<< /T (other) /FT /Ch /Subtype /Widget /Rect [0 0 1 1] >>"),
        ],
    )
    .form_fields();
    let objects: Vec<ObjRef> = fields.iter().map(|f| f.object).collect();
    assert_eq!(objects, vec![r(5), r(6), r(7), r(9)]);
    let root = &fields[0];
    assert_eq!(root.kids, vec![r(6), r(7)]);
    assert_eq!(widget_refs(root), Vec::new());
    let first = &fields[1];
    assert_eq!(first.parent, Some(r(5)));
    assert_eq!(first.partial_name.as_deref(), Some("first"));
    assert_eq!(first.field_type, Some(FieldType::Text));
    assert_eq!(first.flags, FieldFlags(1));
    assert_eq!(first.value, Some(Object::String(b"from parent".to_vec())));
    assert_eq!(first.default_value, Some(Object::String(b"reset".to_vec())));
    assert_eq!(widget_refs(first), vec![r(6)]);
    let last = &fields[2];
    assert_eq!(last.flags, FieldFlags(2));
    assert_eq!(last.value, Some(Object::String(b"own".to_vec())));
    assert_eq!(last.default_value, Some(Object::String(b"reset".to_vec())));
    assert_eq!(widget_refs(last), vec![r(8)]);
    assert_eq!(fields[3].field_type, Some(FieldType::Choice));
    assert_eq!(fields[3].flags, FieldFlags::default());
}

#[test]
fn malformed_field_trees_are_walked_without_repeats() {
    assert_eq!(doc("", &[]).form_fields(), Vec::new());
    assert_eq!(doc("/AcroForm << >>", &[]).form_fields(), Vec::new());
    let fields = doc(
        "/AcroForm << /Fields [5 0 R 6 0 R 7 0 R] >>",
        &[
            (5, "(not a field)"),
            (6, "<< /T (loop) /FT /Bogus /Kids [6 0 R 8 0 R 7 0 R] >>"),
            (7, "<< /T (leaf) /FT /Sig >>"),
            (8, "42"),
        ],
    )
    .form_fields();
    let objects: Vec<ObjRef> = fields.iter().map(|f| f.object).collect();
    assert_eq!(objects, vec![r(6), r(7)]);
    assert_eq!(fields[0].field_type, None);
    assert_eq!(fields[0].kids, vec![r(7)]);
    assert_eq!(fields[1].parent, Some(r(6)));
    assert_eq!(fields[1].field_type, Some(FieldType::Signature));
}

#[test]
fn fully_qualified_names_join_the_partial_names_with_periods() {
    let fields = doc(
        "/AcroForm << /Fields [5 0 R] >>",
        &[
            (5, "<< /T (PersonalData) /Kids [6 0 R] >>"),
            (6, "<< /T (Address) /Parent 5 0 R /Kids [7 0 R] >>"),
            (7, "<< /T (ZipCode) /FT /Tx /Parent 6 0 R >>"),
        ],
    )
    .form_fields();
    let names: Vec<&str> = fields.iter().map(|f| f.name.as_str()).collect();
    assert_eq!(
        names,
        [
            "PersonalData",
            "PersonalData.Address",
            "PersonalData.Address.ZipCode"
        ]
    );
}

#[test]
fn fields_without_a_partial_name_share_their_parent_s_name() {
    let fields = doc(
        "/AcroForm << /Fields [5 0 R 8 0 R] >>",
        &[
            (5, "<< /T (choice) /FT /Btn /Kids [6 0 R 7 0 R] >>"),
            (6, "<< /Parent 5 0 R /Kids [9 0 R] >>"),
            (7, "<< /Parent 5 0 R /Subtype /Widget /Rect [0 0 1 1] >>"),
            (8, "<< /FT /Tx /Kids [10 0 R] >>"),
            (9, "<< /Parent 6 0 R /Subtype /Widget /Rect [0 0 1 1] >>"),
            (10, "<< /T (lonely) /Parent 8 0 R >>"),
        ],
    )
    .form_fields();
    let names: Vec<(ObjRef, &str)> =
        fields.iter().map(|f| (f.object, f.name.as_str())).collect();
    assert_eq!(
        names,
        [
            (r(5), "choice"),
            (r(6), "choice"),
            (r(8), ""),
            (r(10), "lonely")
        ]
    );
    assert_eq!(fields[1].partial_name, None);
}

#[test]
fn text_fields_decode_their_value_and_read_max_len_and_their_flags() {
    let fields = doc(
        "/AcroForm << /Fields [5 0 R] >>",
        &[
            (
                5,
                "<< /T (box) /FT /Tx /MaxLen 8 /Ff 16781312 /Kids [6 0 R] >>",
            ),
            (6, "<< /T (line) /Parent 5 0 R /V <FEFF00480069> >>"),
        ],
    )
    .form_fields();
    let line = &fields[1];
    assert_eq!(line.text().as_deref(), Some("Hi"));
    assert_eq!(line.max_len, Some(8));
    assert!(line.flags.multiline() && line.flags.comb());
    assert!(!line.flags.password() && !line.flags.file_select());
    assert!(!line.flags.do_not_spell_check() && !line.flags.do_not_scroll());
    assert!(!line.flags.rich_text());
    assert_eq!(fields[0].text(), None);
    let all = FieldFlags((1 << 25) | (1 << 24) | (1 << 23) | (1 << 22) | (1 << 20) | (1 << 13));
    assert!(all.password() && all.file_select() && all.do_not_spell_check());
    assert!(all.do_not_scroll() && all.comb() && all.rich_text());
    assert!(!all.multiline());
}

#[test]
fn a_stream_value_of_a_text_field_is_read_as_its_text() {
    let fields = doc_with_stream(
        "/AcroForm << /Fields [5 0 R] >>",
        &[(5, "<< /T (essay) /FT /Tx /V 6 0 R >>")],
        (6, "", b"From a stream"),
    )
    .form_fields();
    assert_eq!(fields[0].text().as_deref(), Some("From a stream"));
    assert_eq!(
        fields[0].value,
        Some(Object::String(b"From a stream".to_vec()))
    );
}

#[test]
fn other_field_types_and_odd_values_have_no_text() {
    let fields = doc(
        "/AcroForm << /Fields [5 0 R 6 0 R 7 0 R] >>",
        &[
            (5, "<< /T (check) /FT /Btn /V /Yes >>"),
            (6, "<< /T (empty) /FT /Tx >>"),
            (7, "<< /T (odd) /FT /Tx /V 42 /MaxLen -1 >>"),
        ],
    )
    .form_fields();
    assert_eq!(fields[0].text(), None);
    assert_eq!(fields[1].text(), None);
    assert_eq!(fields[2].text(), None);
    assert_eq!(fields[2].max_len, None);
}

#[test]
fn choice_fields_list_their_options_top_index_and_selection() {
    let fields = doc(
        "/AcroForm << /Fields [5 0 R] >>",
        &[(
            5,
            "<< /T (colour) /FT /Ch /Ff 393216 /Opt [(Red) [(b) (Blue)] <FEFF0047>] \
             /TI 1 /I [1] /V (Blue) >>",
        )],
    )
    .form_fields();
    let field = &fields[0];
    assert_eq!(
        field.options,
        vec![
            ChoiceOption {
                export_value: "Red".into(),
                name: "Red".into(),
            },
            ChoiceOption {
                export_value: "b".into(),
                name: "Blue".into(),
            },
            ChoiceOption {
                export_value: "G".into(),
                name: "G".into(),
            },
        ]
    );
    assert_eq!(field.top_index, 1);
    assert_eq!(field.selected_indices, vec![1]);
    assert_eq!(field.selected(), vec!["Blue".to_string()]);
    assert!(field.flags.combo() && field.flags.edit());
    assert!(!field.flags.sort() && !field.flags.multi_select());
    assert!(!field.flags.commit_on_sel_change());
}

#[test]
fn multi_select_choice_fields_hold_several_selected_names() {
    let fields = doc(
        "/AcroForm << /Fields [5 0 R] >>",
        &[
            (
                5,
                "<< /T (toppings) /FT /Ch /Ff 69730304 /Opt 6 0 R /Kids [8 0 R] >>",
            ),
            (6, "[(a) 7 0 R (c)]"),
            (7, "[(bee) (b)]"),
            (8, "<< /Parent 5 0 R /V [(a) (c)] /I [0 2] >>"),
        ],
    )
    .form_fields();
    let kid = &fields[1];
    assert_eq!(kid.options.len(), 3);
    assert_eq!(kid.options[1].export_value, "bee");
    assert_eq!(kid.selected(), vec!["a".to_string(), "c".to_string()]);
    assert_eq!(kid.selected_indices, vec![0, 2]);
    assert!(kid.flags.sort() && kid.flags.multi_select() && kid.flags.commit_on_sel_change());
    assert!(!kid.flags.combo());
    assert_eq!(fields[0].selected(), Vec::<String>::new());
}

#[test]
fn choice_entries_default_for_other_types_and_skip_odd_values() {
    let fields = doc(
        "/AcroForm << /Fields [5 0 R 6 0 R 7 0 R] >>",
        &[
            (5, "<< /T (text) /FT /Tx /V (x) /Opt [(y)] >>"),
            (6, "<< /T (bare) /FT /Ch >>"),
            (
                7,
                "<< /T (odd) /FT /Ch /Opt [7 [(a) (b) (c)] (ok)] /TI -3 /I [-1 0] /V 5 >>",
            ),
        ],
    )
    .form_fields();
    assert_eq!(fields[0].selected(), Vec::<String>::new());
    assert_eq!(fields[0].options.len(), 1);
    assert_eq!(fields[1].options, Vec::new());
    assert_eq!(fields[1].top_index, 0);
    assert_eq!(fields[1].selected(), Vec::<String>::new());
    assert_eq!(fields[2].options.len(), 1);
    assert_eq!(fields[2].options[0].name, "ok");
    assert_eq!(fields[2].top_index, 0);
    assert_eq!(fields[2].selected_indices, vec![0]);
    assert_eq!(fields[2].selected(), Vec::<String>::new());
}

#[test]
fn button_fields_are_told_apart_by_their_flags() {
    let fields = doc(
        "/AcroForm << /Fields [5 0 R 6 0 R 7 0 R 8 0 R] >>",
        &[
            (5, "<< /T (go) /FT /Btn /Ff 65536 >>"),
            (6, "<< /T (card) /FT /Btn /Ff 33603584 /V /visa >>"),
            (7, "<< /T (urgent) /FT /Btn /V /Yes >>"),
            (8, "<< /T (name) /FT /Tx /V (x) >>"),
        ],
    )
    .form_fields();
    assert_eq!(fields[0].button_kind(), Some(ButtonKind::PushButton));
    assert!(fields[0].flags.pushbutton() && !fields[0].flags.radio());
    assert_eq!(fields[1].button_kind(), Some(ButtonKind::RadioButtons));
    assert!(fields[1].flags.radio() && fields[1].flags.no_toggle_to_off());
    assert!(fields[1].flags.radios_in_unison() && !fields[1].flags.pushbutton());
    assert_eq!(fields[2].button_kind(), Some(ButtonKind::CheckBox));
    assert!(!fields[2].flags.no_toggle_to_off() && !fields[2].flags.radios_in_unison());
    assert_eq!(fields[3].button_kind(), None);
}

#[test]
fn a_button_field_s_state_is_its_value_name() {
    let fields = doc(
        "/AcroForm << /Fields [5 0 R 6 0 R 7 0 R 8 0 R 9 0 R] >>",
        &[
            (5, "<< /T (urgent) /FT /Btn /V /Yes >>"),
            (6, "<< /T (card) /FT /Btn /Ff 32768 /V /cardbrand1 >>"),
            (7, "<< /T (blank) /FT /Btn >>"),
            (8, "<< /T (go) /FT /Btn /Ff 65536 /V /Yes >>"),
            (9, "<< /T (odd) /FT /Btn /V (Yes) >>"),
        ],
    )
    .form_fields();
    assert_eq!(fields[0].state(), Some("Yes"));
    assert_eq!(fields[1].state(), Some("cardbrand1"));
    assert_eq!(fields[2].state(), Some("Off"));
    assert_eq!(fields[3].state(), None);
    assert_eq!(fields[4].state(), None);
}

#[test]
fn a_check_box_is_checked_when_its_state_is_not_off() {
    let fields = doc(
        "/AcroForm << /Fields [5 0 R 6 0 R 7 0 R 8 0 R 9 0 R] >>",
        &[
            (
                5,
                "<< /T (urgent) /FT /Btn /V /Yes /AS /Yes /Subtype /Widget /Rect [0 0 1 1] \
                 /AP << /N << /Yes 10 0 R /Off 11 0 R >> >> >>",
            ),
            (
                6,
                "<< /T (done) /FT /Btn /V /Off /AS /Off /Subtype /Widget /Rect [0 0 1 1] >>",
            ),
            (7, "<< /T (blank) /FT /Btn >>"),
            (8, "<< /T (card) /FT /Btn /Ff 32768 /V /a >>"),
            (9, "<< /T (name) /FT /Tx /V (Yes) >>"),
        ],
    )
    .form_fields();
    assert_eq!(fields[0].checked(), Some(true));
    assert_eq!(
        fields[0].widgets,
        vec![Widget {
            object: r(5),
            appearance_state: Some("Yes".into()),
            on_state: Some("Yes".into()),
            characteristics: None,
        }]
    );
    assert_eq!(fields[0].on_widgets(), vec![0]);
    assert_eq!(fields[1].checked(), Some(false));
    assert_eq!(fields[1].widgets[0].on_state, None);
    assert_eq!(fields[1].on_widgets(), Vec::<usize>::new());
    assert_eq!(fields[2].checked(), Some(false));
    assert_eq!(fields[3].checked(), None);
    assert_eq!(fields[4].checked(), None);
}

#[test]
fn check_box_widgets_are_matched_to_the_state_and_their_export_values() {
    let fields = doc_with_stream(
        "/AcroForm << /Fields [5 0 R 9 0 R] >>",
        &[
            (
                5,
                "<< /T (size) /FT /Btn /Opt [(small) (large)] /V /1 /Kids [6 0 R 7 0 R] >>",
            ),
            (
                6,
                "<< /Subtype /Widget /Parent 5 0 R /AS /Off /Rect [0 0 1 1] \
                 /AP << /N << /0 10 0 R /Off 10 0 R >> >> >>",
            ),
            (
                7,
                "<< /Subtype /Widget /Parent 5 0 R /AS /1 /Rect [0 0 1 1] \
                 /AP 8 0 R >>",
            ),
            (8, "<< /N << /1 10 0 R /Off 10 0 R >> >>"),
            (9, "<< /T (odd) /FT /Btn /V /Yes /Kids [11 0 R 12 0 R] >>"),
            (
                11,
                "<< /Subtype /Widget /Parent 9 0 R /AP << /N 10 0 R >> /Rect [0 0 1 1] >>",
            ),
            (
                12,
                "<< /Subtype /Widget /Parent 9 0 R /Rect [0 0 1 1] \
                 /AP << /N << /Yes 10 0 R /Also 10 0 R /Off 10 0 R >> >> >>",
            ),
        ],
        (10, "/Type /XObject /Subtype /Form /BBox [0 0 1 1]", b""),
    )
    .form_fields();
    let size = &fields[0];
    assert_eq!(size.checked(), Some(true));
    assert_eq!(size.on_widgets(), vec![1]);
    assert_eq!(size.widgets[0].on_state.as_deref(), Some("0"));
    assert_eq!(size.widgets[1].on_state.as_deref(), Some("1"));
    assert_eq!(size.widgets[1].appearance_state.as_deref(), Some("1"));
    assert_eq!(size.options[1].export_value, "large");
    let odd = &fields[1];
    assert_eq!(odd.widgets[0].on_state, None);
    assert_eq!(odd.widgets[1].on_state, None);
    assert_eq!(odd.on_widgets(), Vec::<usize>::new());
    assert_eq!(odd.checked(), Some(true));
}

#[test]
fn a_radio_button_field_names_the_widget_that_is_on() {
    let fields = doc_with_stream(
        "/AcroForm << /Fields [10 0 R] >>",
        &[
            (
                10,
                "<< /FT /Btn /Ff 32768 /T (Credit card) /V /cardbrand1 /Opt [(Visa) (Master)] \
                 /Kids [11 0 R 12 0 R] >>",
            ),
            (
                11,
                "<< /Parent 10 0 R /Subtype /Widget /AS /cardbrand1 /Rect [0 0 1 1] \
                 /AP << /N << /cardbrand1 8 0 R /Off 8 0 R >> >> >>",
            ),
            (
                12,
                "<< /Parent 10 0 R /Subtype /Widget /AS /Off /Rect [0 0 1 1] \
                 /AP << /N << /cardbrand2 8 0 R /Off 8 0 R >> >> >>",
            ),
        ],
        (8, "/Type /XObject /Subtype /Form /BBox [0 0 1 1]", b""),
    )
    .form_fields();
    let card = &fields[0];
    assert_eq!(card.button_kind(), Some(ButtonKind::RadioButtons));
    assert_eq!(card.state(), Some("cardbrand1"));
    assert_eq!(card.on_widgets(), vec![0]);
    assert_eq!(card.widgets[0].on_state.as_deref(), Some("cardbrand1"));
    assert_eq!(card.widgets[1].on_state.as_deref(), Some("cardbrand2"));
    assert_eq!(card.widgets[1].appearance_state.as_deref(), Some("Off"));
    assert_eq!(card.options[0].export_value, "Visa");
    assert_eq!(card.checked(), None);
}

#[test]
fn radios_in_unison_are_on_together_and_a_valueless_radio_field_is_off() {
    let fields = doc(
        "/AcroForm << /Fields [5 0 R 9 0 R] >>",
        &[
            (5, "<< /T (size) /FT /Btn /Ff 33587200 /V /a /Kids [6 0 R 7 0 R 8 0 R] >>"),
            (6, "<< /Parent 5 0 R /Subtype /Widget /AS /a /AP << /N << /a 6 0 R /Off 6 0 R >> >> >>"),
            (7, "<< /Parent 5 0 R /Subtype /Widget /AS /a /AP << /N << /a 6 0 R /Off 6 0 R >> >> >>"),
            (8, "<< /Parent 5 0 R /Subtype /Widget /AS /Off /AP << /N << /b 6 0 R /Off 6 0 R >> >> >>"),
            (9, "<< /T (none) /FT /Btn /Ff 49152 /Kids [10 0 R] >>"),
            (10, "<< /Parent 9 0 R /Subtype /Widget /AS /Off /AP << /N << /x 6 0 R /Off 6 0 R >> >> >>"),
        ],
    )
    .form_fields();
    let size = &fields[0];
    assert!(size.flags.radio() && size.flags.radios_in_unison());
    assert_eq!(size.on_widgets(), vec![0, 1]);
    let none = &fields[1];
    assert!(none.flags.radio() && none.flags.no_toggle_to_off());
    assert_eq!(none.state(), Some("Off"));
    assert_eq!(none.on_widgets(), Vec::<usize>::new());
}

#[test]
fn a_pushbutton_s_widget_carries_its_captions_and_icons() {
    let fields = doc_with_stream(
        "/AcroForm << /Fields [5 0 R] >>",
        &[
            (
                5,
                "<< /T (go) /FT /Btn /Ff 65536 /V /Yes /Subtype /Widget /Rect [0 0 10 10] \
                 /MK 7 0 R >>",
            ),
            (
                7,
                "<< /CA <FEFF00530065006E0064> /RC (Go!) /AC (Sending) /I 6 0 R /RI 6 0 R \
                 /IX 6 0 R /TP 2 /BC [0] /BG [1 1 1] >>",
            ),
        ],
        (6, "/Type /XObject /Subtype /Form /BBox [0 0 1 1]", b""),
    )
    .form_fields();
    let go = &fields[0];
    assert_eq!(go.button_kind(), Some(ButtonKind::PushButton));
    assert_eq!(go.state(), None);
    assert_eq!(
        go.widgets[0].characteristics,
        Some(AppearanceCharacteristics {
            caption: Some("Send".into()),
            rollover_caption: Some("Go!".into()),
            alternate_caption: Some("Sending".into()),
            icon: Some(r(6)),
            rollover_icon: Some(r(6)),
            alternate_icon: Some(r(6)),
            caption_position: CaptionPosition::Below,
        })
    );
}

#[test]
fn captions_default_and_odd_characteristics_read_as_absent() {
    let fields = doc(
        "/AcroForm << /Fields [5 0 R 6 0 R 7 0 R] >>",
        &[
            (5, "<< /T (urgent) /FT /Btn /V /Yes /Subtype /Widget /Rect [0 0 1 1] /MK << /CA (8) >> >>"),
            (6, "<< /T (plain) /FT /Btn /Ff 65536 /Subtype /Widget /Rect [0 0 1 1] >>"),
            (
                7,
                "<< /T (odd) /FT /Btn /Ff 65536 /Subtype /Widget /Rect [0 0 1 1] \
                 /MK << /CA 5 /I << /Type /XObject >> /TP 9 >> >>",
            ),
        ],
    )
    .form_fields();
    assert_eq!(
        fields[0].widgets[0].characteristics,
        Some(AppearanceCharacteristics {
            caption: Some("8".into()),
            ..AppearanceCharacteristics::default()
        })
    );
    assert_eq!(fields[1].widgets[0].characteristics, None);
    assert_eq!(
        fields[2].widgets[0].characteristics,
        Some(AppearanceCharacteristics::default())
    );
    assert_eq!(
        CaptionPosition::from_int(6),
        Some(CaptionPosition::Overlaid)
    );
    assert_eq!(CaptionPosition::from_int(7), None);
}

#[test]
fn a_signed_signature_field_exposes_its_signature_dictionary() {
    let fields = doc(
        "/AcroForm << /Fields [5 0 R] /SigFlags 3 >>",
        &[
            (5, "<< /T (sig) /FT /Sig /V 6 0 R /Lock 7 0 R /SV 8 0 R /Subtype /Widget /Rect [0 0 0 0] >>"),
            (
                6,
                "<< /Type /Sig /Filter /Adobe.PPKLite /SubFilter /adbe.pkcs7.detached \
                 /ByteRange [0 100 200 50] /Contents <3031> /Name <FEFF00410064> \
                 /M (D:20260909100000Z) /Location (Berlin) /Reason (I agree) \
                 /ContactInfo (ada@example.org) >>",
            ),
            (7, "<< /Type /SigFieldLock /Action /All >>"),
            (8, "<< /Type /SV /Ff 1 >>"),
        ],
    )
    .form_fields();
    let sig = &fields[0];
    assert_eq!(sig.field_type, Some(FieldType::Signature));
    assert_eq!(
        sig.signature(),
        Some(Signature {
            filter: Some("Adobe.PPKLite".into()),
            sub_filter: Some("adbe.pkcs7.detached".into()),
            byte_range: vec![(0, 100), (200, 50)],
            contents: b"01".to_vec(),
            name: Some("Ad".into()),
            signing_time: Some("D:20260909100000Z".into()),
            location: Some("Berlin".into()),
            reason: Some("I agree".into()),
            contact_info: Some("ada@example.org".into()),
        })
    );
    assert_eq!(sig.lock, Some(r(7)));
    assert_eq!(sig.seed_value, Some(r(8)));
    assert_eq!(sig.text(), None);
    assert_eq!(sig.selected(), Vec::<String>::new());
}

#[test]
fn unsigned_fields_and_odd_signature_entries_read_as_absent() {
    let fields = doc(
        "/AcroForm << /Fields [5 0 R 6 0 R 7 0 R] >>",
        &[
            (5, "<< /T (unsigned) /FT /Sig /Lock << /Action /All >> >>"),
            (6, "<< /T (name) /FT /Tx /V << /Filter /X >> >>"),
            (
                7,
                "<< /T (odd) /FT /Sig /V << /Type /Sig /ByteRange [0 10 20] /Contents 5 >> >>",
            ),
        ],
    )
    .form_fields();
    assert_eq!(fields[0].signature(), None);
    assert_eq!(fields[0].lock, None);
    assert_eq!(fields[0].seed_value, None);
    assert_eq!(fields[1].signature(), None);
    assert_eq!(
        fields[2].signature(),
        Some(Signature {
            byte_range: vec![(0, 10)],
            ..Signature::default()
        })
    );
}

#[test]
fn codes_of_form_entries_are_read() {
    assert_eq!(Quadding::from_int(0), Some(Quadding::Left));
    assert_eq!(Quadding::from_int(2), Some(Quadding::Right));
    assert_eq!(Quadding::from_int(3), None);
    assert_eq!(FieldType::from_name("Btn"), Some(FieldType::Button));
    assert_eq!(FieldType::from_name("Sig"), Some(FieldType::Signature));
    assert_eq!(FieldType::from_name("x"), None);
    assert!(!SignatureFlags::from_bits(2).signatures_exist);
    assert!(SignatureFlags::from_bits(2).append_only);
    assert_eq!(qualified_name("a", Some("b")), "a.b");
    assert_eq!(qualified_name("", Some("b")), "b");
    assert_eq!(qualified_name("a", None), "a");
    let mut dict = Dict::new();
    dict.insert(Name("Filter".to_string()), Object::Name(Name("X".to_string())));
    assert_eq!(name_under(&dict, "Filter").as_deref(), Some("X"));
    assert_eq!(name_under(&dict, "Other"), None);
}
