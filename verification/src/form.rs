//! The document's interactive form: the catalog's `/AcroForm` dictionary,
//! which names the root fields and carries the defaults their widgets are
//! drawn with.

use crate::filters::dict_opt;
use crate::object;
use crate::object::{decode_text_string, Dict, ObjRef, Object, ObjectV};
use crate::refset;
use crate::refset::RefSet;
use crate::source;
use crate::source::{ObjectSource, SourceV};
use crate::text;
use crate::tree;
use crate::tree::{references, to_small, Entries};
use vstd::arithmetic::power2::*;
use vstd::prelude::*;
use vstd::string::*;

verus! {

/// Fields nested deeper than this below the root fields are not read.
pub const MAX_FIELD_DEPTH: usize = 64;

/// The document-level signature flags (`/SigFlags`).
#[derive(Debug, Clone, Copy, PartialEq, Eq, Structural)]
pub struct SignatureFlags {
    /// Bit 1, `SignaturesExist`: the document has at least one signature
    /// field.
    pub signatures_exist: bool,
    /// Bit 2, `AppendOnly`: the document's signatures would be invalidated
    /// by anything but an incremental update.
    pub append_only: bool,
}

/// The flags of a `/SigFlags` word.
pub open spec fn signature_bits(bits: i64) -> SignatureFlags {
    SignatureFlags { signatures_exist: bits & 1 != 0, append_only: bits & 2 != 0 }
}

impl SignatureFlags {
    /// The flags of a `/SigFlags` word; the reserved bits are ignored.
    pub fn from_bits(bits: i64) -> (out: SignatureFlags)
        ensures
            out == signature_bits(bits),
    {
        SignatureFlags { signatures_exist: bits & 1 != 0, append_only: bits & 2 != 0 }
    }
}

impl Default for SignatureFlags {
    fn default() -> (out: SignatureFlags)
        ensures
            out == (SignatureFlags { signatures_exist: false, append_only: false }),
    {
        SignatureFlags { signatures_exist: false, append_only: false }
    }
}

/// The quadding of variable text (`/Q`): how the text of a field is justified
/// within its widget.
#[derive(Debug, Clone, Copy, PartialEq, Eq, Structural)]
pub enum Quadding {
    /// 0: left-justified.
    Left,
    /// 1: centred.
    Centered,
    /// 2: right-justified.
    Right,
}

/// The quadding a `/Q` value names.
pub open spec fn quadding_of(value: i64) -> Option<Quadding> {
    if value == 0 {
        Some(Quadding::Left)
    } else if value == 1 {
        Some(Quadding::Centered)
    } else if value == 2 {
        Some(Quadding::Right)
    } else {
        None
    }
}

impl Quadding {
    /// The quadding a `/Q` value names, `None` for anything but 0, 1 and 2.
    pub fn from_int(value: i64) -> (out: Option<Quadding>)
        ensures
            out == quadding_of(value),
    {
        match value {
            0 => Some(Quadding::Left),
            1 => Some(Quadding::Centered),
            2 => Some(Quadding::Right),
            _ => None,
        }
    }
}

/// The interactive form dictionary.
#[derive(Debug, Clone, PartialEq)]
pub struct InteractiveForm {
    /// `/Fields`: the root fields, those with no parent, as the references
    /// the array holds.
    pub fields: Vec<ObjRef>,
    /// `/NeedAppearances`: whether a reader should build the widgets'
    /// appearance streams itself; false by default.
    pub need_appearances: bool,
    /// `/SigFlags`, no flag set by default.
    pub signature_flags: SignatureFlags,
    /// `/CO`: the fields with calculation actions, in the order their values
    /// are recalculated.
    pub calculation_order: Vec<ObjRef>,
    /// `/DR`: the default resources for the fields' appearance streams.
    pub default_resources: Option<Dict>,
    /// `/DA`: the document-wide default appearance string for variable
    /// text, a content fragment such as `/Helv 0 Tf 0 g`, as written.
    pub default_appearance: Option<String>,
    /// `/Q`: the document-wide default quadding for variable text; `None`
    /// when absent or not 0, 1 or 2.
    pub quadding: Option<Quadding>,
    /// `/XFA`: whether the form carries an XFA resource, as a stream or an
    /// array of packets.
    pub xfa: bool,
}

impl InteractiveForm {
    /// Whether the form is what the dictionary `d` says.
    pub open spec fn reads(&self, src: SourceV, d: Map<Seq<char>, ObjectV>) -> bool {
        &&& self.fields@ == tree::references_of(tree::entry(src, d, "Fields"@))
        &&& self.calculation_order@ == tree::references_of(tree::entry(src, d, "CO"@))
        &&& self.need_appearances == (tree::entry_flag(src, d, "NeedAppearances"@) == Some(true))
        &&& self.signature_flags == (match tree::entry_int(src, d, "SigFlags"@) {
            Some(bits) => signature_bits(bits),
            None => SignatureFlags { signatures_exist: false, append_only: false },
        })
        &&& dict_opt(self.default_resources) == tree::entry_dict(src, d, "DR"@)
        &&& tree::string_opt(self.default_appearance) == (match tree::entry(src, d, "DA"@) {
            Some(ObjectV::String(bytes)) => Some(text::utf8_lossy(bytes)),
            _ => None,
        })
        &&& self.quadding == (match tree::entry_int(src, d, "Q"@) {
            Some(q) => quadding_of(q),
            None => None,
        })
        &&& self.xfa == (match tree::entry(src, d, "XFA"@) {
            Some(ObjectV::Stream(_)) => true,
            Some(ObjectV::Array(_)) => true,
            _ => false,
        })
    }
}

/// The catalog's `/AcroForm` dictionary, `None` when the catalog has none.
/// Indirect values are followed; an entry of the wrong type reads as absent.
pub fn interactive_form_with<S: ObjectSource>(src: &S, trailer: &Dict) -> (out: Option<
    InteractiveForm,
>)
    ensures
        match tree::catalog_dict(src.model(), trailer@, "AcroForm"@) {
            Some(d) => out matches Some(form) && form.reads(src.model(), d),
            None => out is None,
        },
{
    let dict = match tree::dict_in_catalog(src, trailer, "AcroForm") {
        Some(dict) => dict,
        None => {
            return None;
        },
    };
    let entries = Entries { src, dict: &dict };
    let fields = references(entries.value("Fields").as_ref());
    let calculation_order = references(entries.value("CO").as_ref());
    let need_appearances = match entries.flag("NeedAppearances") {
        Some(flag) => flag,
        None => false,
    };
    let signature_flags = match entries.integer("SigFlags") {
        Some(bits) => SignatureFlags::from_bits(bits),
        None => SignatureFlags { signatures_exist: false, append_only: false },
    };
    let default_resources = entries.sub_dict("DR");
    let default_appearance = match entries.value("DA") {
        Some(Object::String(bytes)) => Some(text::from_utf8_lossy(&bytes)),
        _ => None,
    };
    let quadding = match entries.integer("Q") {
        Some(q) => Quadding::from_int(q),
        None => None,
    };
    let xfa = match entries.value("XFA") {
        Some(Object::Stream(_)) => true,
        Some(Object::Array(_)) => true,
        _ => false,
    };
    Some(
        InteractiveForm {
            fields,
            need_appearances,
            signature_flags,
            calculation_order,
            default_resources,
            default_appearance,
            quadding,
            xfa,
        },
    )
}

/// The type of a terminal field (`/FT`).
#[derive(Debug, Clone, Copy, PartialEq, Eq, Structural)]
pub enum FieldType {
    /// `Btn`: a push button, check box or radio button.
    Button,
    /// `Tx`: a text field.
    Text,
    /// `Ch`: a list box or combo box.
    Choice,
    /// `Sig`: a signature field.
    Signature,
}

/// The type a `/FT` name stands for.
pub open spec fn field_type_of(name: Seq<char>) -> Option<FieldType> {
    if name == "Btn"@ {
        Some(FieldType::Button)
    } else if name == "Tx"@ {
        Some(FieldType::Text)
    } else if name == "Ch"@ {
        Some(FieldType::Choice)
    } else if name == "Sig"@ {
        Some(FieldType::Signature)
    } else {
        None
    }
}

impl FieldType {
    /// The type a `/FT` name stands for, `None` for a name the standard does
    /// not list.
    pub fn from_name(name: &str) -> (out: Option<FieldType>)
        ensures
            out == field_type_of(name@),
    {
        if text::same(name, "Btn") {
            Some(FieldType::Button)
        } else if text::same(name, "Tx") {
            Some(FieldType::Text)
        } else if text::same(name, "Ch") {
            Some(FieldType::Choice)
        } else if text::same(name, "Sig") {
            Some(FieldType::Signature)
        } else {
            None
        }
    }
}

/// A field's `/Ff` word. The bits every field type shares are read here; a
/// type's own bits are read by that type's methods.
#[derive(Debug, Clone, Copy, PartialEq, Eq, Structural)]
pub struct FieldFlags(pub u32);

impl Default for FieldFlags {
    fn default() -> (out: FieldFlags)
        ensures
            out == FieldFlags(0),
    {
        FieldFlags(0)
    }
}

/// Whether the bit at `position`, numbered from 1, is set.
pub open spec fn bit_set(word: u32, position: u32) -> bool {
    (word >> (position - 1) as u32) & 1 == 1
}

impl FieldFlags {
    /// Whether the bit at `position`, numbered from 1 as the standard
    /// does, is set.
    fn bit(self, position: u32) -> (out: bool)
        requires
            1 <= position <= 32,
        ensures
            out == bit_set(self.0, position),
    {
        (self.0 >> (position - 1)) & 1 == 1
    }

    /// Bit 1, `ReadOnly`: the user may not change the field's value.
    pub fn read_only(self) -> (out: bool)
        ensures
            out == bit_set(self.0, 1),
    {
        self.bit(1)
    }

    /// Bit 2, `Required`: the field must have a value when the form is
    /// submitted.
    pub fn required(self) -> (out: bool)
        ensures
            out == bit_set(self.0, 2),
    {
        self.bit(2)
    }

    /// Bit 3, `NoExport`: a submit-form action leaves the field out.
    pub fn no_export(self) -> (out: bool)
        ensures
            out == bit_set(self.0, 3),
    {
        self.bit(3)
    }

    /// Bit 13, `Multiline` (text fields): the text may span several lines.
    pub fn multiline(self) -> (out: bool)
        ensures
            out == bit_set(self.0, 13),
    {
        self.bit(13)
    }

    /// Bit 14, `Password` (text fields): the text is echoed unreadably and
    /// should not be stored in the file.
    pub fn password(self) -> (out: bool)
        ensures
            out == bit_set(self.0, 14),
    {
        self.bit(14)
    }

    /// Bit 21, `FileSelect` (text fields): the text is the path of a file
    /// whose contents are the field's value.
    pub fn file_select(self) -> (out: bool)
        ensures
            out == bit_set(self.0, 21),
    {
        self.bit(21)
    }

    /// Bit 23, `DoNotSpellCheck` (text and choice fields): the text is not
    /// spell-checked.
    pub fn do_not_spell_check(self) -> (out: bool)
        ensures
            out == bit_set(self.0, 23),
    {
        self.bit(23)
    }

    /// Bit 24, `DoNotScroll` (text fields): the field takes no more text
    /// than fits its rectangle.
    pub fn do_not_scroll(self) -> (out: bool)
        ensures
            out == bit_set(self.0, 24),
    {
        self.bit(24)
    }

    /// Bit 25, `Comb` (text fields): the text is laid out in `MaxLen`
    /// equally spaced cells.
    pub fn comb(self) -> (out: bool)
        ensures
            out == bit_set(self.0, 25),
    {
        self.bit(25)
    }

    /// Bit 26, `RichText` (text fields): the value is a rich text string
    /// held in `/RV`.
    pub fn rich_text(self) -> (out: bool)
        ensures
            out == bit_set(self.0, 26),
    {
        self.bit(26)
    }

    /// Bit 18, `Combo` (choice fields): a combo box rather than a list box.
    pub fn combo(self) -> (out: bool)
        ensures
            out == bit_set(self.0, 18),
    {
        self.bit(18)
    }

    /// Bit 19, `Edit` (choice fields): the combo box has an editable text
    /// box next to its list.
    pub fn edit(self) -> (out: bool)
        ensures
            out == bit_set(self.0, 19),
    {
        self.bit(19)
    }

    /// Bit 20, `Sort` (choice fields): a writer sorts the options; readers
    /// show them in `/Opt` order regardless.
    pub fn sort(self) -> (out: bool)
        ensures
            out == bit_set(self.0, 20),
    {
        self.bit(20)
    }

    /// Bit 22, `MultiSelect` (choice fields): more than one option may be
    /// selected.
    pub fn multi_select(self) -> (out: bool)
        ensures
            out == bit_set(self.0, 22),
    {
        self.bit(22)
    }

    /// Bit 27, `CommitOnSelChange` (choice fields): a new selection is
    /// committed at once instead of when the field is left.
    pub fn commit_on_sel_change(self) -> (out: bool)
        ensures
            out == bit_set(self.0, 27),
    {
        self.bit(27)
    }

    /// Bit 15, `NoToggleToOff` (radio buttons): one button is always on;
    /// clicking the selected one does nothing.
    pub fn no_toggle_to_off(self) -> (out: bool)
        ensures
            out == bit_set(self.0, 15),
    {
        self.bit(15)
    }

    /// Bit 16, `Radio` (button fields): a set of radio buttons rather than
    /// a check box.
    pub fn radio(self) -> (out: bool)
        ensures
            out == bit_set(self.0, 16),
    {
        self.bit(16)
    }

    /// Bit 17, `Pushbutton` (button fields): a pushbutton, which keeps no
    /// value.
    pub fn pushbutton(self) -> (out: bool)
        ensures
            out == bit_set(self.0, 17),
    {
        self.bit(17)
    }

    /// Bit 26, `RadiosInUnison` (radio buttons): buttons sharing an on
    /// state turn on and off together.
    pub fn radios_in_unison(self) -> (out: bool)
        ensures
            out == bit_set(self.0, 26),
    {
        self.bit(26)
    }
}

/// A widget annotation that draws a field, as far as the field's state needs
/// it.
#[derive(Debug, Clone, PartialEq, Eq)]
pub struct Widget {
    /// The annotation dictionary's reference; the field's own for a merged
    /// field.
    pub object: ObjRef,
    /// `/AS`: the appearance state the widget shows.
    pub appearance_state: Option<String>,
    /// The widget's on state: the one key of its `/AP /N` dictionary other
    /// than `Off`. `None` when the normal appearance is a single stream or
    /// names no or several other states.
    pub on_state: Option<String>,
    /// `/MK`: the captions and icons a button is drawn with; `None` without
    /// the dictionary.
    pub characteristics: Option<AppearanceCharacteristics>,
}

/// The entries of a widget's appearance characteristics dictionary (`/MK`)
/// that give a button its captions and icons. The normal caption may sit on
/// any button; the rest are for pushbuttons.
#[derive(Debug, Clone, PartialEq, Eq)]
pub struct AppearanceCharacteristics {
    /// `/CA`: the normal caption, shown when the button is at rest.
    pub caption: Option<String>,
    /// `/RC`: the rollover caption, shown while the cursor is over the
    /// button.
    pub rollover_caption: Option<String>,
    /// `/AC`: the alternate caption, shown while the mouse button is down.
    pub alternate_caption: Option<String>,
    /// `/I`: the normal icon, a form XObject by reference.
    pub icon: Option<ObjRef>,
    /// `/RI`: the rollover icon.
    pub rollover_icon: Option<ObjRef>,
    /// `/IX`: the alternate icon.
    pub alternate_icon: Option<ObjRef>,
    /// `/TP`: where the caption sits relative to the icon; caption only by
    /// default.
    pub caption_position: CaptionPosition,
}

impl Default for AppearanceCharacteristics {
    /// No caption and no icon.
    fn default() -> (out: AppearanceCharacteristics)
        ensures
            out == (AppearanceCharacteristics {
                caption: None,
                rollover_caption: None,
                alternate_caption: None,
                icon: None,
                rollover_icon: None,
                alternate_icon: None,
                caption_position: CaptionPosition::CaptionOnly,
            }),
    {
        AppearanceCharacteristics {
            caption: None,
            rollover_caption: None,
            alternate_caption: None,
            icon: None,
            rollover_icon: None,
            alternate_icon: None,
            caption_position: CaptionPosition::CaptionOnly,
        }
    }
}

/// Where a pushbutton's caption sits relative to its icon (`/TP`).
#[derive(Debug, Clone, Copy, PartialEq, Eq, Structural)]
pub enum CaptionPosition {
    /// 0: no icon, caption only.
    CaptionOnly,
    /// 1: no caption, icon only.
    IconOnly,
    /// 2: caption below the icon.
    Below,
    /// 3: caption above the icon.
    Above,
    /// 4: caption to the right of the icon.
    Right,
    /// 5: caption to the left of the icon.
    Left,
    /// 6: caption overlaid on the icon.
    Overlaid,
}

/// The position a `/TP` code names.
pub open spec fn caption_position_of(code: i64) -> Option<CaptionPosition> {
    if code == 0 {
        Some(CaptionPosition::CaptionOnly)
    } else if code == 1 {
        Some(CaptionPosition::IconOnly)
    } else if code == 2 {
        Some(CaptionPosition::Below)
    } else if code == 3 {
        Some(CaptionPosition::Above)
    } else if code == 4 {
        Some(CaptionPosition::Right)
    } else if code == 5 {
        Some(CaptionPosition::Left)
    } else if code == 6 {
        Some(CaptionPosition::Overlaid)
    } else {
        None
    }
}

impl Default for CaptionPosition {
    fn default() -> (out: CaptionPosition)
        ensures
            out == CaptionPosition::CaptionOnly,
    {
        CaptionPosition::CaptionOnly
    }
}

impl CaptionPosition {
    /// The position a `/TP` code names, `None` for a code outside 0 to 6.
    pub fn from_int(code: i64) -> (out: Option<CaptionPosition>)
        ensures
            out == caption_position_of(code),
    {
        match code {
            0 => Some(CaptionPosition::CaptionOnly),
            1 => Some(CaptionPosition::IconOnly),
            2 => Some(CaptionPosition::Below),
            3 => Some(CaptionPosition::Above),
            4 => Some(CaptionPosition::Right),
            5 => Some(CaptionPosition::Left),
            6 => Some(CaptionPosition::Overlaid),
            _ => None,
        }
    }
}

/// The three kinds of button field, told apart by the `Pushbutton` and
/// `Radio` flags.
#[derive(Debug, Clone, Copy, PartialEq, Eq, Structural)]
pub enum ButtonKind {
    /// `Pushbutton` set: a control that keeps no value.
    PushButton,
    /// Both flags clear: one or more check boxes toggling between on and
    /// off.
    CheckBox,
    /// `Radio` set: a set of related buttons of which normally one is on.
    RadioButtons,
}

/// A signature dictionary as the value of a signature field, read as data:
/// nothing here is verified.
#[derive(Debug, Clone, PartialEq, Eq)]
pub struct Signature {
    /// `/Filter`: the preferred signature handler.
    pub filter: Option<String>,
    /// `/SubFilter`: the encoding of the signature value and key
    /// information, such as `adbe.pkcs7.detached`.
    pub sub_filter: Option<String>,
    /// `/ByteRange`: the (offset, length) pairs of the bytes the digest
    /// covers; an incomplete pair or a negative number ends the list.
    pub byte_range: Vec<(u64, u64)>,
    /// `/Contents`: the signature value as written; empty when absent.
    pub contents: Vec<u8>,
    /// `/Name`: the signer named in the dictionary.
    pub name: Option<String>,
    /// `/M`: the time of signing as written, a PDF date string.
    pub signing_time: Option<String>,
    /// `/Location`: where the signing took place.
    pub location: Option<String>,
    /// `/Reason`: why the document was signed.
    pub reason: Option<String>,
    /// `/ContactInfo`: how to reach the signer.
    pub contact_info: Option<String>,
}

impl Default for Signature {
    /// A signature without any entry.
    fn default() -> (out: Signature)
        ensures
            out.filter is None,
            out.sub_filter is None,
            out.byte_range@.len() == 0,
            out.contents@.len() == 0,
            out.name is None,
            out.signing_time is None,
            out.location is None,
            out.reason is None,
            out.contact_info is None,
    {
        Signature {
            filter: None,
            sub_filter: None,
            byte_range: Vec::new(),
            contents: Vec::new(),
            name: None,
            signing_time: None,
            location: None,
            reason: None,
            contact_info: None,
        }
    }
}

/// The text string directly under `key`.
pub open spec fn direct_text(d: Map<Seq<char>, ObjectV>, key: Seq<char>) -> Option<Seq<char>> {
    match object::lookup(d, key) {
        Some(ObjectV::String(bytes)) => Some(object::text_chars(bytes)),
        _ => None,
    }
}

/// The name directly under `key`.
pub open spec fn direct_name(d: Map<Seq<char>, ObjectV>, key: Seq<char>) -> Option<Seq<char>> {
    match object::lookup(d, key) {
        Some(o) => o.name(),
        None => None,
    }
}

/// The pairs of non-negative integers at the start of `items`.
pub open spec fn pairs_of(items: Seq<ObjectV>) -> Seq<(u64, u64)>
    decreases items.len(),
{
    if items.len() < 2 {
        Seq::empty()
    } else {
        match (items[0], items[1]) {
            (ObjectV::Int(offset), ObjectV::Int(length)) => if offset >= 0 && length >= 0 {
                seq![(offset as u64, length as u64)] + pairs_of(items.skip(2))
            } else {
                Seq::empty()
            },
            _ => Seq::empty(),
        }
    }
}

impl Signature {
    /// Whether the signature is what the dictionary `d` says.
    pub open spec fn reads(&self, d: Map<Seq<char>, ObjectV>) -> bool {
        &&& tree::string_opt(self.filter) == direct_name(d, "Filter"@)
        &&& tree::string_opt(self.sub_filter) == direct_name(d, "SubFilter"@)
        &&& self.byte_range@ == (match object::lookup(d, "ByteRange"@) {
            Some(ObjectV::Array(items)) => pairs_of(items),
            _ => Seq::empty(),
        })
        &&& self.contents@ == (match object::lookup(d, "Contents"@) {
            Some(ObjectV::String(bytes)) => bytes,
            _ => Seq::empty(),
        })
        &&& tree::string_opt(self.name) == direct_text(d, "Name"@)
        &&& tree::string_opt(self.signing_time) == direct_text(d, "M"@)
        &&& tree::string_opt(self.location) == direct_text(d, "Location"@)
        &&& tree::string_opt(self.reason) == direct_text(d, "Reason"@)
        &&& tree::string_opt(self.contact_info) == direct_text(d, "ContactInfo"@)
    }

    /// The entries of a signature dictionary as data: the filter and
    /// sub-filter names, the byte range pairs, the contents bytes, and the
    /// signer's name, time, location, reason and contact information as text
    /// strings. Nothing is verified. The same reader serves a signature
    /// field's `/V` and the catalog's permission handlers.
    pub fn from_dict(dict: &Dict) -> (out: Signature)
        ensures
            out.reads(dict@),
    {
        let contents = match dict.get("Contents") {
            Some(Object::String(bytes)) => crate::lexer::copy_bytes(bytes),
            _ => Vec::new(),
        };
        Signature {
            filter: name_under(dict, "Filter"),
            sub_filter: name_under(dict, "SubFilter"),
            byte_range: byte_range(dict.get("ByteRange")),
            contents,
            name: text_under(dict, "Name"),
            signing_time: text_under(dict, "M"),
            location: text_under(dict, "Location"),
            reason: text_under(dict, "Reason"),
            contact_info: text_under(dict, "ContactInfo"),
        }
    }
}

/// The text string directly under `key`, decoded.
fn text_under(dict: &Dict, key: &str) -> (out: Option<String>)
    ensures
        tree::string_opt(out) == direct_text(dict@, key@),
{
    match dict.get(key) {
        Some(Object::String(bytes)) => Some(decode_text_string(bytes)),
        _ => None,
    }
}

/// The name directly under `key`.
pub fn name_under(dict: &Dict, key: &str) -> (out: Option<String>)
    ensures
        tree::string_opt(out) == direct_name(dict@, key@),
{
    match dict.get_name(key) {
        Some(name) => Some(name.0.clone()),
        None => None,
    }
}

/// The (offset, length) pairs of a `/ByteRange` array: complete pairs of
/// non-negative integers up to the first element that is not one.
fn byte_range(value: Option<&Object>) -> (out: Vec<(u64, u64)>)
    ensures
        out@ == (match object::opt_view(value) {
            Some(ObjectV::Array(items)) => pairs_of(items),
            _ => Seq::empty(),
        }),
{
    let mut out: Vec<(u64, u64)> = Vec::new();
    if let Some(Object::Array(items)) = value {
        let ghost all = object::objects_view(items@);
        let mut i: usize = 0;
        assert(all.skip(0) =~= all);
        assert(out@ + pairs_of(all) =~= pairs_of(all));
        while items.len() - i >= 2
            invariant
                i <= items@.len(),
                all == object::objects_view(items@),
                object::opt_view(value) == Some(ObjectV::Array(all)),
                pairs_of(all) == out@ + pairs_of(all.skip(i as int)),
            decreases items@.len() - i,
        {
            let ghost left = all.skip(i as int);
            let ghost before = out@;
            proof {
                assert(left[0] == items@[i as int]@ && left[1] == items@[i + 1]@);
                assert(left.skip(2) =~= all.skip(i + 2));
            }
            let pair: Option<(u64, u64)> = match (&items[i], &items[i + 1]) {
                (Object::Int(offset), Object::Int(length)) => if *offset >= 0 && *length >= 0 {
                    Some((*offset as u64, *length as u64))
                } else {
                    None
                },
                _ => None,
            };
            match pair {
                Some(pair) => {
                    out.push(pair);
                    assert(out@ + pairs_of(left.skip(2)) =~= before + pairs_of(left));
                },
                None => {
                    assert(out@ =~= pairs_of(all));
                    return out;
                },
            }
            i += 2;
        }
        assert(out@ =~= pairs_of(all));
    }
    out
}

/// One entry of a choice field's `/Opt` array: the value exported for the
/// option and the text shown for it. A lone text string in the array is both.
#[derive(Debug, Clone, PartialEq, Eq)]
pub struct ChoiceOption {
    /// The export value.
    pub export_value: String,
    /// The text shown to the user; also what `/V` names when the option is
    /// selected.
    pub name: String,
}

/// One field dictionary with the inheritable entries taken from the nearest
/// ancestor that has them.
#[derive(Debug, Clone, PartialEq)]
pub struct FormField {
    /// The field dictionary's own reference.
    pub object: ObjRef,
    /// `/Parent`: the field whose `/Kids` holds this one, as walked; `None`
    /// for a root field.
    pub parent: Option<ObjRef>,
    /// The `/Kids` that are fields themselves, in array order.
    pub kids: Vec<ObjRef>,
    /// The widget annotations that draw this field: the `/Kids` that are
    /// `/Subtype /Widget` dictionaries without a `/T` of their own, or the
    /// field itself when its single widget is merged into it.
    pub widgets: Vec<Widget>,
    /// `/FT`, inherited; `None` for a non-terminal field that names none
    /// and for a name the standard does not list.
    pub field_type: Option<FieldType>,
    /// `/T`: the partial field name.
    pub partial_name: Option<String>,
    /// The fully qualified field name: the partial names from the root field
    /// down, joined by a period; a field without a `/T` shares its parent's
    /// name, and a root without one has the empty name.
    pub name: String,
    /// `/TU`: the name shown to the user in place of the field name.
    pub alternate_name: Option<String>,
    /// `/TM`: the name used when the field's data is exported.
    pub mapping_name: Option<String>,
    /// `/Ff`, inherited; no bit set by default.
    pub flags: FieldFlags,
    /// `/V`, inherited, resolved one level, in the format of the field's
    /// type; a merged widget's own value beats its parent's.
    pub value: Option<Object>,
    /// `/DV`, inherited, resolved one level: the value a reset-form action
    /// restores.
    pub default_value: Option<Object>,
    /// `/MaxLen`, inherited: the most characters a text field's text may
    /// hold.
    pub max_len: Option<u32>,
    /// `/Opt`, inherited: the options of a choice field or the export values
    /// of a check box or radio button; an entry that is neither a text string
    /// nor a pair of them is skipped.
    pub options: Vec<ChoiceOption>,
    /// `/TI`: the index into `options` of the first option a scrollable list
    /// box shows; 0 by default.
    pub top_index: u32,
    /// `/I`: the indices into `options` of the selected options of a
    /// multi-select choice field, as written.
    pub selected_indices: Vec<u32>,
    /// `/AA`: the field's additional-actions dictionary, as written.
    pub additional_actions: Option<Dict>,
    /// `/Lock`: the signature field lock dictionary naming the fields that
    /// lock once this field is signed, by reference.
    pub lock: Option<ObjRef>,
    /// `/SV`: the seed value dictionary constraining a signature applied to
    /// this field, by reference.
    pub seed_value: Option<ObjRef>,
}

/// The kind of a button field with these flags.
pub open spec fn button_kind_of(field_type: Option<FieldType>, flags: FieldFlags) -> Option<
    ButtonKind,
> {
    if field_type != Some(FieldType::Button) {
        None
    } else if bit_set(flags.0, 17) {
        Some(ButtonKind::PushButton)
    } else if bit_set(flags.0, 16) {
        Some(ButtonKind::RadioButtons)
    } else {
        Some(ButtonKind::CheckBox)
    }
}

/// The state of a button field with this value.
pub open spec fn button_state(kind: Option<ButtonKind>, value: Option<ObjectV>) -> Option<
    Seq<char>,
> {
    match kind {
        None => None,
        Some(ButtonKind::PushButton) => None,
        Some(_) => match value {
            None => Some("Off"@),
            Some(v) => v.name(),
        },
    }
}

/// The positions of the widgets whose on state is `state`, in order.
pub open spec fn widgets_on(widgets: Seq<Widget>, state: Seq<char>) -> Seq<usize>
    decreases widgets.len(),
{
    if widgets.len() == 0 {
        Seq::empty()
    } else if tree::string_opt(widgets.last().on_state) == Some(state) {
        widgets_on(widgets.drop_last(), state).push((widgets.len() - 1) as usize)
    } else {
        widgets_on(widgets.drop_last(), state)
    }
}

impl FormField {
    /// The text of a text field: `/V` decoded as a text string. `None` for a
    /// field of another type or without a value.
    pub fn text(&self) -> (out: Option<String>)
        ensures
            tree::string_opt(out) == (if self.field_type != Some(FieldType::Text) {
                None
            } else {
                match object::owned_view(self.value) {
                    Some(ObjectV::String(bytes)) => Some(object::text_chars(bytes)),
                    _ => None,
                }
            }),
    {
        match self.field_type {
            Some(FieldType::Text) => match &self.value {
                Some(Object::String(bytes)) => Some(decode_text_string(bytes)),
                _ => None,
            },
            _ => None,
        }
    }

    /// Which kind of button a button field is: a pushbutton when the
    /// `Pushbutton` flag is set, radio buttons when `Radio` is set, a check
    /// box otherwise. `None` for a field of another type.
    pub fn button_kind(&self) -> (out: Option<ButtonKind>)
        ensures
            out == button_kind_of(self.field_type, self.flags),
    {
        match self.field_type {
            Some(FieldType::Button) => Some(
                if self.flags.pushbutton() {
                    ButtonKind::PushButton
                } else if self.flags.radio() {
                    ButtonKind::RadioButtons
                } else {
                    ButtonKind::CheckBox
                },
            ),
            _ => None,
        }
    }

    /// The appearance state the field is in.
    pub open spec fn state_chars(&self) -> Option<Seq<char>> {
        button_state(button_kind_of(self.field_type, self.flags), object::owned_view(self.value))
    }

    /// The appearance state a check box or radio button field is in: `/V` as
    /// a name, the one the widgets' `/AP /N` dictionaries key their on and
    /// off appearances by, `Off` when there is no value. `None` for a
    /// pushbutton, which keeps no value, for another field type, and for a
    /// value that is no name.
    pub fn state(&self) -> (out: Option<&str>)
        ensures
            match out {
                Some(s) => self.state_chars() == Some(s@),
                None => self.state_chars() is None,
            },
    {
        match self.button_kind() {
            None => None,
            Some(ButtonKind::PushButton) => None,
            Some(_) => match &self.value {
                None => Some("Off"),
                Some(value) => match value.as_name() {
                    Some(name) => Some(name.0.as_str()),
                    None => None,
                },
            },
        }
    }

    /// Whether a check box is checked: its state is a name other than `Off`;
    /// an absent value is the off state. `None` for a field that is no check
    /// box.
    pub fn checked(&self) -> (out: Option<bool>)
        ensures
            out == (if button_kind_of(self.field_type, self.flags) == Some(ButtonKind::CheckBox) {
                Some(self.state_chars() matches Some(s) && s != "Off"@)
            } else {
                None
            }),
    {
        match self.button_kind() {
            Some(ButtonKind::CheckBox) => match self.state() {
                Some(state) => Some(!text::same(state, "Off")),
                None => Some(false),
            },
            _ => None,
        }
    }

    /// The widgets of a check box or radio button field that are in the on
    /// state: those whose on state is the field's state, as indices into
    /// `widgets`. The same indices pick the export values out of `options`.
    /// Empty for a field in the off state, a pushbutton, or another field
    /// type.
    pub fn on_widgets(&self) -> (out: Vec<usize>)
        ensures
            out@ == (match self.state_chars() {
                Some(state) => if state == "Off"@ {
                    Seq::empty()
                } else {
                    widgets_on(self.widgets@, state)
                },
                None => Seq::empty(),
            }),
    {
        let mut out: Vec<usize> = Vec::new();
        let state = match self.state() {
            Some(state) => state,
            None => {
                return out;
            },
        };
        if text::same(state, "Off") {
            return out;
        }
        let ghost all = self.widgets@;
        let mut i: usize = 0;
        assert(all.take(0) =~= Seq::<Widget>::empty());
        while i < self.widgets.len()
            invariant
                i <= all.len(),
                all == self.widgets@,
                out@ == widgets_on(all.take(i as int), state@),
            decreases all.len() - i,
        {
            proof {
                assert(all.take(i + 1).drop_last() =~= all.take(i as int));
                assert(all.take(i + 1).last() == all[i as int]);
            }
            if let Some(on) = &self.widgets[i].on_state {
                if text::same(on.as_str(), state) {
                    out.push(i);
                }
            }
            i += 1;
        }
        assert(all.take(i as int) =~= all);
        out
    }

    /// The signature a signature field holds: its `/V` read as a signature
    /// dictionary. `None` for another field type, an unsigned field, or a
    /// value that is no dictionary.
    pub fn signature(&self) -> (out: Option<Signature>)
        ensures
            ({
                let d = match object::owned_view(self.value) {
                    Some(v) => v.dict(),
                    None => None,
                };
                if self.field_type == Some(FieldType::Signature) && d is Some {
                    out matches Some(signature) && signature.reads(d->0)
                } else {
                    out is None
                }
            }),
    {
        match self.field_type {
            Some(FieldType::Signature) => match &self.value {
                Some(value) => match value.as_dict() {
                    Some(dict) => Some(Signature::from_dict(dict)),
                    None => None,
                },
                None => None,
            },
            _ => None,
        }
    }

    /// The names of a choice field's selected options: `/V` as one text
    /// string or, for a multi-select field, an array of them. Empty for a
    /// field of another type, without a value, or whose value is neither.
    pub fn selected(&self) -> (out: Vec<String>)
        ensures
            tree::strings_view(out@) == (if self.field_type != Some(FieldType::Choice) {
                Seq::empty()
            } else {
                match object::owned_view(self.value) {
                    Some(ObjectV::String(bytes)) => seq![object::text_chars(bytes)],
                    Some(ObjectV::Array(items)) => tree::texts_in(items),
                    _ => Seq::empty(),
                }
            }),
    {
        let mut out: Vec<String> = Vec::new();
        assert(tree::strings_view(out@) =~= Seq::<Seq<char>>::empty());
        match self.field_type {
            Some(FieldType::Choice) => match &self.value {
                Some(Object::String(name)) => {
                    let decoded = decode_text_string(name);
                    out.push(decoded);
                    assert(tree::strings_view(out@) =~= seq![decoded@]);
                },
                Some(Object::Array(names)) => {
                    out = tree::texts_among(names);
                },
                _ => {},
            },
            _ => {},
        }
        out
    }
}

/// What the `/MK` entries of a widget are.
#[verifier::ext_equal]
pub struct CharacteristicsV {
    pub caption: Option<Seq<char>>,
    pub rollover_caption: Option<Seq<char>>,
    pub alternate_caption: Option<Seq<char>>,
    pub icon: Option<ObjRef>,
    pub rollover_icon: Option<ObjRef>,
    pub alternate_icon: Option<ObjRef>,
    pub caption_position: CaptionPosition,
}

impl View for AppearanceCharacteristics {
    type V = CharacteristicsV;

    open spec fn view(&self) -> CharacteristicsV {
        CharacteristicsV {
            caption: tree::string_opt(self.caption),
            rollover_caption: tree::string_opt(self.rollover_caption),
            alternate_caption: tree::string_opt(self.alternate_caption),
            icon: self.icon,
            rollover_icon: self.rollover_icon,
            alternate_icon: self.alternate_icon,
            caption_position: self.caption_position,
        }
    }
}

/// What a widget is.
#[verifier::ext_equal]
pub struct WidgetV {
    pub object: ObjRef,
    pub appearance_state: Option<Seq<char>>,
    pub on_state: Option<Seq<char>>,
    pub characteristics: Option<CharacteristicsV>,
}

impl View for Widget {
    type V = WidgetV;

    open spec fn view(&self) -> WidgetV {
        WidgetV {
            object: self.object,
            appearance_state: tree::string_opt(self.appearance_state),
            on_state: tree::string_opt(self.on_state),
            characteristics: match self.characteristics {
                Some(c) => Some(c@),
                None => None,
            },
        }
    }
}

/// What widgets in a row are.
pub open spec fn widgets_view(widgets: Seq<Widget>) -> Seq<WidgetV> {
    Seq::new(widgets.len(), |i: int| widgets[i]@)
}

/// What a choice option is.
#[verifier::ext_equal]
pub struct ChoiceV {
    pub export_value: Seq<char>,
    pub name: Seq<char>,
}

impl View for ChoiceOption {
    type V = ChoiceV;

    open spec fn view(&self) -> ChoiceV {
        ChoiceV { export_value: self.export_value@, name: self.name@ }
    }
}

/// What choice options in a row are.
pub open spec fn choices_view(options: Seq<ChoiceOption>) -> Seq<ChoiceV> {
    Seq::new(options.len(), |i: int| options[i]@)
}

/// What a field is.
#[verifier::ext_equal]
pub struct FormFieldV {
    pub object: ObjRef,
    pub parent: Option<ObjRef>,
    pub kids: Seq<ObjRef>,
    pub widgets: Seq<WidgetV>,
    pub field_type: Option<FieldType>,
    pub partial_name: Option<Seq<char>>,
    pub name: Seq<char>,
    pub alternate_name: Option<Seq<char>>,
    pub mapping_name: Option<Seq<char>>,
    pub flags: FieldFlags,
    pub value: Option<ObjectV>,
    pub default_value: Option<ObjectV>,
    pub max_len: Option<u32>,
    pub options: Seq<ChoiceV>,
    pub top_index: u32,
    pub selected_indices: Seq<u32>,
    pub additional_actions: Option<Map<Seq<char>, ObjectV>>,
    pub lock: Option<ObjRef>,
    pub seed_value: Option<ObjRef>,
}

impl View for FormField {
    type V = FormFieldV;

    open spec fn view(&self) -> FormFieldV {
        FormFieldV {
            object: self.object,
            parent: self.parent,
            kids: self.kids@,
            widgets: widgets_view(self.widgets@),
            field_type: self.field_type,
            partial_name: tree::string_opt(self.partial_name),
            name: self.name@,
            alternate_name: tree::string_opt(self.alternate_name),
            mapping_name: tree::string_opt(self.mapping_name),
            flags: self.flags,
            value: object::owned_view(self.value),
            default_value: object::owned_view(self.default_value),
            max_len: self.max_len,
            options: choices_view(self.options@),
            top_index: self.top_index,
            selected_indices: self.selected_indices@,
            additional_actions: dict_opt(self.additional_actions),
            lock: self.lock,
            seed_value: self.seed_value,
        }
    }
}

/// What fields in a row are.
pub open spec fn fields_view(fields: Seq<FormField>) -> Seq<FormFieldV> {
    Seq::new(fields.len(), |i: int| fields[i]@)
}

/// The entries a field takes from its parent when its own dictionary lacks
/// them, and the parent's fully qualified name the field's own name is built
/// on.
struct Inherited {
    field_type: Option<FieldType>,
    flags: Option<FieldFlags>,
    value: Option<Object>,
    default_value: Option<Object>,
    name: String,
    max_len: Option<u32>,
    options: Vec<ChoiceOption>,
}

/// What a field inherits.
#[verifier::ext_equal]
pub struct InheritedV {
    pub field_type: Option<FieldType>,
    pub flags: Option<FieldFlags>,
    pub value: Option<ObjectV>,
    pub default_value: Option<ObjectV>,
    pub name: Seq<char>,
    pub max_len: Option<u32>,
    pub options: Seq<ChoiceV>,
}

impl View for Inherited {
    type V = InheritedV;

    closed spec fn view(&self) -> InheritedV {
        InheritedV {
            field_type: self.field_type,
            flags: self.flags,
            value: object::owned_view(self.value),
            default_value: object::owned_view(self.default_value),
            name: self.name@,
            max_len: self.max_len,
            options: choices_view(self.options@),
        }
    }
}

/// What a root field inherits: nothing.
pub open spec fn no_inheritance() -> InheritedV {
    InheritedV {
        field_type: None,
        flags: None,
        value: None,
        default_value: None,
        name: Seq::empty(),
        max_len: None,
        options: Seq::empty(),
    }
}

/// A field dictionary waiting to be read, with what it inherits.
struct Pending {
    object: ObjRef,
    dict: Dict,
    parent: Option<ObjRef>,
    inherited: Inherited,
    depth: usize,
}

/// What a waiting field is.
#[verifier::ext_equal]
pub struct PendingV {
    pub object: ObjRef,
    pub dict: Map<Seq<char>, ObjectV>,
    pub parent: Option<ObjRef>,
    pub inherited: InheritedV,
    pub depth: int,
}

impl View for Pending {
    type V = PendingV;

    closed spec fn view(&self) -> PendingV {
        PendingV {
            object: self.object,
            dict: self.dict@,
            parent: self.parent,
            inherited: self.inherited@,
            depth: self.depth as int,
        }
    }
}

spec fn pendings_view(stack: Seq<Pending>) -> Seq<PendingV> {
    Seq::new(stack.len(), |i: int| stack[i]@)
}

/// The fully qualified name of a field: the parent's name and the partial
/// name joined by a period, whichever of the two is missing left out.
pub open spec fn joined_name(parent: Seq<char>, partial: Option<Seq<char>>) -> Seq<char> {
    match partial {
        Some(partial) => if parent.len() == 0 {
            partial
        } else {
            parent + "."@ + partial
        },
        None => parent,
    }
}

/// The option that one entry of an `/Opt` array stands for.
pub open spec fn choice_of(item: ObjectV) -> Option<ChoiceV> {
    match item {
        ObjectV::String(name) => Some(
            ChoiceV { export_value: object::text_chars(name), name: object::text_chars(name) },
        ),
        ObjectV::Array(pair) => if pair.len() == 2 {
            match (pair[0], pair[1]) {
                (ObjectV::String(export_value), ObjectV::String(name)) => Some(
                    ChoiceV {
                        export_value: object::text_chars(export_value),
                        name: object::text_chars(name),
                    },
                ),
                _ => None,
            }
        } else {
            None
        },
        _ => None,
    }
}

/// The options that the entries of an `/Opt` array stand for, in order.
pub open spec fn choices_in(src: SourceV, items: Seq<ObjectV>) -> Seq<ChoiceV>
    decreases items.len(),
{
    if items.len() == 0 {
        Seq::empty()
    } else {
        let before = choices_in(src, items.drop_last());
        match source::resolved(src, items.last()) {
            Ok(item) => match choice_of(item) {
                Some(choice) => before.push(choice),
                None => before,
            },
            Err(_) => before,
        }
    }
}

/// The 32-bit integers among objects, in order.
pub open spec fn smalls_in(items: Seq<ObjectV>) -> Seq<u32>
    decreases items.len(),
{
    if items.len() == 0 {
        Seq::empty()
    } else {
        let before = smalls_in(items.drop_last());
        match items.last() {
            ObjectV::Int(v) => match tree::small_int(v) {
                Some(n) => before.push(n),
                None => before,
            },
            _ => before,
        }
    }
}

/// Whether a dictionary is a widget annotation.
pub open spec fn is_widget_dict(d: Map<Seq<char>, ObjectV>) -> bool {
    direct_name(d, "Subtype"@) == Some("Widget"@)
}

/// Whether `key` is the only key of `states` but for `Off`.
pub open spec fn only_state(states: Map<Seq<char>, ObjectV>, key: Seq<char>) -> bool {
    &&& states.contains_key(key)
    &&& key != "Off"@
    &&& forall|other: Seq<char>|
        #[trigger] states.contains_key(other) && other != "Off"@ ==> other == key
}

/// The only key of `states` but for `Off`.
pub open spec fn lone_state(states: Map<Seq<char>, ObjectV>) -> Option<Seq<char>> {
    if exists|key: Seq<char>| only_state(states, key) {
        Some(choose|key: Seq<char>| only_state(states, key))
    } else {
        None
    }
}

proof fn lemma_lone_state(states: Map<Seq<char>, ObjectV>, key: Seq<char>)
    requires
        only_state(states, key),
    ensures
        lone_state(states) == Some(key),
{
    let chosen = choose|key: Seq<char>| only_state(states, key);
    assert(only_state(states, chosen));
    assert(states.contains_key(chosen));
}

/// The on state of a widget dictionary.
pub open spec fn on_state_of(src: SourceV, d: Map<Seq<char>, ObjectV>) -> Option<Seq<char>> {
    match tree::entry_dict(src, d, "AP"@) {
        Some(appearance) => match tree::entry_dict(src, appearance, "N"@) {
            Some(states) => lone_state(states),
            None => None,
        },
        None => None,
    }
}

/// The caption and icon entries of a widget dictionary.
pub open spec fn characteristics_of(src: SourceV, d: Map<Seq<char>, ObjectV>) -> Option<
    CharacteristicsV,
> {
    match tree::entry_dict(src, d, "MK"@) {
        None => None,
        Some(mk) => Some(
            CharacteristicsV {
                caption: tree::entry_text(src, mk, "CA"@),
                rollover_caption: tree::entry_text(src, mk, "RC"@),
                alternate_caption: tree::entry_text(src, mk, "AC"@),
                icon: tree::entry_ref(mk, "I"@),
                rollover_icon: tree::entry_ref(mk, "RI"@),
                alternate_icon: tree::entry_ref(mk, "IX"@),
                caption_position: match tree::entry_int(src, mk, "TP"@) {
                    Some(code) => match caption_position_of(code) {
                        Some(position) => position,
                        None => CaptionPosition::CaptionOnly,
                    },
                    None => CaptionPosition::CaptionOnly,
                },
            },
        ),
    }
}

/// The widget that the dictionary `d` describes.
pub open spec fn widget_of(src: SourceV, r: ObjRef, d: Map<Seq<char>, ObjectV>) -> WidgetV {
    WidgetV {
        object: r,
        appearance_state: direct_name(d, "AS"@),
        on_state: on_state_of(src, d),
        characteristics: characteristics_of(src, d),
    }
}

/// The dictionary a reference points at.
pub open spec fn fetched_dict(src: SourceV, r: ObjRef) -> Option<Map<Seq<char>, ObjectV>> {
    match (src.fetched)(r) {
        Ok(ObjectV::Dict(d)) => Some(d),
        _ => None,
    }
}

/// The dictionary of a kid that is to be read: one not seen before.
pub open spec fn kid_dict(src: SourceV, seen: Set<ObjRef>, r: ObjRef) -> Option<
    Map<Seq<char>, ObjectV>,
> {
    if seen.contains(r) {
        None
    } else {
        fetched_dict(src, r)
    }
}

/// Whether a kid's dictionary is one of its parent's widgets and no field.
pub open spec fn is_pure_widget(d: Map<Seq<char>, ObjectV>) -> bool {
    is_widget_dict(d) && !d.contains_key("T"@)
}

/// The kids that are widgets of the field, in order.
pub open spec fn widget_kids(src: SourceV, seen: Set<ObjRef>, kids: Seq<ObjRef>) -> Seq<WidgetV>
    decreases kids.len(),
{
    if kids.len() == 0 {
        Seq::empty()
    } else {
        let before = widget_kids(src, seen, kids.drop_last());
        match kid_dict(src, seen, kids.last()) {
            Some(d) => if is_pure_widget(d) {
                before.push(widget_of(src, kids.last(), d))
            } else {
                before
            },
            None => before,
        }
    }
}

/// The kids that are fields themselves, in order.
pub open spec fn field_kids(src: SourceV, seen: Set<ObjRef>, kids: Seq<ObjRef>) -> Seq<ObjRef>
    decreases kids.len(),
{
    if kids.len() == 0 {
        Seq::empty()
    } else {
        let before = field_kids(src, seen, kids.drop_last());
        match kid_dict(src, seen, kids.last()) {
            Some(d) => if is_pure_widget(d) {
                before
            } else {
                before.push(kids.last())
            },
            None => before,
        }
    }
}

/// An absent value replaced by the inherited one.
pub open spec fn or_else<T>(own: Option<T>, inherited: Option<T>) -> Option<T> {
    match own {
        Some(_) => own,
        None => inherited,
    }
}

/// The value of a field: its own or the inherited one; the data of a stream
/// that is the value of a text field.
pub open spec fn field_value(
    src: SourceV,
    own: Option<ObjectV>,
    inherited: Option<ObjectV>,
    field_type: Option<FieldType>,
) -> Option<ObjectV> {
    match or_else(own, inherited) {
        Some(ObjectV::Stream(s)) => if field_type == Some(FieldType::Text) {
            match (src.decoded)(s) {
                Some(data) => Some(ObjectV::String(data)),
                None => None,
            }
        } else {
            Some(ObjectV::Stream(s))
        },
        value => value,
    }
}

/// The references in a field's `/Kids` that are read: none at the depth cap.
pub open spec fn kids_read(src: SourceV, p: PendingV) -> Seq<ObjRef> {
    if p.depth < MAX_FIELD_DEPTH {
        tree::references_of(tree::entry(src, p.dict, "Kids"@))
    } else {
        Seq::empty()
    }
}

/// The field that a waiting dictionary describes.
pub open spec fn field_of(src: SourceV, p: PendingV, seen: Set<ObjRef>) -> FormFieldV {
    let d = p.dict;
    let field_type = or_else(
        match tree::entry_name(src, d, "FT"@) {
            Some(name) => field_type_of(name),
            None => None,
        },
        p.inherited.field_type,
    );
    let partial_name = tree::entry_text(src, d, "T"@);
    FormFieldV {
        object: p.object,
        parent: p.parent,
        kids: field_kids(src, seen, kids_read(src, p)),
        widgets: (if is_widget_dict(d) {
            seq![widget_of(src, p.object, d)]
        } else {
            Seq::empty()
        }) + widget_kids(src, seen, kids_read(src, p)),
        field_type,
        partial_name,
        name: joined_name(p.inherited.name, partial_name),
        alternate_name: tree::entry_text(src, d, "TU"@),
        mapping_name: tree::entry_text(src, d, "TM"@),
        flags: match tree::entry_u32(src, d, "Ff"@) {
            Some(bits) => FieldFlags(bits),
            None => match p.inherited.flags {
                Some(flags) => flags,
                None => FieldFlags(0),
            },
        },
        value: field_value(src, tree::entry(src, d, "V"@), p.inherited.value, field_type),
        default_value: or_else(tree::entry(src, d, "DV"@), p.inherited.default_value),
        max_len: or_else(tree::entry_u32(src, d, "MaxLen"@), p.inherited.max_len),
        options: match tree::entry(src, d, "Opt"@) {
            Some(ObjectV::Array(items)) => choices_in(src, items),
            Some(_) => Seq::empty(),
            None => p.inherited.options,
        },
        top_index: match tree::entry_u32(src, d, "TI"@) {
            Some(index) => index,
            None => 0,
        },
        selected_indices: match tree::entry(src, d, "I"@) {
            Some(ObjectV::Array(items)) => smalls_in(items),
            _ => Seq::empty(),
        },
        additional_actions: tree::entry_dict(src, d, "AA"@),
        lock: tree::entry_ref(d, "Lock"@),
        seed_value: tree::entry_ref(d, "SV"@),
    }
}

/// What the kids of a field inherit from it.
pub open spec fn passed_on(field: FormFieldV) -> InheritedV {
    InheritedV {
        field_type: field.field_type,
        flags: Some(field.flags),
        value: field.value,
        default_value: field.default_value,
        name: field.name,
        max_len: field.max_len,
        options: field.options,
    }
}

/// The kid `r` of `field`, waiting to be read.
pub open spec fn pending_kid(src: SourceV, field: FormFieldV, depth: int, r: ObjRef) -> PendingV {
    PendingV {
        object: r,
        dict: fetched_dict(src, r)->0,
        parent: Some(field.object),
        inherited: passed_on(field),
        depth: depth + 1,
    }
}

/// The kids of a field, waiting to be read.
pub open spec fn pending_kids(src: SourceV, field: FormFieldV, depth: int) -> Seq<PendingV> {
    field.kids.map_values(|r: ObjRef| pending_kid(src, field, depth, r))
}

/// The fields read from a stack of waiting ones, the topmost first: each
/// reference once, a field before its kids, its kids before what waited
/// longer.
pub open spec fn fields_from(src: SourceV, stack: Seq<PendingV>, seen: Set<ObjRef>) -> Seq<
    FormFieldV,
>
    decreases refset::KEY_LIMIT - seen.len(), stack.len(),
{
    if stack.len() == 0 {
        Seq::empty()
    } else {
        let p = stack.last();
        let rest = stack.drop_last();
        if seen.contains(p.object) {
            fields_from(src, rest, seen)
        } else if !seen.finite() || seen.len() >= refset::KEY_LIMIT {
            Seq::empty()
        } else {
            let now = seen.insert(p.object);
            let field = field_of(src, p, now);
            seq![field] + fields_from(
                src,
                rest + pending_kids(src, field, p.depth).reverse(),
                now,
            )
        }
    }
}

/// The root fields that are dictionaries, waiting to be read.
pub open spec fn roots_of(src: SourceV, fields: Seq<ObjRef>) -> Seq<PendingV>
    decreases fields.len(),
{
    if fields.len() == 0 {
        Seq::empty()
    } else {
        let before = roots_of(src, fields.drop_last());
        match fetched_dict(src, fields.last()) {
            Some(d) => before.push(
                PendingV {
                    object: fields.last(),
                    dict: d,
                    parent: None,
                    inherited: no_inheritance(),
                    depth: 0,
                },
            ),
            None => before,
        }
    }
}

/// The fields of a document's form.
pub open spec fn form_fields_of(src: SourceV, trailer: Map<Seq<char>, ObjectV>) -> Seq<FormFieldV> {
    match tree::catalog_dict(src, trailer, "AcroForm"@) {
        Some(d) => fields_from(
            src,
            roots_of(src, tree::references_of(tree::entry(src, d, "Fields"@))).reverse(),
            Set::empty(),
        ),
        None => Seq::empty(),
    }
}

/// The fully qualified name of a field with partial name `partial` under
/// a parent named `parent`: the two joined by a period, the partial name
/// alone under an unnamed root, and the parent's name for a field without
/// a `/T`.
pub fn qualified_name(parent: &str, partial: Option<&str>) -> (out: String)
    ensures
        out@ == joined_name(
            parent@,
            match partial {
                Some(partial) => Some(partial@),
                None => None,
            },
        ),
{
    match partial {
        Some(partial) => if parent.is_empty() {
            partial.to_owned()
        } else {
            let mut name = parent.to_owned();
            name.append(".");
            name.append(partial);
            name
        },
        None => parent.to_owned(),
    }
}

/// The option an entry of an `/Opt` array stands for.
fn choice(item: &Object) -> (out: Option<ChoiceOption>)
    ensures
        match out {
            Some(option) => choice_of(item@) == Some(option@),
            None => choice_of(item@) is None,
        },
{
    match item {
        Object::String(name) => {
            let name = decode_text_string(name);
            Some(ChoiceOption { export_value: name.clone(), name })
        },
        Object::Array(pair) => if pair.len() == 2 {
            let ghost all = object::objects_view(pair@);
            assert(all[0] == pair@[0]@ && all[1] == pair@[1]@);
            match (&pair[0], &pair[1]) {
                (Object::String(export_value), Object::String(name)) => Some(
                    ChoiceOption {
                        export_value: decode_text_string(export_value),
                        name: decode_text_string(name),
                    },
                ),
                _ => None,
            }
        } else {
            None
        },
        _ => None,
    }
}

/// The options an `/Opt` array holds: a text string is an option whose export
/// value is its name, a pair of text strings is an export value and a name;
/// indirect entries are followed and anything else is skipped.
fn choice_options<S: ObjectSource>(src: &S, opt: &Object) -> (out: Vec<ChoiceOption>)
    ensures
        choices_view(out@) == (match opt@ {
            ObjectV::Array(items) => choices_in(src.model(), items),
            _ => Seq::empty(),
        }),
{
    let mut options: Vec<ChoiceOption> = Vec::new();
    assert(choices_view(options@) =~= Seq::<ChoiceV>::empty());
    if let Object::Array(items) = opt {
        let ghost all = object::objects_view(items@);
        let mut i: usize = 0;
        assert(all.take(0) =~= Seq::<ObjectV>::empty());
        while i < items.len()
            invariant
                i <= items@.len(),
                all == object::objects_view(items@),
                choices_view(options@) == choices_in(src.model(), all.take(i as int)),
            decreases items@.len() - i,
        {
            let ghost before = options@;
            proof {
                assert(all.take(i + 1).drop_last() =~= all.take(i as int));
                assert(all.take(i + 1).last() == items@[i as int]@);
            }
            if let Ok(item) = src.resolve(&items[i]) {
                if let Some(option) = choice(&item) {
                    options.push(option);
                    assert(choices_view(options@) =~= choices_view(before).push(option@));
                }
            }
            i += 1;
        }
        assert(all.take(i as int) =~= all);
    }
    options
}

/// The 32-bit integers among objects, anything else skipped.
fn smalls(items: &[Object]) -> (out: Vec<u32>)
    ensures
        out@ == smalls_in(object::objects_view(items@)),
{
    let ghost all = object::objects_view(items@);
    let mut out: Vec<u32> = Vec::new();
    let mut i: usize = 0;
    assert(all.take(0) =~= Seq::<ObjectV>::empty());
    while i < items.len()
        invariant
            i <= items@.len(),
            all == object::objects_view(items@),
            out@ == smalls_in(all.take(i as int)),
        decreases items@.len() - i,
    {
        proof {
            assert(all.take(i + 1).drop_last() =~= all.take(i as int));
            assert(all.take(i + 1).last() == items@[i as int]@);
        }
        if let Some(v) = items[i].as_int() {
            if let Some(n) = to_small(v) {
                out.push(n);
            }
        }
        i += 1;
    }
    assert(all.take(i as int) =~= all);
    out
}

/// The dictionary a reference points at, `None` for anything else.
fn field_dict<S: ObjectSource>(src: &S, object: ObjRef) -> (out: Option<Dict>)
    ensures
        dict_opt(out) == fetched_dict(src.model(), object),
{
    match src.get(object) {
        Ok(Object::Dict(dict)) => Some(dict),
        _ => None,
    }
}

/// Whether a dictionary is a widget annotation (`/Subtype /Widget`).
fn is_widget(dict: &Dict) -> (out: bool)
    ensures
        out == is_widget_dict(dict@),
{
    match dict.get_name("Subtype") {
        Some(subtype) => text::same(subtype.0.as_str(), "Widget"),
        None => false,
    }
}

/// The one key of a dictionary other than `Off`.
fn single_state(states: &Dict) -> (out: Option<String>)
    ensures
        tree::string_opt(out) == lone_state(states@),
{
    let entries = states.iter();
    let mut found: Option<usize> = None;
    let mut i: usize = 0;
    while i < entries.len()
        invariant
            i <= entries@.len(),
            forall|j: int|
                0 <= j < entries@.len() ==> object::lookup(states@, #[trigger] entries@[j].0@)
                    == Some(entries@[j].1@),
            forall|a: int, b: int|
                0 <= a < b < entries@.len() ==> text::chars_before(
                    #[trigger] entries@[a].0@,
                    #[trigger] entries@[b].0@,
                ),
            match found {
                Some(k) => k < i && entries@[k as int].0@ != "Off"@ && forall|j: int|
                    0 <= j < i && #[trigger] entries@[j].0@ != "Off"@ ==> j == k,
                None => forall|j: int| 0 <= j < i ==> #[trigger] entries@[j].0@ == "Off"@,
            },
        decreases entries@.len() - i,
    {
        if !text::same(entries[i].0.0.as_str(), "Off") {
            if let Some(k) = found {
                proof {
                    let a = entries@[k as int].0@;
                    let b = entries@[i as int].0@;
                    text::lemma_before_total(a, b);
                    assert(states@.contains_key(a) && states@.contains_key(b));
                    assert forall|key: Seq<char>| !only_state(states@, key) by {
                        if only_state(states@, key) {
                            assert(a == key);
                            assert(b == key);
                        }
                    }
                }
                return None;
            }
            found = Some(i);
        }
        i += 1;
    }
    match found {
        Some(k) => {
            let key = entries[k].0.0.clone();
            proof {
                assert(object::lookup(states@, entries@[k as int].0@) is Some);
                assert forall|other: Seq<char>| #[trigger] states@.contains_key(other) && other
                    != "Off"@ implies other == key@ by {
                    let j = choose|j: int|
                        0 <= j < entries@.len() && #[trigger] entries@[j].0@ == other;
                    assert(entries@[j].0@ != "Off"@);
                }
                lemma_lone_state(states@, key@);
            }
            Some(key)
        },
        None => {
            proof {
                assert forall|key: Seq<char>| !only_state(states@, key) by {
                    if only_state(states@, key) {
                        let j = choose|j: int|
                            0 <= j < entries@.len() && #[trigger] entries@[j].0@ == key;
                        assert(entries@[j].0@ == "Off"@);
                    }
                }
            }
            None
        },
    }
}

/// The on state of a widget: the one key of its `/AP /N` dictionary other
/// than `Off`; `None` when `/N` is a single stream or names no or several
/// other states.
fn on_state<S: ObjectSource>(src: &S, dict: &Dict) -> (out: Option<String>)
    ensures
        tree::string_opt(out) == on_state_of(src.model(), dict@),
{
    let appearance = match (Entries { src, dict }).sub_dict("AP") {
        Some(appearance) => appearance,
        None => {
            return None;
        },
    };
    let states = match (Entries { src, dict: &appearance }).sub_dict("N") {
        Some(states) => states,
        None => {
            return None;
        },
    };
    single_state(&states)
}

/// The caption and icon entries of a widget's `/MK` dictionary; `None`
/// without the dictionary. A caption that is no string, an icon that is no
/// reference and a `/TP` outside 0 to 6 read as absent.
fn characteristics<S: ObjectSource>(src: &S, dict: &Dict) -> (out: Option<
    AppearanceCharacteristics,
>)
    ensures
        match out {
            Some(c) => characteristics_of(src.model(), dict@) == Some(c@),
            None => characteristics_of(src.model(), dict@) is None,
        },
{
    let mk = match (Entries { src, dict }).sub_dict("MK") {
        Some(mk) => mk,
        None => {
            return None;
        },
    };
    let entries = Entries { src, dict: &mk };
    let caption_position = match entries.integer("TP") {
        Some(code) => match CaptionPosition::from_int(code) {
            Some(position) => position,
            None => CaptionPosition::CaptionOnly,
        },
        None => CaptionPosition::CaptionOnly,
    };
    Some(
        AppearanceCharacteristics {
            caption: entries.text("CA"),
            rollover_caption: entries.text("RC"),
            alternate_caption: entries.text("AC"),
            icon: entries.reference("I"),
            rollover_icon: entries.reference("RI"),
            alternate_icon: entries.reference("IX"),
            caption_position,
        },
    )
}

/// The widget record of an annotation dictionary: its reference, its
/// `/AS` and its on state.
fn widget<S: ObjectSource>(src: &S, object: ObjRef, dict: &Dict) -> (out: Widget)
    ensures
        out@ == widget_of(src.model(), object, dict@),
{
    Widget {
        object,
        appearance_state: name_under(dict, "AS"),
        on_state: on_state(src, dict),
        characteristics: characteristics(src, dict),
    }
}

/// A copy of choice options.
fn clone_options(options: &Vec<ChoiceOption>) -> (out: Vec<ChoiceOption>)
    ensures
        choices_view(out@) == choices_view(options@),
{
    let mut out: Vec<ChoiceOption> = Vec::new();
    let mut i: usize = 0;
    while i < options.len()
        invariant
            i <= options@.len(),
            out@.len() == i,
            forall|j: int| 0 <= j < i ==> (#[trigger] out@[j])@ == options@[j]@,
        decreases options@.len() - i,
    {
        out.push(
            ChoiceOption {
                export_value: options[i].export_value.clone(),
                name: options[i].name.clone(),
            },
        );
        i += 1;
    }
    assert(choices_view(out@) =~= choices_view(options@));
    out
}

/// A copy of an object that may be absent.
fn clone_value(value: &Option<Object>) -> (out: Option<Object>)
    ensures
        object::owned_view(out) == object::owned_view(*value),
{
    match value {
        Some(o) => Some(o.clone()),
        None => None,
    }
}

/// The kids of a field, told apart: the fields among them with their
/// dictionaries, and the widgets.
struct Kids {
    fields: Vec<ObjRef>,
    dicts: Vec<Dict>,
    widgets: Vec<Widget>,
}

/// Classifies the references of a `/Kids` array into widgets and child
/// fields. A kid already visited and one that is not a dictionary is skipped.
fn sort_kids<S: ObjectSource>(src: &S, kids: &Vec<ObjRef>, visited: &RefSet) -> (out: Kids)
    ensures
        out.fields@ == field_kids(src.model(), visited@, kids@),
        widgets_view(out.widgets@) == widget_kids(src.model(), visited@, kids@),
        out.dicts@.len() == out.fields@.len(),
        forall|j: int|
            0 <= j < out.dicts@.len() ==> fetched_dict(src.model(), out.fields@[j]) == Some(
                (#[trigger] out.dicts@[j])@,
            ),
{
    let mut fields: Vec<ObjRef> = Vec::new();
    let mut dicts: Vec<Dict> = Vec::new();
    let mut widgets: Vec<Widget> = Vec::new();
    let mut i: usize = 0;
    proof {
        assert(kids@.take(0) =~= Seq::<ObjRef>::empty());
        assert(widgets_view(widgets@) =~= Seq::<WidgetV>::empty());
    }
    while i < kids.len()
        invariant
            i <= kids@.len(),
            fields@ == field_kids(src.model(), visited@, kids@.take(i as int)),
            widgets_view(widgets@) == widget_kids(src.model(), visited@, kids@.take(i as int)),
            dicts@.len() == fields@.len(),
            forall|j: int|
                0 <= j < dicts@.len() ==> fetched_dict(src.model(), fields@[j]) == Some(
                    (#[trigger] dicts@[j])@,
                ),
        decreases kids@.len() - i,
    {
        let kid = kids[i];
        proof {
            assert(kids@.take(i + 1).drop_last() =~= kids@.take(i as int));
            assert(kids@.take(i + 1).last() == kid);
        }
        if !visited.contains(kid) {
            if let Some(dict) = field_dict(src, kid) {
                if is_widget(&dict) && dict.get("T").is_none() {
                    let ghost before = widgets@;
                    let found = widget(src, kid, &dict);
                    widgets.push(found);
                    assert(widgets_view(widgets@) =~= widgets_view(before).push(found@));
                } else {
                    fields.push(kid);
                    dicts.push(dict);
                }
            }
        }
        i += 1;
    }
    assert(kids@.take(i as int) =~= kids@);
    Kids { fields, dicts, widgets }
}

/// Puts waiting fields on a stack so that the first of them is on top.
fn stack_up(stack: &mut Vec<Pending>, waiting: Vec<Pending>)
    ensures
        pendings_view(final(stack)@) == pendings_view(old(stack)@) + pendings_view(
            waiting@,
        ).reverse(),
{
    let ghost whole = pendings_view(waiting@);
    let ghost below = pendings_view(stack@);
    let mut waiting = waiting;
    assert(below + Seq::<PendingV>::empty() =~= below);
    assert(whole.skip(whole.len() as int).reverse() =~= Seq::<PendingV>::empty());
    while waiting.len() > 0
        invariant
            waiting@.len() <= whole.len(),
            pendings_view(waiting@) == whole.take(waiting@.len() as int),
            pendings_view(stack@) == below + whole.skip(waiting@.len() as int).reverse(),
        decreases waiting@.len(),
    {
        let ghost left = waiting@.len() as int;
        let ghost before = stack@;
        let ghost all = waiting@;
        if let Some(next) = waiting.pop() {
            assert(pendings_view(all).last() == next@);
            assert(pendings_view(waiting@) =~= whole.take(left - 1)) by {
                assert(pendings_view(waiting@) =~= pendings_view(all).drop_last());
            }
            assert(next@ == whole[left - 1]);
            stack.push(next);
            assert(pendings_view(stack@) =~= pendings_view(before).push(next@));
            assert(pendings_view(stack@) =~= below + whole.skip(left - 1).reverse());
        }
    }
    assert(whole.skip(0) =~= whole);
}

/// The child fields of a field ready to be read with what they inherit, in
/// the order of its kids.
fn child_fields(field: &FormField, dicts: Vec<Dict>, depth: usize, src: Ghost<SourceV>) -> (out:
    Vec<Pending>)
    requires
        dicts@.len() == field.kids@.len(),
        dicts@.len() > 0 ==> depth < MAX_FIELD_DEPTH,
        forall|j: int|
            0 <= j < dicts@.len() ==> fetched_dict(src@, field.kids@[j]) == Some(
                (#[trigger] dicts@[j])@,
            ),
    ensures
        pendings_view(out@) == pending_kids(src@, field@, depth as int),
{
    let ghost whole = dicts@;
    let mut dicts = dicts;
    let mut last_first: Vec<Pending> = Vec::new();
    let mut i: usize = dicts.len();
    while i > 0
        invariant
            i == dicts@.len(),
            dicts@ == whole.take(i as int),
            whole.len() == field.kids@.len(),
            whole.len() > 0 ==> depth < MAX_FIELD_DEPTH,
            forall|j: int|
                0 <= j < whole.len() ==> fetched_dict(src@, field.kids@[j]) == Some(
                    (#[trigger] whole[j])@,
                ),
            last_first@.len() == whole.len() - i,
            forall|j: int|
                0 <= j < last_first@.len() ==> (#[trigger] last_first@[j])@ == pending_kid(
                    src@,
                    field@,
                    depth as int,
                    field.kids@[whole.len() - 1 - j],
                ),
        decreases i,
    {
        i -= 1;
        if let Some(dict) = dicts.pop() {
            assert(dict@ == whole[i as int]@);
            let kid = Pending {
                object: field.kids[i],
                dict,
                parent: Some(field.object),
                inherited: Inherited {
                    field_type: field.field_type,
                    flags: Some(field.flags),
                    value: clone_value(&field.value),
                    default_value: clone_value(&field.default_value),
                    name: field.name.clone(),
                    max_len: field.max_len,
                    options: clone_options(&field.options),
                },
                depth: depth + 1,
            };
            assert(kid@ =~= pending_kid(src@, field@, depth as int, field.kids@[i as int]));
            last_first.push(kid);
        }
        assert(whole.take(i + 1).drop_last() =~= whole.take(i as int));
    }
    let ghost kids = pending_kids(src@, field@, depth as int);
    assert(pendings_view(last_first@) =~= kids.reverse());
    let mut out: Vec<Pending> = Vec::new();
    assert(pendings_view(out@) =~= Seq::<PendingV>::empty());
    stack_up(&mut out, last_first);
    assert(kids.reverse().reverse() =~= kids);
    assert(pendings_view(out@) =~= kids);
    out
}

/// The value of a field; a text field's value may be a stream, whose data is
/// the text.
fn value_of<S: ObjectSource>(
    src: &S,
    own: Option<Object>,
    inherited: Option<Object>,
    field_type: Option<FieldType>,
) -> (out: Option<Object>)
    ensures
        object::owned_view(out) == field_value(
            src.model(),
            object::owned_view(own),
            object::owned_view(inherited),
            field_type,
        ),
{
    let value = match own {
        Some(own) => Some(own),
        None => inherited,
    };
    match value {
        Some(Object::Stream(stream)) => if field_type == Some(FieldType::Text) {
            match src.stream_data(&stream) {
                Ok(data) => Some(Object::String(data)),
                Err(_) => None,
            }
        } else {
            Some(Object::Stream(stream))
        },
        value => value,
    }
}

/// Reads one field and classifies its `/Kids` into widgets and child
/// fields; the children come back ready to be read with what they inherit, in
/// the order of `/Kids`. A kid already visited, one that is not a dictionary,
/// and every kid of a field at the depth cap is skipped.
fn read_field<S: ObjectSource>(src: &S, pending: Pending, visited: &RefSet) -> (out: (
    FormField,
    Vec<Pending>,
))
    ensures
        out.0@ == field_of(src.model(), pending@, visited@),
        pendings_view(out.1@) == pending_kids(src.model(), out.0@, pending@.depth),
{
    let ghost given = pending@;
    let Pending { object, dict, parent, inherited, depth } = pending;
    let ghost taken = inherited@;
    let entries = Entries { src, dict: &dict };
    let own_type = match entries.name("FT") {
        Some(name) => FieldType::from_name(name.as_str()),
        None => None,
    };
    let field_type = match own_type {
        Some(own) => Some(own),
        None => inherited.field_type,
    };
    let flags = match entries.small("Ff") {
        Some(bits) => FieldFlags(bits),
        None => match inherited.flags {
            Some(flags) => flags,
            None => FieldFlags(0),
        },
    };
    let value = value_of(src, entries.value("V"), inherited.value, field_type);
    let default_value = match entries.value("DV") {
        Some(own) => Some(own),
        None => inherited.default_value,
    };
    let max_len = match entries.small("MaxLen") {
        Some(own) => Some(own),
        None => inherited.max_len,
    };
    let options = match entries.value("Opt") {
        Some(opt) => choice_options(src, &opt),
        None => inherited.options,
    };
    let top_index: u32 = match entries.small("TI") {
        Some(index) => index,
        None => 0,
    };
    let selected_indices = match entries.value("I") {
        Some(Object::Array(items)) => smalls(&items),
        _ => Vec::new(),
    };
    let partial_name = entries.text("T");
    let name = match &partial_name {
        Some(partial) => qualified_name(inherited.name.as_str(), Some(partial.as_str())),
        None => qualified_name(inherited.name.as_str(), None),
    };
    let mut widgets: Vec<Widget> = Vec::new();
    let own_widget = is_widget(&dict);
    if own_widget {
        widgets.push(widget(src, object, &dict));
    }
    let ghost first = widgets@;
    let references = if depth < MAX_FIELD_DEPTH {
        let kids = entries.value("Kids");
        tree::references(kids.as_ref())
    } else {
        Vec::new()
    };
    assert(references@ == kids_read(src.model(), given));
    let mut kids = sort_kids(src, &references, visited);
    let ghost more = kids.widgets@;
    widgets.append(&mut kids.widgets);
    assert(widgets_view(widgets@) =~= widgets_view(first) + widgets_view(more));
    assert(widgets_view(first) =~= (if own_widget {
        seq![widget_of(src.model(), object, dict@)]
    } else {
        Seq::empty()
    }));
    let field = FormField {
        object,
        parent,
        kids: kids.fields,
        widgets,
        field_type,
        partial_name,
        name,
        alternate_name: entries.text("TU"),
        mapping_name: entries.text("TM"),
        flags,
        value,
        default_value,
        max_len,
        options,
        top_index,
        selected_indices,
        additional_actions: entries.sub_dict("AA"),
        lock: entries.reference("Lock"),
        seed_value: entries.reference("SV"),
    };
    assert(field@ =~= field_of(src.model(), given, visited@));
    let children = child_fields(&field, kids.dicts, depth, Ghost(src.model()));
    (field, children)
}

/// The fields of the document's form in walk order: each root of the form's
/// `/Fields` and its descendants in turn, a field before its kids. A
/// reference that is no dictionary is skipped, a field met a second time is
/// not read again, and the kids of a field at the depth cap are dropped;
/// empty without a form.
pub fn form_fields_with<S: ObjectSource>(src: &S, trailer: &Dict) -> (out: Vec<FormField>)
    ensures
        fields_view(out@) == form_fields_of(src.model(), trailer@),
{
    let mut fields: Vec<FormField> = Vec::new();
    assert(fields_view(fields@) =~= Seq::<FormFieldV>::empty());
    let form = match interactive_form_with(src, trailer) {
        Some(form) => form,
        None => {
            return fields;
        },
    };
    let mut stack: Vec<Pending> = Vec::new();
    assert(pendings_view(stack@) =~= Seq::<PendingV>::empty());
    stack_up(&mut stack, root_fields(src, &form.fields));
    assert(pendings_view(stack@) =~= roots_of(src.model(), form.fields@).reverse());
    let mut visited = RefSet::new();
    let ghost total = fields_from(src.model(), pendings_view(stack@), visited@);
    assert(fields_view(fields@) + total =~= total);
    while stack.len() > 0
        invariant
            total == fields_view(fields@) + fields_from(
                src.model(),
                pendings_view(stack@),
                visited@,
            ),
            visited@.finite(),
        decreases refset::KEY_LIMIT - visited@.len(), stack@.len(),
    {
        let ghost seen = visited@;
        let ghost waiting = pendings_view(stack@);
        if let Some(pending) = stack.pop() {
            let ghost next = pending@;
            proof {
                assert(waiting.last() == next);
                assert(pendings_view(stack@) =~= waiting.drop_last());
            }
            if visited.insert(pending.object) {
                let ghost read = fields_view(fields@);
                let (field, children) = read_field(src, pending, &visited);
                stack_up(&mut stack, children);
                proof {
                    assert(seen.len() < refset::KEY_LIMIT);
                    assert(fields_from(src.model(), waiting, seen) == seq![field@] + fields_from(
                        src.model(),
                        pendings_view(stack@),
                        visited@,
                    ));
                }
                fields.push(field);
                assert(fields_view(fields@) =~= read + seq![field@]);
            } else {
                assert(visited@ =~= seen);
            }
        }
    }
    assert(pendings_view(stack@) =~= Seq::<PendingV>::empty());
    fields
}

/// The root fields that are dictionaries, ready to be read.
fn root_fields<S: ObjectSource>(src: &S, references: &Vec<ObjRef>) -> (out: Vec<Pending>)
    ensures
        pendings_view(out@) == roots_of(src.model(), references@),
{
    let mut roots: Vec<Pending> = Vec::new();
    let mut i: usize = 0;
    proof {
        assert(references@.take(0) =~= Seq::<ObjRef>::empty());
        assert(pendings_view(roots@) =~= Seq::<PendingV>::empty());
    }
    while i < references.len()
        invariant
            i <= references@.len(),
            pendings_view(roots@) == roots_of(src.model(), references@.take(i as int)),
        decreases references@.len() - i,
    {
        let object = references[i];
        proof {
            assert(references@.take(i + 1).drop_last() =~= references@.take(i as int));
            assert(references@.take(i + 1).last() == object);
        }
        if let Some(dict) = field_dict(src, object) {
            let ghost before = roots@;
            let root = Pending {
                object,
                dict,
                parent: None,
                inherited: Inherited {
                    field_type: None,
                    flags: None,
                    value: None,
                    default_value: None,
                    name: String::new(),
                    max_len: None,
                    options: Vec::new(),
                },
                depth: 0,
            };
            assert(root@.inherited =~= no_inheritance());
            roots.push(root);
            assert(pendings_view(roots@) =~= pendings_view(before).push(root@));
        }
        i += 1;
    }
    assert(references@.take(i as int) =~= references@);
    roots
}

/// Whether a waiting field is read from the dictionary its reference points at
/// and inherits nothing or inherits from one of `done`.
spec fn grounded(src: SourceV, p: PendingV, done: Seq<FormFieldV>) -> bool {
    &&& fetched_dict(src, p.object) == Some(p.dict)
    &&& match p.parent {
        None => p.inherited == no_inheritance(),
        Some(r) => exists|j: int|
            0 <= j < done.len() && (#[trigger] done[j]).object == r && p.inherited == passed_on(
                done[j],
            ),
    }
}

/// Whether the field `f` takes its name and the entries that its own dictionary
/// lacks from `given`.
pub open spec fn inherits(src: SourceV, f: FormFieldV, given: InheritedV) -> bool {
    match fetched_dict(src, f.object) {
        Some(d) => {
            &&& f.partial_name == tree::entry_text(src, d, "T"@)
            &&& f.name == joined_name(given.name, f.partial_name)
            &&& tree::entry(src, d, "FT"@) is None ==> f.field_type == given.field_type
            &&& tree::entry(src, d, "Ff"@) is None ==> f.flags == (match given.flags {
                Some(flags) => flags,
                None => FieldFlags(0),
            })
            &&& tree::entry(src, d, "DV"@) is None ==> f.default_value == given.default_value
            &&& tree::entry(src, d, "MaxLen"@) is None ==> f.max_len == given.max_len
            &&& tree::entry(src, d, "Opt"@) is None ==> f.options == given.options
        },
        None => false,
    }
}

/// Whether the field at `i` inherits nothing, or inherits from an earlier field
/// that is its parent.
pub open spec fn follows_its_parent(src: SourceV, fields: Seq<FormFieldV>, i: int) -> bool {
    match fields[i].parent {
        None => inherits(src, fields[i], no_inheritance()),
        Some(r) => exists|j: int|
            0 <= j < i && (#[trigger] fields[j]).object == r && inherits(
                src,
                fields[i],
                passed_on(fields[j]),
            ),
    }
}

proof fn lemma_grounded_more(src: SourceV, p: PendingV, done: Seq<FormFieldV>, field: FormFieldV)
    requires
        grounded(src, p, done),
    ensures
        grounded(src, p, done.push(field)),
{
    if let Some(r) = p.parent {
        let j = choose|j: int|
            0 <= j < done.len() && (#[trigger] done[j]).object == r && p.inherited == passed_on(
                done[j],
            );
        assert(done.push(field)[j] == done[j]);
    }
}

proof fn lemma_follows_more(src: SourceV, done: Seq<FormFieldV>, field: FormFieldV, i: int)
    requires
        0 <= i < done.len(),
        follows_its_parent(src, done, i),
    ensures
        follows_its_parent(src, done.push(field), i),
{
    assert(done.push(field)[i] == done[i]);
    if let Some(r) = done[i].parent {
        let j = choose|j: int|
            0 <= j < i && (#[trigger] done[j]).object == r && inherits(
                src,
                done[i],
                passed_on(done[j]),
            );
        assert(done.push(field)[j] == done[j]);
    }
}

proof fn lemma_field_follows(
    src: SourceV,
    p: PendingV,
    seen: Set<ObjRef>,
    done: Seq<FormFieldV>,
)
    requires
        grounded(src, p, done),
    ensures
        follows_its_parent(src, done.push(field_of(src, p, seen)), done.len() as int),
{
    let field = field_of(src, p, seen);
    assert(inherits(src, field, p.inherited));
    assert(done.push(field)[done.len() as int] == field);
    if let Some(r) = p.parent {
        let j = choose|j: int|
            0 <= j < done.len() && (#[trigger] done[j]).object == r && p.inherited == passed_on(
                done[j],
            );
        assert(done.push(field)[j] == done[j]);
    }
}

proof fn lemma_field_kids(src: SourceV, seen: Set<ObjRef>, kids: Seq<ObjRef>)
    ensures
        forall|j: int|
            0 <= j < field_kids(src, seen, kids).len() ==> fetched_dict(
                src,
                #[trigger] field_kids(src, seen, kids)[j],
            ) is Some,
    decreases kids.len(),
{
    if kids.len() > 0 {
        lemma_field_kids(src, seen, kids.drop_last());
    }
}

proof fn lemma_kids_grounded(src: SourceV, p: PendingV, seen: Set<ObjRef>, done: Seq<FormFieldV>)
    ensures
        ({
            let field = field_of(src, p, seen);
            let kids = pending_kids(src, field, p.depth);
            forall|k: int|
                0 <= k < kids.len() ==> grounded(src, #[trigger] kids[k], done.push(field))
        }),
{
    let field = field_of(src, p, seen);
    let kids = pending_kids(src, field, p.depth);
    lemma_field_kids(src, seen, kids_read(src, p));
    assert(done.push(field)[done.len() as int] == field);
    assert forall|k: int| 0 <= k < kids.len() implies grounded(
        src,
        #[trigger] kids[k],
        done.push(field),
    ) by {
        assert(kids[k] == pending_kid(src, field, p.depth, field.kids[k]));
    }
}

/// Whether all of the waiting fields are grounded in `done`.
#[verifier::opaque]
spec fn all_grounded(src: SourceV, stack: Seq<PendingV>, done: Seq<FormFieldV>) -> bool {
    forall|k: int| 0 <= k < stack.len() ==> grounded(src, #[trigger] stack[k], done)
}

/// Whether all fields follow their parents.
#[verifier::opaque]
spec fn all_follow(src: SourceV, fields: Seq<FormFieldV>) -> bool {
    forall|i: int| 0 <= i < fields.len() ==> #[trigger] follows_its_parent(src, fields, i)
}

proof fn lemma_field_read(
    src: SourceV,
    stack: Seq<PendingV>,
    seen: Set<ObjRef>,
    done: Seq<FormFieldV>,
)
    requires
        stack.len() > 0,
        all_grounded(src, stack, done),
        all_follow(src, done),
    ensures
        all_grounded(src, stack.drop_last(), done),
        ({
            let field = field_of(src, stack.last(), seen);
            let kids = pending_kids(src, field, stack.last().depth);
            &&& all_grounded(src, stack.drop_last() + kids.reverse(), done.push(field))
            &&& all_follow(src, done.push(field))
        }),
{
    reveal(all_grounded);
    reveal(all_follow);
    let p = stack.last();
    let rest = stack.drop_last();
    let field = field_of(src, p, seen);
    let kids = pending_kids(src, field, p.depth);
    let next = rest + kids.reverse();
    assert forall|k: int| 0 <= k < rest.len() implies grounded(src, #[trigger] rest[k], done) by {
        assert(grounded(src, stack[k], done));
    }
    assert(grounded(src, stack[stack.len() - 1], done));
    lemma_kids_grounded(src, p, seen, done);
    lemma_field_follows(src, p, seen, done);
    assert forall|k: int| 0 <= k < next.len() implies grounded(
        src,
        #[trigger] next[k],
        done.push(field),
    ) by {
        if k < rest.len() {
            lemma_grounded_more(src, rest[k], done, field);
        } else {
            assert(next[k] == kids[kids.len() - 1 - (k - rest.len())]);
        }
    }
    assert forall|i: int| 0 <= i < done.len() + 1 implies #[trigger] follows_its_parent(
        src,
        done.push(field),
        i,
    ) by {
        if i < done.len() {
            lemma_follows_more(src, done, field, i);
        }
    }
}

proof fn lemma_fields_inherit(
    src: SourceV,
    stack: Seq<PendingV>,
    seen: Set<ObjRef>,
    done: Seq<FormFieldV>,
)
    requires
        all_grounded(src, stack, done),
        all_follow(src, done),
    ensures
        all_follow(src, done + fields_from(src, stack, seen)),
    decreases refset::KEY_LIMIT - seen.len(), stack.len(),
{
    let all = done + fields_from(src, stack, seen);
    if stack.len() == 0 {
        assert(all =~= done);
    } else {
        let p = stack.last();
        let rest = stack.drop_last();
        let now = seen.insert(p.object);
        lemma_field_read(src, stack, now, done);
        if seen.contains(p.object) {
            lemma_fields_inherit(src, rest, seen, done);
        } else if !seen.finite() || seen.len() >= refset::KEY_LIMIT {
            assert(all =~= done);
        } else {
            let field = field_of(src, p, now);
            let next = rest + pending_kids(src, field, p.depth).reverse();
            lemma_fields_inherit(src, next, now, done.push(field));
            assert(all =~= done.push(field) + fields_from(src, next, now));
        }
    }
}

proof fn lemma_roots(src: SourceV, fields: Seq<ObjRef>)
    ensures
        forall|k: int|
            0 <= k < roots_of(src, fields).len() ==> grounded(
                src,
                #[trigger] roots_of(src, fields)[k],
                Seq::empty(),
            ),
    decreases fields.len(),
{
    if fields.len() > 0 {
        let before = roots_of(src, fields.drop_last());
        let roots = roots_of(src, fields);
        lemma_roots(src, fields.drop_last());
        assert forall|k: int| 0 <= k < roots.len() implies grounded(
            src,
            #[trigger] roots[k],
            Seq::empty(),
        ) by {
            if k < before.len() {
                assert(roots[k] == before[k]);
            }
        }
    }
}

/// A field comes after the field it is a kid of, its fully qualified name is
/// that field's name with its own partial name, and what its dictionary lacks
/// it has from there; a root field inherits nothing.
pub proof fn fields_inherit_from_their_parents(src: SourceV, trailer: Map<Seq<char>, ObjectV>)
    ensures
        forall|i: int|
            0 <= i < form_fields_of(src, trailer).len() ==> #[trigger] follows_its_parent(
                src,
                form_fields_of(src, trailer),
                i,
            ),
{
    if let Some(d) = tree::catalog_dict(src, trailer, "AcroForm"@) {
        let refs = tree::references_of(tree::entry(src, d, "Fields"@));
        let stack = roots_of(src, refs).reverse();
        lemma_roots(src, refs);
        reveal(all_grounded);
        reveal(all_follow);
        assert forall|k: int| 0 <= k < stack.len() implies grounded(
            src,
            #[trigger] stack[k],
            Seq::empty(),
        ) by {
            assert(stack[k] == roots_of(src, refs)[stack.len() - 1 - k]);
        }
        lemma_fields_inherit(src, stack, Set::empty(), Seq::empty());
        assert(Seq::<FormFieldV>::empty() + fields_from(src, stack, Set::empty()) =~= fields_from(
            src,
            stack,
            Set::empty(),
        ));
    }
}

proof fn lemma_fields_distinct(src: SourceV, stack: Seq<PendingV>, seen: Set<ObjRef>)
    ensures
        forall|i: int|
            0 <= i < fields_from(src, stack, seen).len() ==> !seen.contains(
                (#[trigger] fields_from(src, stack, seen)[i]).object,
            ),
        forall|i: int, j: int|
            0 <= i < j < fields_from(src, stack, seen).len() ==> (#[trigger] fields_from(
                src,
                stack,
                seen,
            )[i]).object != (#[trigger] fields_from(src, stack, seen)[j]).object,
    decreases refset::KEY_LIMIT - seen.len(), stack.len(),
{
    if stack.len() > 0 {
        let p = stack.last();
        let rest = stack.drop_last();
        if seen.contains(p.object) {
            lemma_fields_distinct(src, rest, seen);
        } else if seen.finite() && seen.len() < refset::KEY_LIMIT {
            let now = seen.insert(p.object);
            let field = field_of(src, p, now);
            let next = rest + pending_kids(src, field, p.depth).reverse();
            lemma_fields_distinct(src, next, now);
            let all = fields_from(src, stack, seen);
            let later = fields_from(src, next, now);
            assert forall|i: int| 0 < i < all.len() implies #[trigger] all[i] == later[i - 1] by {}
        }
    }
}

/// No two fields of a form have one reference: a field that several places
/// lead to is read once.
pub proof fn fields_are_read_once(src: SourceV, trailer: Map<Seq<char>, ObjectV>)
    ensures
        forall|i: int, j: int|
            0 <= i < j < form_fields_of(src, trailer).len() ==> (#[trigger] form_fields_of(
                src,
                trailer,
            )[i]).object != (#[trigger] form_fields_of(src, trailer)[j]).object,
{
    if let Some(d) = tree::catalog_dict(src, trailer, "AcroForm"@) {
        let refs = tree::references_of(tree::entry(src, d, "Fields"@));
        lemma_fields_distinct(src, roots_of(src, refs).reverse(), Set::empty());
    }
}

/// Law: flag positions count from 1 at the bit of weight one.
pub proof fn flag_positions_count_from_one(word: u32, position: u32)
    requires
        1 <= position <= 32,
    ensures
        bit_set(word, position) <==> word as int / (pow2((position - 1) as nat) as int) % 2 == 1,
{
    let shift = (position - 1) as u32;
    lemma2_to64();
    vstd::bits::lemma_u32_shr_is_div(word, shift);
    let q: u32 = word >> shift;
    assert(q & 1 == q % 2) by (bit_vector);
    lemma_pow2_pos(shift as nat);
}

/// Law: of the signature flags the bit of weight one says that signatures exist
/// and the bit of weight two that changes are to be appended.
pub proof fn signature_flags_are_the_low_bits(bits: i64)
    ensures
        signature_bits(bits).signatures_exist == (bits % 2 == 1),
        signature_bits(bits).append_only == (bits % 4 == 2 || bits % 4 == 3),
{
    assert((bits & 1 != 0) == (bits % 2 == 1)) by (bit_vector);
    assert((bits & 2 != 0) == (bits % 4 == 2 || bits % 4 == 3)) by (bit_vector);
}

/// The number a quadding is written as.
pub open spec fn quadding_code(q: Quadding) -> i64 {
    match q {
        Quadding::Left => 0,
        Quadding::Centered => 1,
        Quadding::Right => 2,
    }
}

/// The name a field type is written as.
pub open spec fn field_type_name(t: FieldType) -> Seq<char> {
    match t {
        FieldType::Button => "Btn"@,
        FieldType::Text => "Tx"@,
        FieldType::Choice => "Ch"@,
        FieldType::Signature => "Sig"@,
    }
}

/// The number a caption position is written as.
pub open spec fn caption_position_code(p: CaptionPosition) -> i64 {
    match p {
        CaptionPosition::CaptionOnly => 0,
        CaptionPosition::IconOnly => 1,
        CaptionPosition::Below => 2,
        CaptionPosition::Above => 3,
        CaptionPosition::Right => 4,
        CaptionPosition::Left => 5,
        CaptionPosition::Overlaid => 6,
    }
}

/// Law: quaddings, field types and caption positions are read back from what
/// they are written as, and nothing else is read as one of them.
pub proof fn form_codes_are_faithful(
    q: Quadding,
    t: FieldType,
    p: CaptionPosition,
    code: i64,
    name: Seq<char>,
)
    ensures
        quadding_of(quadding_code(q)) == Some(q),
        field_type_of(field_type_name(t)) == Some(t),
        caption_position_of(caption_position_code(p)) == Some(p),
        quadding_of(code) matches Some(r) ==> quadding_code(r) == code,
        field_type_of(name) matches Some(r) ==> field_type_name(r) == name,
        caption_position_of(code) matches Some(r) ==> caption_position_code(r) == code,
{
    reveal_strlit("Btn");
    reveal_strlit("Tx");
    reveal_strlit("Ch");
    reveal_strlit("Sig");
    assert("Btn"@.len() == 3 && "Tx"@.len() == 2 && "Ch"@.len() == 2 && "Sig"@.len() == 3);
    assert("Btn"@[0] != "Sig"@[0]);
    assert("Tx"@[0] != "Ch"@[0]);
}

/// Law: what kind of button a field is, by the seventeenth and sixteenth flags:
/// a push button with the first, radio buttons with the second alone, a check
/// box with neither. No other field is a button.
pub proof fn buttons_are_told_by_their_flags(word: u32, t: Option<FieldType>)
    ensures
        t == Some(FieldType::Button) && word / 65536 % 2 == 1 ==> button_kind_of(
            t,
            FieldFlags(word),
        ) == Some(ButtonKind::PushButton),
        t == Some(FieldType::Button) && word / 65536 % 2 == 0 && word / 32768 % 2 == 1
            ==> button_kind_of(t, FieldFlags(word)) == Some(ButtonKind::RadioButtons),
        t == Some(FieldType::Button) && word / 65536 % 2 == 0 && word / 32768 % 2 == 0
            ==> button_kind_of(t, FieldFlags(word)) == Some(ButtonKind::CheckBox),
        t != Some(FieldType::Button) ==> button_kind_of(t, FieldFlags(word)) is None,
{
    lemma2_to64();
    flag_positions_count_from_one(word, 17);
    flag_positions_count_from_one(word, 16);
}

/// Law: the state of a check box or of radio buttons is the name they have for
/// a value, `Off` without one; a push button has none.
pub proof fn button_states_are_names(kind: ButtonKind, name: Seq<char>)
    ensures
        button_state(Some(ButtonKind::PushButton), Some(ObjectV::Name(name))) is None,
        button_state(None, Some(ObjectV::Name(name))) is None,
        kind != ButtonKind::PushButton ==> button_state(Some(kind), Some(ObjectV::Name(name)))
            == Some(name),
        kind != ButtonKind::PushButton ==> button_state(Some(kind), None) == Some("Off"@),
        button_state(Some(kind), Some(ObjectV::Bool(true))) is None,
{
}

/// Law: the widgets that a state turns on are listed by their positions, each
/// once and in order, and no others.
pub proof fn widgets_on_are_listed(widgets: Seq<Widget>, state: Seq<char>)
    requires
        widgets.len() <= usize::MAX,
    ensures
        ({
            let on = widgets_on(widgets, state);
            &&& forall|k: int|
                0 <= k < on.len() ==> 0 <= (#[trigger] on[k]) < widgets.len()
                    && tree::string_opt(widgets[on[k] as int].on_state) == Some(state)
            &&& forall|i: int|
                0 <= i < widgets.len() && tree::string_opt((#[trigger] widgets[i]).on_state)
                    == Some(state) ==> on.contains(i as usize)
            &&& forall|j: int, k: int|
                0 <= j < k < on.len() ==> #[trigger] on[j] < #[trigger] on[k]
        }),
    decreases widgets.len(),
{
    if widgets.len() > 0 {
        let head = widgets.drop_last();
        widgets_on_are_listed(head, state);
        let before = widgets_on(head, state);
        let on = widgets_on(widgets, state);
        assert forall|k: int| 0 <= k < on.len() implies 0 <= (#[trigger] on[k]) < widgets.len()
            && tree::string_opt(widgets[on[k] as int].on_state) == Some(state) by {
            if k < before.len() {
                assert(on[k] == before[k]);
                assert(head[before[k] as int] == widgets[on[k] as int]);
            }
        }
        assert forall|i: int|
            0 <= i < widgets.len() && tree::string_opt((#[trigger] widgets[i]).on_state) == Some(
                state,
            ) implies on.contains(i as usize) by {
            if i < head.len() {
                assert(head[i] == widgets[i]);
                let k = choose|k: int| 0 <= k < before.len() && before[k] == i as usize;
                assert(on[k] == i as usize);
            } else {
                assert(on[on.len() - 1] == i as usize);
            }
        }
        assert forall|j: int, k: int| 0 <= j < k < on.len() implies #[trigger] on[j]
            < #[trigger] on[k] by {
            assert(on[j] == before[j]);
            if k < before.len() {
                assert(on[k] == before[k]);
            }
        }
    }
}

/// Integers written one behind the other in pairs.
pub open spec fn written_pairs(pairs: Seq<(u64, u64)>) -> Seq<ObjectV> {
    Seq::new(
        2 * pairs.len(),
        |i: int|
            if i % 2 == 0 {
                ObjectV::Int(pairs[i / 2].0 as i64)
            } else {
                ObjectV::Int(pairs[i / 2].1 as i64)
            },
    )
}

/// Law: byte ranges are read back, offset and length in turn, up to the first
/// pair that is none.
pub proof fn byte_ranges_read_back(pairs: Seq<(u64, u64)>, odd: ObjectV, more: Seq<ObjectV>)
    requires
        forall|i: int|
            0 <= i < pairs.len() ==> (#[trigger] pairs[i]).0 <= i64::MAX && pairs[i].1 <= i64::MAX,
        !(odd is Int) || (odd matches ObjectV::Int(v) && v < 0),
    ensures
        pairs_of(written_pairs(pairs)) == pairs,
        pairs_of(written_pairs(pairs) + (seq![odd] + more)) == pairs,
    decreases pairs.len(),
{
    let items = written_pairs(pairs);
    let tail = seq![odd] + more;
    let all = items + tail;
    if pairs.len() == 0 {
        assert(items =~= Seq::<ObjectV>::empty());
        assert(all =~= tail);
        assert(pairs_of(items) =~= pairs);
        assert(tail[0] == odd);
        assert(pairs_of(all) =~= pairs);
    } else {
        let rest = pairs.skip(1);
        assert(forall|i: int| 0 <= i < rest.len() ==> #[trigger] rest[i] == pairs[i + 1]);
        byte_ranges_read_back(rest, odd, more);
        assert(items.skip(2) =~= written_pairs(rest)) by {
            assert forall|i: int| 0 <= i < 2 * rest.len() implies items.skip(2)[i]
                == written_pairs(rest)[i] by {
                assert((i + 2) / 2 == i / 2 + 1 && (i + 2) % 2 == i % 2);
            }
        }
        assert(all.skip(2) =~= written_pairs(rest) + tail);
        assert(items[0] == ObjectV::Int(pairs[0].0 as i64));
        assert(items[1] == ObjectV::Int(pairs[0].1 as i64)) by {
            assert(1int / 2 == 0 && 1int % 2 == 1);
        }
        assert(all[0] == items[0] && all[1] == items[1]);
        assert(seq![pairs[0]] + rest =~= pairs);
    }
}

/// Law: the full name of a field is that of its parent, a period and its own
/// partial name; without a partial name it is its parent's, and without a named
/// parent its own.
pub proof fn full_names_are_dotted(parent: Seq<char>, partial: Seq<char>)
    ensures
        parent.len() > 0 ==> joined_name(parent, Some(partial)) == parent.push('.') + partial,
        joined_name(Seq::empty(), Some(partial)) == partial,
        joined_name(parent, None) == parent,
{
    reveal_strlit(".");
    assert("."@ =~= seq!['.']);
    assert(parent + "."@ + partial =~= parent.push('.') + partial);
}

/// Law: the options of a choice field: a string is exported and shown as it is,
/// an array of two is exported as the first and shown as the second, and
/// anything else is no option. Options come in the order they are written.
pub proof fn options_are_exported_and_shown(
    src: SourceV,
    a: Seq<u8>,
    b: Seq<u8>,
    items: Seq<ObjectV>,
    odd: ObjectV,
)
    requires
        odd is Int || odd is Name || odd is Null,
    ensures
        ({
            let before = choices_in(src, items);
            let one = ChoiceV { export_value: object::text_chars(a), name: object::text_chars(a) };
            let two = ChoiceV { export_value: object::text_chars(a), name: object::text_chars(b) };
            let pair = ObjectV::Array(seq![ObjectV::String(a), ObjectV::String(b)]);
            &&& choices_in(src, items.push(ObjectV::String(a))) == before.push(one)
            &&& choices_in(src, items.push(pair)) == before.push(two)
            &&& choices_in(src, items.push(odd)) == before
            &&& choices_in(src, Seq::empty()).len() == 0
        }),
{
    let pair = ObjectV::Array(seq![ObjectV::String(a), ObjectV::String(b)]);
    assert(items.push(ObjectV::String(a)).drop_last() =~= items);
    assert(items.push(pair).drop_last() =~= items);
    assert(items.push(odd).drop_last() =~= items);
    assert(source::resolved(src, pair) == Ok::<ObjectV, source::FaultV>(pair));
    assert(source::resolved(src, odd) == Ok::<ObjectV, source::FaultV>(odd));
    assert(source::resolved(src, ObjectV::String(a)) == Ok::<ObjectV, source::FaultV>(
        ObjectV::String(a),
    ));
}

/// Law: selected indices are the integers among the items that are not negative
/// and fit 32 bits, in order.
pub proof fn selected_indices_are_in_order(items: Seq<ObjectV>, v: i64, odd: ObjectV)
    requires
        !(odd is Int),
    ensures
        0 <= v <= u32::MAX ==> smalls_in(items.push(ObjectV::Int(v))) == smalls_in(items).push(
            v as u32,
        ),
        v < 0 || v > u32::MAX ==> smalls_in(items.push(ObjectV::Int(v))) == smalls_in(items),
        smalls_in(items.push(odd)) == smalls_in(items),
        smalls_in(Seq::empty()).len() == 0,
{
    assert(items.push(ObjectV::Int(v)).drop_last() =~= items);
    assert(items.push(odd).drop_last() =~= items);
}

/// Law: the on state of a button is the one appearance it has besides `Off`, and
/// with two such appearances there is none.
pub proof fn on_states_are_alone(states: Map<Seq<char>, ObjectV>, a: Seq<char>, b: Seq<char>)
    requires
        states.contains_key(a),
        a != "Off"@,
    ensures
        (forall|k: Seq<char>| #[trigger] states.contains_key(k) ==> k == a || k == "Off"@)
            ==> lone_state(states) == Some(a),
        states.contains_key(b) && b != "Off"@ && b != a ==> lone_state(states) is None,
{
    if forall|k: Seq<char>| #[trigger] states.contains_key(k) ==> k == a || k == "Off"@ {
        assert(only_state(states, a));
    }
    if states.contains_key(b) && b != "Off"@ && b != a {
        if exists|key: Seq<char>| only_state(states, key) {
            let key = choose|key: Seq<char>| only_state(states, key);
            assert(states.contains_key(a) && states.contains_key(b));
        }
    }
}

/// Law: a child that can be read and was not read before is either a widget of
/// its parent, when it is a widget annotation without a partial name, or a field
/// of its own; the others count for nothing. Both kinds come in the order of the
/// parent's children.
pub proof fn kids_are_widgets_or_fields(
    src: SourceV,
    seen: Set<ObjRef>,
    kids: Seq<ObjRef>,
    r: ObjRef,
    d: Map<Seq<char>, ObjectV>,
)
    ensures
        ({
            let widgets = widget_kids(src, seen, kids.push(r));
            let fields = field_kids(src, seen, kids.push(r));
            let known = (src.fetched)(r) == Ok::<ObjectV, source::FaultV>(ObjectV::Dict(d))
                && !seen.contains(r);
            let annotation = d.contains_key("Subtype"@) && d["Subtype"@] == ObjectV::Name(
                "Widget"@,
            );
            &&& known && annotation && !d.contains_key("T"@) ==> widgets == widget_kids(
                src,
                seen,
                kids,
            ).push(widget_of(src, r, d)) && fields == field_kids(src, seen, kids)
            &&& known && (!d.contains_key("Subtype"@) || d.contains_key("T"@)) ==> widgets
                == widget_kids(src, seen, kids) && fields == field_kids(src, seen, kids).push(r)
            &&& seen.contains(r) || !((src.fetched)(r) matches Ok(ObjectV::Dict(_))) ==> widgets
                == widget_kids(src, seen, kids) && fields == field_kids(src, seen, kids)
        }),
{
    assert(kids.push(r).drop_last() =~= kids);
}

/// Law: a value that is a stream becomes the text it decodes to in a text field,
/// and stays a stream in any other.
pub proof fn text_streams_are_decoded(
    src: SourceV,
    s: object::StreamV,
    data: Seq<u8>,
    given: Option<ObjectV>,
    t: Option<FieldType>,
    o: ObjectV,
)
    requires
        (src.decoded)(s) == Some(data),
        !(o is Stream),
    ensures
        field_value(src, Some(ObjectV::Stream(s)), given, t) == (if t == Some(FieldType::Text) {
            Some(ObjectV::String(data))
        } else {
            Some(ObjectV::Stream(s))
        }),
        field_value(src, Some(o), given, t) == Some(o),
        field_value(src, None, Some(o), t) == Some(o),
        field_value(src, None, None, t) is None,
{
}

/// Law: what a field says itself wins over what it inherits.
pub proof fn own_entries_win(
    src: SourceV,
    p: PendingV,
    seen: Set<ObjRef>,
    t: FieldType,
    flags: u32,
    max_len: u32,
    value: ObjectV,
    default_value: ObjectV,
)
    requires
        p.dict.contains_key("FT"@) && p.dict["FT"@] == ObjectV::Name(field_type_name(t)),
        p.dict.contains_key("Ff"@) && p.dict["Ff"@] == ObjectV::Int(flags as i64),
        p.dict.contains_key("MaxLen"@) && p.dict["MaxLen"@] == ObjectV::Int(max_len as i64),
        p.dict.contains_key("V"@) && p.dict["V"@] == value,
        p.dict.contains_key("DV"@) && p.dict["DV"@] == default_value,
        !(value is Stream) && !(value is Ref),
        !(default_value is Ref),
    ensures
        field_of(src, p, seen).field_type == Some(t),
        field_of(src, p, seen).flags == FieldFlags(flags),
        field_of(src, p, seen).max_len == Some(max_len),
        field_of(src, p, seen).value == Some(value),
        field_of(src, p, seen).default_value == Some(default_value),
        field_of(src, p, seen).object == p.object,
        field_of(src, p, seen).parent == p.parent,
{
    form_codes_are_faithful(Quadding::Left, t, CaptionPosition::Left, 0, Seq::empty());
}

/// Law: which entries the other parts of a field are read from.
pub proof fn field_entries_stand_under_their_keys(src: SourceV, p: PendingV, seen: Set<ObjRef>)
    ensures
        ({
            let f = field_of(src, p, seen);
            let d = p.dict;
            &&& f.partial_name == tree::entry_text(src, d, "T"@)
            &&& f.alternate_name == tree::entry_text(src, d, "TU"@)
            &&& f.mapping_name == tree::entry_text(src, d, "TM"@)
            &&& f.additional_actions == tree::entry_dict(src, d, "AA"@)
            &&& f.lock == tree::entry_ref(d, "Lock"@)
            &&& f.seed_value == tree::entry_ref(d, "SV"@)
            &&& tree::entry_u32(src, d, "TI"@) matches Some(index) ==> f.top_index == index
            &&& !d.contains_key("TI"@) ==> f.top_index == 0
            &&& !d.contains_key("I"@) ==> f.selected_indices.len() == 0
        }),
{
}

/// Law: what a child inherits is what its parent has, its flags and its full
/// name included.
pub proof fn fields_pass_on_what_they_have(field: FormFieldV)
    ensures
        passed_on(field).field_type == field.field_type,
        passed_on(field).flags == Some(field.flags),
        passed_on(field).value == field.value,
        passed_on(field).default_value == field.default_value,
        passed_on(field).name == field.name,
        passed_on(field).max_len == field.max_len,
        passed_on(field).options == field.options,
{
}

/// Law: which entries the captions and icons of a widget are read from.
pub proof fn captions_and_icons_stand_under_their_keys(
    src: SourceV,
    d: Map<Seq<char>, ObjectV>,
    mk: Map<Seq<char>, ObjectV>,
    p: CaptionPosition,
)
    requires
        d.contains_key("MK"@) && d["MK"@] == ObjectV::Dict(mk),
        mk.contains_key("TP"@) && mk["TP"@] == ObjectV::Int(caption_position_code(p)),
    ensures
        characteristics_of(src, d) matches Some(c) && ({
            &&& c.caption == tree::entry_text(src, mk, "CA"@)
            &&& c.rollover_caption == tree::entry_text(src, mk, "RC"@)
            &&& c.alternate_caption == tree::entry_text(src, mk, "AC"@)
            &&& c.icon == tree::entry_ref(mk, "I"@)
            &&& c.rollover_icon == tree::entry_ref(mk, "RI"@)
            &&& c.alternate_icon == tree::entry_ref(mk, "IX"@)
            &&& c.caption_position == p
        }),
        characteristics_of(src, Map::empty()) is None,
{
    form_codes_are_faithful(Quadding::Left, FieldType::Text, p, 0, Seq::empty());
}

/// Law: which entries of an interactive form say what of it.
pub proof fn forms_say_what_is_written(
    f: InteractiveForm,
    src: SourceV,
    d: Map<Seq<char>, ObjectV>,
    q: Quadding,
    bits: i64,
)
    requires
        f.reads(src, d),
        d.contains_key("Q"@) && d["Q"@] == ObjectV::Int(quadding_code(q)),
        d.contains_key("SigFlags"@) && d["SigFlags"@] == ObjectV::Int(bits),
    ensures
        f.quadding == Some(q),
        f.signature_flags.signatures_exist == (bits % 2 == 1),
        f.signature_flags.append_only == (bits % 4 == 2 || bits % 4 == 3),
        f.fields@ == tree::references_of(tree::entry(src, d, "Fields"@)),
        f.calculation_order@ == tree::references_of(tree::entry(src, d, "CO"@)),
        f.need_appearances == (tree::entry_flag(src, d, "NeedAppearances"@) == Some(true)),
        dict_opt(f.default_resources) == tree::entry_dict(src, d, "DR"@),
        f.xfa <==> (tree::entry(src, d, "XFA"@) matches Some(ObjectV::Stream(_))) || (tree::entry(
            src,
            d,
            "XFA"@,
        ) matches Some(ObjectV::Array(_))),
{
    form_codes_are_faithful(q, FieldType::Text, CaptionPosition::Left, 0, Seq::empty());
    signature_flags_are_the_low_bits(bits);
}

/// Law: which entries of a signature say what of it.
pub proof fn signatures_say_what_is_written(s: Signature, d: Map<Seq<char>, ObjectV>)
    requires
        s.reads(d),
    ensures
        tree::string_opt(s.filter) == direct_name(d, "Filter"@),
        tree::string_opt(s.sub_filter) == direct_name(d, "SubFilter"@),
        tree::string_opt(s.name) == direct_text(d, "Name"@),
        tree::string_opt(s.signing_time) == direct_text(d, "M"@),
        tree::string_opt(s.location) == direct_text(d, "Location"@),
        tree::string_opt(s.reason) == direct_text(d, "Reason"@),
        tree::string_opt(s.contact_info) == direct_text(d, "ContactInfo"@),
        d.contains_key("Contents"@) ==> (d["Contents"@] matches ObjectV::String(bytes)
            ==> s.contents@ == bytes),
        d.contains_key("ByteRange"@) ==> (d["ByteRange"@] matches ObjectV::Array(items)
            ==> s.byte_range@ == pairs_of(items)),
{
}

/// Law: fields come in order: a field, then the fields under it as they are
/// listed, then the field that waited behind it.
pub proof fn fields_come_before_their_kids(
    src: SourceV,
    stack: Seq<PendingV>,
    p: PendingV,
    seen: Set<ObjRef>,
)
    requires
        seen.finite(),
        seen.len() < refset::KEY_LIMIT,
        !seen.contains(p.object),
    ensures
        ({
            let field = field_of(src, p, seen.insert(p.object));
            let waiting = Seq::new(
                field.kids.len(),
                |i: int|
                    pending_kid(src, field, p.depth, field.kids[field.kids.len() - 1 - i]),
            );
            fields_from(src, stack.push(p), seen) == seq![field] + fields_from(
                src,
                stack + waiting,
                seen.insert(p.object),
            )
        }),
{
    let all = stack.push(p);
    assert(all.last() == p);
    assert(all.drop_last() =~= stack);
    let field = field_of(src, p, seen.insert(p.object));
    let waiting = Seq::new(
        field.kids.len(),
        |i: int| pending_kid(src, field, p.depth, field.kids[field.kids.len() - 1 - i]),
    );
    assert(pending_kids(src, field, p.depth).reverse() =~= waiting);
}

/// Law: the children of a field are read down to the sixty-fourth level.
pub proof fn deep_fields_have_no_kids(src: SourceV, p: PendingV)
    ensures
        p.depth >= 64 ==> kids_read(src, p).len() == 0,
        p.depth < 64 ==> kids_read(src, p) == tree::references_of(
            tree::entry(src, p.dict, "Kids"@),
        ),
{
}

/// Law: which entries of a widget say what of it: its own state, and the states
/// its normal appearance has.
pub proof fn widgets_say_what_is_written(
    src: SourceV,
    r: ObjRef,
    d: Map<Seq<char>, ObjectV>,
    appearance: Map<Seq<char>, ObjectV>,
    states: Map<Seq<char>, ObjectV>,
)
    requires
        d.contains_key("AP"@) && d["AP"@] == ObjectV::Dict(appearance),
        appearance.contains_key("N"@) && appearance["N"@] == ObjectV::Dict(states),
    ensures
        widget_of(src, r, d).object == r,
        widget_of(src, r, d).appearance_state == direct_name(d, "AS"@),
        widget_of(src, r, d).on_state == lone_state(states),
{
}

/// Law: the fields of a form are read from the references it lists, in order,
/// inheriting nothing; those that are no dictionaries are left out.
pub proof fn roots_come_in_order(
    src: SourceV,
    fields: Seq<ObjRef>,
    r: ObjRef,
    d: Map<Seq<char>, ObjectV>,
)
    ensures
        (src.fetched)(r) == Ok::<ObjectV, source::FaultV>(ObjectV::Dict(d)) ==> ({
            let all = roots_of(src, fields.push(r));
            &&& all.drop_last() == roots_of(src, fields)
            &&& all.len() == roots_of(src, fields).len() + 1
            &&& all.last().object == r
            &&& all.last().dict == d
            &&& all.last().parent is None
            &&& all.last().inherited.name.len() == 0
            &&& all.last().inherited.field_type is None
            &&& all.last().depth == 0
        }),
        !((src.fetched)(r) matches Ok(ObjectV::Dict(_))) ==> roots_of(src, fields.push(r))
            == roots_of(src, fields),
{
    assert(fields.push(r).drop_last() =~= fields);
    if (src.fetched)(r) == Ok::<ObjectV, source::FaultV>(ObjectV::Dict(d)) {
        assert(roots_of(src, fields.push(r)).drop_last() =~= roots_of(src, fields));
    }
}

/// Law: the options of a field are its own where it has any entry for them, and
/// else those it inherits.
pub proof fn own_options_win(
    src: SourceV,
    p: PendingV,
    seen: Set<ObjRef>,
    items: Seq<ObjectV>,
    v: i64,
)
    ensures
        tree::has(p.dict, "Opt"@, ObjectV::Array(items)) ==> field_of(src, p, seen).options
            == choices_in(src, items),
        tree::has(p.dict, "Opt"@, ObjectV::Int(v)) ==> field_of(src, p, seen).options.len() == 0,
        !p.dict.contains_key("Opt"@) ==> field_of(src, p, seen).options == p.inherited.options,
        tree::has(p.dict, "TI"@, ObjectV::Int(v)) && 0 <= v <= 0xffff_ffff ==> field_of(
            src,
            p,
            seen,
        ).top_index == v,
        !p.dict.contains_key("TI"@) ==> field_of(src, p, seen).top_index == 0,
        !p.dict.contains_key("Ff"@) && p.inherited.flags is None ==> field_of(src, p, seen).flags
            == FieldFlags(0),
{
}

} // verus!
