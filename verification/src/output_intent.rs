//! Output intents: the catalog's `/OutputIntents` array, read as data.
//! Rendering does not apply a destination profile.

use crate::form;
use crate::form::name_under;
use crate::object;
use crate::object::{Dict, ObjRef, Object, ObjectV};
use crate::source::{ObjectSource, SourceV};
use crate::tree;
use crate::tree::{catalog_of, resolved_dict, Entries};
use vstd::prelude::*;

verus! {

/// An output intent dictionary: the colour reproduction characteristics of one
/// intended output device or production condition, as a PDF/X, PDF/A or PDF/E
/// file declares them.
#[derive(Debug, Clone, PartialEq, Eq)]
pub struct OutputIntent {
    /// `/S`: the subtype naming the standard the intent belongs to:
    /// `GTS_PDFX`, `GTS_PDFA1`, `ISO_PDFE1`, or a name an extension defines.
    pub subtype: String,
    /// `/OutputCondition`: the intended output condition, worded for people.
    pub output_condition: Option<String>,
    /// `/OutputConditionIdentifier`: the condition's name in a registry such
    /// as the ICC characterization data registry, `Custom`, or an
    /// application's own name; `None` when missing.
    pub output_condition_identifier: Option<String>,
    /// `/RegistryName`: the registry, conventionally a URI, that defines the
    /// identifier.
    pub registry_name: Option<String>,
    /// `/Info`: further human-readable information about the condition.
    pub info: Option<String>,
    /// `/DestOutputProfile`: the ICC profile stream, by reference, that maps
    /// the document's source colours to the device's colorants; `None` when
    /// absent or written directly, a stream always being indirect.
    pub destination_profile: Option<ObjRef>,
}

/// What an output intent is.
#[verifier::ext_equal]
pub struct OutputIntentV {
    pub subtype: Seq<char>,
    pub output_condition: Option<Seq<char>>,
    pub output_condition_identifier: Option<Seq<char>>,
    pub registry_name: Option<Seq<char>>,
    pub info: Option<Seq<char>>,
    pub destination_profile: Option<ObjRef>,
}

impl View for OutputIntent {
    type V = OutputIntentV;

    open spec fn view(&self) -> OutputIntentV {
        OutputIntentV {
            subtype: self.subtype@,
            output_condition: tree::string_opt(self.output_condition),
            output_condition_identifier: tree::string_opt(self.output_condition_identifier),
            registry_name: tree::string_opt(self.registry_name),
            info: tree::string_opt(self.info),
            destination_profile: self.destination_profile,
        }
    }
}

/// What output intents in a row are.
pub open spec fn intents_view(intents: Seq<OutputIntent>) -> Seq<OutputIntentV> {
    Seq::new(intents.len(), |i: int| intents[i]@)
}

/// The intent that a dictionary describes, if it names its subtype.
pub open spec fn intent_of(src: SourceV, d: Map<Seq<char>, ObjectV>) -> Option<OutputIntentV> {
    match form::direct_name(d, "S"@) {
        Some(subtype) => Some(
            OutputIntentV {
                subtype,
                output_condition: tree::entry_text(src, d, "OutputCondition"@),
                output_condition_identifier: tree::entry_text(
                    src,
                    d,
                    "OutputConditionIdentifier"@,
                ),
                registry_name: tree::entry_text(src, d, "RegistryName"@),
                info: tree::entry_text(src, d, "Info"@),
                destination_profile: tree::entry_ref(d, "DestOutputProfile"@),
            },
        ),
        None => None,
    }
}

/// The intents that the entries of an array describe, in order.
pub open spec fn intents_in(src: SourceV, items: Seq<ObjectV>) -> Seq<OutputIntentV>
    decreases items.len(),
{
    if items.len() == 0 {
        Seq::empty()
    } else {
        let before = intents_in(src, items.drop_last());
        match tree::dict_at(src, items.last()) {
            Some(d) => match intent_of(src, d) {
                Some(intent) => before.push(intent),
                None => before,
            },
            None => before,
        }
    }
}

/// The intents of a document.
pub open spec fn output_intents_of(src: SourceV, trailer: Map<Seq<char>, ObjectV>) -> Seq<
    OutputIntentV,
> {
    match tree::catalog(src, trailer) {
        Some(catalog) => match tree::entry(src, catalog, "OutputIntents"@) {
            Some(ObjectV::Array(items)) => intents_in(src, items),
            _ => Seq::empty(),
        },
        None => Seq::empty(),
    }
}

/// The intent that a dictionary describes; `None` without the required `/S`.
fn read_intent<S: ObjectSource>(src: &S, dict: &Dict) -> (out: Option<OutputIntent>)
    ensures
        match out {
            Some(intent) => intent_of(src.model(), dict@) == Some(intent@),
            None => intent_of(src.model(), dict@) is None,
        },
{
    match name_under(dict, "S") {
        Some(subtype) => {
            let entries = Entries { src, dict };
            Some(
                OutputIntent {
                    subtype,
                    output_condition: entries.text("OutputCondition"),
                    output_condition_identifier: entries.text("OutputConditionIdentifier"),
                    registry_name: entries.text("RegistryName"),
                    info: entries.text("Info"),
                    destination_profile: entries.reference("DestOutputProfile"),
                },
            )
        },
        None => None,
    }
}

/// The output intents the catalog's `/OutputIntents` array declares, in
/// array order: every entry that is a dictionary carrying the required `/S`
/// subtype. Other entries are skipped, and a catalog without the array, or
/// whose entry is no array, has none. Nothing here converts colours: the
/// data is informational, and rendering ignores it.
pub fn output_intents_with<S: ObjectSource>(src: &S, trailer: &Dict) -> (out: Vec<OutputIntent>)
    ensures
        intents_view(out@) == output_intents_of(src.model(), trailer@),
{
    let mut intents: Vec<OutputIntent> = Vec::new();
    assert(intents_view(intents@) =~= Seq::<OutputIntentV>::empty());
    let catalog = match catalog_of(src, trailer) {
        Some(catalog) => catalog,
        None => {
            return intents;
        },
    };
    let items = match (Entries { src, dict: &catalog }).value("OutputIntents") {
        Some(Object::Array(items)) => items,
        _ => {
            return intents;
        },
    };
    let ghost all = object::objects_view(items@);
    let mut i: usize = 0;
    assert(all.take(0) =~= Seq::<ObjectV>::empty());
    while i < items.len()
        invariant
            i <= items@.len(),
            all == object::objects_view(items@),
            intents_view(intents@) == intents_in(src.model(), all.take(i as int)),
        decreases items@.len() - i,
    {
        let ghost before = intents@;
        proof {
            assert(all.take(i + 1).drop_last() =~= all.take(i as int));
            assert(all.take(i + 1).last() == items@[i as int]@);
        }
        if let Some(dict) = resolved_dict(src, &items[i]) {
            if let Some(intent) = read_intent(src, &dict) {
                intents.push(intent);
                assert(intents_view(intents@) =~= intents_view(before).push(intent@));
            }
        }
        i += 1;
    }
    assert(all.take(i as int) =~= all);
    intents
}

/// Law: output intents come in the order they are written, each read from its
/// entries; what has no subtype is left out.
pub proof fn intents_come_in_order(
    src: SourceV,
    items: Seq<ObjectV>,
    d: Map<Seq<char>, ObjectV>,
    subtype: Seq<char>,
)
    requires
        d.contains_key("S"@) && d["S"@] == ObjectV::Name(subtype),
    ensures
        intents_in(src, items.push(ObjectV::Dict(d))) == intents_in(src, items).push(
            OutputIntentV {
                subtype,
                output_condition: tree::entry_text(src, d, "OutputCondition"@),
                output_condition_identifier: tree::entry_text(
                    src,
                    d,
                    "OutputConditionIdentifier"@,
                ),
                registry_name: tree::entry_text(src, d, "RegistryName"@),
                info: tree::entry_text(src, d, "Info"@),
                destination_profile: tree::entry_ref(d, "DestOutputProfile"@),
            },
        ),
        intents_in(src, items.push(ObjectV::Dict(d.remove("S"@)))) == intents_in(src, items),
        intents_in(src, items.push(ObjectV::Null)) == intents_in(src, items),
        intents_in(src, Seq::empty()).len() == 0,
{
    assert(items.push(ObjectV::Dict(d)).drop_last() =~= items);
    assert(items.push(ObjectV::Dict(d.remove("S"@))).drop_last() =~= items);
    assert(items.push(ObjectV::Null).drop_last() =~= items);
}

/// Law: the output intents are those the catalog lists, and which entry says what
/// of one.
pub proof fn intents_say_what_is_written(
    src: SourceV,
    trailer: Map<Seq<char>, ObjectV>,
    catalog: Map<Seq<char>, ObjectV>,
    items: Seq<ObjectV>,
    d: Map<Seq<char>, ObjectV>,
    subtype: Seq<char>,
    bytes: Seq<u8>,
    r: ObjRef,
)
    requires
        tree::has(trailer, "Root"@, ObjectV::Dict(catalog)),
        tree::has(d, "S"@, ObjectV::Name(subtype)),
    ensures
        tree::has(catalog, "OutputIntents"@, ObjectV::Array(items)) ==> output_intents_of(
            src,
            trailer,
        ) == intents_in(src, items),
        !catalog.contains_key("OutputIntents"@) ==> output_intents_of(src, trailer).len() == 0,
        intent_of(src, d) matches Some(intent) && ({
            let text = Some(object::text_chars(bytes));
            let has = |key: Seq<char>| tree::has(d, key, ObjectV::String(bytes));
            &&& intent.subtype == subtype
            &&& has("OutputCondition"@) ==> intent.output_condition == text
            &&& has("OutputConditionIdentifier"@) ==> intent.output_condition_identifier == text
            &&& has("RegistryName"@) ==> intent.registry_name == text
            &&& has("Info"@) ==> intent.info == text
            &&& tree::has(d, "DestOutputProfile"@, ObjectV::Ref(r)) ==> intent.destination_profile
                == Some(r)
        }),
        intent_of(src, d.remove("S"@)) is None,
{
}

} // verus!
