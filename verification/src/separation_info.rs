//! Separation dictionaries: a page's `/SeparationInfo`, which names the
//! colorant a pre-separated page prints and the other pages of the same
//! separation set.

use crate::object;
use crate::object::{Dict, ObjRef, Object, ObjectV};
use crate::source::{ObjectSource, SourceV};
use crate::tree;
use crate::tree::{references, Entries};
use vstd::prelude::*;

verus! {

/// A separation dictionary: what a page that is one colour separation of a
/// composite page prints, read as data.
#[derive(Debug, Clone, PartialEq)]
pub struct SeparationInfo {
    /// `/Pages`: the pages of the same separation set, this page among
    /// them, as the references written.
    pub pages: Vec<ObjRef>,
    /// `/DeviceColorant`: the colorant this page prints, a name or a text
    /// string.
    pub device_colorant: String,
    /// `/ColorSpace`: the Separation or DeviceN colour space array whose tint
    /// transform approximates the colorant on a display; `None` without one.
    pub color_space: Option<Vec<Object>>,
}

/// The colorant that a separation dictionary names.
pub open spec fn colorant_of(src: SourceV, d: Map<Seq<char>, ObjectV>) -> Option<Seq<char>> {
    match tree::entry(src, d, "DeviceColorant"@) {
        Some(ObjectV::Name(name)) => Some(name),
        Some(ObjectV::String(bytes)) => Some(object::text_chars(bytes)),
        _ => None,
    }
}

impl SeparationInfo {
    /// Whether the record is what the dictionary `d` says.
    pub open spec fn reads(&self, src: SourceV, d: Map<Seq<char>, ObjectV>) -> bool {
        &&& colorant_of(src, d) == Some(self.device_colorant@)
        &&& self.pages@ == tree::references_of(tree::entry(src, d, "Pages"@))
        &&& match tree::entry(src, d, "ColorSpace"@) {
            Some(ObjectV::Array(items)) => self.color_space matches Some(space)
                && object::objects_view(space@) == items,
            _ => self.color_space is None,
        }
    }
}

/// The separation dictionary of the page with dictionary `page`: `None` when
/// the page has no `/SeparationInfo`, when the entry is no dictionary, or when
/// it names no colorant. A `/Pages` entry that is no array reads as empty, and
/// its items that are no references are skipped.
pub fn separation_info_with<S: ObjectSource>(src: &S, page: &Dict) -> (out: Option<SeparationInfo>)
    ensures
        match tree::entry_dict(src.model(), page@, "SeparationInfo"@) {
            Some(d) => match out {
                Some(info) => info.reads(src.model(), d),
                None => colorant_of(src.model(), d) is None,
            },
            None => out is None,
        },
{
    let dict = match (Entries { src, dict: page }).sub_dict("SeparationInfo") {
        Some(dict) => dict,
        None => {
            return None;
        },
    };
    let entries = Entries { src, dict: &dict };
    let device_colorant = match entries.value("DeviceColorant") {
        Some(Object::Name(name)) => name.0,
        Some(Object::String(bytes)) => object::decode_text_string(&bytes),
        _ => {
            return None;
        },
    };
    let pages = entries.value("Pages");
    let color_space = match entries.value("ColorSpace") {
        Some(Object::Array(items)) => Some(items),
        _ => None,
    };
    Some(SeparationInfo { pages: references(pages.as_ref()), device_colorant, color_space })
}

/// Law: which entry says what of a separation.
pub proof fn separations_say_what_is_written(
    info: SeparationInfo,
    src: SourceV,
    d: Map<Seq<char>, ObjectV>,
    name: Seq<char>,
    bytes: Seq<u8>,
    items: Seq<ObjectV>,
    pages: Seq<ObjRef>,
)
    requires
        info.reads(src, d),
    ensures
        d.contains_key("DeviceColorant"@) && d["DeviceColorant"@] == ObjectV::Name(name)
            ==> info.device_colorant@ == name,
        d.contains_key("DeviceColorant"@) && d["DeviceColorant"@] == ObjectV::String(bytes)
            ==> info.device_colorant@ == object::text_chars(bytes),
        d.contains_key("DeviceColorant"@),
        d.contains_key("Pages"@) && d["Pages"@] == ObjectV::Array(tree::as_references(pages))
            ==> info.pages@ == pages,
        d.contains_key("ColorSpace"@) && d["ColorSpace"@] == ObjectV::Array(items)
            ==> (info.color_space matches Some(space) && object::objects_view(space@) == items),
        !d.contains_key("ColorSpace"@) ==> info.color_space is None,
{
    tree::references_read_back(pages);
}

} // verus!
