//! Document requirements: the catalog's `/Requirements` array, one dictionary
//! per feature a reader needs to show the document as intended.

use crate::object;
use crate::object::{Dict, Object, ObjectV};
use crate::source::{ObjectSource, SourceV};
use crate::tree;
use crate::tree::{catalog_of, resolved_dict, Entries};
use vstd::prelude::*;

verus! {

/// One entry of the catalog's `/Requirements` array: a feature the document
/// needs a reader to support.
#[derive(Debug, Clone, PartialEq, Eq)]
pub struct Requirement {
    /// `/S`: the requirement type. `EnableJavaScripts` is the one type
    /// defined; any other name is kept as written.
    pub kind: String,
    /// `/RH`: the handlers a reader that does not meet the requirement
    /// runs, one dictionary or an array of them, in order.
    pub handlers: Vec<RequirementHandler>,
}

/// One requirement handler, read as data: no JavaScript is run here, so the
/// handler is reported, not invoked.
#[derive(Debug, Clone, PartialEq, Eq)]
pub struct RequirementHandler {
    /// `/S`: `JS` for a document-level JavaScript, `NoOp` for doing nothing;
    /// any other name is kept as written.
    pub kind: String,
    /// `/Script`: the name of the document-level JavaScript a `JS` handler
    /// runs, as the catalog's `/Names` `/JavaScript` tree lists it.
    pub script: Option<String>,
}

/// What a handler is.
#[verifier::ext_equal]
pub struct HandlerV {
    pub kind: Seq<char>,
    pub script: Option<Seq<char>>,
}

impl View for RequirementHandler {
    type V = HandlerV;

    open spec fn view(&self) -> HandlerV {
        HandlerV { kind: self.kind@, script: tree::string_opt(self.script) }
    }
}

/// What handlers in a row are.
pub open spec fn handlers_view(handlers: Seq<RequirementHandler>) -> Seq<HandlerV> {
    Seq::new(handlers.len(), |i: int| handlers[i]@)
}

/// What a requirement is.
#[verifier::ext_equal]
pub struct RequirementV {
    pub kind: Seq<char>,
    pub handlers: Seq<HandlerV>,
}

impl View for Requirement {
    type V = RequirementV;

    open spec fn view(&self) -> RequirementV {
        RequirementV { kind: self.kind@, handlers: handlers_view(self.handlers@) }
    }
}

/// What requirements in a row are.
pub open spec fn requirements_view(requirements: Seq<Requirement>) -> Seq<RequirementV> {
    Seq::new(requirements.len(), |i: int| requirements[i]@)
}

/// The handlers that the entries of an array describe, in order.
pub open spec fn handlers_in(src: SourceV, items: Seq<ObjectV>) -> Seq<HandlerV>
    decreases items.len(),
{
    if items.len() == 0 {
        Seq::empty()
    } else {
        let before = handlers_in(src, items.drop_last());
        match tree::dict_at(src, items.last()) {
            Some(d) => match tree::entry_name(src, d, "S"@) {
                Some(kind) => before.push(
                    HandlerV { kind, script: tree::entry_text(src, d, "Script"@) },
                ),
                None => before,
            },
            None => before,
        }
    }
}

/// The handlers of a requirement dictionary.
pub open spec fn handlers_of(src: SourceV, d: Map<Seq<char>, ObjectV>) -> Seq<HandlerV> {
    match tree::entry(src, d, "RH"@) {
        Some(ObjectV::Array(items)) => handlers_in(src, items),
        Some(ObjectV::Dict(handler)) => handlers_in(src, seq![ObjectV::Dict(handler)]),
        _ => Seq::empty(),
    }
}

/// The requirements that the entries of an array describe, in order.
pub open spec fn requirements_in(src: SourceV, items: Seq<ObjectV>) -> Seq<RequirementV>
    decreases items.len(),
{
    if items.len() == 0 {
        Seq::empty()
    } else {
        let before = requirements_in(src, items.drop_last());
        match tree::dict_at(src, items.last()) {
            Some(d) => match tree::entry_name(src, d, "S"@) {
                Some(kind) => before.push(RequirementV { kind, handlers: handlers_of(src, d) }),
                None => before,
            },
            None => before,
        }
    }
}

/// The requirements of a document.
pub open spec fn requirements_of(src: SourceV, trailer: Map<Seq<char>, ObjectV>) -> Seq<
    RequirementV,
> {
    match tree::catalog(src, trailer) {
        Some(catalog) => match tree::entry(src, catalog, "Requirements"@) {
            Some(ObjectV::Array(items)) => requirements_in(src, items),
            _ => Seq::empty(),
        },
        None => Seq::empty(),
    }
}

/// The requirements the catalog's `/Requirements` array lists, in order:
/// empty when the catalog has no array. An entry that is no dictionary, or
/// whose `/S` is no name, is skipped.
pub fn requirements_with<S: ObjectSource>(src: &S, trailer: &Dict) -> (out: Vec<Requirement>)
    ensures
        requirements_view(out@) == requirements_of(src.model(), trailer@),
{
    let mut requirements: Vec<Requirement> = Vec::new();
    assert(requirements_view(requirements@) =~= Seq::<RequirementV>::empty());
    let catalog = match catalog_of(src, trailer) {
        Some(catalog) => catalog,
        None => {
            return requirements;
        },
    };
    let items = match (Entries { src, dict: &catalog }).value("Requirements") {
        Some(Object::Array(items)) => items,
        _ => {
            return requirements;
        },
    };
    let ghost all = object::objects_view(items@);
    let mut i: usize = 0;
    assert(all.take(0) =~= Seq::<ObjectV>::empty());
    while i < items.len()
        invariant
            i <= items@.len(),
            all == object::objects_view(items@),
            requirements_view(requirements@) == requirements_in(
                src.model(),
                all.take(i as int),
            ),
        decreases items@.len() - i,
    {
        let ghost before = requirements@;
        proof {
            assert(all.take(i + 1).drop_last() =~= all.take(i as int));
            assert(all.take(i + 1).last() == items@[i as int]@);
        }
        if let Some(dict) = resolved_dict(src, &items[i]) {
            if let Some(kind) = (Entries { src, dict: &dict }).name("S") {
                let requirement = Requirement { kind, handlers: handlers_with(src, &dict) };
                requirements.push(requirement);
                assert(requirements_view(requirements@) =~= requirements_view(before).push(
                    requirement@,
                ));
            }
        }
        i += 1;
    }
    assert(all.take(i as int) =~= all);
    requirements
}

/// The `/RH` handlers of one requirement dictionary, in order: empty when
/// the entry is missing or neither a dictionary nor an array. A handler
/// that is no dictionary, or whose `/S` is no name, is skipped.
fn handlers_with<S: ObjectSource>(src: &S, requirement: &Dict) -> (out: Vec<RequirementHandler>)
    ensures
        handlers_view(out@) == handlers_of(src.model(), requirement@),
{
    let mut handlers: Vec<RequirementHandler> = Vec::new();
    assert(handlers_view(handlers@) =~= Seq::<HandlerV>::empty());
    let items = match (Entries { src, dict: requirement }).value("RH") {
        Some(Object::Array(items)) => items,
        Some(Object::Dict(handler)) => {
            let mut one: Vec<Object> = Vec::new();
            let ghost said = handler@;
            one.push(Object::Dict(handler));
            assert(object::objects_view(one@) =~= seq![ObjectV::Dict(said)]);
            one
        },
        _ => {
            return handlers;
        },
    };
    let ghost all = object::objects_view(items@);
    let mut i: usize = 0;
    assert(all.take(0) =~= Seq::<ObjectV>::empty());
    while i < items.len()
        invariant
            i <= items@.len(),
            all == object::objects_view(items@),
            handlers_view(handlers@) == handlers_in(src.model(), all.take(i as int)),
        decreases items@.len() - i,
    {
        let ghost before = handlers@;
        proof {
            assert(all.take(i + 1).drop_last() =~= all.take(i as int));
            assert(all.take(i + 1).last() == items@[i as int]@);
        }
        if let Some(dict) = resolved_dict(src, &items[i]) {
            let entries = Entries { src, dict: &dict };
            if let Some(kind) = entries.name("S") {
                let handler = RequirementHandler { kind, script: entries.text("Script") };
                handlers.push(handler);
                assert(handlers_view(handlers@) =~= handlers_view(before).push(handler@));
            }
        }
        i += 1;
    }
    assert(all.take(i as int) =~= all);
    handlers
}

/// Law: requirements and their handlers come in the order they are written, each
/// with the name of its kind; what has none is left out. One handler may stand
/// without an array.
pub proof fn requirements_come_in_order(
    src: SourceV,
    items: Seq<ObjectV>,
    d: Map<Seq<char>, ObjectV>,
    kind: Seq<char>,
    script: Seq<u8>,
)
    requires
        d.contains_key("S"@) && d["S"@] == ObjectV::Name(kind),
        d.contains_key("Script"@) && d["Script"@] == ObjectV::String(script),
    ensures
        handlers_in(src, items.push(ObjectV::Dict(d))) == handlers_in(src, items).push(
            HandlerV { kind, script: Some(crate::object::text_chars(script)) },
        ),
        handlers_in(src, items.push(ObjectV::Null)) == handlers_in(src, items),
        handlers_in(src, items.push(ObjectV::Dict(d.remove("S"@)))) == handlers_in(src, items),
        requirements_in(src, items.push(ObjectV::Dict(d))) == requirements_in(src, items).push(
            RequirementV { kind, handlers: handlers_of(src, d) },
        ),
        requirements_in(src, items.push(ObjectV::Dict(d.remove("S"@)))) == requirements_in(
            src,
            items,
        ),
        d.contains_key("RH"@) && d["RH"@] == ObjectV::Array(items) ==> handlers_of(src, d)
            == handlers_in(src, items),
        handlers_of(src, Map::empty().insert("RH"@, ObjectV::Dict(d))) == seq![
            HandlerV { kind, script: Some(crate::object::text_chars(script)) },
        ],
        !d.contains_key("RH"@) ==> handlers_of(src, d).len() == 0,
{
    let one = ObjectV::Dict(d);
    let none = ObjectV::Dict(d.remove("S"@));
    assert(items.push(one).drop_last() =~= items);
    assert(items.push(none).drop_last() =~= items);
    assert(items.push(ObjectV::Null).drop_last() =~= items);
    assert(seq![one].drop_last() =~= Seq::<ObjectV>::empty());
    assert(seq![one].last() == one);
    assert(handlers_in(src, Seq::<ObjectV>::empty()) =~= Seq::<HandlerV>::empty());
    assert(handlers_in(src, seq![one]) =~= seq![
        HandlerV { kind, script: Some(crate::object::text_chars(script)) },
    ]);
}

/// Law: the requirements are those the catalog lists.
pub proof fn requirements_stand_in_the_catalog(
    src: SourceV,
    trailer: Map<Seq<char>, ObjectV>,
    catalog: Map<Seq<char>, ObjectV>,
    items: Seq<ObjectV>,
)
    requires
        tree::has(trailer, "Root"@, ObjectV::Dict(catalog)),
    ensures
        tree::has(catalog, "Requirements"@, ObjectV::Array(items)) ==> requirements_of(src, trailer)
            == requirements_in(src, items),
        !catalog.contains_key("Requirements"@) ==> requirements_of(src, trailer).len() == 0,
{
}

} // verus!
