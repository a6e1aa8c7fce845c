//! Optional-content visibility: which optional content groups the document's
//! default configuration and its usage application dictionaries turn off,
//! whether content gated by an `/OC` entry or a `BDC /OC` span is visible, and
//! the groups themselves read as data.

use crate::filters::dict_opt;
use crate::number::Real;
use crate::object;
use crate::object::{decode_text_string, Dict, ObjRef, Object, ObjectV};
use crate::refset::RefSet;
use crate::source;
use crate::source::{ObjectSource, SourceV};
use crate::text;
use crate::tree;
use crate::tree::{dict_in_catalog, references_among, resolved_dict, texts_among, Entries};
use std::sync::Arc;
use vstd::prelude::*;

verus! {

/// Maximum `/VE` visibility-expression nesting depth. Real expressions are
/// one or two levels deep; past the cap the expression reads as malformed,
/// and malformed means visible.
pub const MAX_VE_DEPTH: u32 = 8;

/// A usage application event: the situation a configuration's `/AS` usage
/// application dictionaries apply under. Each event is also the usage
/// category it reads from a group's `/Usage` dictionary: `/View /ViewState`,
/// `/Print /PrintState` or `/Export /ExportState`.
#[derive(Debug, Clone, Copy, PartialEq, Eq, Hash, Structural)]
pub enum OcEvent {
    /// The document is opened on screen.
    View,
    /// The document is printed.
    Print,
    /// The document is exported to a format without optional content.
    Export,
}

/// The event a name denotes.
pub open spec fn event_of(name: Seq<char>) -> Option<OcEvent> {
    if name == "View"@ {
        Some(OcEvent::View)
    } else if name == "Print"@ {
        Some(OcEvent::Print)
    } else if name == "Export"@ {
        Some(OcEvent::Export)
    } else {
        None
    }
}

/// The name of an event.
pub open spec fn event_name(event: OcEvent) -> Seq<char> {
    match event {
        OcEvent::View => "View"@,
        OcEvent::Print => "Print"@,
        OcEvent::Export => "Export"@,
    }
}

/// The key of the ON or OFF name inside the usage entry of an event.
pub open spec fn event_state_key(event: OcEvent) -> Seq<char> {
    match event {
        OcEvent::View => "ViewState"@,
        OcEvent::Print => "PrintState"@,
        OcEvent::Export => "ExportState"@,
    }
}

/// An event's name denotes that event.
pub proof fn event_names_are_faithful(event: OcEvent)
    ensures
        event_of(event_name(event)) == Some(event),
{
    reveal_strlit("View");
    reveal_strlit("Print");
    reveal_strlit("Export");
    assert("View"@[0] != "Print"@[0]);
    assert("View"@[0] != "Export"@[0]);
    assert("Print"@[0] != "Export"@[0]);
}

impl OcEvent {
    /// The event an `/Event` or `/Category` name denotes; `None` for the
    /// Zoom, Language and User categories and for any other name.
    pub fn from_name(name: &str) -> (out: Option<OcEvent>)
        ensures
            out == event_of(name@),
    {
        if text::same(name, "View") {
            Some(OcEvent::View)
        } else if text::same(name, "Print") {
            Some(OcEvent::Print)
        } else if text::same(name, "Export") {
            Some(OcEvent::Export)
        } else {
            None
        }
    }

    /// The name as written in the file, also the key of the matching
    /// `/Usage` entry.
    pub fn as_name(self) -> (out: &'static str)
        ensures
            out@ == event_name(self),
    {
        match self {
            OcEvent::View => "View",
            OcEvent::Print => "Print",
            OcEvent::Export => "Export",
        }
    }

    /// The key of the ON or OFF name inside the matching `/Usage` entry.
    fn state_key(self) -> (out: &'static str)
        ensures
            out@ == event_state_key(self),
    {
        match self {
            OcEvent::View => "ViewState",
            OcEvent::Print => "PrintState",
            OcEvent::Export => "ExportState",
        }
    }
}

/// The state that the name ON or OFF denotes.
pub open spec fn on_off_of(value: Option<ObjectV>) -> Option<bool> {
    match value {
        Some(o) => match o.name() {
            Some(name) => if name == "ON"@ {
                Some(true)
            } else if name == "OFF"@ {
                Some(false)
            } else {
                None
            },
            None => None,
        },
        None => None,
    }
}

/// `Some(true)` for the name ON, `Some(false)` for OFF, `None` otherwise.
fn on_off(value: Option<&Object>) -> (out: Option<bool>)
    ensures
        out == on_off_of(object::opt_view(value)),
{
    match value {
        Some(Object::Name(name)) => if text::same(name.0.as_str(), "ON") {
            Some(true)
        } else if text::same(name.0.as_str(), "OFF") {
            Some(false)
        } else {
            None
        },
        _ => None,
    }
}

/// The group references in a value that resolves to an array.
pub open spec fn groups_at(src: SourceV, value: Option<ObjectV>) -> Seq<ObjRef> {
    match value {
        Some(o) => match source::resolved(src, o) {
            Ok(ObjectV::Array(items)) => tree::references_in(items),
            _ => Seq::empty(),
        },
        None => Seq::empty(),
    }
}

/// The group references in a (possibly indirect) array. Null entries and
/// non-reference values are ignored; a value that is not an array yields
/// nothing.
fn group_refs<S: ObjectSource>(src: &S, value: Option<&Object>) -> (out: Vec<ObjRef>)
    ensures
        out@ == groups_at(src.model(), object::opt_view(value)),
{
    match value {
        Some(value) => match src.resolve(value) {
            Ok(Object::Array(items)) => references_among(&items),
            _ => Vec::new(),
        },
        None => Vec::new(),
    }
}

/// The names among objects, in order.
pub open spec fn names_in(items: Seq<ObjectV>) -> Seq<Seq<char>>
    decreases items.len(),
{
    if items.len() == 0 {
        Seq::empty()
    } else {
        match items.last() {
            ObjectV::Name(name) => names_in(items.drop_last()).push(name),
            _ => names_in(items.drop_last()),
        }
    }
}

/// The names in a value that resolves to one name or an array of names.
pub open spec fn names_at(src: SourceV, value: Option<ObjectV>) -> Option<Seq<Seq<char>>> {
    match value {
        Some(o) => match source::resolved(src, o) {
            Ok(ObjectV::Name(name)) => Some(seq![name]),
            Ok(ObjectV::Array(items)) => Some(names_in(items)),
            _ => None,
        },
        None => None,
    }
}

/// The names among objects, anything else skipped.
fn names_among(items: &[Object]) -> (out: Vec<String>)
    ensures
        tree::strings_view(out@) == names_in(object::objects_view(items@)),
{
    let ghost all = object::objects_view(items@);
    let mut out: Vec<String> = Vec::new();
    let mut i: usize = 0;
    assert(all.take(0) =~= Seq::<ObjectV>::empty());
    assert(tree::strings_view(out@) =~= Seq::<Seq<char>>::empty());
    while i < items.len()
        invariant
            i <= items@.len(),
            all == object::objects_view(items@),
            tree::strings_view(out@) == names_in(all.take(i as int)),
        decreases items@.len() - i,
    {
        let ghost before = out@;
        proof {
            assert(all.take(i + 1).drop_last() =~= all.take(i as int));
            assert(all.take(i + 1).last() == items@[i as int]@);
        }
        if let Object::Name(name) = &items[i] {
            let name = name.0.clone();
            out.push(name);
            assert(tree::strings_view(out@) =~= tree::strings_view(before).push(name@));
        }
        i += 1;
    }
    assert(all.take(i as int) =~= all);
    out
}

/// The models of names that may be absent.
pub open spec fn strings_opt(strings: Option<Vec<String>>) -> Option<Seq<Seq<char>>> {
    match strings {
        Some(strings) => Some(tree::strings_view(strings@)),
        None => None,
    }
}

/// The names in a value that is one name or an array of names, resolved;
/// `None` when absent or neither.
fn names<S: ObjectSource>(src: &S, value: Option<&Object>) -> (out: Option<Vec<String>>)
    ensures
        strings_opt(out) == names_at(src.model(), object::opt_view(value)),
{
    match value {
        Some(value) => match src.resolve(value) {
            Ok(Object::Name(name)) => {
                let mut one: Vec<String> = Vec::new();
                let ghost chars = name@;
                one.push(name.0);
                assert(tree::strings_view(one@) =~= seq![chars]);
                Some(one)
            },
            Ok(Object::Array(items)) => Some(names_among(&items)),
            _ => None,
        },
        None => None,
    }
}

/// The intent names of a dictionary; the default View for one that declares
/// none.
pub open spec fn intents_of(src: SourceV, d: Map<Seq<char>, ObjectV>) -> Seq<Seq<char>> {
    match names_at(src, object::lookup(d, "Intent"@)) {
        Some(names) => names,
        None => seq!["View"@],
    }
}

/// The intent every group and configuration has when it declares none.
fn default_intents() -> (out: Vec<String>)
    ensures
        tree::strings_view(out@) == seq!["View"@],
{
    let mut out: Vec<String> = Vec::new();
    out.push("View".to_owned());
    assert(tree::strings_view(out@) =~= seq!["View"@]);
    out
}

/// The names a dictionary's `/Intent` entry carries, a single name or an
/// array of names; absent or malformed reads as the default View.
fn intent_names<S: ObjectSource>(src: &S, dict: &Dict) -> (out: Vec<String>)
    ensures
        tree::strings_view(out@) == intents_of(src.model(), dict@),
{
    match names(src, dict.get("Intent")) {
        Some(names) => names,
        None => default_intents(),
    }
}

/// The state that a usage dictionary names for a category.
pub open spec fn usage_state_of(
    src: SourceV,
    usage: Map<Seq<char>, ObjectV>,
    category: OcEvent,
) -> Option<bool> {
    match tree::entry_dict(src, usage, event_name(category)) {
        Some(d) => on_off_of(tree::entry(src, d, event_state_key(category))),
        None => None,
    }
}

/// The state a usage dictionary's `category` entry names: `Some(true)` for
/// ON, `Some(false)` for OFF, `None` when absent or neither.
fn usage_state<S: ObjectSource>(src: &S, usage: &Dict, category: OcEvent) -> (out: Option<bool>)
    ensures
        out == usage_state_of(src.model(), usage@, category),
{
    match (Entries { src, dict: usage }).sub_dict(category.as_name()) {
        Some(entry) => {
            let value = (Entries { src, dict: &entry }).value(category.state_key());
            on_off(value.as_ref())
        },
        None => None,
    }
}

/// The groups that the default configuration alone turns off: those of
/// `/BaseState /OFF` without those of `/ON`, and those of `/OFF`.
pub open spec fn configured_off_set(
    src: SourceV,
    props: Map<Seq<char>, ObjectV>,
    config: Option<Map<Seq<char>, ObjectV>>,
) -> Set<ObjRef> {
    match config {
        None => Set::empty(),
        Some(config) => {
            let base = if on_off_of(tree::entry(src, config, "BaseState"@)) == Some(false) {
                groups_at(src, object::lookup(props, "OCGs"@)).to_set()
            } else {
                Set::empty()
            };
            let on = groups_at(src, object::lookup(config, "ON"@)).to_set();
            let off = groups_at(src, object::lookup(config, "OFF"@)).to_set();
            (base - on) + off
        },
    }
}

/// Puts all of `groups` in `off`.
fn add_all(off: &mut RefSet, groups: &Vec<ObjRef>)
    ensures
        final(off)@ == old(off)@ + groups@.to_set(),
{
    let ghost before = off@;
    let mut i: usize = 0;
    assert(off@ =~= before + groups@.take(0).to_set());
    while i < groups.len()
        invariant
            i <= groups@.len(),
            off@ == before + groups@.take(i as int).to_set(),
        decreases groups@.len() - i,
    {
        let ghost now = off@;
        off.insert(groups[i]);
        proof {
            lemma_one_more(groups@, i as int);
            assert(off@ =~= before + groups@.take(i + 1).to_set());
        }
        i += 1;
    }
    assert(groups@.take(i as int) =~= groups@);
}

proof fn lemma_one_more(groups: Seq<ObjRef>, i: int)
    requires
        0 <= i < groups.len(),
    ensures
        groups.take(i + 1).to_set() == groups.take(i).to_set().insert(groups[i]),
{
    let more = groups.take(i + 1);
    let some = groups.take(i);
    assert forall|r: ObjRef| more.to_set().contains(r) <==> some.to_set().insert(groups[i]).contains(
        r,
    ) by {
        if more.contains(r) {
            let k = choose|k: int| 0 <= k < more.len() && more[k] == r;
            if k < i {
                assert(some[k] == r);
            }
        }
        if some.contains(r) {
            let k = choose|k: int| 0 <= k < some.len() && some[k] == r;
            assert(more[k] == r);
        }
        if r == groups[i] {
            assert(more[i] == r);
        }
    }
    assert(more.to_set() =~= some.to_set().insert(groups[i]));
}

/// Takes all of `groups` out of `off`.
fn remove_all(off: &mut RefSet, groups: &Vec<ObjRef>)
    ensures
        final(off)@ == old(off)@ - groups@.to_set(),
{
    let ghost before = off@;
    let mut i: usize = 0;
    assert(off@ =~= before - groups@.take(0).to_set());
    while i < groups.len()
        invariant
            i <= groups@.len(),
            off@ == before - groups@.take(i as int).to_set(),
        decreases groups@.len() - i,
    {
        off.remove(groups[i]);
        proof {
            lemma_one_more(groups@, i as int);
            assert(off@ =~= before - groups@.take(i + 1).to_set());
        }
        i += 1;
    }
    assert(groups@.take(i as int) =~= groups@);
}

/// The off set the default configuration alone prescribes: `/BaseState`, then
/// `/ON`, then `/OFF`.
fn configured_off<S: ObjectSource>(src: &S, props: &Dict, config: &Option<Dict>) -> (out: RefSet)
    ensures
        out@ == configured_off_set(src.model(), props@, dict_opt(*config)),
{
    let mut off = RefSet::new();
    if let Some(config) = config {
        let base = (Entries { src, dict: config }).value("BaseState");
        if on_off(base.as_ref()) == Some(false) {
            let all = group_refs(src, props.get("OCGs"));
            add_all(&mut off, &all);
            assert(off@ =~= all@.to_set());
        }
        let on = group_refs(src, config.get("ON"));
        remove_all(&mut off, &on);
        let named = group_refs(src, config.get("OFF"));
        add_all(&mut off, &named);
    }
    off
}

/// The events that names denote, in order, other names left out.
pub open spec fn categories_in(names: Seq<Seq<char>>) -> Seq<OcEvent>
    decreases names.len(),
{
    if names.len() == 0 {
        Seq::empty()
    } else {
        match event_of(names.last()) {
            Some(event) => categories_in(names.drop_last()).push(event),
            None => categories_in(names.drop_last()),
        }
    }
}

/// The off set after the usage entries of `categories` have set the state of
/// `group`, the later ones winning.
pub open spec fn states_applied(
    src: SourceV,
    usage: Map<Seq<char>, ObjectV>,
    group: ObjRef,
    categories: Seq<OcEvent>,
    off: Set<ObjRef>,
) -> Set<ObjRef>
    decreases categories.len(),
{
    if categories.len() == 0 {
        off
    } else {
        let before = states_applied(src, usage, group, categories.drop_last(), off);
        match usage_state_of(src, usage, categories.last()) {
            Some(true) => before.remove(group),
            Some(false) => before.insert(group),
            None => before,
        }
    }
}

/// The off set after the usage dictionaries of `groups` have been applied.
pub open spec fn groups_applied(
    src: SourceV,
    groups: Seq<ObjRef>,
    categories: Seq<OcEvent>,
    off: Set<ObjRef>,
) -> Set<ObjRef>
    decreases groups.len(),
{
    if groups.len() == 0 {
        off
    } else {
        let before = groups_applied(src, groups.drop_last(), categories, off);
        match group_usage(src, groups.last()) {
            Some(usage) => states_applied(src, usage, groups.last(), categories, before),
            None => before,
        }
    }
}

/// The usage dictionary of a group.
pub open spec fn group_usage(src: SourceV, group: ObjRef) -> Option<Map<Seq<char>, ObjectV>> {
    match tree::dict_at(src, ObjectV::Ref(group)) {
        Some(d) => tree::entry_dict(src, d, "Usage"@),
        None => None,
    }
}

/// The off set after one usage application dictionary: unchanged unless its
/// `/Event` is `event`.
pub open spec fn application_applied(
    src: SourceV,
    app: Map<Seq<char>, ObjectV>,
    event: OcEvent,
    off: Set<ObjRef>,
) -> Set<ObjRef> {
    let named = match tree::entry_name(src, app, "Event"@) {
        Some(name) => event_of(name),
        None => None,
    };
    let categories = match names_at(src, object::lookup(app, "Category"@)) {
        Some(names) => categories_in(names),
        None => Seq::empty(),
    };
    if named == Some(event) {
        groups_applied(src, groups_at(src, object::lookup(app, "OCGs"@)), categories, off)
    } else {
        off
    }
}

/// The off set after usage application dictionaries in a row.
pub open spec fn applications_applied(
    src: SourceV,
    apps: Seq<ObjectV>,
    event: OcEvent,
    off: Set<ObjRef>,
) -> Set<ObjRef>
    decreases apps.len(),
{
    if apps.len() == 0 {
        off
    } else {
        let before = applications_applied(src, apps.drop_last(), event, off);
        match tree::dict_at(src, apps.last()) {
            Some(app) => application_applied(src, app, event, before),
            None => before,
        }
    }
}

/// The off set after the usage application dictionaries of a configuration.
pub open spec fn usage_applied(
    src: SourceV,
    config: Map<Seq<char>, ObjectV>,
    event: OcEvent,
    off: Set<ObjRef>,
) -> Set<ObjRef> {
    match tree::entry(src, config, "AS"@) {
        Some(ObjectV::Array(apps)) => applications_applied(src, apps, event, off),
        _ => off,
    }
}

/// The events that names denote, other names skipped.
fn categories_of(names: &Vec<String>) -> (out: Vec<OcEvent>)
    ensures
        out@ == categories_in(tree::strings_view(names@)),
{
    let ghost all = tree::strings_view(names@);
    let mut out: Vec<OcEvent> = Vec::new();
    let mut i: usize = 0;
    assert(all.take(0) =~= Seq::<Seq<char>>::empty());
    while i < names.len()
        invariant
            i <= names@.len(),
            all == tree::strings_view(names@),
            out@ == categories_in(all.take(i as int)),
        decreases names@.len() - i,
    {
        proof {
            assert(all.take(i + 1).drop_last() =~= all.take(i as int));
            assert(all.take(i + 1).last() == names@[i as int]@);
        }
        if let Some(event) = OcEvent::from_name(names[i].as_str()) {
            out.push(event);
        }
        i += 1;
    }
    assert(all.take(i as int) =~= all);
    out
}

/// Sets the state of one group from its usage dictionary.
fn apply_states<S: ObjectSource>(
    src: &S,
    usage: &Dict,
    group: ObjRef,
    categories: &Vec<OcEvent>,
    off: &mut RefSet,
)
    ensures
        final(off)@ == states_applied(src.model(), usage@, group, categories@, old(off)@),
{
    let ghost before = off@;
    let mut i: usize = 0;
    assert(categories@.take(0) =~= Seq::<OcEvent>::empty());
    while i < categories.len()
        invariant
            i <= categories@.len(),
            off@ == states_applied(
                src.model(),
                usage@,
                group,
                categories@.take(i as int),
                before,
            ),
        decreases categories@.len() - i,
    {
        proof {
            assert(categories@.take(i + 1).drop_last() =~= categories@.take(i as int));
            assert(categories@.take(i + 1).last() == categories@[i as int]);
        }
        match usage_state(src, usage, categories[i]) {
            Some(true) => {
                off.remove(group);
            },
            Some(false) => {
                off.insert(group);
            },
            None => {},
        }
        i += 1;
    }
    assert(categories@.take(i as int) =~= categories@);
}

/// Sets the states of groups from their usage dictionaries.
fn apply_groups<S: ObjectSource>(
    src: &S,
    groups: &Vec<ObjRef>,
    categories: &Vec<OcEvent>,
    off: &mut RefSet,
)
    ensures
        final(off)@ == groups_applied(src.model(), groups@, categories@, old(off)@),
{
    let ghost before = off@;
    let mut i: usize = 0;
    assert(groups@.take(0) =~= Seq::<ObjRef>::empty());
    while i < groups.len()
        invariant
            i <= groups@.len(),
            off@ == groups_applied(src.model(), groups@.take(i as int), categories@, before),
        decreases groups@.len() - i,
    {
        let group = groups[i];
        proof {
            assert(groups@.take(i + 1).drop_last() =~= groups@.take(i as int));
            assert(groups@.take(i + 1).last() == group);
        }
        if let Some(dict) = resolved_dict(src, &Object::Ref(group)) {
            if let Some(usage) = (Entries { src, dict: &dict }).sub_dict("Usage") {
                apply_states(src, &usage, group, categories, off);
            }
        }
        i += 1;
    }
    assert(groups@.take(i as int) =~= groups@);
}

/// Applies the usage application dictionaries of the configuration's `/AS`
/// array whose `/Event` is `event`, in array order, later ones winning. For
/// each group in a dictionary's `/OCGs` and each name in its `/Category` that
/// is View, Print or Export, the group's `/Usage` entry of that category sets
/// the state: ON turns the group on, OFF off, and a missing or malformed entry
/// leaves it unchanged. The Zoom, Language and User categories depend on a
/// viewer's magnification, locale and user, which this library has none of,
/// and leave the state unchanged.
fn apply_usage<S: ObjectSource>(src: &S, config: &Dict, event: OcEvent, off: &mut RefSet)
    ensures
        final(off)@ == usage_applied(src.model(), config@, event, old(off)@),
{
    let ghost before = off@;
    let apps = match (Entries { src, dict: config }).value("AS") {
        Some(Object::Array(apps)) => apps,
        _ => {
            return;
        },
    };
    let ghost all = object::objects_view(apps@);
    let mut i: usize = 0;
    assert(all.take(0) =~= Seq::<ObjectV>::empty());
    while i < apps.len()
        invariant
            i <= apps@.len(),
            all == object::objects_view(apps@),
            off@ == applications_applied(src.model(), all.take(i as int), event, before),
        decreases apps@.len() - i,
    {
        proof {
            assert(all.take(i + 1).drop_last() =~= all.take(i as int));
            assert(all.take(i + 1).last() == apps@[i as int]@);
        }
        if let Some(app) = resolved_dict(src, &apps[i]) {
            let named = match (Entries { src, dict: &app }).name("Event") {
                Some(name) => OcEvent::from_name(name.as_str()),
                None => None,
            };
            if named == Some(event) {
                let categories = match names(src, app.get("Category")) {
                    Some(names) => categories_of(&names),
                    None => Vec::new(),
                };
                let groups = group_refs(src, app.get("OCGs"));
                apply_groups(src, &groups, &categories, off);
            }
        }
        i += 1;
    }
    assert(all.take(i as int) =~= all);
}

/// Whether two lists of names have one in common.
pub open spec fn share(a: Seq<Seq<char>>, b: Seq<Seq<char>>) -> bool {
    exists|name: Seq<char>| #[trigger] a.contains(name) && b.contains(name)
}

/// The intent names of the configuration that is in force.
pub open spec fn config_intents(
    src: SourceV,
    config: Option<Map<Seq<char>, ObjectV>>,
) -> Seq<Seq<char>> {
    match config {
        Some(d) => intents_of(src, d),
        None => seq!["View"@],
    }
}

/// The intent names of a group.
pub open spec fn group_intents(src: SourceV, group: ObjRef) -> Seq<Seq<char>> {
    config_intents(src, tree::dict_at(src, ObjectV::Ref(group)))
}

/// The members of an off set that the intent rule keeps.
pub open spec fn intents_kept(
    src: SourceV,
    config: Option<Map<Seq<char>, ObjectV>>,
    off: Set<ObjRef>,
) -> Set<ObjRef> {
    let wanted = config_intents(src, config);
    if wanted.contains("All"@) {
        off
    } else {
        Set::new(|group: ObjRef| off.contains(group) && share(group_intents(src, group), wanted))
    }
}

/// Whether `name` is among `names`.
fn has_name(names: &Vec<String>, name: &str) -> (out: bool)
    ensures
        out == tree::strings_view(names@).contains(name@),
{
    let ghost all = tree::strings_view(names@);
    let mut i: usize = 0;
    while i < names.len()
        invariant
            i <= names@.len(),
            all == tree::strings_view(names@),
            forall|j: int| 0 <= j < i ==> all[j] != name@,
        decreases names@.len() - i,
    {
        if text::same(names[i].as_str(), name) {
            assert(all[i as int] == name@);
            return true;
        }
        assert(all[i as int] != name@);
        i += 1;
    }
    false
}

/// Whether two lists of names have one in common.
fn names_shared(a: &Vec<String>, b: &Vec<String>) -> (out: bool)
    ensures
        out == share(tree::strings_view(a@), tree::strings_view(b@)),
{
    let ghost all = tree::strings_view(a@);
    let mut i: usize = 0;
    while i < a.len()
        invariant
            i <= a@.len(),
            all == tree::strings_view(a@),
            forall|j: int| 0 <= j < i ==> !tree::strings_view(b@).contains(#[trigger] all[j]),
        decreases a@.len() - i,
    {
        assert(all[i as int] == a@[i as int]@);
        if has_name(b, a[i].as_str()) {
            assert(all.contains(a@[i as int]@));
            return true;
        }
        i += 1;
    }
    false
}

/// Keeps in `off` only the groups whose `/Intent` shares a name with the
/// configuration's `/Intent`: a group whose intent does not match has no
/// effect on visibility, so it can never hide content. Both default to View; a
/// configuration naming `All` matches every group; an empty configuration
/// array matches none, so nothing is hidden.
fn retain_matching_intents<S: ObjectSource>(src: &S, config: &Option<Dict>, off: &mut RefSet)
    ensures
        final(off)@ == intents_kept(src.model(), dict_opt(*config), old(off)@),
{
    let ghost before = off@;
    let wanted = match config {
        Some(config) => intent_names(src, config),
        None => default_intents(),
    };
    if has_name(&wanted, "All") {
        return;
    }
    let ghost kept = intents_kept(src.model(), dict_opt(*config), before);
    let groups = off.members();
    let mut i: usize = 0;
    while i < groups.len()
        invariant
            i <= groups@.len(),
            groups@.to_set() == before,
            groups@.no_duplicates(),
            tree::strings_view(wanted@) == config_intents(src.model(), dict_opt(*config)),
            !tree::strings_view(wanted@).contains("All"@),
            kept == intents_kept(src.model(), dict_opt(*config), before),
            forall|r: ObjRef| #[trigger] off@.contains(r) ==> before.contains(r),
            forall|j: int|
                0 <= j < i ==> off@.contains(#[trigger] groups@[j]) == kept.contains(groups@[j]),
            forall|j: int| i <= j < groups@.len() ==> off@.contains(#[trigger] groups@[j]),
        decreases groups@.len() - i,
    {
        let group = groups[i];
        let intents = match resolved_dict(src, &Object::Ref(group)) {
            Some(dict) => intent_names(src, &dict),
            None => default_intents(),
        };
        assert(groups@.to_set().contains(group));
        if !names_shared(&intents, &wanted) {
            off.remove(group);
        }
        i += 1;
    }
    assert(off@ =~= kept) by {
        assert forall|r: ObjRef| off@.contains(r) <==> kept.contains(r) by {
            if before.contains(r) {
                assert(groups@.to_set().contains(r));
                let j = choose|j: int| 0 <= j < groups@.len() && groups@[j] == r;
                assert(off@.contains(groups@[j]) == kept.contains(groups@[j]));
            }
        }
    }
}

/// The groups that are off under the default configuration and an event.
pub open spec fn off_under(
    src: SourceV,
    props: Map<Seq<char>, ObjectV>,
    event: Option<OcEvent>,
) -> Set<ObjRef> {
    let config = tree::entry_dict(src, props, "D"@);
    let configured = configured_off_set(src, props, config);
    let applied = match (config, event) {
        (Some(d), Some(event)) => usage_applied(src, d, event, configured),
        _ => configured,
    };
    intents_kept(src, config, applied)
}

/// The document's optional-content visibility under its default
/// configuration (`/OCProperties` `/D`) and one usage application event: the
/// set of groups that state turns off. A group's identity is its indirect
/// reference — groups are shared by reference between the configuration,
/// marked-content properties, and `/OC` entries.
///
/// Everything here is lenient: an entry that is missing, malformed, or will
/// not resolve leaves content visible, never hidden.
#[derive(Debug, PartialEq, Eq)]
pub struct OcState {
    off: RefSet,
}

impl View for OcState {
    type V = Set<ObjRef>;

    closed spec fn view(&self) -> Set<ObjRef> {
        self.off@
    }
}

impl Clone for OcState {
    fn clone(&self) -> (out: OcState)
        ensures
            out@ == self@,
    {
        OcState { off: self.off.clone() }
    }
}

impl Default for OcState {
    fn default() -> (out: OcState)
        ensures
            out@ == Set::<ObjRef>::empty(),
    {
        OcState { off: RefSet::new() }
    }
}

/// The off set of a state that may be absent.
pub open spec fn state_opt(state: Option<OcState>) -> Option<Set<ObjRef>> {
    match state {
        Some(state) => Some(state@),
        None => None,
    }
}

/// The groups that are off in a document, if it has optional content.
pub open spec fn document_off(
    src: SourceV,
    trailer: Map<Seq<char>, ObjectV>,
    event: Option<OcEvent>,
) -> Option<Set<ObjRef>> {
    match tree::catalog_dict(src, trailer, "OCProperties"@) {
        Some(props) => Some(off_under(src, props, event)),
        None => None,
    }
}

impl OcState {
    /// The state a viewer shows on screen: [`OcState::load_for_with`] under
    /// the [`OcEvent::View`] event.
    pub fn load_with<S: ObjectSource>(src: &S, trailer: &Dict) -> (out: Option<OcState>)
        ensures
            state_opt(out) == document_off(src.model(), trailer@, Some(OcEvent::View)),
    {
        OcState::load_for_with(src, trailer, Some(OcEvent::View))
    }

    /// Builds the state from the catalog's `/OCProperties`, or `None` when
    /// the document declares none — no optional content, everything
    /// visible. The default `/D` configuration is applied in specification
    /// order: `/BaseState` (default `ON`), then `/ON`, then `/OFF`, so a
    /// group named in both `/ON` and `/OFF` ends up off. Then the
    /// configuration's `/AS` usage application dictionaries whose `/Event`
    /// is `event` adjust the groups they name from the groups' `/Usage`
    /// dictionaries. `None` applies no usage application: the default
    /// configuration alone. Last, a group whose `/Intent` shares no
    /// name with the configuration's `/Intent` has no effect on visibility
    /// and leaves the off set.
    pub fn load_for_with<S: ObjectSource>(
        src: &S,
        trailer: &Dict,
        event: Option<OcEvent>,
    ) -> (out: Option<OcState>)
        ensures
            state_opt(out) == document_off(src.model(), trailer@, event),
    {
        match dict_in_catalog(src, trailer, "OCProperties") {
            Some(props) => Some(OcState::from_properties(src, &props, event)),
            None => None,
        }
    }

    /// [`OcState::load_for_with`] over an already resolved `/OCProperties`
    /// dictionary.
    fn from_properties<S: ObjectSource>(src: &S, props: &Dict, event: Option<OcEvent>) -> (out:
        OcState)
        ensures
            out@ == off_under(src.model(), props@, event),
    {
        let config = (Entries { src, dict: props }).sub_dict("D");
        let mut off = configured_off(src, props, &config);
        if let Some(d) = &config {
            if let Some(event) = event {
                apply_usage(src, d, event, &mut off);
            }
        }
        retain_matching_intents(src, &config, &mut off);
        OcState { off }
    }

    /// Whether the configuration turns `group` off.
    pub fn hidden(&self, group: ObjRef) -> (out: bool)
        ensures
            out == self@.contains(group),
    {
        self.off.contains(group)
    }
}

/// Whether a dictionary reached through an `/OC`-shaped value is a membership
/// dictionary.
pub open spec fn is_membership(d: Map<Seq<char>, ObjectV>) -> bool {
    let kind = match object::lookup(d, "Type"@) {
        Some(o) => o.name(),
        None => None,
    };
    match kind {
        Some(name) => name == "OCMD"@,
        None => d.contains_key("OCGs"@) || d.contains_key("VE"@),
    }
}

/// Whether a dictionary reached through an `/OC`-shaped value is a
/// membership dictionary rather than a group: `/Type /OCMD` says so, and a
/// dictionary with no `/Type` carrying `/OCGs` or `/VE` is read as one too —
/// a group never carries those keys, and files omit `/Type`.
fn is_ocmd(dict: &Dict) -> (out: bool)
    ensures
        out == is_membership(dict@),
{
    match dict.get_name("Type") {
        Some(name) => text::same(name.0.as_str(), "OCMD"),
        None => dict.get("OCGs").is_some() || dict.get("VE").is_some(),
    }
}

/// The operator of a visibility expression.
#[derive(Debug, Clone, Copy, PartialEq, Eq, Structural)]
pub enum Operator {
    And,
    Or,
    Not,
}

/// The operator that a name denotes.
pub open spec fn operator_named(name: Seq<char>) -> Option<Operator> {
    if name == "And"@ {
        Some(Operator::And)
    } else if name == "Or"@ {
        Some(Operator::Or)
    } else if name == "Not"@ {
        Some(Operator::Not)
    } else {
        None
    }
}

/// The operator of an expression array that is well formed: its first element
/// names one, and operands follow, to `Not` a single one.
pub open spec fn operator_of(src: SourceV, expr: Seq<ObjectV>) -> Option<Operator> {
    if expr.len() < 2 {
        None
    } else {
        match source::resolved(src, expr[0]) {
            Ok(ObjectV::Name(name)) => match operator_named(name) {
                Some(operator) => if operator == Operator::Not && expr.len() != 2 {
                    None
                } else {
                    Some(operator)
                },
                None => None,
            },
            _ => None,
        }
    }
}

/// The value of an expression array, `None` if it is malformed. `levels` is
/// how much deeper its operands may nest.
pub open spec fn expression_value(
    src: SourceV,
    off: Set<ObjRef>,
    expr: Seq<ObjectV>,
    levels: nat,
) -> Option<bool>
    decreases levels, expr.len(),
{
    match operator_of(src, expr) {
        None => None,
        Some(operator) => if expr.len() == 0 {
            None
        } else {
            match operand_values(src, off, expr.skip(1), levels) {
                None => None,
                Some(values) => Some(
                    match operator {
                        Operator::And => !values.contains(false),
                        Operator::Or => values.contains(true),
                        Operator::Not => !values.contains(true),
                    },
                ),
            }
        },
    }
}

/// The values of operands, `None` if one of them is malformed.
pub open spec fn operand_values(
    src: SourceV,
    off: Set<ObjRef>,
    operands: Seq<ObjectV>,
    levels: nat,
) -> Option<Seq<bool>>
    decreases levels, operands.len(),
{
    if operands.len() == 0 {
        Some(Seq::empty())
    } else {
        match operand_values(src, off, operands.drop_last(), levels) {
            Some(before) => match operand_value(src, off, operands.last(), levels) {
                Some(value) => Some(before.push(value)),
                None => None,
            },
            None => None,
        }
    }
}

/// The value of an operand: of a group reference whether the group is on, of
/// a nested expression its value.
pub open spec fn operand_value(
    src: SourceV,
    off: Set<ObjRef>,
    operand: ObjectV,
    levels: nat,
) -> Option<bool>
    decreases levels, 0nat,
{
    let nested = |items: Seq<ObjectV>|
        if levels == 0 {
            None
        } else {
            expression_value(src, off, items, (levels - 1) as nat)
        };
    match operand {
        ObjectV::Array(items) => nested(items),
        ObjectV::Ref(group) => match source::resolved(src, operand) {
            Ok(ObjectV::Array(items)) => nested(items),
            Ok(ObjectV::Dict(_)) => Some(!off.contains(group)),
            _ => None,
        },
        _ => None,
    }
}

/// The groups of a membership dictionary.
pub open spec fn membership_groups(src: SourceV, d: Map<Seq<char>, ObjectV>) -> Seq<ObjRef> {
    match object::lookup(d, "OCGs"@) {
        Some(ObjectV::Ref(r)) => match source::resolved(src, ObjectV::Ref(r)) {
            Ok(ObjectV::Array(items)) => tree::references_in(items),
            Ok(ObjectV::Dict(_)) => seq![r],
            _ => Seq::empty(),
        },
        Some(ObjectV::Array(items)) => tree::references_in(items),
        _ => Seq::empty(),
    }
}

/// Whether some of the groups is off.
pub open spec fn any_off(off: Set<ObjRef>, groups: Seq<ObjRef>) -> bool {
    exists|i: int| 0 <= i < groups.len() && off.contains(#[trigger] groups[i])
}

/// Whether some of the groups is on.
pub open spec fn any_on(off: Set<ObjRef>, groups: Seq<ObjRef>) -> bool {
    exists|i: int| 0 <= i < groups.len() && !off.contains(#[trigger] groups[i])
}

/// Whether content of a membership dictionary is visible.
pub open spec fn membership_shown(
    src: SourceV,
    off: Set<ObjRef>,
    d: Map<Seq<char>, ObjectV>,
) -> bool {
    if d.contains_key("VE"@) {
        match tree::entry(src, d, "VE"@) {
            Some(ObjectV::Array(expr)) => expression_value(src, off, expr, MAX_VE_DEPTH as nat)
                != Some(false),
            _ => true,
        }
    } else {
        let groups = membership_groups(src, d);
        let policy = tree::entry_name(src, d, "P"@);
        ||| groups.len() == 0
        ||| if policy == Some("AllOn"@) {
            !any_off(off, groups)
        } else if policy == Some("AnyOff"@) {
            any_off(off, groups)
        } else if policy == Some("AllOff"@) {
            !any_on(off, groups)
        } else {
            any_on(off, groups)
        }
    }
}

/// Whether content gated by `value` is visible.
pub open spec fn shown(src: SourceV, off: Set<ObjRef>, value: ObjectV) -> bool {
    match value {
        ObjectV::Ref(r) => match source::resolved(src, value) {
            Ok(o) => match o.dict() {
                Some(d) => if is_membership(d) {
                    membership_shown(src, off, d)
                } else {
                    !off.contains(r)
                },
                None => true,
            },
            Err(_) => true,
        },
        ObjectV::Dict(d) => is_membership(d) ==> membership_shown(src, off, d),
        _ => true,
    }
}

/// The value under `name` in the first `/Properties` resource dictionary of a
/// chain that has it, as written.
pub open spec fn property_in(
    src: SourceV,
    chain: Seq<Map<Seq<char>, ObjectV>>,
    name: Seq<char>,
) -> Option<ObjectV>
    decreases chain.len(),
{
    if chain.len() == 0 {
        None
    } else {
        let found = match tree::entry_dict(src, chain[0], "Properties"@) {
            Some(d) => object::lookup(d, name),
            None => None,
        };
        match found {
            Some(value) => Some(value),
            None => property_in(src, chain.skip(1), name),
        }
    }
}

/// The dictionaries of a resource chain.
pub open spec fn chain_view(chain: Seq<Arc<Dict>>) -> Seq<Map<Seq<char>, ObjectV>> {
    Seq::new(chain.len(), |i: int| chain[i]@)
}

/// The raw `/Properties` resource value for `name`, innermost dictionary
/// first — deliberately unresolved, so a reference keeps the identity the
/// off set is keyed by.
fn properties_value<S: ObjectSource>(src: &S, chain: &[Arc<Dict>], name: &str) -> (out: Option<
    Object,
>)
    ensures
        object::owned_view(out) == property_in(src.model(), chain_view(chain@), name@),
{
    let ghost all = chain_view(chain@);
    let mut i: usize = 0;
    assert(all.skip(0) =~= all);
    while i < chain.len()
        invariant
            i <= chain@.len(),
            all == chain_view(chain@),
            property_in(src.model(), all, name@) == property_in(
                src.model(),
                all.skip(i as int),
                name@,
            ),
        decreases chain@.len() - i,
    {
        proof {
            assert(all.skip(i as int)[0] == chain@[i as int]@);
            assert(all.skip(i as int).skip(1) =~= all.skip(i + 1));
        }
        let res: &Dict = &*chain[i];
        if let Some(dict) = (Entries { src, dict: res }).sub_dict("Properties") {
            if let Some(value) = dict.get(name) {
                return Some(value.clone());
            }
        }
        i += 1;
    }
    None
}

/// The operator of an expression array; `None` is malformed.
fn operator<S: ObjectSource>(src: &S, expr: &[Object]) -> (out: Option<Operator>)
    ensures
        out == operator_of(src.model(), object::objects_view(expr@)),
{
    if expr.len() < 2 {
        return None;
    }
    assert(object::objects_view(expr@)[0] == expr@[0]@);
    match src.resolve(&expr[0]) {
        Ok(Object::Name(name)) => if text::same(name.0.as_str(), "And") {
            Some(Operator::And)
        } else if text::same(name.0.as_str(), "Or") {
            Some(Operator::Or)
        } else if text::same(name.0.as_str(), "Not") {
            if expr.len() != 2 {
                None
            } else {
                Some(Operator::Not)
            }
        } else {
            None
        },
        _ => None,
    }
}

proof fn lemma_malformed(
    src: SourceV,
    off: Set<ObjRef>,
    operands: Seq<ObjectV>,
    levels: nat,
    i: int,
)
    requires
        0 <= i <= operands.len(),
        operand_values(src, off, operands.take(i), levels) is None,
    ensures
        operand_values(src, off, operands, levels) is None,
    decreases operands.len() - i,
{
    if i == operands.len() {
        assert(operands.take(i) =~= operands);
    } else {
        assert(operands.take(i + 1).drop_last() =~= operands.take(i));
        lemma_malformed(src, off, operands, levels, i + 1);
    }
}

impl OcState {
    /// Evaluates a `/VE` array: `[/And|/Or|/Not operands…]`, each operand a
    /// group reference or a nested expression (directly, or behind a
    /// reference). `None` is malformed — an unknown operator, no operands,
    /// `/Not` with more than one, an operand that is neither group nor
    /// expression, or nesting past [`MAX_VE_DEPTH`] — and reads as visible at
    /// the caller.
    fn expression_visible<S: ObjectSource>(&self, src: &S, expr: &[Object], levels: u32) -> (out:
        Option<bool>)
        ensures
            out == expression_value(
                src.model(),
                self@,
                object::objects_view(expr@),
                levels as nat,
            ),
        decreases levels, 1nat,
    {
        let operator = match operator(src, expr) {
            Some(operator) => operator,
            None => {
                return None;
            },
        };
        let ghost operands = object::objects_view(expr@).skip(1);
        let ghost mut values: Seq<bool> = Seq::empty();
        let mut all = true;
        let mut any = false;
        let mut i: usize = 1;
        assert(operands.take(0) =~= Seq::<ObjectV>::empty());
        while i < expr.len()
            invariant
                1 <= i <= expr@.len(),
                operator_of(src.model(), object::objects_view(expr@)) == Some(operator),
                operands == object::objects_view(expr@).skip(1),
                operand_values(src.model(), self@, operands.take(i - 1), levels as nat) == Some(
                    values,
                ),
                all == !values.contains(false),
                any == values.contains(true),
            decreases expr@.len() - i,
        {
            proof {
                assert(operands.take(i as int).drop_last() =~= operands.take(i - 1));
                assert(operands.take(i as int).last() == expr@[i as int]@);
            }
            match self.operand_visible(src, &expr[i], levels) {
                Some(value) => {
                    proof {
                        let more = values.push(value);
                        assert forall|b: bool| more.contains(b) <==> (values.contains(b) || b
                            == value) by {
                            if values.contains(b) {
                                let k = choose|k: int| 0 <= k < values.len() && values[k] == b;
                                assert(more[k] == b);
                            }
                            assert(more[values.len() as int] == value);
                        }
                        values = more;
                    }
                    all = all && value;
                    any = any || value;
                },
                None => {
                    proof {
                        lemma_malformed(src.model(), self@, operands, levels as nat, i as int);
                    }
                    return None;
                },
            }
            i += 1;
        }
        assert(operands.take(i - 1) =~= operands);
        match operator {
            Operator::And => Some(all),
            Operator::Or => Some(any),
            Operator::Not => Some(!any),
        }
    }

    /// The value of one operand of a visibility expression.
    fn operand_visible<S: ObjectSource>(&self, src: &S, operand: &Object, levels: u32) -> (out:
        Option<bool>)
        ensures
            out == operand_value(src.model(), self@, operand@, levels as nat),
        decreases levels, 0nat,
    {
        match operand {
            Object::Array(items) => if levels == 0 {
                None
            } else {
                self.expression_visible(src, items, levels - 1)
            },
            Object::Ref(group) => match src.resolve(operand) {
                Ok(Object::Array(items)) => if levels == 0 {
                    None
                } else {
                    self.expression_visible(src, &items, levels - 1)
                },
                Ok(Object::Dict(_)) => Some(!self.hidden(*group)),
                _ => None,
            },
            _ => None,
        }
    }

    /// Whether some of the groups is off, and whether some is on.
    fn states_among(&self, groups: &Vec<ObjRef>) -> (out: (bool, bool))
        ensures
            out.0 == any_off(self@, groups@),
            out.1 == any_on(self@, groups@),
    {
        let mut off = false;
        let mut on = false;
        let mut i: usize = 0;
        while i < groups.len()
            invariant
                i <= groups@.len(),
                off == any_off(self@, groups@.take(i as int)),
                on == any_on(self@, groups@.take(i as int)),
            decreases groups@.len() - i,
        {
            let ghost some = groups@.take(i as int);
            let ghost more = groups@.take(i + 1);
            proof {
                assert forall|j: int| 0 <= j < i implies more[j] == #[trigger] some[j] by {}
                assert(more[i as int] == groups@[i as int]);
                if any_off(self@, some) {
                    let j = choose|j: int| 0 <= j < some.len() && self@.contains(#[trigger] some[j]);
                    assert(more[j] == some[j]);
                }
                if any_on(self@, some) {
                    let j = choose|j: int|
                        0 <= j < some.len() && !self@.contains(#[trigger] some[j]);
                    assert(more[j] == some[j]);
                }
                if any_off(self@, more) {
                    let j = choose|j: int| 0 <= j < more.len() && self@.contains(#[trigger] more[j]);
                    if j < i {
                        assert(some[j] == more[j]);
                    }
                }
                if any_on(self@, more) {
                    let j = choose|j: int|
                        0 <= j < more.len() && !self@.contains(#[trigger] more[j]);
                    if j < i {
                        assert(some[j] == more[j]);
                    }
                }
            }
            if self.hidden(groups[i]) {
                off = true;
            } else {
                on = true;
            }
            i += 1;
        }
        assert(groups@.take(i as int) =~= groups@);
        (off, on)
    }

    /// A membership dictionary's visibility: the `/VE` visibility expression
    /// when present (taking precedence, malformed reading as visible), else
    /// the `/OCGs` groups under the `/P` policy — `AnyOn` (the default, and
    /// the reading of an unrecognized policy), `AllOn`, `AnyOff`, or `AllOff`.
    /// No usable groups means visible.
    fn ocmd_visible<S: ObjectSource>(&self, src: &S, dict: &Dict) -> (out: bool)
        ensures
            out == membership_shown(src.model(), self@, dict@),
    {
        let entries = Entries { src, dict };
        if dict.get("VE").is_some() {
            return match entries.value("VE") {
                Some(Object::Array(expr)) => match self.expression_visible(
                    src,
                    &expr,
                    MAX_VE_DEPTH,
                ) {
                    Some(value) => value,
                    None => true,
                },
                _ => true,
            };
        }
        let groups = match dict.get("OCGs") {
            Some(Object::Ref(r)) => match src.resolve(&Object::Ref(*r)) {
                Ok(Object::Array(items)) => references_among(&items),
                Ok(Object::Dict(_)) => {
                    let mut one: Vec<ObjRef> = Vec::new();
                    one.push(*r);
                    assert(one@ =~= seq![*r]);
                    one
                },
                _ => Vec::new(),
            },
            Some(Object::Array(items)) => references_among(items),
            _ => Vec::new(),
        };
        if groups.len() == 0 {
            return true;
        }
        let (off, on) = self.states_among(&groups);
        match entries.name("P") {
            Some(policy) => if text::same(policy.as_str(), "AllOn") {
                !off
            } else if text::same(policy.as_str(), "AnyOff") {
                off
            } else if text::same(policy.as_str(), "AllOff") {
                !on
            } else {
                on
            },
            None => on,
        }
    }

    /// Whether content gated by `value` — the operand of a stream or
    /// annotation dictionary's `/OC` entry — is visible: a group reference
    /// is visible unless the group is off; a membership dictionary follows
    /// its `/VE` visibility expression, else its `/P` policy over `/OCGs`.
    /// A direct group dictionary has no
    /// reference identity to be turned off by, and anything malformed is
    /// left visible.
    pub fn visible_with<S: ObjectSource>(&self, src: &S, value: &Object) -> (out: bool)
        ensures
            out == shown(src.model(), self@, value@),
    {
        match value {
            Object::Ref(r) => match src.resolve(value) {
                Ok(resolved) => match resolved.as_dict() {
                    Some(dict) => if is_ocmd(dict) {
                        self.ocmd_visible(src, dict)
                    } else {
                        !self.hidden(*r)
                    },
                    None => true,
                },
                Err(_) => true,
            },
            Object::Dict(dict) => if is_ocmd(dict) {
                self.ocmd_visible(src, dict)
            } else {
                true
            },
            _ => true,
        }
    }

    /// Whether a `BDC /OC` span is visible: `props` is the operator's
    /// properties operand — an inline dictionary, or a name looked up in
    /// the resource chain's `/Properties` category. The lookup keeps the
    /// value unresolved, because a group's on/off identity is its indirect
    /// reference; resolving first would read every named group as visible.
    pub fn props_visible_with<S: ObjectSource>(
        &self,
        src: &S,
        chain: &[Arc<Dict>],
        props: &Object,
    ) -> (out: bool)
        ensures
            out == (match props@ {
                ObjectV::Name(name) => match property_in(
                    src.model(),
                    chain_view(chain@),
                    name,
                ) {
                    Some(value) => shown(src.model(), self@, value),
                    None => true,
                },
                value => shown(src.model(), self@, value),
            }),
    {
        match props {
            Object::Name(name) => match properties_value(src, chain, name.0.as_str()) {
                Some(value) => self.visible_with(src, &value),
                None => true,
            },
            other => self.visible_with(src, other),
        }
    }
}

/// An optional content group read as data, with its state under the
/// configuration and event the reader was asked for.
#[derive(Debug, Clone, PartialEq)]
pub struct OcGroup {
    /// The group's indirect reference: its identity in `/OC` entries,
    /// `/OCGs` arrays and the configuration.
    pub reference: ObjRef,
    /// `/Name`, the group's name for a user interface; `None` when missing.
    pub name: Option<String>,
    /// `/Intent`: the intent names, `View` and `Design` being the defined
    /// ones; the default `View` when absent.
    pub intent: Vec<String>,
    /// `/Usage`, every field empty when the entry is absent.
    pub usage: OcUsage,
    /// Whether the group is on under the state the reader built: the
    /// default configuration, the usage application dictionaries for the
    /// requested event, and the intent rule.
    pub visible: bool,
}

/// An optional content usage dictionary: what the group's content is for.
/// Every field is `None`, `false` or empty when its entry is absent.
#[derive(Debug, Clone, PartialEq)]
pub struct OcUsage {
    /// `/View /ViewState`: whether the group should be on when the document
    /// is opened on screen.
    pub view: Option<bool>,
    /// `/Print /PrintState`: whether the group should be on when printed.
    pub print: Option<bool>,
    /// `/Print /Subtype`: the kind of print content, such as `Trapping`,
    /// `PrintersMarks` or `Watermark`.
    pub print_subtype: Option<String>,
    /// `/Export /ExportState`: whether the group should be on when exported
    /// to a format without optional content.
    pub export: Option<bool>,
    /// `/Zoom /min`: the magnification the group is on from; 0 by default.
    pub zoom_min: Option<Real>,
    /// `/Zoom /max`: the magnification below which the group is on; infinity
    /// by default.
    pub zoom_max: Option<Real>,
    /// `/Language /Lang`: the content's language tag, such as `es-MX`.
    pub language: Option<String>,
    /// `/Language /Preferred`: whether the group is preferred on a partial
    /// language match; false by default.
    pub language_preferred: bool,
    /// `/PageElement /Subtype`: `HF` (header or footer), `FG` (foreground),
    /// `BG` (background) or `L` (logo).
    pub page_element: Option<String>,
    /// `/CreatorInfo /Creator`: the application that created the group.
    pub creator: Option<String>,
    /// `/CreatorInfo /Subtype`: the kind of content, such as `Artwork` or
    /// `Technical`.
    pub creator_subtype: Option<String>,
    /// `/User /Type`: `Ind` (individual), `Ttl` (title) or `Org`
    /// (organization).
    pub user_type: Option<String>,
    /// `/User /Name`: the names, one string or an array of strings.
    pub user_names: Vec<String>,
}

/// What a usage dictionary says.
#[verifier::ext_equal]
pub struct OcUsageV {
    pub view: Option<bool>,
    pub print: Option<bool>,
    pub print_subtype: Option<Seq<char>>,
    pub export: Option<bool>,
    pub zoom_min: Option<nat>,
    pub zoom_max: Option<nat>,
    pub language: Option<Seq<char>>,
    pub language_preferred: bool,
    pub page_element: Option<Seq<char>>,
    pub creator: Option<Seq<char>>,
    pub creator_subtype: Option<Seq<char>>,
    pub user_type: Option<Seq<char>>,
    pub user_names: Seq<Seq<char>>,
}

impl View for OcUsage {
    type V = OcUsageV;

    open spec fn view(&self) -> OcUsageV {
        OcUsageV {
            view: self.view,
            print: self.print,
            print_subtype: tree::string_opt(self.print_subtype),
            export: self.export,
            zoom_min: tree::real_opt(self.zoom_min),
            zoom_max: tree::real_opt(self.zoom_max),
            language: tree::string_opt(self.language),
            language_preferred: self.language_preferred,
            page_element: tree::string_opt(self.page_element),
            creator: tree::string_opt(self.creator),
            creator_subtype: tree::string_opt(self.creator_subtype),
            user_type: tree::string_opt(self.user_type),
            user_names: tree::strings_view(self.user_names@),
        }
    }
}

/// A usage dictionary without entries.
pub open spec fn no_usage() -> OcUsageV {
    OcUsageV {
        view: None,
        print: None,
        print_subtype: None,
        export: None,
        zoom_min: None,
        zoom_max: None,
        language: None,
        language_preferred: false,
        page_element: None,
        creator: None,
        creator_subtype: None,
        user_type: None,
        user_names: Seq::empty(),
    }
}

impl Default for OcUsage {
    fn default() -> (out: OcUsage)
        ensures
            out@ == no_usage(),
    {
        let out = OcUsage {
            view: None,
            print: None,
            print_subtype: None,
            export: None,
            zoom_min: None,
            zoom_max: None,
            language: None,
            language_preferred: false,
            page_element: None,
            creator: None,
            creator_subtype: None,
            user_type: None,
            user_names: Vec::new(),
        };
        assert(out@ =~= no_usage());
        out
    }
}

/// The name under `inner` in the dictionary under `outer`.
pub open spec fn name_within(
    src: SourceV,
    d: Map<Seq<char>, ObjectV>,
    outer: Seq<char>,
    inner: Seq<char>,
) -> Option<Seq<char>> {
    match tree::entry_dict(src, d, outer) {
        Some(sub) => tree::entry_name(src, sub, inner),
        None => None,
    }
}

/// The text under `inner` in the dictionary under `outer`.
pub open spec fn text_within(
    src: SourceV,
    d: Map<Seq<char>, ObjectV>,
    outer: Seq<char>,
    inner: Seq<char>,
) -> Option<Seq<char>> {
    match tree::entry_dict(src, d, outer) {
        Some(sub) => tree::entry_text(src, sub, inner),
        None => None,
    }
}

/// The number under `inner` in the dictionary under `outer`.
pub open spec fn number_within(
    src: SourceV,
    d: Map<Seq<char>, ObjectV>,
    outer: Seq<char>,
    inner: Seq<char>,
) -> Option<nat> {
    match tree::entry_dict(src, d, outer) {
        Some(sub) => tree::entry_number(src, sub, inner),
        None => None,
    }
}

/// The texts of a value that is one string or an array of strings.
pub open spec fn texts_of(value: Option<ObjectV>) -> Seq<Seq<char>> {
    match value {
        Some(ObjectV::Array(items)) => tree::texts_in(items),
        Some(ObjectV::String(bytes)) => seq![object::text_chars(bytes)],
        _ => Seq::empty(),
    }
}

/// What the usage dictionary `d` says.
pub open spec fn usage_of(src: SourceV, d: Map<Seq<char>, ObjectV>) -> OcUsageV {
    OcUsageV {
        view: usage_state_of(src, d, OcEvent::View),
        print: usage_state_of(src, d, OcEvent::Print),
        print_subtype: name_within(src, d, "Print"@, "Subtype"@),
        export: usage_state_of(src, d, OcEvent::Export),
        zoom_min: number_within(src, d, "Zoom"@, "min"@),
        zoom_max: number_within(src, d, "Zoom"@, "max"@),
        language: text_within(src, d, "Language"@, "Lang"@),
        language_preferred: match tree::entry_dict(src, d, "Language"@) {
            Some(sub) => on_off_of(tree::entry(src, sub, "Preferred"@)) == Some(true),
            None => false,
        },
        page_element: name_within(src, d, "PageElement"@, "Subtype"@),
        creator: text_within(src, d, "CreatorInfo"@, "Creator"@),
        creator_subtype: name_within(src, d, "CreatorInfo"@, "Subtype"@),
        user_type: name_within(src, d, "User"@, "Type"@),
        user_names: match tree::entry_dict(src, d, "User"@) {
            Some(sub) => texts_of(tree::entry(src, sub, "Name"@)),
            None => Seq::empty(),
        },
    }
}

/// The texts of a value that is one string or an array of strings.
fn texts(value: Option<Object>) -> (out: Vec<String>)
    ensures
        tree::strings_view(out@) == texts_of(object::owned_view(value)),
{
    let mut out: Vec<String> = Vec::new();
    assert(tree::strings_view(out@) =~= Seq::<Seq<char>>::empty());
    match value {
        Some(Object::Array(items)) => {
            out = texts_among(&items);
        },
        Some(Object::String(bytes)) => {
            let decoded = decode_text_string(&bytes);
            out.push(decoded);
            assert(tree::strings_view(out@) =~= seq![decoded@]);
        },
        _ => {},
    }
    out
}

/// A usage dictionary's entries as data.
fn read_usage<S: ObjectSource>(src: &S, usage: &Dict) -> (out: OcUsage)
    ensures
        out@ == usage_of(src.model(), usage@),
{
    let mut out = OcUsage::default();
    let entries = Entries { src, dict: usage };
    out.view = usage_state(src, usage, OcEvent::View);
    out.print = usage_state(src, usage, OcEvent::Print);
    out.export = usage_state(src, usage, OcEvent::Export);
    if let Some(print) = entries.sub_dict("Print") {
        out.print_subtype = (Entries { src, dict: &print }).name("Subtype");
    }
    if let Some(zoom) = entries.sub_dict("Zoom") {
        let zoom = Entries { src, dict: &zoom };
        out.zoom_min = zoom.number("min");
        out.zoom_max = zoom.number("max");
    }
    if let Some(language) = entries.sub_dict("Language") {
        let language = Entries { src, dict: &language };
        out.language = language.text("Lang");
        let preferred = language.value("Preferred");
        out.language_preferred = on_off(preferred.as_ref()) == Some(true);
    }
    if let Some(element) = entries.sub_dict("PageElement") {
        out.page_element = (Entries { src, dict: &element }).name("Subtype");
    }
    if let Some(creator) = entries.sub_dict("CreatorInfo") {
        let creator = Entries { src, dict: &creator };
        out.creator = creator.text("Creator");
        out.creator_subtype = creator.name("Subtype");
    }
    if let Some(user) = entries.sub_dict("User") {
        let user = Entries { src, dict: &user };
        out.user_type = user.name("Type");
        out.user_names = texts(user.value("Name"));
    }
    assert(out@ =~= usage_of(src.model(), usage@));
    out
}

/// What a group is.
#[verifier::ext_equal]
pub struct OcGroupV {
    pub reference: ObjRef,
    pub name: Option<Seq<char>>,
    pub intent: Seq<Seq<char>>,
    pub usage: OcUsageV,
    pub visible: bool,
}

impl View for OcGroup {
    type V = OcGroupV;

    open spec fn view(&self) -> OcGroupV {
        OcGroupV {
            reference: self.reference,
            name: tree::string_opt(self.name),
            intent: tree::strings_view(self.intent@),
            usage: self.usage@,
            visible: self.visible,
        }
    }
}

/// What groups in a row are.
pub open spec fn groups_view(groups: Seq<OcGroup>) -> Seq<OcGroupV> {
    Seq::new(groups.len(), |i: int| groups[i]@)
}

/// The group whose dictionary is `d`.
pub open spec fn group_of(
    src: SourceV,
    off: Set<ObjRef>,
    r: ObjRef,
    d: Map<Seq<char>, ObjectV>,
) -> OcGroupV {
    OcGroupV {
        reference: r,
        name: tree::entry_text(src, d, "Name"@),
        intent: intents_of(src, d),
        usage: match tree::entry_dict(src, d, "Usage"@) {
            Some(usage) => usage_of(src, usage),
            None => no_usage(),
        },
        visible: !off.contains(r),
    }
}

/// The groups among references, in order.
pub open spec fn groups_in(src: SourceV, off: Set<ObjRef>, refs: Seq<ObjRef>) -> Seq<OcGroupV>
    decreases refs.len(),
{
    if refs.len() == 0 {
        Seq::empty()
    } else {
        let before = groups_in(src, off, refs.drop_last());
        match tree::dict_at(src, ObjectV::Ref(refs.last())) {
            Some(d) => before.push(group_of(src, off, refs.last(), d)),
            None => before,
        }
    }
}

/// The document's optional content groups in `/OCProperties /OCGs` order,
/// each with its state under `event` (see [`OcState::load_for_with`]);
/// empty without `/OCProperties`. Entries that are not references to
/// dictionaries are skipped.
pub fn optional_content_groups_with<S: ObjectSource>(
    src: &S,
    trailer: &Dict,
    event: Option<OcEvent>,
) -> (out: Vec<OcGroup>)
    ensures
        groups_view(out@) == (match tree::catalog_dict(
            src.model(),
            trailer@,
            "OCProperties"@,
        ) {
            Some(props) => groups_in(
                src.model(),
                off_under(src.model(), props, event),
                groups_at(src.model(), object::lookup(props, "OCGs"@)),
            ),
            None => Seq::empty(),
        }),
{
    let mut groups: Vec<OcGroup> = Vec::new();
    assert(groups_view(groups@) =~= Seq::<OcGroupV>::empty());
    let props = match dict_in_catalog(src, trailer, "OCProperties") {
        Some(props) => props,
        None => {
            return groups;
        },
    };
    let state = OcState::from_properties(src, &props, event);
    let references = group_refs(src, props.get("OCGs"));
    let mut i: usize = 0;
    assert(references@.take(0) =~= Seq::<ObjRef>::empty());
    while i < references.len()
        invariant
            i <= references@.len(),
            groups_view(groups@) == groups_in(src.model(), state@, references@.take(i as int)),
        decreases references@.len() - i,
    {
        let reference = references[i];
        proof {
            assert(references@.take(i + 1).drop_last() =~= references@.take(i as int));
            assert(references@.take(i + 1).last() == reference);
        }
        if let Some(dict) = resolved_dict(src, &Object::Ref(reference)) {
            let entries = Entries { src, dict: &dict };
            let usage = match entries.sub_dict("Usage") {
                Some(usage) => read_usage(src, &usage),
                None => OcUsage::default(),
            };
            let ghost before = groups@;
            let group = OcGroup {
                reference,
                name: entries.text("Name"),
                intent: intent_names(src, &dict),
                usage,
                visible: !state.hidden(reference),
            };
            assert(group@ =~= group_of(src.model(), state@, reference, dict@));
            groups.push(group);
            assert(groups_view(groups@) =~= groups_view(before).push(group@));
        }
        i += 1;
    }
    assert(references@.take(i as int) =~= references@);
    groups
}

/// A group that the configuration names in both `/ON` and `/OFF` is off under
/// the configuration.
pub proof fn off_wins_over_on(
    src: SourceV,
    props: Map<Seq<char>, ObjectV>,
    config: Map<Seq<char>, ObjectV>,
    group: ObjRef,
)
    requires
        groups_at(src, object::lookup(config, "OFF"@)).contains(group),
    ensures
        configured_off_set(src, props, Some(config)).contains(group),
{
    assert(groups_at(src, object::lookup(config, "OFF"@)).to_set().contains(group));
}

/// A group whose intents share no name with those of the configuration is
/// never off, unless the configuration's intents name `All`.
pub proof fn another_intent_never_hides(
    src: SourceV,
    props: Map<Seq<char>, ObjectV>,
    event: Option<OcEvent>,
    group: ObjRef,
)
    requires
        !config_intents(src, tree::entry_dict(src, props, "D"@)).contains("All"@),
        !share(
            group_intents(src, group),
            config_intents(src, tree::entry_dict(src, props, "D"@)),
        ),
    ensures
        !off_under(src, props, event).contains(group),
{
}

/// A configuration with an empty intent array hides nothing.
pub proof fn no_intent_hides_nothing(
    src: SourceV,
    props: Map<Seq<char>, ObjectV>,
    event: Option<OcEvent>,
)
    requires
        config_intents(src, tree::entry_dict(src, props, "D"@)).len() == 0,
    ensures
        off_under(src, props, event) == Set::<ObjRef>::empty(),
{
    assert(off_under(src, props, event) =~= Set::<ObjRef>::empty());
}

/// Without a default configuration nothing is hidden.
pub proof fn no_configuration_hides_nothing(
    src: SourceV,
    props: Map<Seq<char>, ObjectV>,
    event: Option<OcEvent>,
)
    requires
        tree::entry_dict(src, props, "D"@) is None,
    ensures
        off_under(src, props, event) == Set::<ObjRef>::empty(),
{
    assert(off_under(src, props, event) =~= Set::<ObjRef>::empty());
}

/// Content gated by a reference to a group is visible exactly when the group
/// is not off.
pub proof fn groups_show_unless_off(
    src: SourceV,
    off: Set<ObjRef>,
    r: ObjRef,
    d: Map<Seq<char>, ObjectV>,
)
    requires
        source::resolved(src, ObjectV::Ref(r)) == Ok::<ObjectV, source::FaultV>(ObjectV::Dict(d)),
        !is_membership(d),
    ensures
        shown(src, off, ObjectV::Ref(r)) == !off.contains(r),
{
}

/// What does not resolve to a dictionary gates nothing.
pub proof fn malformed_values_show(src: SourceV, off: Set<ObjRef>, value: ObjectV)
    requires
        value matches ObjectV::Ref(_) ==> (source::resolved(src, value) matches Ok(o) ==> o.dict()
            is None),
        !(value is Dict),
    ensures
        shown(src, off, value),
{
}

/// Law: what the policies of a membership dictionary without a visibility
/// expression mean. Its content is visible, of the groups it names at least one
/// of, under AllOn when none is off, under AllOff when all are, under AnyOff
/// when some is, and under AnyOn, another policy or none when some is not.
pub proof fn policies_mean_what_they_say(
    src: SourceV,
    off: Set<ObjRef>,
    d: Map<Seq<char>, ObjectV>,
    groups: Seq<ObjRef>,
    policy: Seq<char>,
)
    requires
        !d.contains_key("VE"@),
        d.contains_key("OCGs"@),
        d["OCGs"@] == ObjectV::Array(tree::as_references(groups)),
        d.contains_key("P"@),
        d["P"@] == ObjectV::Name(policy),
        !d.contains_key("Type"@) || d["Type"@] == ObjectV::Name("OCMD"@),
        groups.len() > 0,
    ensures
        ({
            let visible = shown(src, off, ObjectV::Dict(d));
            let bare = shown(src, off, ObjectV::Dict(d.remove("P"@)));
            let some_off = exists|r: ObjRef| groups.contains(r) && #[trigger] off.contains(r);
            let some_on = exists|r: ObjRef| #[trigger] groups.contains(r) && !off.contains(r);
            &&& policy == "AllOn"@ ==> visible == !some_off
            &&& policy == "AllOff"@ ==> visible == !some_on
            &&& policy == "AnyOff"@ ==> visible == some_off
            &&& policy != "AllOn"@ && policy != "AllOff"@ && policy != "AnyOff"@ ==> visible
                == some_on
            &&& bare == some_on
        }),
{
    let bare = d.remove("P"@);
    lemma_key_names();
    lemma_policy_names();
    let some_off = exists|r: ObjRef| groups.contains(r) && #[trigger] off.contains(r);
    let some_on = exists|r: ObjRef| #[trigger] groups.contains(r) && !off.contains(r);
    assert(some_off == any_off(off, groups) && some_on == any_on(off, groups)) by {
        if some_off {
            let r = choose|r: ObjRef| groups.contains(r) && #[trigger] off.contains(r);
            let i = choose|i: int| 0 <= i < groups.len() && groups[i] == r;
            assert(off.contains(groups[i]));
        }
        if some_on {
            let r = choose|r: ObjRef| #[trigger] groups.contains(r) && !off.contains(r);
            let i = choose|i: int| 0 <= i < groups.len() && groups[i] == r;
            assert(!off.contains(groups[i]));
        }
        if any_off(off, groups) {
            let i = choose|i: int| 0 <= i < groups.len() && off.contains(#[trigger] groups[i]);
            assert(groups.contains(groups[i]) && off.contains(groups[i]));
        }
        if any_on(off, groups) {
            let i = choose|i: int| 0 <= i < groups.len() && !off.contains(#[trigger] groups[i]);
            assert(groups.contains(groups[i]) && !off.contains(groups[i]));
        }
    }
    tree::references_read_back(groups);
    assert(membership_groups(src, d) == groups);
    assert(membership_groups(src, bare) == groups);
    assert(source::resolved(src, ObjectV::Name(policy)) == Ok::<ObjectV, source::FaultV>(
        ObjectV::Name(policy),
    ));
    assert(tree::entry_name(src, d, "P"@) == Some(policy));
    assert(tree::entry_name(src, bare, "P"@) is None);
    assert(is_membership(d) && is_membership(bare));
}

/// Law: while no group is off, AllOn and AnyOn show and AllOff and AnyOff hide;
/// while every group is, it is the other way round.
pub proof fn policies_at_the_extremes(
    src: SourceV,
    off: Set<ObjRef>,
    d: Map<Seq<char>, ObjectV>,
    groups: Seq<ObjRef>,
    policy: Seq<char>,
)
    requires
        !d.contains_key("VE"@),
        d.contains_key("OCGs"@),
        d["OCGs"@] == ObjectV::Array(tree::as_references(groups)),
        d.contains_key("P"@),
        d["P"@] == ObjectV::Name(policy),
        !d.contains_key("Type"@) || d["Type"@] == ObjectV::Name("OCMD"@),
        groups.len() > 0,
        policy == "AllOn"@ || policy == "AnyOn"@ || policy == "AllOff"@ || policy == "AnyOff"@,
    ensures
        off == Set::<ObjRef>::empty() ==> shown(src, off, ObjectV::Dict(d)) == (policy == "AllOn"@
            || policy == "AnyOn"@),
        (forall|r: ObjRef| groups.contains(r) ==> off.contains(r)) ==> shown(
            src,
            off,
            ObjectV::Dict(d),
        ) == (policy == "AllOff"@ || policy == "AnyOff"@),
{
    policies_mean_what_they_say(src, off, d, groups, policy);
    lemma_policy_names();
    assert(groups.contains(groups[0]));
}

/// Law: a membership dictionary reached through a reference shows what it shows
/// in place, and one that names a single group by reference asks for that
/// group; without groups it shows.
pub proof fn membership_dictionaries_are_followed(
    src: SourceV,
    off: Set<ObjRef>,
    r: ObjRef,
    d: Map<Seq<char>, ObjectV>,
    group: ObjRef,
    g: Map<Seq<char>, ObjectV>,
)
    requires
        source::resolved(src, ObjectV::Ref(r)) == Ok::<ObjectV, source::FaultV>(ObjectV::Dict(d)),
        source::resolved(src, ObjectV::Ref(group)) == Ok::<ObjectV, source::FaultV>(
            ObjectV::Dict(g),
        ),
        !d.contains_key("Type"@) || d["Type"@] == ObjectV::Name("OCMD"@),
        d.contains_key("OCGs"@) || d.contains_key("VE"@),
    ensures
        shown(src, off, ObjectV::Ref(r)) == shown(src, off, ObjectV::Dict(d)),
        !d.contains_key("VE"@) && d["OCGs"@] == ObjectV::Ref(group) && !d.contains_key("P"@)
            ==> shown(src, off, ObjectV::Ref(r)) == !off.contains(group),
        !d.contains_key("VE"@) && d["OCGs"@] == ObjectV::Array(Seq::empty()) ==> shown(
            src,
            off,
            ObjectV::Ref(r),
        ),
{
    lemma_key_names();
    if d["OCGs"@] == ObjectV::Ref(group) {
        assert(seq![group][0] == group);
    }
}

proof fn lemma_key_names()
    ensures
        "VE"@ != "P"@,
        "OCGs"@ != "P"@,
        "Type"@ != "P"@,
        "VE"@ != "OCGs"@,
        "Type"@ != "OCGs"@,
        "Type"@ != "VE"@,
{
    reveal_strlit("VE");
    reveal_strlit("P");
    reveal_strlit("OCGs");
    reveal_strlit("Type");
    assert("VE"@.len() == 2 && "P"@.len() == 1 && "OCGs"@.len() == 4 && "Type"@.len() == 4);
    assert("OCGs"@[0] != "Type"@[0]);
}

proof fn lemma_policy_names()
    ensures
        "AllOn"@ != "AnyOn"@,
        "AllOn"@ != "AllOff"@,
        "AllOn"@ != "AnyOff"@,
        "AnyOn"@ != "AllOff"@,
        "AnyOn"@ != "AnyOff"@,
        "AllOff"@ != "AnyOff"@,
{
    reveal_strlit("AllOn");
    reveal_strlit("AnyOn");
    reveal_strlit("AllOff");
    reveal_strlit("AnyOff");
    assert("AllOn"@[1] != "AnyOn"@[1]);
    assert("AllOff"@[1] != "AnyOff"@[1]);
    assert("AllOn"@.len() == 5 && "AnyOn"@.len() == 5);
    assert("AllOff"@.len() == 6 && "AnyOff"@.len() == 6);
}

/// Law: what the operators of a visibility expression mean. An expression whose
/// operands all have a value is true with And when all of them are, with Or when
/// some is, and with Not, which takes one operand, when that one is not. With
/// another operator, or an operand without a value, it has none.
pub proof fn expressions_mean_what_they_say(
    src: SourceV,
    off: Set<ObjRef>,
    name: Seq<char>,
    operands: Seq<ObjectV>,
    levels: nat,
)
    ensures
        ({
            let value = expression_value(
                src,
                off,
                seq![ObjectV::Name(name)] + operands,
                levels,
            );
            let all_have = forall|i: int|
                0 <= i < operands.len() ==> operand_value(
                    src,
                    off,
                    #[trigger] operands[i],
                    levels,
                ) is Some;
            let all_true = forall|i: int|
                0 <= i < operands.len() ==> operand_value(
                    src,
                    off,
                    #[trigger] operands[i],
                    levels,
                ) == Some(true);
            let some_true = exists|i: int|
                0 <= i < operands.len() && operand_value(
                    src,
                    off,
                    #[trigger] operands[i],
                    levels,
                ) == Some(true);
            let sound = operands.len() > 0 && all_have;
            &&& name == "And"@ && sound ==> value == Some(all_true)
            &&& name == "Or"@ && sound ==> value == Some(some_true)
            &&& name == "Not"@ && sound && operands.len() == 1 ==> value == Some(!some_true)
            &&& name == "Not"@ && operands.len() != 1 ==> value is None
            &&& name != "And"@ && name != "Or"@ && name != "Not"@ ==> value is None
            &&& !sound ==> value is None
        }),
{
    let expr = seq![ObjectV::Name(name)] + operands;
    assert(expr.skip(1) =~= operands);
    assert(expr[0] == ObjectV::Name(name));
    assert(source::resolved(src, ObjectV::Name(name)) == Ok::<ObjectV, source::FaultV>(
        ObjectV::Name(name),
    ));
    lemma_operand_values(src, off, operands, levels);
    lemma_operator_names();
    if let Some(values) = operand_values(src, off, operands, levels) {
        assert(forall|i: int|
            0 <= i < operands.len() ==> operand_value(src, off, #[trigger] operands[i], levels)
                == Some(values[i]));
        if values.contains(true) {
            let i = choose|i: int| 0 <= i < values.len() && values[i] == true;
            assert(operand_value(src, off, operands[i], levels) == Some(true));
        }
        if values.contains(false) {
            let i = choose|i: int| 0 <= i < values.len() && values[i] == false;
            assert(operand_value(src, off, operands[i], levels) == Some(false));
        }
        if exists|i: int|
            0 <= i < operands.len() && operand_value(src, off, #[trigger] operands[i], levels)
                == Some(true) {
            let i = choose|i: int|
                0 <= i < operands.len() && operand_value(src, off, #[trigger] operands[i], levels)
                    == Some(true);
            assert(values[i] == true);
        }
        if !(forall|i: int|
            0 <= i < operands.len() ==> operand_value(src, off, #[trigger] operands[i], levels)
                == Some(true)) {
            let i = choose|i: int|
                0 <= i < operands.len() && operand_value(src, off, #[trigger] operands[i], levels)
                    != Some(true);
            assert(values[i] == false);
        }
    }
}

/// The values of operands are those of each, if all have one.
proof fn lemma_operand_values(
    src: SourceV,
    off: Set<ObjRef>,
    operands: Seq<ObjectV>,
    levels: nat,
)
    ensures
        match operand_values(src, off, operands, levels) {
            Some(values) => {
                &&& values.len() == operands.len()
                &&& forall|i: int|
                    0 <= i < operands.len() ==> operand_value(
                        src,
                        off,
                        #[trigger] operands[i],
                        levels,
                    ) == Some(values[i])
            },
            None => exists|i: int|
                0 <= i < operands.len() && operand_value(
                    src,
                    off,
                    #[trigger] operands[i],
                    levels,
                ) is None,
        },
    decreases operands.len(),
{
    if operands.len() > 0 {
        let head = operands.drop_last();
        lemma_operand_values(src, off, head, levels);
        match operand_values(src, off, head, levels) {
            Some(before) => {
                assert forall|i: int| 0 <= i < head.len() implies operand_value(
                    src,
                    off,
                    #[trigger] operands[i],
                    levels,
                ) == Some(before[i]) by {
                    assert(head[i] == operands[i]);
                }
                assert(operands[operands.len() - 1] == operands.last());
            },
            None => {
                let i = choose|i: int|
                    0 <= i < head.len() && operand_value(src, off, #[trigger] head[i], levels) is None;
                assert(operands[i] == head[i]);
            },
        }
    }
}

proof fn lemma_operator_names()
    ensures
        "And"@ != "Or"@,
        "And"@ != "Not"@,
        "Or"@ != "Not"@,
{
    reveal_strlit("And");
    reveal_strlit("Or");
    reveal_strlit("Not");
    assert("And"@[0] != "Not"@[0]);
    assert("Or"@.len() == 2 && "Not"@.len() == 3 && "And"@.len() == 3);
}

/// Law: what an operand of a visibility expression is worth: a reference to a
/// group whether the group is on, an expression, in place or referred to, its
/// value as long as it may nest so deep, and anything else nothing.
pub proof fn operands_are_groups_or_expressions(
    src: SourceV,
    off: Set<ObjRef>,
    r: ObjRef,
    items: Seq<ObjectV>,
    g: Map<Seq<char>, ObjectV>,
    levels: nat,
)
    ensures
        source::resolved(src, ObjectV::Ref(r)) == Ok::<ObjectV, source::FaultV>(ObjectV::Dict(g))
            ==> operand_value(src, off, ObjectV::Ref(r), levels) == Some(!off.contains(r)),
        operand_value(src, off, ObjectV::Array(items), levels + 1) == expression_value(
            src,
            off,
            items,
            levels,
        ),
        operand_value(src, off, ObjectV::Array(items), 0) is None,
        source::resolved(src, ObjectV::Ref(r)) == Ok::<ObjectV, source::FaultV>(
            ObjectV::Array(items),
        ) ==> operand_value(src, off, ObjectV::Ref(r), levels) == operand_value(
            src,
            off,
            ObjectV::Array(items),
            levels,
        ),
        operand_value(src, off, ObjectV::Null, levels) is None,
        operand_value(src, off, ObjectV::Dict(g), levels) is None,
{
}

/// Law: a visibility expression decides alone, whatever the policy and the
/// groups say: the content is hidden exactly when the expression is false, and
/// an expression without a value hides nothing.
pub proof fn expressions_decide_alone(
    src: SourceV,
    off: Set<ObjRef>,
    d: Map<Seq<char>, ObjectV>,
    expr: Seq<ObjectV>,
)
    requires
        d.contains_key("VE"@),
        d["VE"@] == ObjectV::Array(expr),
        !d.contains_key("Type"@) || d["Type"@] == ObjectV::Name("OCMD"@),
    ensures
        !shown(src, off, ObjectV::Dict(d)) <==> expression_value(src, off, expr, 8) == Some(false),
{
}

/// Law: what a configuration turns off: the groups of `/OFF`, and under the base
/// state OFF every group of the document that `/ON` does not name.
pub proof fn configurations_turn_groups_off(
    src: SourceV,
    props: Map<Seq<char>, ObjectV>,
    config: Map<Seq<char>, ObjectV>,
    all: Seq<ObjRef>,
    on: Seq<ObjRef>,
    off: Seq<ObjRef>,
    group: ObjRef,
)
    requires
        props.contains_key("OCGs"@),
        props["OCGs"@] == ObjectV::Array(tree::as_references(all)),
        config.contains_key("ON"@),
        config["ON"@] == ObjectV::Array(tree::as_references(on)),
        config.contains_key("OFF"@),
        config["OFF"@] == ObjectV::Array(tree::as_references(off)),
    ensures
        ({
            let base_off = config.contains_key("BaseState"@) && config["BaseState"@]
                == ObjectV::Name("OFF"@);
            let is_off = configured_off_set(src, props, Some(config)).contains(group);
            &&& base_off ==> is_off == (off.contains(group) || (all.contains(group) && !on.contains(
                group,
            )))
            &&& !config.contains_key("BaseState"@) || config["BaseState"@] == ObjectV::Name("ON"@)
                || config["BaseState"@] == ObjectV::Name("Unchanged"@) ==> is_off == off.contains(
                group,
            )
        }),
{
    tree::references_read_back(all);
    tree::references_read_back(on);
    tree::references_read_back(off);
    reveal_strlit("ON");
    reveal_strlit("OFF");
    reveal_strlit("Unchanged");
    assert("ON"@.len() == 2 && "OFF"@.len() == 3 && "Unchanged"@.len() == 9);
    assert(groups_at(src, object::lookup(props, "OCGs"@)) == all);
    assert(groups_at(src, object::lookup(config, "ON"@)) == on);
    assert(groups_at(src, object::lookup(config, "OFF"@)) == off);
}

/// Law: usage entries touch no group but the one they belong to, and of the
/// categories asked for the last one with a state decides: ON takes the group
/// out of the off set, OFF puts it in.
pub proof fn the_last_usage_state_decides(
    src: SourceV,
    usage: Map<Seq<char>, ObjectV>,
    group: ObjRef,
    before: Seq<OcEvent>,
    category: OcEvent,
    behind: Seq<OcEvent>,
    off: Set<ObjRef>,
    other: ObjRef,
)
    requires
        usage_state_of(src, usage, category) is Some,
        forall|i: int|
            0 <= i < behind.len() ==> usage_state_of(src, usage, #[trigger] behind[i]) is None,
    ensures
        ({
            let out = states_applied(src, usage, group, before + seq![category] + behind, off);
            &&& out.contains(group) == (usage_state_of(src, usage, category) == Some(false))
            &&& other != group ==> out.contains(other) == off.contains(other)
        }),
        states_applied(src, usage, group, behind, off) == off,
    decreases before.len() + behind.len(),
{
    let all = before + seq![category] + behind;
    if behind.len() > 0 {
        let head = behind.drop_last();
        assert(usage_state_of(src, usage, behind[behind.len() - 1]) is None);
        assert(forall|i: int| 0 <= i < head.len() ==> #[trigger] head[i] == behind[i]);
        the_last_usage_state_decides(src, usage, group, before, category, head, off, other);
        assert(all.drop_last() =~= before + seq![category] + head);
        assert(all.last() == behind.last());
    } else {
        assert(all.drop_last() =~= before);
        assert(all.last() == category);
        lemma_states_touch_one(src, usage, group, before, off, other);
    }
}

proof fn lemma_states_touch_one(
    src: SourceV,
    usage: Map<Seq<char>, ObjectV>,
    group: ObjRef,
    categories: Seq<OcEvent>,
    off: Set<ObjRef>,
    other: ObjRef,
)
    ensures
        other != group ==> states_applied(src, usage, group, categories, off).contains(other)
            == off.contains(other),
    decreases categories.len(),
{
    if categories.len() > 0 {
        lemma_states_touch_one(src, usage, group, categories.drop_last(), off, other);
    }
}

/// Law: the state of a group for an event stands in the entry of the usage
/// dictionary that has the event's name, under that name followed by `State`.
pub proof fn usage_states_stand_under_their_event(
    src: SourceV,
    usage: Map<Seq<char>, ObjectV>,
    d: Map<Seq<char>, ObjectV>,
    key: Seq<char>,
    state: Seq<char>,
    event: OcEvent,
)
    requires
        (event == OcEvent::View && key == "View"@) || (event == OcEvent::Print && key == "Print"@)
            || (event == OcEvent::Export && key == "Export"@),
        usage.contains_key(key),
        usage[key] == ObjectV::Dict(d),
        d.contains_key(key + "State"@),
        d[key + "State"@] == ObjectV::Name(state),
    ensures
        state == "ON"@ ==> usage_state_of(src, usage, event) == Some(true),
        state == "OFF"@ ==> usage_state_of(src, usage, event) == Some(false),
        event_of(key) == Some(event),
{
    reveal_strlit("View");
    reveal_strlit("Print");
    reveal_strlit("Export");
    reveal_strlit("State");
    reveal_strlit("ViewState");
    reveal_strlit("PrintState");
    reveal_strlit("ExportState");
    assert("View"@ + "State"@ =~= "ViewState"@);
    assert("Print"@ + "State"@ =~= "PrintState"@);
    assert("Export"@ + "State"@ =~= "ExportState"@);
    reveal_strlit("ON");
    reveal_strlit("OFF");
    assert("ON"@.len() == 2 && "OFF"@.len() == 3);
    event_names_are_faithful(event);
    assert(source::resolved(src, ObjectV::Name(state)) == Ok::<ObjectV, source::FaultV>(
        ObjectV::Name(state),
    ));
}

/// Law: usage application dictionaries change nothing under another event, and
/// no group they do not name.
pub proof fn usage_applies_under_its_event_only(
    src: SourceV,
    app: Map<Seq<char>, ObjectV>,
    event: OcEvent,
    off: Set<ObjRef>,
    name: Seq<char>,
    groups: Seq<ObjRef>,
    other: ObjRef,
)
    requires
        app.contains_key("Event"@),
        app["Event"@] == ObjectV::Name(name),
        app.contains_key("OCGs"@),
        app["OCGs"@] == ObjectV::Array(tree::as_references(groups)),
    ensures
        event_of(name) != Some(event) ==> application_applied(src, app, event, off) == off,
        !groups.contains(other) ==> application_applied(src, app, event, off).contains(other)
            == off.contains(other),
{
    tree::references_read_back(groups);
    assert(groups_at(src, object::lookup(app, "OCGs"@)) == groups);
    let categories = match names_at(src, object::lookup(app, "Category"@)) {
        Some(names) => categories_in(names),
        None => Seq::empty(),
    };
    lemma_groups_touch_their_own(src, groups, categories, off, other);
    assert(tree::entry_name(src, app, "Event"@) == Some(name));
}

proof fn lemma_groups_touch_their_own(
    src: SourceV,
    groups: Seq<ObjRef>,
    categories: Seq<OcEvent>,
    off: Set<ObjRef>,
    other: ObjRef,
)
    ensures
        !groups.contains(other) ==> groups_applied(src, groups, categories, off).contains(other)
            == off.contains(other),
    decreases groups.len(),
{
    if groups.len() > 0 {
        let head = groups.drop_last();
        lemma_groups_touch_their_own(src, head, categories, off, other);
        if head.contains(other) {
            let i = choose|i: int| 0 <= i < head.len() && head[i] == other;
            assert(groups[i] == other);
        }
        assert(groups[groups.len() - 1] == groups.last());
        if let Some(usage) = group_usage(src, groups.last()) {
            lemma_states_touch_one(
                src,
                usage,
                groups.last(),
                categories,
                groups_applied(src, head, categories, off),
                other,
            );
        }
    }
}

/// Law: a group that a configuration turns off stays off when the two share an
/// intent, or when the configuration asks for all intents; the intents that are
/// not named are View.
pub proof fn shared_intents_hide(
    src: SourceV,
    config: Map<Seq<char>, ObjectV>,
    off: Set<ObjRef>,
    group: ObjRef,
    g: Map<Seq<char>, ObjectV>,
    intent: Seq<char>,
)
    requires
        off.contains(group),
        source::resolved(src, ObjectV::Ref(group)) == Ok::<ObjectV, source::FaultV>(
            ObjectV::Dict(g),
        ),
        (config.contains_key("Intent"@) && config["Intent"@] == ObjectV::Name(intent)) || (
        !config.contains_key("Intent"@) && intent == "View"@),
        intent == "All"@ || (g.contains_key("Intent"@) && g["Intent"@] == ObjectV::Name(intent))
            || (!g.contains_key("Intent"@) && intent == "View"@),
    ensures
        intents_kept(src, Some(config), off).contains(group),
{
    assert(source::resolved(src, ObjectV::Name(intent)) == Ok::<ObjectV, source::FaultV>(
        ObjectV::Name(intent),
    ));
    assert(tree::dict_at(src, ObjectV::Ref(group)) == Some(g));
    let wanted = config_intents(src, Some(config));
    assert(wanted =~= seq![intent]);
    assert(wanted[0] == intent);
    assert(wanted.contains(intent));
    if intent != "All"@ {
        let named = group_intents(src, group);
        assert(named =~= seq![intent]);
        assert(named[0] == intent);
        assert(named.contains(intent) && wanted.contains(intent));
    }
}

/// Law: where a usage dictionary keeps what it says.
pub proof fn usage_stands_under_its_keys(
    src: SourceV,
    d: Map<Seq<char>, ObjectV>,
    zoom: Map<Seq<char>, ObjectV>,
    language: Map<Seq<char>, ObjectV>,
    creator: Map<Seq<char>, ObjectV>,
    user: Map<Seq<char>, ObjectV>,
    element: Map<Seq<char>, ObjectV>,
    print: Map<Seq<char>, ObjectV>,
)
    requires
        d.contains_key("Zoom"@) && d["Zoom"@] == ObjectV::Dict(zoom),
        d.contains_key("Language"@) && d["Language"@] == ObjectV::Dict(language),
        d.contains_key("CreatorInfo"@) && d["CreatorInfo"@] == ObjectV::Dict(creator),
        d.contains_key("User"@) && d["User"@] == ObjectV::Dict(user),
        d.contains_key("PageElement"@) && d["PageElement"@] == ObjectV::Dict(element),
        d.contains_key("Print"@) && d["Print"@] == ObjectV::Dict(print),
    ensures
        usage_of(src, d).zoom_min == tree::entry_number(src, zoom, "min"@),
        usage_of(src, d).zoom_max == tree::entry_number(src, zoom, "max"@),
        usage_of(src, d).language == tree::entry_text(src, language, "Lang"@),
        usage_of(src, d).language_preferred == (tree::entry_name(src, language, "Preferred"@)
            == Some("ON"@)),
        usage_of(src, d).creator == tree::entry_text(src, creator, "Creator"@),
        usage_of(src, d).creator_subtype == tree::entry_name(src, creator, "Subtype"@),
        usage_of(src, d).user_type == tree::entry_name(src, user, "Type"@),
        usage_of(src, d).page_element == tree::entry_name(src, element, "Subtype"@),
        usage_of(src, d).print_subtype == tree::entry_name(src, print, "Subtype"@),
{
    reveal_strlit("ON");
    reveal_strlit("OFF");
    assert("ON"@.len() == 2 && "OFF"@.len() == 3);
}

/// Law: the groups of a document come in the order of their references, each
/// with its name and shown exactly when it is not off; references that lead to
/// no dictionary are left out.
pub proof fn groups_come_in_order(
    src: SourceV,
    off: Set<ObjRef>,
    refs: Seq<ObjRef>,
    r: ObjRef,
    d: Map<Seq<char>, ObjectV>,
    name: Seq<u8>,
)
    ensures
        source::resolved(src, ObjectV::Ref(r)) == Ok::<ObjectV, source::FaultV>(ObjectV::Dict(d))
            && d.contains_key("Name"@) && d["Name"@] == ObjectV::String(name) ==> ({
            let all = groups_in(src, off, refs.push(r));
            let before = groups_in(src, off, refs);
            &&& all.len() == before.len() + 1
            &&& all.drop_last() == before
            &&& all.last().reference == r
            &&& all.last().visible == !off.contains(r)
            &&& all.last().name == Some(object::text_chars(name))
        }),
        source::resolved(src, ObjectV::Ref(r)) == Ok::<ObjectV, source::FaultV>(ObjectV::Null)
            ==> groups_in(src, off, refs.push(r)) == groups_in(src, off, refs),
{
    assert(refs.push(r).drop_last() =~= refs);
    assert(source::resolved(src, ObjectV::String(name)) == Ok::<ObjectV, source::FaultV>(
        ObjectV::String(name),
    ));
    if source::resolved(src, ObjectV::Ref(r)) == Ok::<ObjectV, source::FaultV>(ObjectV::Dict(d)) {
        assert(groups_in(src, off, refs.push(r)).drop_last() =~= groups_in(src, off, refs));
    }
}

/// Law: a named property is looked for in the innermost resources first.
pub proof fn properties_are_found_innermost(
    src: SourceV,
    inner: Map<Seq<char>, ObjectV>,
    outer: Seq<Map<Seq<char>, ObjectV>>,
    properties: Map<Seq<char>, ObjectV>,
    name: Seq<char>,
)
    requires
        inner.contains_key("Properties"@),
        inner["Properties"@] == ObjectV::Dict(properties),
    ensures
        properties.contains_key(name) ==> property_in(src, seq![inner] + outer, name) == Some(
            properties[name],
        ),
        !properties.contains_key(name) ==> property_in(src, seq![inner] + outer, name)
            == property_in(src, outer, name),
        property_in(src, Seq::empty(), name) is None,
{
    let chain = seq![inner] + outer;
    assert(chain[0] == inner);
    assert(chain.skip(1) =~= outer);
    assert(source::resolved(src, inner["Properties"@]) == Ok::<ObjectV, source::FaultV>(
        ObjectV::Dict(properties),
    ));
}

/// Law: names are found one by one, in order; what is no name counts for
/// nothing.
pub proof fn names_are_found_in_order(items: Seq<ObjectV>, name: Seq<char>, odd: ObjectV)
    requires
        !(odd is Name),
    ensures
        names_in(items.push(ObjectV::Name(name))) == names_in(items).push(name),
        names_in(items.push(odd)) == names_in(items),
        names_in(Seq::empty()).len() == 0,
{
    assert(items.push(ObjectV::Name(name)).drop_last() =~= items);
    assert(items.push(odd).drop_last() =~= items);
}

/// Law: usage applications take effect one after the other, the later ones on
/// what the earlier ones left; those that are no dictionaries have none.
pub proof fn applications_take_effect_in_order(
    src: SourceV,
    apps: Seq<ObjectV>,
    app: Map<Seq<char>, ObjectV>,
    event: OcEvent,
    off: Set<ObjRef>,
)
    ensures
        applications_applied(src, apps.push(ObjectV::Dict(app)), event, off)
            == application_applied(src, app, event, applications_applied(src, apps, event, off)),
        applications_applied(src, apps.push(ObjectV::Null), event, off) == applications_applied(
            src,
            apps,
            event,
            off,
        ),
        applications_applied(src, Seq::empty(), event, off) == off,
{
    assert(apps.push(ObjectV::Dict(app)).drop_last() =~= apps);
    assert(apps.push(ObjectV::Null).drop_last() =~= apps);
}

/// Law: an application applies the states of its categories to each of its
/// groups: with one group and one category, that group's state for it.
pub proof fn applications_apply_the_states_of_their_categories(
    src: SourceV,
    app: Map<Seq<char>, ObjectV>,
    event: OcEvent,
    off: Set<ObjRef>,
    group: ObjRef,
    g: Map<Seq<char>, ObjectV>,
    usage: Map<Seq<char>, ObjectV>,
    category: OcEvent,
)
    requires
        app.contains_key("Event"@),
        app["Event"@] == ObjectV::Name(event_name(event)),
        app.contains_key("Category"@),
        app["Category"@] == ObjectV::Array(seq![ObjectV::Name(event_name(category))]),
        app.contains_key("OCGs"@),
        app["OCGs"@] == ObjectV::Array(tree::as_references(seq![group])),
        source::resolved(src, ObjectV::Ref(group)) == Ok::<ObjectV, source::FaultV>(
            ObjectV::Dict(g),
        ),
        g.contains_key("Usage"@),
        g["Usage"@] == ObjectV::Dict(usage),
    ensures
        application_applied(src, app, event, off) == (match usage_state_of(src, usage, category) {
            Some(true) => off.remove(group),
            Some(false) => off.insert(group),
            None => off,
        }),
{
    event_names_are_faithful(event);
    event_names_are_faithful(category);
    tree::references_read_back(seq![group]);
    let refs = seq![group];
    assert(groups_at(src, object::lookup(app, "OCGs"@)) == refs);
    let items = seq![ObjectV::Name(event_name(category))];
    assert(items =~= Seq::<ObjectV>::empty().push(ObjectV::Name(event_name(category))));
    names_are_found_in_order(Seq::empty(), event_name(category), ObjectV::Null);
    let names = seq![event_name(category)];
    assert(names_in(items) =~= names);
    assert(names_at(src, object::lookup(app, "Category"@)) == Some(names));
    assert(names.drop_last() =~= Seq::<Seq<char>>::empty());
    let categories = seq![category];
    assert(categories_in(names) =~= categories) by {
        assert(categories_in(Seq::<Seq<char>>::empty()) =~= Seq::<OcEvent>::empty());
    }
    assert(categories.drop_last() =~= Seq::<OcEvent>::empty());
    assert(refs.drop_last() =~= Seq::<ObjRef>::empty());
    assert(group_usage(src, group) == Some(usage));
    reveal_with_fuel(states_applied, 2);
    reveal_with_fuel(groups_applied, 2);
    assert(tree::entry_name(src, app, "Event"@) == Some(event_name(event)));
}

/// Law: the groups that are off are told by the optional content properties of the
/// catalog and their default configuration; a document without them hides nothing.
pub proof fn properties_stand_in_the_catalog(
    src: SourceV,
    trailer: Map<Seq<char>, ObjectV>,
    catalog: Map<Seq<char>, ObjectV>,
    props: Map<Seq<char>, ObjectV>,
    config: Map<Seq<char>, ObjectV>,
    event: OcEvent,
)
    requires
        tree::has(trailer, "Root"@, ObjectV::Dict(catalog)),
    ensures
        tree::has(catalog, "OCProperties"@, ObjectV::Dict(props)) ==> {
            &&& document_off(src, trailer, Some(event)) is Some
            &&& tree::has(props, "D"@, ObjectV::Dict(config)) ==> document_off(src, trailer, None)
                == Some(
                intents_kept(src, Some(config), configured_off_set(src, props, Some(config))),
            )
            &&& tree::has(props, "D"@, ObjectV::Dict(config)) ==> document_off(
                src,
                trailer,
                Some(event),
            ) == Some(
                intents_kept(
                    src,
                    Some(config),
                    usage_applied(
                        src,
                        config,
                        event,
                        configured_off_set(src, props, Some(config)),
                    ),
                ),
            )
        },
        !catalog.contains_key("OCProperties"@) ==> document_off(src, trailer, Some(event)) is None,
{
}

/// Law: which entry says what of a group: its name, its intents, a single one or
/// a list, with viewing as the default, its usage, and that it shows unless it is
/// off.
pub proof fn groups_say_what_is_written(
    src: SourceV,
    off: Set<ObjRef>,
    r: ObjRef,
    d: Map<Seq<char>, ObjectV>,
    bytes: Seq<u8>,
    intent: Seq<char>,
    items: Seq<ObjectV>,
    usage: Map<Seq<char>, ObjectV>,
)
    ensures
        ({
            let g = group_of(src, off, r, d);
            &&& g.reference == r
            &&& g.visible == !off.contains(r)
            &&& tree::has(d, "Name"@, ObjectV::String(bytes)) ==> g.name == Some(
                object::text_chars(bytes),
            )
            &&& !d.contains_key("Name"@) ==> g.name is None
            &&& tree::has(d, "Intent"@, ObjectV::Name(intent)) ==> g.intent == seq![intent]
            &&& tree::has(d, "Intent"@, ObjectV::Array(items)) ==> g.intent == names_in(items)
            &&& !d.contains_key("Intent"@) ==> g.intent == seq!["View"@]
            &&& tree::has(d, "Usage"@, ObjectV::Dict(usage)) ==> g.usage == usage_of(src, usage)
            &&& !d.contains_key("Usage"@) ==> g.usage.view is None && g.usage.print is None
                && g.usage.export is None && !g.usage.language_preferred
                && g.usage.user_names.len() == 0
        }),
{
}

} // verus!
