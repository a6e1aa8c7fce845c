//! Reading dictionaries through a source: entries with their references
//! followed, and the name and number trees built from such dictionaries.

use crate::filters::dict_opt;
use crate::lexer::copy_bytes;
use crate::object;
use crate::object::{decode_text_string, Dict, ObjRef, Object, ObjectV};
use crate::refset::RefSet;
use crate::source;
use crate::source::{ObjectSource, SourceV};
use crate::text;
use vstd::prelude::*;

verus! {

/// The dictionary that `o` resolves to.
pub open spec fn dict_at(src: SourceV, o: ObjectV) -> Option<Map<Seq<char>, ObjectV>> {
    match source::resolved(src, o) {
        Ok(ObjectV::Dict(d)) => Some(d),
        _ => None,
    }
}

/// The object under `key`, resolved.
pub open spec fn entry(src: SourceV, d: Map<Seq<char>, ObjectV>, key: Seq<char>) -> Option<
    ObjectV,
> {
    match object::lookup(d, key) {
        Some(o) => match source::resolved(src, o) {
            Ok(v) => Some(v),
            Err(_) => None,
        },
        None => None,
    }
}

/// The dictionary under `key`, resolved.
pub open spec fn entry_dict(src: SourceV, d: Map<Seq<char>, ObjectV>, key: Seq<char>) -> Option<
    Map<Seq<char>, ObjectV>,
> {
    match object::lookup(d, key) {
        Some(o) => dict_at(src, o),
        None => None,
    }
}

/// The characters of the text string under `key`, resolved.
pub open spec fn entry_text(src: SourceV, d: Map<Seq<char>, ObjectV>, key: Seq<char>) -> Option<
    Seq<char>,
> {
    match entry(src, d, key) {
        Some(ObjectV::String(bytes)) => Some(object::text_chars(bytes)),
        _ => None,
    }
}

/// The name under `key`, resolved.
pub open spec fn entry_name(src: SourceV, d: Map<Seq<char>, ObjectV>, key: Seq<char>) -> Option<
    Seq<char>,
> {
    match entry(src, d, key) {
        Some(o) => o.name(),
        None => None,
    }
}

/// The boolean under `key`, resolved.
pub open spec fn entry_flag(src: SourceV, d: Map<Seq<char>, ObjectV>, key: Seq<char>) -> Option<
    bool,
> {
    match entry(src, d, key) {
        Some(o) => o.boolean(),
        None => None,
    }
}

/// The integer under `key`, resolved.
pub open spec fn entry_int(src: SourceV, d: Map<Seq<char>, ObjectV>, key: Seq<char>) -> Option<
    i64,
> {
    match entry(src, d, key) {
        Some(o) => o.integer(),
        None => None,
    }
}

/// The integer under `key`, resolved, if it is one of 32 bits without sign.
pub open spec fn entry_u32(src: SourceV, d: Map<Seq<char>, ObjectV>, key: Seq<char>) -> Option<
    u32,
> {
    match entry_int(src, d, key) {
        Some(v) => small_int(v),
        None => None,
    }
}

/// An integer as one of 32 bits without sign.
pub open spec fn small_int(v: i64) -> Option<u32> {
    if 0 <= v <= u32::MAX {
        Some(v as u32)
    } else {
        None
    }
}

/// The bit pattern of the number under `key`, resolved.
pub open spec fn entry_number(src: SourceV, d: Map<Seq<char>, ObjectV>, key: Seq<char>) -> Option<
    nat,
> {
    match entry(src, d, key) {
        Some(o) => o.number(),
        None => None,
    }
}

/// The reference under `key`, as written.
pub open spec fn entry_ref(d: Map<Seq<char>, ObjectV>, key: Seq<char>) -> Option<ObjRef> {
    match object::lookup(d, key) {
        Some(o) => o.reference(),
        None => None,
    }
}

/// The catalog: the dictionary under the trailer's `/Root`.
pub open spec fn catalog(src: SourceV, trailer: Map<Seq<char>, ObjectV>) -> Option<
    Map<Seq<char>, ObjectV>,
> {
    entry_dict(src, trailer, "Root"@)
}

/// The dictionary under a key of the catalog.
pub open spec fn catalog_dict(
    src: SourceV,
    trailer: Map<Seq<char>, ObjectV>,
    key: Seq<char>,
) -> Option<Map<Seq<char>, ObjectV>> {
    match catalog(src, trailer) {
        Some(c) => entry_dict(src, c, key),
        None => None,
    }
}

/// The model of a string that may be absent.
pub open spec fn string_opt(s: Option<String>) -> Option<Seq<char>> {
    match s {
        Some(s) => Some(s@),
        None => None,
    }
}

/// The references among objects, in order.
pub open spec fn references_in(items: Seq<ObjectV>) -> Seq<ObjRef>
    decreases items.len(),
{
    if items.len() == 0 {
        Seq::empty()
    } else {
        match items.last() {
            ObjectV::Ref(r) => references_in(items.drop_last()).push(r),
            _ => references_in(items.drop_last()),
        }
    }
}

/// The references an array holds, none for anything else.
pub open spec fn references_of(value: Option<ObjectV>) -> Seq<ObjRef> {
    match value {
        Some(ObjectV::Array(items)) => references_in(items),
        _ => Seq::empty(),
    }
}

/// The dictionary that `o` resolves to; `None` for anything else.
pub fn resolved_dict<S: ObjectSource>(src: &S, o: &Object) -> (out: Option<Dict>)
    ensures
        dict_opt(out) == dict_at(src.model(), o@),
{
    match src.resolve(o) {
        Ok(Object::Dict(d)) => Some(d),
        _ => None,
    }
}

/// The references an array holds, anything else in it skipped.
pub fn references_among(items: &[Object]) -> (out: Vec<ObjRef>)
    ensures
        out@ == references_in(object::objects_view(items@)),
{
    let ghost all = object::objects_view(items@);
    let mut out: Vec<ObjRef> = Vec::new();
    let mut i: usize = 0;
    assert(all.take(0) =~= Seq::<ObjectV>::empty());
    while i < items.len()
        invariant
            i <= items@.len(),
            all == object::objects_view(items@),
            out@ == references_in(all.take(i as int)),
        decreases items@.len() - i,
    {
        proof {
            assert(all.take(i + 1).drop_last() =~= all.take(i as int));
            assert(all.take(i + 1).last() == items@[i as int]@);
        }
        if let Some(r) = items[i].as_ref() {
            out.push(r);
        }
        i += 1;
    }
    assert(all.take(i as int) =~= all);
    out
}

/// The references an array holds, anything else in it skipped; empty for a
/// value that is no array.
pub fn references(value: Option<&Object>) -> (out: Vec<ObjRef>)
    ensures
        out@ == references_of(object::opt_view(value)),
{
    match value {
        Some(Object::Array(items)) => references_among(items),
        _ => Vec::new(),
    }
}

/// The entries of a dictionary, read through a source: an entry that is
/// missing, will not resolve or has the wrong type reads as absent.
pub struct Entries<'a, S> {
    pub src: &'a S,
    pub dict: &'a Dict,
}

impl<'a, S: ObjectSource> Entries<'a, S> {
    /// The object under `key`, resolved.
    pub fn value(&self, key: &str) -> (out: Option<Object>)
        ensures
            object::owned_view(out) == entry(self.src.model(), self.dict@, key@),
    {
        match self.dict.get(key) {
            Some(o) => match self.src.resolve(o) {
                Ok(v) => Some(v),
                Err(_) => None,
            },
            None => None,
        }
    }

    /// The dictionary under `key`, resolved.
    pub fn sub_dict(&self, key: &str) -> (out: Option<Dict>)
        ensures
            dict_opt(out) == entry_dict(self.src.model(), self.dict@, key@),
    {
        match self.dict.get(key) {
            Some(o) => resolved_dict(self.src, o),
            None => None,
        }
    }

    /// The text string under `key`, resolved and decoded.
    pub fn text(&self, key: &str) -> (out: Option<String>)
        ensures
            string_opt(out) == entry_text(self.src.model(), self.dict@, key@),
    {
        match self.value(key) {
            Some(Object::String(bytes)) => Some(decode_text_string(&bytes)),
            _ => None,
        }
    }

    /// The name under `key`, resolved.
    pub fn name(&self, key: &str) -> (out: Option<String>)
        ensures
            string_opt(out) == entry_name(self.src.model(), self.dict@, key@),
    {
        match self.value(key) {
            Some(Object::Name(n)) => Some(n.0),
            _ => None,
        }
    }

    /// The boolean under `key`, resolved.
    pub fn flag(&self, key: &str) -> (out: Option<bool>)
        ensures
            out == entry_flag(self.src.model(), self.dict@, key@),
    {
        match self.value(key) {
            Some(o) => o.as_bool(),
            None => None,
        }
    }

    /// The integer under `key`, resolved.
    pub fn integer(&self, key: &str) -> (out: Option<i64>)
        ensures
            out == entry_int(self.src.model(), self.dict@, key@),
    {
        match self.value(key) {
            Some(o) => o.as_int(),
            None => None,
        }
    }

    /// The integer under `key`, resolved, if it fits in `u32`.
    pub fn small(&self, key: &str) -> (out: Option<u32>)
        ensures
            out == entry_u32(self.src.model(), self.dict@, key@),
    {
        match self.integer(key) {
            Some(v) => to_small(v),
            None => None,
        }
    }

    /// The number under `key`, resolved.
    pub fn number(&self, key: &str) -> (out: Option<crate::number::Real>)
        ensures
            real_opt(out) == entry_number(self.src.model(), self.dict@, key@),
    {
        match self.value(key) {
            Some(o) => o.as_f64(),
            None => None,
        }
    }

    /// The reference under `key`, as written.
    pub fn reference(&self, key: &str) -> (out: Option<ObjRef>)
        ensures
            out == entry_ref(self.dict@, key@),
    {
        self.dict.get_ref(key)
    }
}

/// The bit pattern of a real number that may be absent.
pub open spec fn real_opt(r: Option<crate::number::Real>) -> Option<nat> {
    match r {
        Some(r) => Some(r.bits as nat),
        None => None,
    }
}

/// An integer as one of 32 bits without sign.
pub fn to_small(v: i64) -> (out: Option<u32>)
    ensures
        out == small_int(v),
{
    if 0 <= v && v <= u32::MAX as i64 {
        Some(v as u32)
    } else {
        None
    }
}

/// The catalog of a document: the dictionary under the trailer's `/Root`.
pub fn catalog_of<S: ObjectSource>(src: &S, trailer: &Dict) -> (out: Option<Dict>)
    ensures
        dict_opt(out) == catalog(src.model(), trailer@),
{
    (Entries { src, dict: trailer }).sub_dict("Root")
}

/// The dictionary under a key of the catalog.
pub fn dict_in_catalog<S: ObjectSource>(src: &S, trailer: &Dict, key: &str) -> (out: Option<Dict>)
    ensures
        dict_opt(out) == catalog_dict(src.model(), trailer@, key@),
{
    match catalog_of(src, trailer) {
        Some(c) => (Entries { src, dict: &c }).sub_dict(key),
        None => None,
    }
}

/// The texts of the strings among objects, in order.
pub open spec fn texts_in(items: Seq<ObjectV>) -> Seq<Seq<char>>
    decreases items.len(),
{
    if items.len() == 0 {
        Seq::empty()
    } else {
        match items.last() {
            ObjectV::String(bytes) => texts_in(items.drop_last()).push(object::text_chars(bytes)),
            _ => texts_in(items.drop_last()),
        }
    }
}

/// The models of strings in a row.
pub open spec fn strings_view(strings: Seq<String>) -> Seq<Seq<char>> {
    Seq::new(strings.len(), |i: int| strings[i]@)
}

/// The texts of the strings among objects, anything else skipped.
pub fn texts_among(items: &[Object]) -> (out: Vec<String>)
    ensures
        strings_view(out@) == texts_in(object::objects_view(items@)),
{
    let ghost all = object::objects_view(items@);
    let mut out: Vec<String> = Vec::new();
    let mut i: usize = 0;
    assert(all.take(0) =~= Seq::<ObjectV>::empty());
    assert(strings_view(out@) =~= Seq::<Seq<char>>::empty());
    while i < items.len()
        invariant
            i <= items@.len(),
            all == object::objects_view(items@),
            strings_view(out@) == texts_in(all.take(i as int)),
        decreases items@.len() - i,
    {
        let ghost before = out@;
        proof {
            assert(all.take(i + 1).drop_last() =~= all.take(i as int));
            assert(all.take(i + 1).last() == items@[i as int]@);
        }
        if let Object::String(bytes) = &items[i] {
            let decoded = decode_text_string(bytes);
            out.push(decoded);
            assert(strings_view(out@) =~= strings_view(before).push(decoded@));
        }
        i += 1;
    }
    assert(all.take(i as int) =~= all);
    out
}

/// Maximum nodes read from one name or number tree; past it the walk stops, so
/// a malformed tree cannot grow without bound.
pub const MAX_TREE_NODES: usize = 1_048_576;

/// The kids of a tree node, as written.
pub open spec fn tree_kids(src: SourceV, d: Map<Seq<char>, ObjectV>) -> Seq<ObjectV> {
    match entry(src, d, "Kids"@) {
        Some(ObjectV::Array(kids)) => kids,
        _ => Seq::empty(),
    }
}

/// The nodes of a tree from a stack of waiting ones, the topmost first: a node
/// before its kids, its kids before what waited longer. A reference met a
/// second time and what is no dictionary is skipped.
pub open spec fn nodes_from(
    src: SourceV,
    stack: Seq<ObjectV>,
    seen: Set<ObjRef>,
    left: nat,
) -> Seq<Map<Seq<char>, ObjectV>>
    decreases left, stack.len(),
{
    if stack.len() == 0 || left == 0 {
        Seq::empty()
    } else {
        let node = stack.last();
        let rest = stack.drop_last();
        let met = match node {
            ObjectV::Ref(r) => seen.contains(r),
            _ => false,
        };
        let now = match node {
            ObjectV::Ref(r) => seen.insert(r),
            _ => seen,
        };
        if met {
            nodes_from(src, rest, seen, left)
        } else {
            match dict_at(src, node) {
                Some(d) => seq![d] + nodes_from(
                    src,
                    rest + tree_kids(src, d).reverse(),
                    now,
                    (left - 1) as nat,
                ),
                None => nodes_from(src, rest, now, left),
            }
        }
    }
}

/// The nodes of the tree with this root, in order.
pub open spec fn tree_nodes(src: SourceV, root: Map<Seq<char>, ObjectV>) -> Seq<
    Map<Seq<char>, ObjectV>,
> {
    nodes_from(src, seq![ObjectV::Dict(root)], Set::empty(), MAX_TREE_NODES as nat)
}

/// The models of dictionaries in a row.
pub open spec fn dicts_view(dicts: Seq<Dict>) -> Seq<Map<Seq<char>, ObjectV>> {
    Seq::new(dicts.len(), |i: int| dicts[i]@)
}

/// Puts `items` on a stack, the first of them topmost.
fn stack_reversed(stack: &mut Vec<Object>, items: Vec<Object>)
    ensures
        object::objects_view(final(stack)@) == object::objects_view(old(stack)@)
            + object::objects_view(items@).reverse(),
{
    let ghost below = object::objects_view(stack@);
    let ghost all = object::objects_view(items@);
    let mut items = items;
    assert(object::objects_view(items@) =~= all.take(all.len() as int));
    assert(object::objects_view(stack@) =~= below + all.skip(all.len() as int).reverse());
    while items.len() > 0
        invariant
            items@.len() <= all.len(),
            object::objects_view(items@) == all.take(items@.len() as int),
            object::objects_view(stack@) == below + all.skip(items@.len() as int).reverse(),
        decreases items@.len(),
    {
        let ghost some = items@;
        let ghost held = object::objects_view(stack@);
        if let Some(item) = items.pop() {
            assert(object::objects_view(some)[some.len() - 1] == item@);
            assert(object::objects_view(items@) =~= all.take(items@.len() as int));
            stack.push(item);
            assert(object::objects_view(stack@) =~= held.push(item@));
            assert(held.push(item@) =~= below + all.skip(items@.len() as int).reverse());
        }
    }
    assert(all.skip(0) =~= all);
}

/// The nodes of a tree, a node before its kids.
fn walk<S: ObjectSource>(src: &S, root: &Dict) -> (out: Vec<Dict>)
    ensures
        dicts_view(out@) == tree_nodes(src.model(), root@),
{
    let mut out: Vec<Dict> = Vec::new();
    let mut visited = RefSet::new();
    let mut stack: Vec<Object> = Vec::new();
    stack.push(Object::Dict(root.clone()));
    proof {
        assert(object::objects_view(stack@) =~= seq![ObjectV::Dict(root@)]);
        assert(dicts_view(out@) + tree_nodes(src.model(), root@) =~= tree_nodes(
            src.model(),
            root@,
        ));
    }
    while stack.len() > 0 && out.len() < MAX_TREE_NODES
        invariant
            out@.len() <= MAX_TREE_NODES,
            tree_nodes(src.model(), root@) == dicts_view(out@) + nodes_from(
                src.model(),
                object::objects_view(stack@),
                visited@,
                (MAX_TREE_NODES - out@.len()) as nat,
            ),
        decreases MAX_TREE_NODES - out@.len(), stack@.len(),
    {
        let ghost waiting = object::objects_view(stack@);
        let ghost read = dicts_view(out@);
        let ghost seen = visited@;
        if let Some(node) = stack.pop() {
            proof {
                assert(waiting.last() == node@);
                assert(object::objects_view(stack@) =~= waiting.drop_last());
            }
            let fresh = match node.as_ref() {
                Some(r) => visited.insert(r),
                None => true,
            };
            if fresh {
                if let Some(dict) = resolved_dict(src, &node) {
                    let kids = match (Entries { src, dict: &dict }).value("Kids") {
                        Some(Object::Array(kids)) => kids,
                        _ => Vec::new(),
                    };
                    stack_reversed(&mut stack, kids);
                    out.push(dict);
                    assert(dicts_view(out@) =~= read + seq![dict@]);
                    assert(nodes_from(
                        src.model(),
                        waiting,
                        seen,
                        (MAX_TREE_NODES - read.len()) as nat,
                    ) == seq![dict@] + nodes_from(
                        src.model(),
                        object::objects_view(stack@),
                        visited@,
                        (MAX_TREE_NODES - out@.len()) as nat,
                    ));
                }
            } else {
                assert(visited@ =~= seen);
            }
        }
    }
    out
}

/// The first `count` name and value pairs of a `/Names` array, those whose key
/// is no string left out.
pub open spec fn name_pairs(items: Seq<ObjectV>, count: nat) -> Seq<(Seq<u8>, ObjectV)>
    decreases count,
{
    if count == 0 {
        Seq::empty()
    } else {
        let before = name_pairs(items, (count - 1) as nat);
        match items[2 * count - 2] {
            ObjectV::String(key) => before.push((key, items[2 * count - 1])),
            _ => before,
        }
    }
}

/// The pairs that a name tree node holds.
pub open spec fn node_names(src: SourceV, d: Map<Seq<char>, ObjectV>) -> Seq<(Seq<u8>, ObjectV)> {
    match entry(src, d, "Names"@) {
        Some(ObjectV::Array(items)) => name_pairs(items, items.len() / 2),
        _ => Seq::empty(),
    }
}

/// The pairs that name tree nodes in a row hold.
pub open spec fn names_in_nodes(src: SourceV, nodes: Seq<Map<Seq<char>, ObjectV>>) -> Seq<
    (Seq<u8>, ObjectV),
>
    decreases nodes.len(),
{
    if nodes.len() == 0 {
        Seq::empty()
    } else {
        names_in_nodes(src, nodes.drop_last()) + node_names(src, nodes.last())
    }
}

/// The names of a tree with what they name, as written, in tree order.
pub open spec fn tree_names(src: SourceV, root: Map<Seq<char>, ObjectV>) -> Seq<
    (Seq<u8>, ObjectV),
> {
    names_in_nodes(src, tree_nodes(src, root))
}

/// The models of named objects in a row.
pub open spec fn named_view(pairs: Seq<(Vec<u8>, Object)>) -> Seq<(Seq<u8>, ObjectV)> {
    Seq::new(pairs.len(), |i: int| (pairs[i].0@, pairs[i].1@))
}

/// Every name in the tree with the object it names, unresolved, in tree order.
pub fn named_entries<S: ObjectSource>(src: &S, root: &Dict) -> (out: Vec<(Vec<u8>, Object)>)
    ensures
        named_view(out@) == tree_names(src.model(), root@),
{
    let nodes = walk(src, root);
    let ghost all = dicts_view(nodes@);
    let mut out: Vec<(Vec<u8>, Object)> = Vec::new();
    let mut i: usize = 0;
    assert(all.take(0) =~= Seq::<Map<Seq<char>, ObjectV>>::empty());
    assert(named_view(out@) =~= Seq::<(Seq<u8>, ObjectV)>::empty());
    while i < nodes.len()
        invariant
            i <= nodes@.len(),
            all == dicts_view(nodes@),
            named_view(out@) == names_in_nodes(src.model(), all.take(i as int)),
        decreases nodes@.len() - i,
    {
        proof {
            assert(all.take(i + 1).drop_last() =~= all.take(i as int));
            assert(all.take(i + 1).last() == nodes@[i as int]@);
        }
        let ghost before = named_view(out@);
        if let Some(Object::Array(items)) = (Entries { src, dict: &nodes[i] }).value("Names") {
            push_names(&items, &mut out);
        } else {
            assert(before + Seq::<(Seq<u8>, ObjectV)>::empty() =~= before);
        }
        i += 1;
    }
    assert(all.take(i as int) =~= all);
    out
}

/// Appends the pairs of a `/Names` array.
fn push_names(items: &Vec<Object>, out: &mut Vec<(Vec<u8>, Object)>)
    ensures
        named_view(final(out)@) == named_view(old(out)@) + name_pairs(
            object::objects_view(items@),
            items@.len() / 2,
        ),
{
    let ghost all = object::objects_view(items@);
    let ghost before = named_view(out@);
    let len: usize = items.len();
    let pairs: usize = len / 2;
    let mut i: usize = 0;
    assert(before + name_pairs(all, 0) =~= before);
    while i < pairs
        invariant
            i <= pairs,
            len == items@.len(),
            pairs == len / 2,
            all == object::objects_view(items@),
            named_view(out@) == before + name_pairs(all, i as nat),
        decreases pairs - i,
    {
        let ghost now = named_view(out@);
        assert(all[2 * i as int] == items@[2 * i as int]@);
        assert(all[2 * i + 1] == items@[2 * i + 1]@);
        if let Object::String(key) = &items[2 * i] {
            let copy = copy_bytes(key);
            let value = items[2 * i + 1].clone();
            out.push((copy, value));
            proof {
                assert(named_view(out@) =~= now.push((key@, value@)));
                assert(named_view(out@) =~= before + name_pairs(all, (i + 1) as nat));
            }
        }
        i += 1;
    }
}

/// The first `count` number and value pairs of a `/Nums` array, those whose key
/// is no integer left out.
pub open spec fn number_pairs(items: Seq<ObjectV>, count: nat) -> Seq<(i64, ObjectV)>
    decreases count,
{
    if count == 0 {
        Seq::empty()
    } else {
        let before = number_pairs(items, (count - 1) as nat);
        match items[2 * count - 2] {
            ObjectV::Int(key) => before.push((key, items[2 * count - 1])),
            _ => before,
        }
    }
}

/// The pairs that a number tree node holds.
pub open spec fn node_numbers(src: SourceV, d: Map<Seq<char>, ObjectV>) -> Seq<(i64, ObjectV)> {
    match entry(src, d, "Nums"@) {
        Some(ObjectV::Array(items)) => number_pairs(items, items.len() / 2),
        _ => Seq::empty(),
    }
}

/// The pairs that number tree nodes in a row hold.
pub open spec fn numbers_in_nodes(src: SourceV, nodes: Seq<Map<Seq<char>, ObjectV>>) -> Seq<
    (i64, ObjectV),
>
    decreases nodes.len(),
{
    if nodes.len() == 0 {
        Seq::empty()
    } else {
        numbers_in_nodes(src, nodes.drop_last()) + node_numbers(src, nodes.last())
    }
}

/// The numbers of a tree with what they stand for, as written, in tree order.
pub open spec fn tree_numbers(src: SourceV, root: Map<Seq<char>, ObjectV>) -> Seq<
    (i64, ObjectV),
> {
    numbers_in_nodes(src, tree_nodes(src, root))
}

/// The models of numbered objects in a row.
pub open spec fn numbered_view(pairs: Seq<(i64, Object)>) -> Seq<(i64, ObjectV)> {
    Seq::new(pairs.len(), |i: int| (pairs[i].0, pairs[i].1@))
}

/// Every number in the tree with the object it stands for, unresolved, in tree
/// order.
pub fn numbered_entries<S: ObjectSource>(src: &S, root: &Dict) -> (out: Vec<(i64, Object)>)
    ensures
        numbered_view(out@) == tree_numbers(src.model(), root@),
{
    let nodes = walk(src, root);
    let ghost all = dicts_view(nodes@);
    let mut out: Vec<(i64, Object)> = Vec::new();
    let mut i: usize = 0;
    assert(all.take(0) =~= Seq::<Map<Seq<char>, ObjectV>>::empty());
    assert(numbered_view(out@) =~= Seq::<(i64, ObjectV)>::empty());
    while i < nodes.len()
        invariant
            i <= nodes@.len(),
            all == dicts_view(nodes@),
            numbered_view(out@) == numbers_in_nodes(src.model(), all.take(i as int)),
        decreases nodes@.len() - i,
    {
        proof {
            assert(all.take(i + 1).drop_last() =~= all.take(i as int));
            assert(all.take(i + 1).last() == nodes@[i as int]@);
        }
        let ghost before = numbered_view(out@);
        if let Some(Object::Array(items)) = (Entries { src, dict: &nodes[i] }).value("Nums") {
            push_numbers(&items, &mut out);
        } else {
            assert(before + Seq::<(i64, ObjectV)>::empty() =~= before);
        }
        i += 1;
    }
    assert(all.take(i as int) =~= all);
    out
}

/// Appends the pairs of a `/Nums` array.
fn push_numbers(items: &Vec<Object>, out: &mut Vec<(i64, Object)>)
    ensures
        numbered_view(final(out)@) == numbered_view(old(out)@) + number_pairs(
            object::objects_view(items@),
            items@.len() / 2,
        ),
{
    let ghost all = object::objects_view(items@);
    let ghost before = numbered_view(out@);
    let len: usize = items.len();
    let pairs: usize = len / 2;
    let mut i: usize = 0;
    assert(before + number_pairs(all, 0) =~= before);
    while i < pairs
        invariant
            i <= pairs,
            len == items@.len(),
            pairs == len / 2,
            all == object::objects_view(items@),
            numbered_view(out@) == before + number_pairs(all, i as nat),
        decreases pairs - i,
    {
        let ghost now = numbered_view(out@);
        assert(all[2 * i as int] == items@[2 * i as int]@);
        assert(all[2 * i + 1] == items@[2 * i + 1]@);
        if let Object::Int(key) = &items[2 * i] {
            let value = items[2 * i + 1].clone();
            out.push((*key, value));
            proof {
                assert(numbered_view(out@) =~= now.push((*key, value@)));
                assert(numbered_view(out@) =~= before + number_pairs(all, (i + 1) as nat));
            }
        }
        i += 1;
    }
}

/// What `key` names first among the pairs of a name tree.
pub open spec fn first_named(pairs: Seq<(Seq<u8>, ObjectV)>, key: Seq<u8>) -> Option<ObjectV>
    decreases pairs.len(),
{
    if pairs.len() == 0 {
        None
    } else if pairs[0].0 == key {
        Some(pairs[0].1)
    } else {
        first_named(pairs.skip(1), key)
    }
}

/// The object that `key` names in a name tree, unresolved.
pub fn lookup<S: ObjectSource>(src: &S, root: &Dict, key: &[u8]) -> (out: Option<Object>)
    ensures
        object::owned_view(out) == first_named(tree_names(src.model(), root@), key@),
{
    let pairs = named_entries(src, root);
    let ghost all = named_view(pairs@);
    let mut i: usize = 0;
    assert(all.skip(0) =~= all);
    while i < pairs.len()
        invariant
            i <= pairs@.len(),
            all == named_view(pairs@),
            all == tree_names(src.model(), root@),
            first_named(all, key@) == first_named(all.skip(i as int), key@),
        decreases pairs@.len() - i,
    {
        proof {
            assert(all.skip(i as int)[0] == (pairs@[i as int].0@, pairs@[i as int].1@));
            assert(all.skip(i as int).skip(1) =~= all.skip(i + 1));
        }
        if text::same_bytes(&pairs[i].0, key) {
            return Some(pairs[i].1.clone());
        }
        i += 1;
    }
    None
}

/// Law: the references among objects are found one by one, in order; what is no
/// reference counts for nothing.
pub proof fn references_are_found_in_order(items: Seq<ObjectV>, more: Seq<ObjectV>, o: ObjectV)
    ensures
        references_in(items + more) == references_in(items) + references_in(more),
        references_in(seq![o]) == (match o {
            ObjectV::Ref(r) => seq![r],
            _ => Seq::empty(),
        }),
        references_in(Seq::<ObjectV>::empty()).len() == 0,
    decreases more.len(),
{
    assert(seq![o].drop_last() =~= Seq::<ObjectV>::empty());
    assert(references_in(seq![o]) =~= (match o {
        ObjectV::Ref(r) => seq![r],
        _ => Seq::empty(),
    })) by {
        reveal_with_fuel(references_in, 2);
    }
    if more.len() == 0 {
        assert(items + more =~= items);
        assert(references_in(items) + references_in(more) =~= references_in(items));
    } else {
        references_are_found_in_order(items, more.drop_last(), o);
        assert((items + more).drop_last() =~= items + more.drop_last());
        assert(references_in(items + more) =~= references_in(items) + references_in(more));
    }
}

/// References written one behind the other.
pub open spec fn as_references(groups: Seq<ObjRef>) -> Seq<ObjectV> {
    Seq::new(groups.len(), |i: int| ObjectV::Ref(groups[i]))
}

/// Law: references written one behind the other are found as they are.
pub proof fn references_read_back(groups: Seq<ObjRef>)
    ensures
        references_in(as_references(groups)) == groups,
    decreases groups.len(),
{
    let items = as_references(groups);
    if groups.len() > 0 {
        references_read_back(groups.drop_last());
        assert(items.drop_last() =~= as_references(groups.drop_last()));
        assert(groups.drop_last().push(groups.last()) =~= groups);
    } else {
        assert(references_in(items) =~= groups);
    }
}

/// Names and what they name, written one behind the other.
pub open spec fn written_names(pairs: Seq<(Seq<u8>, ObjectV)>) -> Seq<ObjectV> {
    Seq::new(
        2 * pairs.len(),
        |i: int|
            if i % 2 == 0 {
                ObjectV::String(pairs[i / 2].0)
            } else {
                pairs[i / 2].1
            },
    )
}

/// Numbers and what they number, written one behind the other.
pub open spec fn written_numbers(pairs: Seq<(i64, ObjectV)>) -> Seq<ObjectV> {
    Seq::new(
        2 * pairs.len(),
        |i: int|
            if i % 2 == 0 {
                ObjectV::Int(pairs[i / 2].0)
            } else {
                pairs[i / 2].1
            },
    )
}

proof fn lemma_pairs_read(
    names: Seq<(Seq<u8>, ObjectV)>,
    numbers: Seq<(i64, ObjectV)>,
    n: nat,
    m: nat,
)
    requires
        n <= names.len(),
        m <= numbers.len(),
    ensures
        name_pairs(written_names(names), n) == names.take(n as int),
        number_pairs(written_numbers(numbers), m) == numbers.take(m as int),
    decreases n + m,
{
    let a = written_names(names);
    let b = written_numbers(numbers);
    if n > 0 {
        lemma_pairs_read(names, numbers, (n - 1) as nat, m);
        assert((2 * n - 2) / 2 == n - 1 && (2 * n - 2) % 2 == 0);
        assert((2 * n - 1) / 2 == n - 1 && (2 * n - 1) % 2 == 1);
        assert(a[2 * n - 2] == ObjectV::String(names[n - 1].0));
        assert(a[2 * n - 1] == names[n - 1].1);
        assert(names.take(n as int) =~= names.take(n - 1).push(names[n - 1]));
    } else {
        assert(name_pairs(a, n) =~= names.take(0));
    }
    if m > 0 {
        lemma_pairs_read(names, numbers, n, (m - 1) as nat);
        assert((2 * m - 2) / 2 == m - 1 && (2 * m - 2) % 2 == 0);
        assert((2 * m - 1) / 2 == m - 1 && (2 * m - 1) % 2 == 1);
        assert(b[2 * m - 2] == ObjectV::Int(numbers[m - 1].0));
        assert(b[2 * m - 1] == numbers[m - 1].1);
        assert(numbers.take(m as int) =~= numbers.take(m - 1).push(numbers[m - 1]));
    } else {
        assert(number_pairs(b, m) =~= numbers.take(0));
    }
}

/// Law: the pairs that a leaf of a name or number tree holds are read back, in
/// order.
pub proof fn leaf_pairs_read_back(
    src: SourceV,
    d: Map<Seq<char>, ObjectV>,
    names: Seq<(Seq<u8>, ObjectV)>,
    numbers: Seq<(i64, ObjectV)>,
)
    ensures
        d.contains_key("Names"@) && d["Names"@] == ObjectV::Array(written_names(names))
            ==> node_names(src, d) == names,
        d.contains_key("Nums"@) && d["Nums"@] == ObjectV::Array(written_numbers(numbers))
            ==> node_numbers(src, d) == numbers,
{
    lemma_pairs_read(names, numbers, names.len(), numbers.len());
    assert(names.take(names.len() as int) =~= names);
    assert(numbers.take(numbers.len() as int) =~= numbers);
    assert(written_names(names).len() / 2 == names.len());
    assert(written_numbers(numbers).len() / 2 == numbers.len());
}

/// Dictionaries written one behind the other.
pub open spec fn as_objects(dicts: Seq<Map<Seq<char>, ObjectV>>) -> Seq<ObjectV> {
    Seq::new(dicts.len(), |i: int| ObjectV::Dict(dicts[i]))
}

proof fn lemma_leaves(
    src: SourceV,
    leaves: Seq<Map<Seq<char>, ObjectV>>,
    seen: Set<ObjRef>,
    left: nat,
)
    requires
        leaves.len() <= left,
        forall|i: int|
            0 <= i < leaves.len() ==> !(#[trigger] leaves[i]).contains_key("Kids"@),
    ensures
        nodes_from(src, as_objects(leaves).reverse(), seen, left) == leaves,
    decreases leaves.len(),
{
    let stack = as_objects(leaves).reverse();
    if leaves.len() == 0 {
        assert(nodes_from(src, stack, seen, left) =~= leaves);
    } else {
        let rest = leaves.skip(1);
        assert(forall|i: int| 0 <= i < rest.len() ==> #[trigger] rest[i] == leaves[i + 1]);
        lemma_leaves(src, rest, seen, (left - 1) as nat);
        assert(stack.last() == ObjectV::Dict(leaves[0]));
        assert(stack.drop_last() =~= as_objects(rest).reverse());
        assert(!leaves[0].contains_key("Kids"@));
        assert(tree_kids(src, leaves[0]).reverse() =~= Seq::<ObjectV>::empty());
        assert(stack.drop_last() + Seq::<ObjectV>::empty() =~= stack.drop_last());
        assert(seq![leaves[0]] + rest =~= leaves);
    }
}

/// Law: the nodes of a tree come in order, the root before its kids and these
/// as they are listed; so do the pairs they hold.
pub proof fn tree_nodes_come_in_order(
    src: SourceV,
    root: Map<Seq<char>, ObjectV>,
    leaves: Seq<Map<Seq<char>, ObjectV>>,
)
    requires
        root.contains_key("Kids"@),
        root["Kids"@] == ObjectV::Array(as_objects(leaves)),
        leaves.len() < 1_048_576,
        forall|i: int|
            0 <= i < leaves.len() ==> !(#[trigger] leaves[i]).contains_key("Kids"@),
    ensures
        tree_nodes(src, root) == seq![root] + leaves,
        !root.contains_key("Names"@) && leaves.len() == 2 ==> tree_names(src, root) == node_names(
            src,
            leaves[0],
        ) + node_names(src, leaves[1]),
        !root.contains_key("Nums"@) && leaves.len() == 2 ==> tree_numbers(src, root)
            == node_numbers(src, leaves[0]) + node_numbers(src, leaves[1]),
{
    let left = MAX_TREE_NODES as nat;
    let stack = seq![ObjectV::Dict(root)];
    let none = Set::<ObjRef>::empty();
    assert(stack.last() == ObjectV::Dict(root));
    assert(stack.drop_last() =~= Seq::<ObjectV>::empty());
    assert(tree_kids(src, root) == as_objects(leaves));
    assert(stack.drop_last() + as_objects(leaves).reverse() =~= as_objects(leaves).reverse());
    lemma_leaves(src, leaves, none, (left - 1) as nat);
    let nodes = seq![root] + leaves;
    if leaves.len() == 2 {
        reveal_with_fuel(names_in_nodes, 4);
        reveal_with_fuel(numbers_in_nodes, 4);
        assert(nodes.drop_last() =~= seq![root, leaves[0]]);
        assert(nodes.drop_last().drop_last() =~= seq![root]);
        assert(nodes.drop_last().drop_last().drop_last() =~= Seq::<
            Map<Seq<char>, ObjectV>,
        >::empty());
        assert(nodes.last() == leaves[1]);
        assert(tree_names(src, root) =~= node_names(src, root) + node_names(src, leaves[0])
            + node_names(src, leaves[1]));
        assert(tree_numbers(src, root) =~= node_numbers(src, root) + node_numbers(src, leaves[0])
            + node_numbers(src, leaves[1]));
        if !root.contains_key("Names"@) {
            assert(tree_names(src, root) =~= node_names(src, leaves[0]) + node_names(
                src,
                leaves[1],
            ));
        }
        if !root.contains_key("Nums"@) {
            assert(tree_numbers(src, root) =~= node_numbers(src, leaves[0]) + node_numbers(
                src,
                leaves[1],
            ));
        }
    }
}

/// Law: a name that is given twice names what it was given first.
pub proof fn the_first_of_a_name_counts(
    before: Seq<(Seq<u8>, ObjectV)>,
    key: Seq<u8>,
    value: ObjectV,
    behind: Seq<(Seq<u8>, ObjectV)>,
)
    requires
        forall|i: int| 0 <= i < before.len() ==> (#[trigger] before[i]).0 != key,
    ensures
        first_named(before + (seq![(key, value)] + behind), key) == Some(value),
    decreases before.len(),
{
    let all = before + (seq![(key, value)] + behind);
    if before.len() == 0 {
        assert(all[0] == (key, value));
    } else {
        let rest = before.skip(1);
        assert(before[0].0 != key);
        assert(all[0] == before[0]);
        assert(forall|i: int| 0 <= i < rest.len() ==> #[trigger] rest[i] == before[i + 1]);
        the_first_of_a_name_counts(rest, key, value, behind);
        assert(all.skip(1) =~= rest + (seq![(key, value)] + behind));
    }
}

/// Law: what stands under a key is read by its kind: an integer that fits, a
/// number, a flag, a name, a text, a reference as it is written.
pub proof fn entries_are_read_by_kind(
    src: SourceV,
    d: Map<Seq<char>, ObjectV>,
    key: Seq<char>,
    v: i64,
    b: bool,
    name: Seq<char>,
    bytes: Seq<u8>,
    r: ObjRef,
)
    requires
        d.contains_key(key),
    ensures
        d[key] == ObjectV::Int(v) ==> entry_int(src, d, key) == Some(v),
        d[key] == ObjectV::Int(v) && 0 <= v <= u32::MAX ==> entry_u32(src, d, key) == Some(v as u32),
        d[key] == ObjectV::Int(v) && !(0 <= v <= u32::MAX) ==> entry_u32(src, d, key) is None,
        d[key] == ObjectV::Bool(b) ==> entry_flag(src, d, key) == Some(b),
        d[key] == ObjectV::Name(name) ==> entry_name(src, d, key) == Some(name),
        d[key] == ObjectV::Name(name) ==> entry_text(src, d, key) is None,
        d[key] == ObjectV::String(bytes) ==> entry_text(src, d, key) == Some(
            object::text_chars(bytes),
        ),
        d[key] == ObjectV::String(bytes) ==> entry_name(src, d, key) is None,
        d[key] == ObjectV::Ref(r) ==> entry_ref(d, key) == Some(r),
        d[key] == ObjectV::Null ==> entry_ref(d, key) is None && entry_int(src, d, key) is None,
{
}

/// Whether an entry is written in the dictionary itself.
pub open spec fn has(d: Map<Seq<char>, ObjectV>, key: Seq<char>, value: ObjectV) -> bool {
    d.contains_key(key) && d[key] == value
}

/// Law: the text strings of a list are found in order, what is no string left out.
pub proof fn texts_are_found_in_order(items: Seq<ObjectV>, bytes: Seq<u8>, name: Seq<char>)
    ensures
        texts_in(items.push(ObjectV::String(bytes))) == texts_in(items).push(
            object::text_chars(bytes),
        ),
        texts_in(items.push(ObjectV::Name(name))) == texts_in(items),
        texts_in(items.push(ObjectV::Null)) == texts_in(items),
        texts_in(Seq::empty()).len() == 0,
{
    assert(items.push(ObjectV::String(bytes)).drop_last() =~= items);
    assert(items.push(ObjectV::Name(name)).drop_last() =~= items);
    assert(items.push(ObjectV::Null).drop_last() =~= items);
}

/// Law: a node of a tree that was met before, and one that is no dictionary, is
/// passed over, and the others are read.
pub proof fn odd_nodes_are_passed_over(
    src: SourceV,
    stack: Seq<ObjectV>,
    seen: Set<ObjRef>,
    left: nat,
    r: ObjRef,
    d: Map<Seq<char>, ObjectV>,
)
    requires
        left > 0,
    ensures
        nodes_from(src, stack.push(ObjectV::Null), seen, left) == nodes_from(src, stack, seen, left),
        seen.contains(r) ==> nodes_from(src, stack.push(ObjectV::Ref(r)), seen, left)
            == nodes_from(src, stack, seen, left),
        !seen.contains(r) && (src.fetched)(r) == Ok::<ObjectV, source::FaultV>(ObjectV::Dict(d))
            && !d.contains_key("Kids"@) ==> nodes_from(src, stack.push(ObjectV::Ref(r)), seen, left)
            == seq![d] + nodes_from(src, stack, seen.insert(r), (left - 1) as nat),
{
    let a = stack.push(ObjectV::Null);
    let b = stack.push(ObjectV::Ref(r));
    assert(a.drop_last() =~= stack && a.last() == ObjectV::Null);
    assert(b.drop_last() =~= stack && b.last() == ObjectV::Ref(r));
    assert(dict_at(src, ObjectV::Null) is None);
    source::references_lead_on(src, r, ObjectV::Dict(d), 32, 0);
    assert(stack + Seq::<ObjectV>::empty().reverse() =~= stack);
}

} // verus!
