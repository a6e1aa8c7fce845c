//! The document outline: the tree of items a viewer shows as a table of
//! contents, each with a title, an open or closed state, a destination or
//! action, and its children.

use crate::number;
use crate::number::{Real, INFINITY_BITS, ONE_BITS, SIGN_BIT};
use crate::object;
use crate::object::{Dict, ObjRef, Object, ObjectV};
use crate::refset::RefSet;
use crate::single;
use crate::single::Single;
use crate::source::{ObjectSource, SourceV};
use crate::text;
use crate::tree;
use crate::tree::{dict_in_catalog, resolved_dict, Entries};
use vstd::prelude::*;

verus! {

/// Maximum items read from one outline; past it the walk stops, so a
/// malformed chain cannot grow without bound.
pub const MAX_OUTLINE_ITEMS: usize = 65_536;

/// Maximum nesting followed through `/First`; deeper items are left out.
pub const MAX_OUTLINE_DEPTH: usize = 64;

/// One outline item with its children.
#[derive(Debug, PartialEq)]
pub struct OutlineItem {
    /// `/Title`, decoded as a text string.
    pub title: String,
    /// Where activating the item goes, as written: its `/Dest`, or the `/D` of
    /// a `/GoTo` action in `/A`. `None` for any other action or none.
    pub destination: Option<Object>,
    /// Whether the item shows its children: a positive `/Count`.
    pub open: bool,
    /// `/C`, the DeviceRGB colour of the title; black when absent.
    pub color: [Single; 3],
    /// Bit 1 of `/F`.
    pub italic: bool,
    /// Bit 2 of `/F`.
    pub bold: bool,
    /// `/SE`, the structure element the item refers to, when indirect.
    pub structure_element: Option<ObjRef>,
    /// The item's children through `/First` and `/Next`, in order.
    pub children: Vec<OutlineItem>,
}

/// What an outline item is.
#[verifier::ext_equal]
pub struct OutlineItemV {
    pub title: Seq<char>,
    pub destination: Option<ObjectV>,
    pub open: bool,
    pub color: (u32, u32, u32),
    pub italic: bool,
    pub bold: bool,
    pub structure_element: Option<ObjRef>,
    pub children: Seq<OutlineItemV>,
}

/// What an outline item is.
pub open spec fn item_view(item: OutlineItem) -> OutlineItemV
    decreases item,
{
    OutlineItemV {
        title: item.title@,
        destination: object::owned_view(item.destination),
        open: item.open,
        color: (item.color@[0].bits, item.color@[1].bits, item.color@[2].bits),
        italic: item.italic,
        bold: item.bold,
        structure_element: item.structure_element,
        children: items_view(item.children@),
    }
}

/// What outline items in a row are.
pub open spec fn items_view(items: Seq<OutlineItem>) -> Seq<OutlineItemV>
    decreases items,
{
    Seq::new(
        items.len(),
        |i: int|
            if 0 <= i < items.len() {
                item_view(items[i])
            } else {
                arbitrary()
            },
    )
}

impl View for OutlineItem {
    type V = OutlineItemV;

    open spec fn view(&self) -> OutlineItemV {
        item_view(*self)
    }
}

/// A copy of an item with its children.
fn clone_item(item: &OutlineItem) -> (out: OutlineItem)
    ensures
        out@ == item@,
    decreases item,
{
    let mut children: Vec<OutlineItem> = Vec::new();
    let mut i: usize = 0;
    while i < item.children.len()
        invariant
            i <= item.children@.len(),
            children@.len() == i,
            forall|j: int| 0 <= j < i ==> (#[trigger] children@[j])@ == item.children@[j]@,
        decreases item.children@.len() - i,
    {
        assert(decreases_to!(item.children@ => item.children@[i as int]));
        children.push(clone_item(&item.children[i]));
        i += 1;
    }
    assert(items_view(children@) =~= items_view(item.children@));
    let destination = match &item.destination {
        Some(destination) => Some(destination.clone()),
        None => None,
    };
    OutlineItem {
        title: item.title.clone(),
        destination,
        open: item.open,
        color: item.color,
        italic: item.italic,
        bold: item.bold,
        structure_element: item.structure_element,
        children,
    }
}

impl Clone for OutlineItem {
    fn clone(&self) -> (out: OutlineItem)
        ensures
            out@ == self@,
    {
        clone_item(self)
    }
}

/// The bit pattern of a number drawn into the range from 0 to 1; what is no
/// number at all stays so.
pub open spec fn unit_clamped(bits: u64) -> u64 {
    if number::is_nan(bits) {
        bits
    } else if number::line_position(bits) < 0 {
        0
    } else if number::line_position(ONE_BITS) < number::line_position(bits) {
        ONE_BITS
    } else {
        bits
    }
}

/// A component of a colour: a number drawn into the range from 0 to 1 and
/// narrowed to single precision.
pub open spec fn component_of(bits: nat) -> u32 {
    single::narrowed(unit_clamped(bits as u64)) as u32
}

/// The colour that an array of three numbers stands for.
pub open spec fn color_of(value: Option<ObjectV>) -> (u32, u32, u32) {
    match value {
        Some(ObjectV::Array(items)) => if items.len() == 3 {
            match (items[0].number(), items[1].number(), items[2].number()) {
                (Some(r), Some(g), Some(b)) => (
                    component_of(r),
                    component_of(g),
                    component_of(b),
                ),
                _ => (0, 0, 0),
            }
        } else {
            (0, 0, 0)
        },
        _ => (0, 0, 0),
    }
}

/// The destination of an item: its `/Dest`, or the `/D` of a `/GoTo` action.
pub open spec fn destination_of(src: SourceV, d: Map<Seq<char>, ObjectV>) -> Option<ObjectV> {
    match object::lookup(d, "Dest"@) {
        Some(dest) => Some(dest),
        None => match tree::entry_dict(src, d, "A"@) {
            Some(action) => if tree::entry_name(src, action, "S"@) == Some("GoTo"@) {
                object::lookup(action, "D"@)
            } else {
                None
            },
            None => None,
        },
    }
}

/// The item that a dictionary describes, without its children.
pub open spec fn item_of(src: SourceV, d: Map<Seq<char>, ObjectV>) -> OutlineItemV {
    let flags = match tree::entry_int(src, d, "F"@) {
        Some(flags) => flags,
        None => 0,
    };
    OutlineItemV {
        title: match tree::entry_text(src, d, "Title"@) {
            Some(title) => title,
            None => Seq::empty(),
        },
        destination: destination_of(src, d),
        open: match tree::entry_int(src, d, "Count"@) {
            Some(count) => count > 0,
            None => false,
        },
        color: color_of(tree::entry(src, d, "C"@)),
        italic: flags as int % 2 == 1,
        bold: flags as int / 2 % 2 == 1,
        structure_element: tree::entry_ref(d, "SE"@),
        children: Seq::empty(),
    }
}

/// What a node's links put on the stack: its `/Next` below its `/First`.
pub open spec fn links_of(d: Map<Seq<char>, ObjectV>, depth: int) -> Seq<(ObjectV, int)> {
    let next = match object::lookup(d, "Next"@) {
        Some(next) => seq![(next, depth)],
        None => Seq::empty(),
    };
    let first = match object::lookup(d, "First"@) {
        Some(first) => if depth < MAX_OUTLINE_DEPTH {
            seq![(first, depth + 1)]
        } else {
            Seq::empty()
        },
        None => Seq::empty(),
    };
    next + first
}

/// The items read from a stack of waiting nodes with their depths, the topmost
/// first: an item, then what is below it, then what follows it. A reference met
/// a second time and what is no dictionary ends its chain.
pub open spec fn items_from(
    src: SourceV,
    stack: Seq<(ObjectV, int)>,
    seen: Set<ObjRef>,
    left: nat,
) -> Seq<(int, OutlineItemV)>
    decreases left, stack.len(),
{
    if stack.len() == 0 || left == 0 {
        Seq::empty()
    } else {
        let (node, depth) = stack.last();
        let rest = stack.drop_last();
        let met = match node {
            ObjectV::Ref(r) => seen.contains(r),
            _ => false,
        };
        let now = match node {
            ObjectV::Ref(r) => seen.insert(r),
            _ => seen,
        };
        if met {
            items_from(src, rest, seen, left)
        } else {
            match tree::dict_at(src, node) {
                Some(d) => seq![(depth, item_of(src, d))] + items_from(
                    src,
                    rest + links_of(d, depth),
                    now,
                    (left - 1) as nat,
                ),
                None => items_from(src, rest, now, left),
            }
        }
    }
}

/// How many of the leading trees are deeper than `depth`.
pub open spec fn deeper(trees: Seq<(int, OutlineItemV)>, depth: int) -> nat
    decreases trees.len(),
{
    if trees.len() == 0 || trees[0].0 <= depth {
        0
    } else {
        1 + deeper(trees.skip(1), depth)
    }
}

/// The items of trees, without their depths.
pub open spec fn items_of(trees: Seq<(int, OutlineItemV)>) -> Seq<OutlineItemV> {
    trees.map_values(|t: (int, OutlineItemV)| t.1)
}

/// The trees that a list of items with their depths stands for: each item has
/// as its children the trees that follow it at once at a greater depth.
pub open spec fn nested(flat: Seq<(int, OutlineItemV)>) -> Seq<(int, OutlineItemV)>
    decreases flat.len(),
{
    if flat.len() == 0 {
        Seq::empty()
    } else {
        let rest = nested(flat.skip(1));
        let (depth, item) = flat[0];
        let count = deeper(rest, depth) as int;
        seq![
            (depth, OutlineItemV { children: items_of(rest.take(count)), ..item }),
        ] + rest.skip(count)
    }
}

/// The top-level items of a document's outline.
pub open spec fn outline_of(src: SourceV, trailer: Map<Seq<char>, ObjectV>) -> Seq<OutlineItemV> {
    match tree::catalog_dict(src, trailer, "Outlines"@) {
        Some(outlines) => match object::lookup(outlines, "First"@) {
            Some(first) => items_of(
                nested(
                    items_from(src, seq![(first, 0)], Set::empty(), MAX_OUTLINE_ITEMS as nat),
                ),
            ),
            None => Seq::empty(),
        },
        None => Seq::empty(),
    }
}

/// The `/D` of a `/GoTo` action in the item's `/A`.
fn action_destination<S: ObjectSource>(src: &S, dict: &Dict) -> (out: Option<Object>)
    requires
        object::lookup(dict@, "Dest"@) is None,
    ensures
        object::owned_view(out) == destination_of(src.model(), dict@),
{
    let action = match (Entries { src, dict }).sub_dict("A") {
        Some(action) => action,
        None => {
            return None;
        },
    };
    match (Entries { src, dict: &action }).name("S") {
        Some(kind) => if text::same(kind.as_str(), "GoTo") {
            match action.get("D") {
                Some(d) => Some(d.clone()),
                None => None,
            }
        } else {
            None
        },
        None => None,
    }
}

/// A number drawn into the range from 0 to 1.
fn clamped(value: Real) -> (out: Real)
    ensures
        out.bits == unit_clamped(value.bits),
{
    if value.bits % SIGN_BIT > INFINITY_BITS {
        value
    } else if value.is_below(Real { bits: 0 }) {
        Real { bits: 0 }
    } else if (Real { bits: ONE_BITS }).is_below(value) {
        Real { bits: ONE_BITS }
    } else {
        value
    }
}

/// A component of a colour from a number.
fn component(value: Real) -> (out: Single)
    ensures
        out.bits == component_of(value.bits as nat),
{
    Single::from_real(clamped(value))
}

/// An array of three numbers in the range 0 to 1 as a colour; black for
/// anything else.
fn rgb(o: Option<&Object>) -> (out: [Single; 3])
    ensures
        (out@[0].bits, out@[1].bits, out@[2].bits) == color_of(object::opt_view(o)),
{
    let black = Single { bits: 0 };
    if let Some(Object::Array(items)) = o {
        if items.len() == 3 {
            let ghost all = object::objects_view(items@);
            assert(all[0] == items@[0]@ && all[1] == items@[1]@ && all[2] == items@[2]@);
            return match (items[0].as_f64(), items[1].as_f64(), items[2].as_f64()) {
                (Some(r), Some(g), Some(b)) => [component(r), component(g), component(b)],
                _ => [black, black, black],
            };
        }
    }
    [black, black, black]
}

/// One item's own entries, children left empty.
fn read_item<S: ObjectSource>(src: &S, dict: &Dict) -> (out: OutlineItem)
    ensures
        out@ == item_of(src.model(), dict@),
{
    let entries = Entries { src, dict };
    let title = match entries.text("Title") {
        Some(title) => title,
        None => String::new(),
    };
    let destination = match dict.get("Dest") {
        Some(dest) => Some(dest.clone()),
        None => action_destination(src, dict),
    };
    let open = match entries.integer("Count") {
        Some(count) => count > 0,
        None => false,
    };
    let color = entries.value("C");
    let flags: i64 = match entries.integer("F") {
        Some(flags) => flags,
        None => 0,
    };
    proof {
        assert((flags & 1 != 0) == (flags % 2 == 1)) by (bit_vector);
        assert((flags & 2 != 0) == (flags / 2 % 2 == 1)) by (bit_vector);
    }
    let out = OutlineItem {
        title,
        destination,
        open,
        color: rgb(color.as_ref()),
        italic: flags & 1 != 0,
        bold: flags & 2 != 0,
        structure_element: entries.reference("SE"),
        children: Vec::new(),
    };
    proof {
        assert(items_view(out.children@) =~= Seq::<OutlineItemV>::empty());
        assert(out@ =~= item_of(src.model(), dict@));
    }
    out
}

/// The models of items in a row with their depths.
spec fn flat_view(flat: Seq<(usize, OutlineItem)>) -> Seq<(int, OutlineItemV)> {
    Seq::new(flat.len(), |i: int| (flat[i].0 as int, flat[i].1@))
}

/// The models of waiting nodes with their depths.
spec fn waiting_view(stack: Seq<(Object, usize)>) -> Seq<(ObjectV, int)> {
    Seq::new(stack.len(), |i: int| (stack[i].0@, stack[i].1 as int))
}

proof fn lemma_deeper(trees: Seq<(int, OutlineItemV)>, depth: int, count: int)
    requires
        0 <= count <= trees.len(),
        forall|i: int| 0 <= i < count ==> (#[trigger] trees[i]).0 > depth,
        count < trees.len() ==> trees[count].0 <= depth,
    ensures
        deeper(trees, depth) == count,
    decreases trees.len(),
{
    if count > 0 {
        let rest = trees.skip(1);
        assert forall|i: int| 0 <= i < count - 1 implies (#[trigger] rest[i]).0 > depth by {
            assert(rest[i] == trees[i + 1]);
        }
        assert(trees[0].0 > depth);
        lemma_deeper(rest, depth, count - 1);
    }
}

/// One item more at the front takes the deeper trees behind it as its children.
proof fn lemma_nest_step(
    all: Seq<(int, OutlineItemV)>,
    n: int,
    right: Seq<(int, OutlineItemV)>,
    count: int,
    built: OutlineItemV,
)
    requires
        0 <= n < all.len(),
        right == nested(all.skip(n + 1)),
        deeper(right, all[n].0) == count,
        built == (OutlineItemV { children: items_of(right.take(count)), ..all[n].1 }),
    ensures
        nested(all.skip(n)) == seq![(all[n].0, built)] + right.skip(count),
{
    assert(all.skip(n).skip(1) =~= all.skip(n + 1));
    assert(all.skip(n)[0] == all[n]);
}

/// Rebuilds the trees from a list of items with their depths, each item before
/// what is below it.
#[verifier::spinoff_prover]
#[verifier::rlimit(40)]
fn nest(flat: Vec<(usize, OutlineItem)>) -> (out: Vec<OutlineItem>)
    ensures
        items_view(out@) == items_of(nested(flat_view(flat@))),
{
    let ghost all = flat_view(flat@);
    let mut flat = flat;
    // The trees to the right of what is left of `flat`, the first of them last.
    let mut trees: Vec<(usize, OutlineItem)> = Vec::new();
    proof {
        assert(all.skip(all.len() as int) =~= Seq::<(int, OutlineItemV)>::empty());
        assert(flat_view(trees@).reverse() =~= nested(all.skip(all.len() as int)));
        assert(flat_view(flat@) =~= all.take(all.len() as int));
    }
    while flat.len() > 0
        invariant
            flat@.len() <= all.len(),
            flat_view(flat@) == all.take(flat@.len() as int),
            flat_view(trees@).reverse() == nested(all.skip(flat@.len() as int)),
        decreases flat@.len(),
    {
        let ghost n = flat@.len() - 1;
        let ghost right = flat_view(trees@).reverse();
        let ghost some = flat_view(flat@);
        if let Some((depth, item)) = flat.pop() {
            proof {
                assert(some[n] == (depth as int, item@));
                assert(all[n] == some[n]);
                assert(flat_view(flat@) =~= all.take(n));
            }
            let mut children: Vec<OutlineItem> = Vec::new();
            let ghost whole = trees@;
            assert(items_view(children@) =~= items_of(right.take(0)));
            while trees.len() > 0 && trees[trees.len() - 1].0 > depth
                invariant
                    children@.len() + trees@.len() == whole.len(),
                    trees@ == whole.take(trees@.len() as int),
                    right == flat_view(whole).reverse(),
                    items_view(children@) == items_of(right.take(children@.len() as int)),
                    forall|i: int|
                        0 <= i < children@.len() ==> (#[trigger] right[i]).0 > depth,
                decreases trees@.len(),
            {
                let ghost m = trees@.len() - 1;
                let ghost taken = children@.len() as int;
                let ghost before = items_view(children@);
                if let Some((deep, child)) = trees.pop() {
                    proof {
                        assert(right[taken] == (deep as int, child@));
                        assert(trees@ =~= whole.take(m));
                    }
                    children.push(child);
                    proof {
                        assert(items_view(children@) =~= before.push(child@));
                        assert(items_of(right.take(taken + 1)) =~= items_of(
                            right.take(taken),
                        ).push(child@));
                    }
                }
            }
            let ghost count = children@.len() as int;
            proof {
                if trees@.len() > 0 {
                    assert(right[count] == (trees@[trees@.len() - 1].0 as int, trees@[
                        trees@.len() - 1
                    ].1@));
                }
                lemma_deeper(right, depth as int, count);
            }
            let mut item = item;
            item.children = children;
            let ghost under = trees@;
            trees.push((depth, item));
            proof {
                assert(item@ =~= (OutlineItemV { children: items_of(right.take(count)), ..all[n].1
                }));
                assert(flat_view(under).reverse() =~= right.skip(count));
                assert(flat_view(trees@).reverse() =~= seq![(depth as int, item@)] + right.skip(
                    count,
                ));
                lemma_nest_step(all, n, right, count, item@);
            }
        }
    }
    let ghost forest = nested(all);
    proof {
        assert(all.skip(0) =~= all);
    }
    let ghost whole = trees@;
    let mut out: Vec<OutlineItem> = Vec::new();
    assert(items_view(out@) =~= items_of(forest.take(0)));
    while trees.len() > 0
        invariant
            out@.len() + trees@.len() == whole.len(),
            trees@ == whole.take(trees@.len() as int),
            forest == flat_view(whole).reverse(),
            items_view(out@) == items_of(forest.take(out@.len() as int)),
        decreases trees@.len(),
    {
        let ghost m = trees@.len() - 1;
        let ghost taken = out@.len() as int;
        let ghost before = items_view(out@);
        if let Some((depth, item)) = trees.pop() {
            proof {
                assert(forest[taken] == (depth as int, item@));
                assert(trees@ =~= whole.take(m));
            }
            out.push(item);
            proof {
                assert(items_view(out@) =~= before.push(item@));
                assert(items_of(forest.take(taken + 1)) =~= items_of(forest.take(taken)).push(
                    item@,
                ));
            }
        }
    }
    assert(forest.take(out@.len() as int) =~= forest);
    out
}

/// Puts what a node links to on the stack.
fn push_links(stack: &mut Vec<(Object, usize)>, dict: &Dict, depth: usize)
    ensures
        waiting_view(final(stack)@) == waiting_view(old(stack)@) + links_of(dict@, depth as int),
{
    let ghost before = waiting_view(stack@);
    if let Some(next) = dict.get("Next") {
        stack.push((next.clone(), depth));
        assert(waiting_view(stack@) =~= before.push((next@, depth as int)));
    }
    let ghost more = waiting_view(stack@);
    if depth < MAX_OUTLINE_DEPTH {
        if let Some(first) = dict.get("First") {
            stack.push((first.clone(), depth + 1));
            assert(waiting_view(stack@) =~= more.push((first@, depth + 1)));
        }
    }
    assert(waiting_view(stack@) =~= before + links_of(dict@, depth as int));
}

/// The top-level items of the catalog's `/Outlines`, each with its
/// descendants, in the order of the `/First` and `/Next` chains. Empty when
/// the document has no outline. A node visited twice, or one that is not a
/// dictionary, ends its chain; the walk stops after [`MAX_OUTLINE_ITEMS`]
/// items and does not descend past [`MAX_OUTLINE_DEPTH`].
pub fn outline_with<S: ObjectSource>(src: &S, trailer: &Dict) -> (out: Vec<OutlineItem>)
    ensures
        items_view(out@) == outline_of(src.model(), trailer@),
{
    let none: Vec<OutlineItem> = Vec::new();
    assert(items_view(none@) =~= Seq::<OutlineItemV>::empty());
    let outlines = match dict_in_catalog(src, trailer, "Outlines") {
        Some(outlines) => outlines,
        None => {
            return none;
        },
    };
    let first = match outlines.get("First") {
        Some(first) => first.clone(),
        None => {
            return none;
        },
    };
    let ghost start = first@;
    let ghost total = items_from(
        src.model(),
        seq![(start, 0)],
        Set::empty(),
        MAX_OUTLINE_ITEMS as nat,
    );
    let mut flat: Vec<(usize, OutlineItem)> = Vec::new();
    let mut visited = RefSet::new();
    let mut stack: Vec<(Object, usize)> = Vec::new();
    stack.push((first, 0));
    proof {
        assert(waiting_view(stack@) =~= seq![(start, 0int)]);
        assert(flat_view(flat@) + total =~= total);
    }
    while stack.len() > 0 && flat.len() < MAX_OUTLINE_ITEMS
        invariant
            flat@.len() <= MAX_OUTLINE_ITEMS,
            total == flat_view(flat@) + items_from(
                src.model(),
                waiting_view(stack@),
                visited@,
                (MAX_OUTLINE_ITEMS - flat@.len()) as nat,
            ),
        decreases MAX_OUTLINE_ITEMS - flat@.len(), stack@.len(),
    {
        let ghost waiting = waiting_view(stack@);
        let ghost read = flat_view(flat@);
        let ghost seen = visited@;
        if let Some((node, depth)) = stack.pop() {
            proof {
                assert(waiting.last() == (node@, depth as int));
                assert(waiting_view(stack@) =~= waiting.drop_last());
            }
            let fresh = match node.as_ref() {
                Some(r) => visited.insert(r),
                None => true,
            };
            if fresh {
                if let Some(dict) = resolved_dict(src, &node) {
                    push_links(&mut stack, &dict, depth);
                    let item = read_item(src, &dict);
                    flat.push((depth, item));
                    proof {
                        assert(flat_view(flat@) =~= read + seq![(depth as int, item@)]);
                        assert(items_from(
                            src.model(),
                            waiting,
                            seen,
                            (MAX_OUTLINE_ITEMS - read.len()) as nat,
                        ) == seq![(depth as int, item@)] + items_from(
                            src.model(),
                            waiting_view(stack@),
                            visited@,
                            (MAX_OUTLINE_ITEMS - flat@.len()) as nat,
                        ));
                    }
                }
            } else {
                assert(visited@ =~= seen);
            }
        }
    }
    assert(flat_view(flat@) =~= total);
    nest(flat)
}

/// An item without its children.
pub open spec fn bare(item: OutlineItemV) -> OutlineItemV {
    OutlineItemV { children: Seq::empty(), ..item }
}

/// All items of trees, each before those below it, without their children.
pub open spec fn preorder(items: Seq<OutlineItemV>) -> Seq<OutlineItemV>
    decreases items,
{
    if items.len() == 0 {
        Seq::empty()
    } else {
        proof {
            assert(decreases_to!(items => items[0]));
            assert(decreases_to!(items[0] => items[0].children));
            assert(decreases_to!(items => items.subrange(1, items.len() as int)));
        }
        seq![bare(items[0])] + preorder(items[0].children) + preorder(
            items.subrange(1, items.len() as int),
        )
    }
}

proof fn lemma_preorder_append(a: Seq<OutlineItemV>, b: Seq<OutlineItemV>)
    ensures
        preorder(a + b) == preorder(a) + preorder(b),
    decreases a.len(),
{
    if a.len() == 0 {
        assert(a + b =~= b);
        assert(preorder(a) + preorder(b) =~= preorder(b));
    } else {
        let tail = a.subrange(1, a.len() as int);
        lemma_preorder_append(tail, b);
        assert((a + b)[0] == a[0]);
        assert((a + b).subrange(1, (a + b).len() as int) =~= tail + b);
        assert(preorder(a + b) =~= preorder(a) + preorder(b));
    }
}

/// Nesting keeps every item of the list, in its order.
pub proof fn nesting_keeps_every_item(flat: Seq<(int, OutlineItemV)>)
    ensures
        preorder(items_of(nested(flat))) == flat.map_values(|t: (int, OutlineItemV)| bare(t.1)),
    decreases flat.len(),
{
    let want = flat.map_values(|t: (int, OutlineItemV)| bare(t.1));
    if flat.len() == 0 {
        assert(items_of(nested(flat)) =~= Seq::<OutlineItemV>::empty());
        assert(want =~= Seq::<OutlineItemV>::empty());
    } else {
        let rest = nested(flat.skip(1));
        let (depth, item) = flat[0];
        let count = deeper(rest, depth) as int;
        lemma_deeper_bound(rest, depth);
        nesting_keeps_every_item(flat.skip(1));
        let taken = items_of(rest.take(count));
        let left = items_of(rest.skip(count));
        lemma_preorder_append(taken, left);
        assert(items_of(rest) =~= taken + left);
        let trees = items_of(nested(flat));
        assert(trees[0] == OutlineItemV { children: taken, ..item });
        assert(trees.subrange(1, trees.len() as int) =~= left);
        assert(bare(trees[0]) == bare(item));
        assert(preorder(trees) == seq![bare(item)] + preorder(taken) + preorder(left));
        assert(preorder(trees) =~= seq![bare(item)] + preorder(items_of(rest)));
        assert(want =~= seq![bare(item)] + flat.skip(1).map_values(
            |t: (int, OutlineItemV)| bare(t.1),
        ));
    }
}

proof fn lemma_deeper_bound(trees: Seq<(int, OutlineItemV)>, depth: int)
    ensures
        deeper(trees, depth) <= trees.len(),
    decreases trees.len(),
{
    if trees.len() > 0 && trees[0].0 > depth {
        lemma_deeper_bound(trees.skip(1), depth);
    }
}

/// However the nodes of an outline link to one another, the walk reads no more
/// items than its limit and none of them deeper than the nesting limit.
pub proof fn outlines_are_bounded(
    src: SourceV,
    stack: Seq<(ObjectV, int)>,
    seen: Set<ObjRef>,
    left: nat,
)
    requires
        forall|i: int|
            0 <= i < stack.len() ==> 0 <= (#[trigger] stack[i]).1 <= MAX_OUTLINE_DEPTH,
    ensures
        items_from(src, stack, seen, left).len() <= left,
        forall|i: int|
            0 <= i < items_from(src, stack, seen, left).len() ==> 0 <= (#[trigger] items_from(
                src,
                stack,
                seen,
                left,
            )[i]).0 <= MAX_OUTLINE_DEPTH,
    decreases left, stack.len(),
{
    if stack.len() > 0 && left > 0 {
        let (node, depth) = stack.last();
        let rest = stack.drop_last();
        let met = match node {
            ObjectV::Ref(r) => seen.contains(r),
            _ => false,
        };
        let now = match node {
            ObjectV::Ref(r) => seen.insert(r),
            _ => seen,
        };
        assert(stack[stack.len() - 1] == (node, depth));
        assert forall|i: int| 0 <= i < rest.len() implies 0 <= (#[trigger] rest[i]).1
            <= MAX_OUTLINE_DEPTH by {
            assert(rest[i] == stack[i]);
        }
        if met {
            outlines_are_bounded(src, rest, seen, left);
        } else {
            match tree::dict_at(src, node) {
                Some(d) => {
                    let next = rest + links_of(d, depth);
                    assert forall|i: int| 0 <= i < next.len() implies 0 <= (#[trigger] next[i]).1
                        <= MAX_OUTLINE_DEPTH by {
                        if i < rest.len() {
                            assert(next[i] == rest[i]);
                        }
                    }
                    outlines_are_bounded(src, next, now, (left - 1) as nat);
                    let later = items_from(src, next, now, (left - 1) as nat);
                    let all = items_from(src, stack, seen, left);
                    assert forall|i: int| 0 <= i < all.len() implies 0 <= (#[trigger] all[i]).0
                        <= MAX_OUTLINE_DEPTH by {
                        if i > 0 {
                            assert(all[i] == later[i - 1]);
                        }
                    }
                },
                None => {
                    outlines_are_bounded(src, rest, now, left);
                },
            }
        }
    }
}

/// Whether a component lies between 0 and 1, unless it is no number at all.
pub open spec fn in_unit_range(bits: u32) -> bool {
    single::is_nan(bits) || 0 <= single::line_position(bits) <= single::ONE_BITS
}

proof fn lemma_component_in_range(bits: nat)
    ensures
        in_unit_range(component_of(bits)),
{
    let drawn = unit_clamped(bits as u64);
    if !number::is_nan(bits as u64) {
        single::zero_and_one_stay();
        single::narrowing_keeps_order(0, drawn);
        single::narrowing_keeps_order(drawn, ONE_BITS);
    }
}

/// Law: the components of a colour lie between 0 and 1, whatever numbers the
/// document gives, unless one is no number at all.
pub proof fn colors_lie_in_range(value: Option<ObjectV>)
    ensures
        in_unit_range(color_of(value).0),
        in_unit_range(color_of(value).1),
        in_unit_range(color_of(value).2),
{
    if let Some(ObjectV::Array(items)) = value {
        if items.len() == 3 {
            if let (Some(r), Some(g), Some(b)) = (
                items[0].number(),
                items[1].number(),
                items[2].number(),
            ) {
                lemma_component_in_range(r);
                lemma_component_in_range(g);
                lemma_component_in_range(b);
            }
        }
    }
}

/// Law: what an item's own entries say: it is open when its count is positive,
/// and its flags are italic with the bit of weight one and bold with the bit of
/// weight two. Its destination is its `/Dest`, or the `/D` of an action that
/// goes to one.
pub proof fn items_say_what_is_written(
    src: SourceV,
    d: Map<Seq<char>, ObjectV>,
    title: Seq<u8>,
    count: i64,
    flags: i64,
    action: Map<Seq<char>, ObjectV>,
    target: ObjectV,
    kind: Seq<char>,
)
    requires
        d.contains_key("Title"@) && d["Title"@] == ObjectV::String(title),
        d.contains_key("Count"@) && d["Count"@] == ObjectV::Int(count),
        d.contains_key("F"@) && d["F"@] == ObjectV::Int(flags),
        action.contains_key("S"@) && action["S"@] == ObjectV::Name(kind),
        action.contains_key("D"@) && action["D"@] == target,
    ensures
        item_of(src, d).title == object::text_chars(title),
        item_of(src, d).open == (count > 0),
        item_of(src, d).italic == (flags & 1 != 0),
        item_of(src, d).bold == (flags & 2 != 0),
        d.contains_key("Dest"@) ==> item_of(src, d).destination == Some(d["Dest"@]),
        !d.contains_key("Dest"@) && d.contains_key("A"@) && d["A"@] == ObjectV::Dict(action) ==> (
        item_of(src, d).destination == (if kind == "GoTo"@ {
            Some(target)
        } else {
            None
        })),
        !d.contains_key("Dest"@) && !d.contains_key("A"@) ==> item_of(src, d).destination is None,
        item_of(src, d).children.len() == 0,
{
    assert((flags & 1 != 0) == (flags % 2 == 1)) by (bit_vector);
    assert((flags & 2 != 0) == (flags / 2 % 2 == 1)) by (bit_vector);
}

/// Law: a colour of three numbers keeps their order; each is narrowed to single
/// precision, those below 0 to 0 and those above 1 to 1. Anything else is black.
pub proof fn colors_are_clamped_and_narrowed(r: Real, g: Real, b: Real, odd: Seq<ObjectV>)
    requires
        !number::is_nan(r.bits),
        !number::is_nan(g.bits),
        !number::is_nan(b.bits),
        odd.len() != 3,
    ensures
        ({
            let color = color_of(
                Some(ObjectV::Array(seq![ObjectV::Real(r), ObjectV::Real(g), ObjectV::Real(b)])),
            );
            let one = number::line_position(ONE_BITS);
            let part = |v: Real|
                if number::line_position(v.bits) < 0 {
                    0u32
                } else if number::line_position(v.bits) > one {
                    0x3f80_0000u32
                } else {
                    single::narrowed(v.bits) as u32
                };
            color == (part(r), part(g), part(b))
        }),
        color_of(Some(ObjectV::Array(odd))) == (0u32, 0u32, 0u32),
        color_of(None) == (0u32, 0u32, 0u32),
{
    single::zero_and_one_stay();
    let items = seq![ObjectV::Real(r), ObjectV::Real(g), ObjectV::Real(b)];
    assert(items[0].number() == Some(r.bits as nat));
    assert(items[1].number() == Some(g.bits as nat));
    assert(items[2].number() == Some(b.bits as nat));
}

/// Whether every item lies deeper than `depth`.
pub open spec fn all_deeper(flat: Seq<(int, OutlineItemV)>, depth: int) -> bool {
    forall|i: int| 0 <= i < flat.len() ==> (#[trigger] flat[i]).0 > depth
}

proof fn lemma_deeper_all(trees: Seq<(int, OutlineItemV)>, rest: Seq<(int, OutlineItemV)>, depth: int)
    requires
        all_deeper(trees, depth),
        rest.len() == 0 || rest[0].0 <= depth,
    ensures
        deeper(trees + rest, depth) == trees.len(),
    decreases trees.len(),
{
    let all = trees + rest;
    if trees.len() > 0 {
        assert(trees[0].0 > depth);
        assert(all[0] == trees[0]);
        let tail = trees.skip(1);
        assert(forall|i: int| 0 <= i < tail.len() ==> #[trigger] tail[i] == trees[i + 1]);
        lemma_deeper_all(tail, rest, depth);
        assert(all.skip(1) =~= tail + rest);
    } else {
        assert(all =~= rest);
    }
}

proof fn lemma_nested_deeper(flat: Seq<(int, OutlineItemV)>, depth: int)
    requires
        all_deeper(flat, depth),
    ensures
        all_deeper(nested(flat), depth),
    decreases flat.len(),
{
    if flat.len() > 0 {
        assert(flat[0].0 > depth);
        let tail = flat.skip(1);
        assert(forall|i: int| 0 <= i < tail.len() ==> #[trigger] tail[i] == flat[i + 1]);
        lemma_nested_deeper(tail, depth);
        let rest = nested(tail);
        let count = deeper(rest, flat[0].0) as int;
        lemma_deeper_bound(rest, flat[0].0);
        let out = nested(flat);
        assert forall|i: int| 0 <= i < out.len() implies (#[trigger] out[i]).0 > depth by {
            if i > 0 {
                assert(out[i] == rest[count + i - 1]);
            }
        }
    }
}

/// Items deeper than what follows nest by themselves.
proof fn lemma_nested_split(
    below: Seq<(int, OutlineItemV)>,
    rest: Seq<(int, OutlineItemV)>,
    depth: int,
)
    requires
        all_deeper(below, depth),
        rest.len() == 0 || rest[0].0 <= depth,
    ensures
        nested(below + rest) == nested(below) + nested(rest),
        nested(rest).len() == 0 || nested(rest)[0].0 <= depth,
    decreases below.len(),
{
    let all = below + rest;
    if below.len() == 0 {
        assert(all =~= rest);
        assert(nested(below) + nested(rest) =~= nested(rest));
    } else {
        let tail = below.skip(1);
        assert(forall|i: int| 0 <= i < tail.len() ==> #[trigger] tail[i] == below[i + 1]);
        lemma_nested_split(tail, rest, depth);
        assert(all.skip(1) =~= tail + rest);
        assert(all[0] == below[0]);
        assert(below[0].0 > depth);
        let a = nested(tail);
        let b = nested(rest);
        let at = below[0].0;
        lemma_deeper_prefix(a, b, at);
        lemma_deeper_bound(a, at);
        let count = deeper(a, at) as int;
        assert((a + b).take(count) =~= a.take(count));
        assert((a + b).skip(count) =~= a.skip(count) + b);
        assert(nested(all) =~= nested(below) + b);
    }
}

/// What follows at no greater depth adds nothing to the deeper ones.
proof fn lemma_deeper_prefix(
    trees: Seq<(int, OutlineItemV)>,
    rest: Seq<(int, OutlineItemV)>,
    depth: int,
)
    requires
        rest.len() == 0 || rest[0].0 <= depth,
    ensures
        deeper(trees + rest, depth) == deeper(trees, depth),
    decreases trees.len(),
{
    let all = trees + rest;
    if trees.len() > 0 {
        assert(all[0] == trees[0]);
        if trees[0].0 > depth {
            lemma_deeper_prefix(trees.skip(1), rest, depth);
            assert(all.skip(1) =~= trees.skip(1) + rest);
        }
    } else {
        assert(all =~= rest);
    }
}

/// Law: the items that follow an item at a greater depth, up to the first that
/// does not, become its children, nested by themselves; the others follow it.
pub proof fn deeper_items_become_children(
    depth: int,
    item: OutlineItemV,
    below: Seq<(int, OutlineItemV)>,
    rest: Seq<(int, OutlineItemV)>,
)
    requires
        all_deeper(below, depth),
        rest.len() == 0 || rest[0].0 <= depth,
    ensures
        nested(seq![(depth, item)] + (below + rest)) == seq![
            (depth, OutlineItemV { children: items_of(nested(below)), ..item }),
        ] + nested(rest),
{
    let flat = seq![(depth, item)] + (below + rest);
    assert(flat.skip(1) =~= below + rest);
    assert(flat[0] == (depth, item));
    lemma_nested_split(below, rest, depth);
    lemma_nested_deeper(below, depth);
    let a = nested(below);
    let b = nested(rest);
    lemma_deeper_all(a, b, depth);
    assert((a + b).take(a.len() as int) =~= a);
    assert((a + b).skip(a.len() as int) =~= b);
}

/// Law: an item comes before those under it and those under it before its next
/// sibling; what is under it is one deeper.
pub proof fn items_come_before_those_under_them(
    src: SourceV,
    stack: Seq<(ObjectV, int)>,
    seen: Set<ObjRef>,
    left: nat,
    d: Map<Seq<char>, ObjectV>,
    depth: int,
    first: ObjectV,
    next: ObjectV,
)
    requires
        left > 0,
        depth < 64,
        d.contains_key("First"@) && d["First"@] == first,
        d.contains_key("Next"@) && d["Next"@] == next,
    ensures
        items_from(src, stack.push((ObjectV::Dict(d), depth)), seen, left) == seq![
            (depth, item_of(src, d)),
        ] + items_from(
            src,
            stack.push((next, depth)).push((first, depth + 1)),
            seen,
            (left - 1) as nat,
        ),
{
    let all = stack.push((ObjectV::Dict(d), depth));
    assert(all.last() == (ObjectV::Dict(d), depth));
    assert(all.drop_last() =~= stack);
    assert(stack + links_of(d, depth) =~= stack.push((next, depth)).push((first, depth + 1)));
}

/// Law: below the sixty-fourth level nothing is read but the next siblings.
pub proof fn deep_levels_are_left_out(
    src: SourceV,
    stack: Seq<(ObjectV, int)>,
    seen: Set<ObjRef>,
    left: nat,
    d: Map<Seq<char>, ObjectV>,
    depth: int,
    next: ObjectV,
)
    requires
        left > 0,
        depth >= 64,
        d.contains_key("Next"@) && d["Next"@] == next,
    ensures
        items_from(src, stack.push((ObjectV::Dict(d), depth)), seen, left) == seq![
            (depth, item_of(src, d)),
        ] + items_from(src, stack.push((next, depth)), seen, (left - 1) as nat),
{
    let all = stack.push((ObjectV::Dict(d), depth));
    assert(all.last() == (ObjectV::Dict(d), depth));
    assert(all.drop_last() =~= stack);
    assert(stack + links_of(d, depth) =~= stack.push((next, depth)));
}

/// Law: a node that was read before, and what is no dictionary, ends its chain
/// and leaves what waited.
pub proof fn repeated_nodes_end_their_chain(
    src: SourceV,
    stack: Seq<(ObjectV, int)>,
    seen: Set<ObjRef>,
    left: nat,
    r: ObjRef,
    depth: int,
)
    requires
        left > 0,
    ensures
        seen.contains(r) ==> items_from(src, stack.push((ObjectV::Ref(r), depth)), seen, left)
            == items_from(src, stack, seen, left),
        items_from(src, stack.push((ObjectV::Null, depth)), seen, left) == items_from(
            src,
            stack,
            seen,
            left,
        ),
{
    let a = stack.push((ObjectV::Ref(r), depth));
    let b = stack.push((ObjectV::Null, depth));
    assert(a.drop_last() =~= stack && a.last() == (ObjectV::Ref(r), depth));
    assert(b.drop_last() =~= stack && b.last() == (ObjectV::Null, depth));
}

/// Law: the outline is read from the first item the catalog's outline dictionary
/// names, up to 65536 items.
pub proof fn the_outline_starts_at_its_first_item(
    src: SourceV,
    trailer: Map<Seq<char>, ObjectV>,
    catalog: Map<Seq<char>, ObjectV>,
    outlines: Map<Seq<char>, ObjectV>,
    first: ObjectV,
)
    requires
        tree::has(trailer, "Root"@, ObjectV::Dict(catalog)),
    ensures
        tree::has(catalog, "Outlines"@, ObjectV::Dict(outlines)) && tree::has(
            outlines,
            "First"@,
            first,
        ) ==> outline_of(src, trailer) == items_of(
            nested(items_from(src, seq![(first, 0)], Set::empty(), 65536)),
        ),
        !catalog.contains_key("Outlines"@) ==> outline_of(src, trailer).len() == 0,
        tree::has(catalog, "Outlines"@, ObjectV::Dict(outlines)) && !outlines.contains_key("First"@)
            ==> outline_of(src, trailer).len() == 0,
{
}

} // verus!
