//! The document's name dictionary: the catalog's `/Names` entry, whose entries
//! are the roots of name trees, one per category of object that can be referred
//! to by name.

use crate::filters::dict_opt;
use crate::object;
use crate::object::{Dict, Object, ObjectV};
use crate::source;
use crate::source::{ObjectSource, SourceV};
use crate::tree;
use crate::tree::{dict_in_catalog, Entries};
use vstd::prelude::*;

verus! {

/// The name trees, named by their key in the name dictionary.
#[derive(Debug, Clone, Copy, PartialEq, Eq, Hash, Structural)]
pub enum NameTree {
    /// `/Dests`: name strings to destinations.
    Dests,
    /// `/AP`: name strings to annotation appearance streams.
    Ap,
    /// `/JavaScript`: name strings to document-level JavaScript actions.
    JavaScript,
    /// `/Pages`: name strings to visible pages used as templates.
    Pages,
    /// `/Templates`: name strings to invisible template pages.
    Templates,
    /// `/IDS`: digital identifiers to Web Capture content sets.
    Ids,
    /// `/URLS`: URLs to Web Capture content sets.
    Urls,
    /// `/EmbeddedFiles`: name strings to file specifications.
    EmbeddedFiles,
    /// `/AlternatePresentations`: name strings to alternate presentations.
    AlternatePresentations,
    /// `/Renditions`: name strings to rendition objects.
    Renditions,
}

/// The key of a tree in the name dictionary.
pub open spec fn tree_key(tree: NameTree) -> Seq<char> {
    match tree {
        NameTree::Dests => "Dests"@,
        NameTree::Ap => "AP"@,
        NameTree::JavaScript => "JavaScript"@,
        NameTree::Pages => "Pages"@,
        NameTree::Templates => "Templates"@,
        NameTree::Ids => "IDS"@,
        NameTree::Urls => "URLS"@,
        NameTree::EmbeddedFiles => "EmbeddedFiles"@,
        NameTree::AlternatePresentations => "AlternatePresentations"@,
        NameTree::Renditions => "Renditions"@,
    }
}

impl NameTree {
    /// Every tree, in the order of the name dictionary's keys.
    pub const ALL: [NameTree; 10] = [
        NameTree::Dests,
        NameTree::Ap,
        NameTree::JavaScript,
        NameTree::Pages,
        NameTree::Templates,
        NameTree::Ids,
        NameTree::Urls,
        NameTree::EmbeddedFiles,
        NameTree::AlternatePresentations,
        NameTree::Renditions,
    ];

    /// The tree's key in the name dictionary.
    pub fn key(self) -> (out: &'static str)
        ensures
            out@ == tree_key(self),
    {
        match self {
            NameTree::Dests => "Dests",
            NameTree::Ap => "AP",
            NameTree::JavaScript => "JavaScript",
            NameTree::Pages => "Pages",
            NameTree::Templates => "Templates",
            NameTree::Ids => "IDS",
            NameTree::Urls => "URLS",
            NameTree::EmbeddedFiles => "EmbeddedFiles",
            NameTree::AlternatePresentations => "AlternatePresentations",
            NameTree::Renditions => "Renditions",
        }
    }
}

/// The root node of a tree in the catalog's name dictionary.
pub open spec fn root_of(
    src: SourceV,
    trailer: Map<Seq<char>, ObjectV>,
    tree: NameTree,
) -> Option<Map<Seq<char>, ObjectV>> {
    match tree::catalog_dict(src, trailer, "Names"@) {
        Some(names) => tree::entry_dict(src, names, tree_key(tree)),
        None => None,
    }
}

/// The root node of `tree` in the catalog's name dictionary, or `None`
/// when the catalog, its `/Names` entry or the tree's entry is missing or
/// not a dictionary.
pub fn name_tree_root_with<S: ObjectSource>(src: &S, trailer: &Dict, tree: NameTree) -> (out:
    Option<Dict>)
    ensures
        dict_opt(out) == root_of(src.model(), trailer@, tree),
{
    match dict_in_catalog(src, trailer, "Names") {
        Some(names) => (Entries { src, dict: &names }).sub_dict(tree.key()),
        None => None,
    }
}

/// The object that `key` names in `tree`, resolved; `None` when the tree
/// or the name is absent.
pub fn named_with<S: ObjectSource>(src: &S, trailer: &Dict, tree: NameTree, key: &[u8]) -> (out:
    Option<Object>)
    ensures
        object::owned_view(out) == (match root_of(src.model(), trailer@, tree) {
            Some(root) => match tree::first_named(tree::tree_names(src.model(), root), key@) {
                Some(value) => match source::resolved(src.model(), value) {
                    Ok(o) => Some(o),
                    Err(_) => None,
                },
                None => None,
            },
            None => None,
        }),
{
    match name_tree_root_with(src, trailer, tree) {
        Some(root) => match tree::lookup(src, &root, key) {
            Some(value) => match src.resolve(&value) {
                Ok(o) => Some(o),
                Err(_) => None,
            },
            None => None,
        },
        None => None,
    }
}

/// Every name in `tree` with the object it names, unresolved, in tree
/// order; empty when the tree is absent.
pub fn names_with<S: ObjectSource>(src: &S, trailer: &Dict, tree: NameTree) -> (out: Vec<
    (Vec<u8>, Object),
>)
    ensures
        tree::named_view(out@) == (match root_of(src.model(), trailer@, tree) {
            Some(root) => tree::tree_names(src.model(), root),
            None => Seq::empty(),
        }),
{
    match name_tree_root_with(src, trailer, tree) {
        Some(root) => tree::named_entries(src, &root),
        None => {
            let none: Vec<(Vec<u8>, Object)> = Vec::new();
            assert(tree::named_view(none@) =~= Seq::<(Seq<u8>, ObjectV)>::empty());
            none
        },
    }
}

/// A name that a tree lists is found in it, and a name that is found is listed
/// with the object it names.
pub proof fn listed_names_are_found(pairs: Seq<(Seq<u8>, ObjectV)>, key: Seq<u8>)
    ensures
        tree::first_named(pairs, key) is Some <==> exists|i: int|
            0 <= i < pairs.len() && (#[trigger] pairs[i]).0 == key,
        tree::first_named(pairs, key) matches Some(value) ==> pairs.contains((key, value)),
    decreases pairs.len(),
{
    if pairs.len() > 0 {
        let rest = pairs.skip(1);
        listed_names_are_found(rest, key);
        assert forall|i: int| 0 <= i < rest.len() implies rest[i] == #[trigger] pairs[i + 1] by {}
        if pairs[0].0 == key {
            assert(pairs[0] == (key, pairs[0].1));
        } else {
            if tree::first_named(rest, key) is Some {
                let i = choose|i: int| 0 <= i < rest.len() && (#[trigger] rest[i]).0 == key;
                assert(pairs[i + 1].0 == key);
                let value = tree::first_named(rest, key)->0;
                let j = choose|j: int| 0 <= j < rest.len() && rest[j] == (key, value);
                assert(pairs[j + 1] == (key, value));
            }
            if exists|i: int| 0 <= i < pairs.len() && (#[trigger] pairs[i]).0 == key {
                let i = choose|i: int| 0 <= i < pairs.len() && (#[trigger] pairs[i]).0 == key;
                assert(rest[i - 1].0 == key);
            }
        }
    }
}

/// Law: which entry of the names dictionary holds each name tree.
pub proof fn trees_stand_under_their_keys(
    src: SourceV,
    trailer: Map<Seq<char>, ObjectV>,
    names: Map<Seq<char>, ObjectV>,
    root: Map<Seq<char>, ObjectV>,
    tree: NameTree,
    key: Seq<char>,
)
    requires
        tree::catalog_dict(src, trailer, "Names"@) == Some(names),
        names.contains_key(key),
        names[key] == ObjectV::Dict(root),
        match tree {
            NameTree::Dests => key == "Dests"@,
            NameTree::Ap => key == "AP"@,
            NameTree::JavaScript => key == "JavaScript"@,
            NameTree::Pages => key == "Pages"@,
            NameTree::Templates => key == "Templates"@,
            NameTree::Ids => key == "IDS"@,
            NameTree::Urls => key == "URLS"@,
            NameTree::EmbeddedFiles => key == "EmbeddedFiles"@,
            NameTree::AlternatePresentations => key == "AlternatePresentations"@,
            NameTree::Renditions => key == "Renditions"@,
        },
    ensures
        root_of(src, trailer, tree) == Some(root),
{
    assert(source::resolved(src, ObjectV::Dict(root)) == Ok::<ObjectV, source::FaultV>(
        ObjectV::Dict(root),
    ));
}

} // verus!
