//! Permissions: the catalog's `/Perms` dictionary, one signature dictionary
//! per permission handler, read as data.

use crate::form::Signature;
use crate::object::{Dict, ObjRef, ObjectV};
use crate::source;
use crate::source::{ObjectSource, SourceV};
use crate::tree;
use crate::tree::{dict_in_catalog, Entries};
use vstd::prelude::*;

verus! {

/// The permission handlers the catalog's `/Perms` dictionary names, each a
/// signature dictionary read as data. Whether the signatures verify, and the
/// permissions they carry in their transform parameters, are not evaluated.
#[derive(Debug, Clone, PartialEq, Eq)]
pub struct PermissionHandlers {
    /// `/DocMDP`: the certifying signature whose DocMDP transform parameters
    /// say what changes the document allows.
    pub doc_mdp: Option<Signature>,
    /// `/UR3`: the usage rights signature that grants a conforming reader
    /// features it does not enable by default.
    pub usage_rights: Option<Signature>,
}

impl Default for PermissionHandlers {
    fn default() -> (out: PermissionHandlers)
        ensures
            out.doc_mdp is None,
            out.usage_rights is None,
    {
        PermissionHandlers { doc_mdp: None, usage_rights: None }
    }
}

/// Whether a signature is what the dictionary under `key` says.
pub open spec fn signature_under(
    signature: Option<Signature>,
    src: SourceV,
    perms: Map<Seq<char>, ObjectV>,
    key: Seq<char>,
) -> bool {
    match tree::entry_dict(src, perms, key) {
        Some(d) => signature matches Some(s) && s.reads(d),
        None => signature is None,
    }
}

/// The signature dictionary under `key`.
fn signature_at<S: ObjectSource>(src: &S, perms: &Dict, key: &str) -> (out: Option<Signature>)
    ensures
        signature_under(out, src.model(), perms@, key@),
{
    match (Entries { src, dict: perms }).sub_dict(key) {
        Some(dict) => Some(Signature::from_dict(&dict)),
        None => None,
    }
}

/// The permission handlers of the catalog's `/Perms` dictionary: `None`
/// when the catalog has no `/Perms` dictionary; a handler entry that is no
/// dictionary reads as absent. `/DocMDP` is meant to be written by reference;
/// a direct dictionary is accepted as well.
pub fn permission_handlers_with<S: ObjectSource>(src: &S, trailer: &Dict) -> (out: Option<
    PermissionHandlers,
>)
    ensures
        match tree::catalog_dict(src.model(), trailer@, "Perms"@) {
            Some(perms) => out matches Some(handlers) && signature_under(
                handlers.doc_mdp,
                src.model(),
                perms,
                "DocMDP"@,
            ) && signature_under(handlers.usage_rights, src.model(), perms, "UR3"@),
            None => out is None,
        },
{
    match dict_in_catalog(src, trailer, "Perms") {
        Some(perms) => Some(
            PermissionHandlers {
                doc_mdp: signature_at(src, &perms, "DocMDP"),
                usage_rights: signature_at(src, &perms, "UR3"),
            },
        ),
        None => None,
    }
}

/// Law: a handler is what the dictionary under its key says, whether that is
/// written in place or behind a reference; an entry of another kind is none.
pub proof fn handlers_stand_under_their_keys(
    signature: Option<Signature>,
    src: SourceV,
    perms: Map<Seq<char>, ObjectV>,
    key: Seq<char>,
    r: ObjRef,
    d: Map<Seq<char>, ObjectV>,
)
    requires
        signature_under(signature, src, perms, key),
    ensures
        tree::has(perms, key, ObjectV::Dict(d)) ==> (signature matches Some(s) && s.reads(d)),
        tree::has(perms, key, ObjectV::Ref(r)) && (src.fetched)(r) == Ok::<
            ObjectV,
            source::FaultV,
        >(ObjectV::Dict(d)) ==> (signature matches Some(s) && s.reads(d)),
        tree::has(perms, key, ObjectV::Null) ==> signature is None,
        !perms.contains_key(key) ==> signature is None,
{
    source::references_lead_on(src, r, ObjectV::Dict(d), 32, 0);
}

} // verus!
