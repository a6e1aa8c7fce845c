//! Legal content attestations: the catalog's `/Legal` dictionary, which counts
//! the content a certifying signature could not vouch for and carries the
//! signer's attestation about it.

use crate::object::{Dict, ObjectV};
use crate::source::{ObjectSource, SourceV};
use crate::tree;
use crate::tree::{dict_in_catalog, Entries};
use vstd::prelude::*;

verus! {

/// The catalog's legal attestation dictionary: how much content of each kind
/// that a certifying signature cannot vouch for the document holds, and the
/// signer's statement about it. Every count is read as written, an absent one
/// as 0; nothing is recounted.
#[derive(Debug, Clone, PartialEq, Eq)]
pub struct LegalAttestation {
    /// `/JavaScriptActions`: JavaScript actions.
    pub java_script_actions: u32,
    /// `/LaunchActions`: launch actions.
    pub launch_actions: u32,
    /// `/URIActions`: URI actions.
    pub uri_actions: u32,
    /// `/MovieActions`: movie actions.
    pub movie_actions: u32,
    /// `/SoundActions`: sound actions.
    pub sound_actions: u32,
    /// `/HideAnnotationActions`: hide actions.
    pub hide_annotation_actions: u32,
    /// `/GoToRemoteActions`: remote go-to actions.
    pub go_to_remote_actions: u32,
    /// `/AlternateImages`: alternate images.
    pub alternate_images: u32,
    /// `/ExternalStreams`: streams read from outside the file.
    pub external_streams: u32,
    /// `/TrueTypeFonts`: TrueType fonts.
    pub true_type_fonts: u32,
    /// `/ExternalRefXobjects`: reference XObjects.
    pub external_ref_xobjects: u32,
    /// `/ExternalOPIdicts`: OPI dictionaries.
    pub external_opi_dicts: u32,
    /// `/NonEmbeddedFonts`: fonts without an embedded program.
    pub non_embedded_fonts: u32,
    /// `/DevDepGS_OP`: graphics state parameter dictionaries setting overprint.
    pub dev_dep_gs_op: u32,
    /// `/DevDepGS_HT`: graphics state parameter dictionaries with a halftone.
    pub dev_dep_gs_ht: u32,
    /// `/DevDepGS_TR`: graphics state parameter dictionaries with a transfer
    /// function.
    pub dev_dep_gs_tr: u32,
    /// `/DevDepGS_UCR`: graphics state parameter dictionaries with undercolour
    /// removal.
    pub dev_dep_gs_ucr: u32,
    /// `/DevDepGS_BG`: graphics state parameter dictionaries with black
    /// generation.
    pub dev_dep_gs_bg: u32,
    /// `/DevDepGS_FL`: graphics state parameter dictionaries with a flatness
    /// tolerance.
    pub dev_dep_gs_fl: u32,
    /// `/Annotations`: annotations.
    pub annotations: u32,
    /// `/OptionalContent`: optional content groups.
    pub optional_content: u32,
    /// `/Attestation`: the signer's statement about the counted content.
    pub attestation: Option<String>,
}

/// The count under `key`: 0 unless it is a 32-bit integer without sign.
pub open spec fn count_of(src: SourceV, d: Map<Seq<char>, ObjectV>, key: Seq<char>) -> u32 {
    match tree::entry_u32(src, d, key) {
        Some(count) => count,
        None => 0,
    }
}

impl LegalAttestation {
    /// Whether the record is what the dictionary `d` says.
    pub open spec fn reads(&self, src: SourceV, d: Map<Seq<char>, ObjectV>) -> bool {
        &&& self.java_script_actions == count_of(src, d, "JavaScriptActions"@)
        &&& self.launch_actions == count_of(src, d, "LaunchActions"@)
        &&& self.uri_actions == count_of(src, d, "URIActions"@)
        &&& self.movie_actions == count_of(src, d, "MovieActions"@)
        &&& self.sound_actions == count_of(src, d, "SoundActions"@)
        &&& self.hide_annotation_actions == count_of(src, d, "HideAnnotationActions"@)
        &&& self.go_to_remote_actions == count_of(src, d, "GoToRemoteActions"@)
        &&& self.alternate_images == count_of(src, d, "AlternateImages"@)
        &&& self.external_streams == count_of(src, d, "ExternalStreams"@)
        &&& self.true_type_fonts == count_of(src, d, "TrueTypeFonts"@)
        &&& self.external_ref_xobjects == count_of(src, d, "ExternalRefXobjects"@)
        &&& self.external_opi_dicts == count_of(src, d, "ExternalOPIdicts"@)
        &&& self.non_embedded_fonts == count_of(src, d, "NonEmbeddedFonts"@)
        &&& self.dev_dep_gs_op == count_of(src, d, "DevDepGS_OP"@)
        &&& self.dev_dep_gs_ht == count_of(src, d, "DevDepGS_HT"@)
        &&& self.dev_dep_gs_tr == count_of(src, d, "DevDepGS_TR"@)
        &&& self.dev_dep_gs_ucr == count_of(src, d, "DevDepGS_UCR"@)
        &&& self.dev_dep_gs_bg == count_of(src, d, "DevDepGS_BG"@)
        &&& self.dev_dep_gs_fl == count_of(src, d, "DevDepGS_FL"@)
        &&& self.annotations == count_of(src, d, "Annotations"@)
        &&& self.optional_content == count_of(src, d, "OptionalContent"@)
        &&& tree::string_opt(self.attestation) == tree::entry_text(src, d, "Attestation"@)
    }
}

impl Default for LegalAttestation {
    fn default() -> (out: LegalAttestation)
        ensures
            out.java_script_actions == 0,
            out.launch_actions == 0,
            out.uri_actions == 0,
            out.movie_actions == 0,
            out.sound_actions == 0,
            out.hide_annotation_actions == 0,
            out.go_to_remote_actions == 0,
            out.alternate_images == 0,
            out.external_streams == 0,
            out.true_type_fonts == 0,
            out.external_ref_xobjects == 0,
            out.external_opi_dicts == 0,
            out.non_embedded_fonts == 0,
            out.dev_dep_gs_op == 0,
            out.dev_dep_gs_ht == 0,
            out.dev_dep_gs_tr == 0,
            out.dev_dep_gs_ucr == 0,
            out.dev_dep_gs_bg == 0,
            out.dev_dep_gs_fl == 0,
            out.annotations == 0,
            out.optional_content == 0,
            out.attestation is None,
    {
        LegalAttestation {
            java_script_actions: 0,
            launch_actions: 0,
            uri_actions: 0,
            movie_actions: 0,
            sound_actions: 0,
            hide_annotation_actions: 0,
            go_to_remote_actions: 0,
            alternate_images: 0,
            external_streams: 0,
            true_type_fonts: 0,
            external_ref_xobjects: 0,
            external_opi_dicts: 0,
            non_embedded_fonts: 0,
            dev_dep_gs_op: 0,
            dev_dep_gs_ht: 0,
            dev_dep_gs_tr: 0,
            dev_dep_gs_ucr: 0,
            dev_dep_gs_bg: 0,
            dev_dep_gs_fl: 0,
            annotations: 0,
            optional_content: 0,
            attestation: None,
        }
    }
}

/// The count under `key`: 0 unless it is a 32-bit integer without sign.
fn count<S: ObjectSource>(entries: &Entries<S>, key: &str) -> (out: u32)
    ensures
        out == count_of(entries.src.model(), entries.dict@, key@),
{
    match entries.small(key) {
        Some(count) => count,
        None => 0,
    }
}

/// The catalog's `/Legal` dictionary: `None` without one or when the entry
/// is no dictionary. A count that is no non-negative integer reads as 0 and
/// an attestation that is no string as absent.
pub fn legal_attestation_with<S: ObjectSource>(src: &S, trailer: &Dict) -> (out: Option<
    LegalAttestation,
>)
    ensures
        match tree::catalog_dict(src.model(), trailer@, "Legal"@) {
            Some(d) => out matches Some(legal) && legal.reads(src.model(), d),
            None => out is None,
        },
{
    let dict = match dict_in_catalog(src, trailer, "Legal") {
        Some(dict) => dict,
        None => {
            return None;
        },
    };
    let entries = Entries { src, dict: &dict };
    Some(
        LegalAttestation {
            java_script_actions: count(&entries, "JavaScriptActions"),
            launch_actions: count(&entries, "LaunchActions"),
            uri_actions: count(&entries, "URIActions"),
            movie_actions: count(&entries, "MovieActions"),
            sound_actions: count(&entries, "SoundActions"),
            hide_annotation_actions: count(&entries, "HideAnnotationActions"),
            go_to_remote_actions: count(&entries, "GoToRemoteActions"),
            alternate_images: count(&entries, "AlternateImages"),
            external_streams: count(&entries, "ExternalStreams"),
            true_type_fonts: count(&entries, "TrueTypeFonts"),
            external_ref_xobjects: count(&entries, "ExternalRefXobjects"),
            external_opi_dicts: count(&entries, "ExternalOPIdicts"),
            non_embedded_fonts: count(&entries, "NonEmbeddedFonts"),
            dev_dep_gs_op: count(&entries, "DevDepGS_OP"),
            dev_dep_gs_ht: count(&entries, "DevDepGS_HT"),
            dev_dep_gs_tr: count(&entries, "DevDepGS_TR"),
            dev_dep_gs_ucr: count(&entries, "DevDepGS_UCR"),
            dev_dep_gs_bg: count(&entries, "DevDepGS_BG"),
            dev_dep_gs_fl: count(&entries, "DevDepGS_FL"),
            annotations: count(&entries, "Annotations"),
            optional_content: count(&entries, "OptionalContent"),
            attestation: entries.text("Attestation"),
        },
    )
}

/// Law: the count under a key is the integer that stands there, and zero where
/// there is none, a negative one or one too large.
pub proof fn counts_are_as_written(
    src: SourceV,
    d: Map<Seq<char>, ObjectV>,
    key: Seq<char>,
    v: i64,
)
    ensures
        d.contains_key(key) && d[key] == ObjectV::Int(v) && 0 <= v <= u32::MAX ==> count_of(
            src,
            d,
            key,
        ) == v,
        d.contains_key(key) && d[key] == ObjectV::Int(v) && !(0 <= v <= u32::MAX) ==> count_of(
            src,
            d,
            key,
        ) == 0,
        !d.contains_key(key) ==> count_of(src, d, key) == 0,
{
}

/// Law: which entry each count of an attestation is read from.
pub proof fn attestations_count_what_they_name(
    a: LegalAttestation,
    src: SourceV,
    d: Map<Seq<char>, ObjectV>,
)
    requires
        a.reads(src, d),
    ensures
        a.java_script_actions == count_of(src, d, "JavaScriptActions"@),
        a.launch_actions == count_of(src, d, "LaunchActions"@),
        a.uri_actions == count_of(src, d, "URIActions"@),
        a.movie_actions == count_of(src, d, "MovieActions"@),
        a.sound_actions == count_of(src, d, "SoundActions"@),
        a.hide_annotation_actions == count_of(src, d, "HideAnnotationActions"@),
        a.go_to_remote_actions == count_of(src, d, "GoToRemoteActions"@),
        a.alternate_images == count_of(src, d, "AlternateImages"@),
        a.external_streams == count_of(src, d, "ExternalStreams"@),
        a.true_type_fonts == count_of(src, d, "TrueTypeFonts"@),
        a.external_ref_xobjects == count_of(src, d, "ExternalRefXobjects"@),
        a.external_opi_dicts == count_of(src, d, "ExternalOPIdicts"@),
        a.non_embedded_fonts == count_of(src, d, "NonEmbeddedFonts"@),
        a.dev_dep_gs_op == count_of(src, d, "DevDepGS_OP"@),
        a.dev_dep_gs_ht == count_of(src, d, "DevDepGS_HT"@),
        a.dev_dep_gs_tr == count_of(src, d, "DevDepGS_TR"@),
        a.dev_dep_gs_ucr == count_of(src, d, "DevDepGS_UCR"@),
        a.dev_dep_gs_bg == count_of(src, d, "DevDepGS_BG"@),
        a.dev_dep_gs_fl == count_of(src, d, "DevDepGS_FL"@),
        a.annotations == count_of(src, d, "Annotations"@),
        a.optional_content == count_of(src, d, "OptionalContent"@),
        tree::string_opt(a.attestation) == tree::entry_text(src, d, "Attestation"@),
{
}

} // verus!
