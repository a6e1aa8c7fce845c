//! The linearization parameter dictionary: the first object of a linearized
//! file, read as data. Nothing here uses the hint streams or the first-page
//! section to load pages early.

use crate::number::Real;
use crate::object;
use crate::object::{Dict, ObjectV};
use crate::parser;
use crate::parser::{NoResolve, Parser};
use crate::tree;
use crate::tree::to_small;
use vstd::prelude::*;
use vstd::slice::slice_subrange;

verus! {

/// The leading bytes a linearization parameter dictionary must lie within,
/// so a reader decides whether a file is linearized from one small read.
pub const LINEARIZATION_WINDOW: usize = 1024;

/// The linearization parameter dictionary: the first object of a linearized
/// file, whose entries locate the first page and the hint streams so a reader
/// can show the first page before the whole file has arrived.
#[derive(Debug, Clone, PartialEq)]
pub struct Linearization {
    /// `/Linearized`: the version of the linearized format.
    pub version: Real,
    /// `/L`: the length of the file the dictionary was written for. When
    /// it differs from the actual length the file is ordinary PDF; see
    /// [`Linearization::is_current`].
    pub file_length: u64,
    /// `/H`: the offset and length of the primary hint stream and, when
    /// present, of the overflow hint stream, as written.
    pub hint_streams: Vec<(u64, u64)>,
    /// `/O`: the object number of the first page's page object.
    pub first_page_object: u32,
    /// `/E`: the offset of the end of the first page.
    pub first_page_end: u64,
    /// `/N`: the number of pages in the document.
    pub page_count: u32,
    /// `/T`: the offset of the main cross-reference table's first entry
    /// (of the main cross-reference stream in a file that uses streams).
    pub main_xref_offset: u64,
    /// `/P`: the page number of the first page, 0 when absent.
    pub first_page: u32,
}

/// What a linearization parameter dictionary says.
#[verifier::ext_equal]
pub struct LinearizationV {
    pub version: nat,
    pub file_length: u64,
    pub hint_streams: Seq<(u64, u64)>,
    pub first_page_object: u32,
    pub first_page_end: u64,
    pub page_count: u32,
    pub main_xref_offset: u64,
    pub first_page: u32,
}

impl View for Linearization {
    type V = LinearizationV;

    open spec fn view(&self) -> LinearizationV {
        LinearizationV {
            version: self.version.bits as nat,
            file_length: self.file_length,
            hint_streams: self.hint_streams@,
            first_page_object: self.first_page_object,
            first_page_end: self.first_page_end,
            page_count: self.page_count,
            main_xref_offset: self.main_xref_offset,
            first_page: self.first_page,
        }
    }
}

impl Linearization {
    /// Whether `/L` equals the file's actual `file_length`. A mismatch means
    /// the file is not linearized and shall be read as ordinary PDF, the usual
    /// cause being an appended update.
    pub fn is_current(&self, file_length: u64) -> (out: bool)
        ensures
            out == (self.file_length == file_length),
    {
        self.file_length == file_length
    }
}

/// The integer under `key`, as written.
pub open spec fn direct_int(d: Map<Seq<char>, ObjectV>, key: Seq<char>) -> Option<i64> {
    match object::lookup(d, key) {
        Some(o) => o.integer(),
        None => None,
    }
}

/// The offset or length under `key`.
pub open spec fn offset_at(d: Map<Seq<char>, ObjectV>, key: Seq<char>) -> Option<u64> {
    match direct_int(d, key) {
        Some(v) => if v >= 0 {
            Some(v as u64)
        } else {
            None
        },
        None => None,
    }
}

/// The number of objects or pages under `key`.
pub open spec fn count_at(d: Map<Seq<char>, ObjectV>, key: Seq<char>) -> Option<u32> {
    match direct_int(d, key) {
        Some(v) => tree::small_int(v),
        None => None,
    }
}

/// Whether an object is an integer that can be an offset.
pub open spec fn is_offset(o: ObjectV) -> bool {
    match o.integer() {
        Some(v) => v >= 0,
        None => false,
    }
}

/// Whether all objects are integers that can be offsets.
pub open spec fn all_offsets(items: Seq<ObjectV>) -> bool {
    forall|i: int| 0 <= i < items.len() ==> is_offset(#[trigger] items[i])
}

/// The offset and length pairs of a `/H` array.
pub open spec fn hint_pairs(items: Seq<ObjectV>) -> Option<Seq<(u64, u64)>> {
    if items.len() >= 2 && items.len() % 2 == 0 && all_offsets(items) {
        Some(
            Seq::new(
                items.len() / 2,
                |i: int| (items[2 * i].integer()->0 as u64, items[2 * i + 1].integer()->0 as u64),
            ),
        )
    } else {
        None
    }
}

/// The hint streams of a dictionary.
pub open spec fn hints_of(d: Map<Seq<char>, ObjectV>) -> Option<Seq<(u64, u64)>> {
    match object::lookup(d, "H"@) {
        Some(ObjectV::Array(items)) => hint_pairs(items),
        _ => None,
    }
}

/// What a dictionary says as a linearization parameter dictionary, if it is one.
pub open spec fn parameters_of(d: Map<Seq<char>, ObjectV>) -> Option<LinearizationV> {
    let version = match object::lookup(d, "Linearized"@) {
        Some(o) => o.number(),
        None => None,
    };
    let first_page = match direct_int(d, "P"@) {
        Some(page) => tree::small_int(page),
        None => Some(0),
    };
    if version is None || offset_at(d, "L"@) is None || hints_of(d) is None || count_at(
        d,
        "O"@,
    ) is None || offset_at(d, "E"@) is None || count_at(d, "N"@) is None || offset_at(
        d,
        "T"@,
    ) is None || first_page is None {
        None
    } else {
        Some(
            LinearizationV {
                version: version->0,
                file_length: offset_at(d, "L"@)->0,
                hint_streams: hints_of(d)->0,
                first_page_object: count_at(d, "O"@)->0,
                first_page_end: offset_at(d, "E"@)->0,
                page_count: count_at(d, "N"@)->0,
                main_xref_offset: offset_at(d, "T"@)->0,
                first_page: first_page->0,
            },
        )
    }
}

/// The bytes at the head of a file that are looked at.
pub open spec fn window_of(head: Seq<u8>) -> Seq<u8> {
    if head.len() <= LINEARIZATION_WINDOW {
        head
    } else {
        head.take(LINEARIZATION_WINDOW as int)
    }
}

/// The linearization parameters that a file begins with.
pub open spec fn linearization_of(head: Seq<u8>) -> Option<LinearizationV> {
    match parser::indirect_at(window_of(head), &NoResolve, 0) {
        Ok((_, o, _)) => match o.dict() {
            Some(d) => parameters_of(d),
            None => None,
        },
        Err(_) => None,
    }
}

/// The offset or length under `key`.
fn offset(dict: &Dict, key: &str) -> (out: Option<u64>)
    ensures
        out == offset_at(dict@, key@),
{
    match dict.get_int(key) {
        Some(v) => if v >= 0 {
            Some(v as u64)
        } else {
            None
        },
        None => None,
    }
}

/// The number of objects or pages under `key`.
fn count(dict: &Dict, key: &str) -> (out: Option<u32>)
    ensures
        out == count_at(dict@, key@),
{
    match dict.get_int(key) {
        Some(v) => to_small(v),
        None => None,
    }
}

/// The `/H` array as (offset, length) pairs: two or four integers, so an
/// odd count or a non-integer reads as a malformed dictionary.
fn hint_streams(dict: &Dict) -> (out: Option<Vec<(u64, u64)>>)
    ensures
        match out {
            Some(pairs) => hints_of(dict@) == Some(pairs@),
            None => hints_of(dict@) is None,
        },
{
    let items = match dict.get_array("H") {
        Some(items) => items,
        None => {
            return None;
        },
    };
    let ghost all = object::objects_view(items@);
    let len: usize = items.len();
    if len < 2 || len % 2 != 0 {
        return None;
    }
    let mut pairs: Vec<(u64, u64)> = Vec::new();
    let mut i: usize = 0;
    while i < len / 2
        invariant
            len == items@.len(),
            len % 2 == 0,
            i <= len / 2,
            all == object::objects_view(items@),
            object::lookup(dict@, "H"@) == Some(ObjectV::Array(all)),
            pairs@.len() == i,
            forall|j: int|
                0 <= j < 2 * i ==> is_offset(#[trigger] all[j]),
            forall|j: int|
                0 <= j < i ==> #[trigger] pairs@[j] == (
                    all[2 * j].integer()->0 as u64,
                    all[2 * j + 1].integer()->0 as u64,
                ),
        decreases len / 2 - i,
    {
        assert(all[2 * i as int] == items@[2 * i as int]@);
        assert(all[2 * i + 1] == items@[2 * i + 1]@);
        match (items[2 * i].as_int(), items[2 * i + 1].as_int()) {
            (Some(offset), Some(length)) => {
                if offset < 0 || length < 0 {
                    assert(!is_offset(all[2 * i as int]) || !is_offset(all[2 * i + 1]));
                    return None;
                }
                pairs.push((offset as u64, length as u64));
            },
            _ => {
                assert(!is_offset(all[2 * i as int]) || !is_offset(all[2 * i + 1]));
                return None;
            },
        }
        i += 1;
    }
    proof {
        assert(all_offsets(all));
        assert(pairs@ =~= hint_pairs(all)->0);
    }
    Some(pairs)
}

/// Reads the linearization parameter dictionary from `head`, the first
/// bytes of a file: the first indirect object of the body, which must
/// lie entirely within the first 1024 bytes. `None` when that
/// object is not a dictionary carrying `/Linearized` or lacks one of the
/// required entries, so a file whose first object is anything else
/// is simply not linearized.
pub fn linearization_dictionary(head: &[u8]) -> (out: Option<Linearization>)
    ensures
        match out {
            Some(l) => linearization_of(head@) == Some(l@),
            None => linearization_of(head@) is None,
        },
{
    let window: &[u8] = if head.len() <= LINEARIZATION_WINDOW {
        head
    } else {
        slice_subrange(head, 0, LINEARIZATION_WINDOW)
    };
    assert(window@ =~= window_of(head@));
    let mut parser = Parser::new(window);
    let object = match parser.parse_indirect(&NoResolve) {
        Ok((_, object)) => object,
        Err(_) => {
            return None;
        },
    };
    let dict = match object.as_dict() {
        Some(dict) => dict,
        None => {
            return None;
        },
    };
    let version = match dict.get("Linearized") {
        Some(version) => version.as_f64(),
        None => None,
    };
    let first_page = match dict.get_int("P") {
        Some(page) => to_small(page),
        None => Some(0),
    };
    match (
        version,
        offset(dict, "L"),
        hint_streams(dict),
        count(dict, "O"),
        offset(dict, "E"),
        count(dict, "N"),
        offset(dict, "T"),
        first_page,
    ) {
        (
            Some(version),
            Some(file_length),
            Some(hint_streams),
            Some(first_page_object),
            Some(first_page_end),
            Some(page_count),
            Some(main_xref_offset),
            Some(first_page),
        ) => Some(
            Linearization {
                version,
                file_length,
                hint_streams,
                first_page_object,
                first_page_end,
                page_count,
                main_xref_offset,
                first_page,
            },
        ),
        _ => None,
    }
}

/// Only the first kilobyte of a file says whether it is linearized: what
/// follows makes no difference.
pub proof fn only_the_window_counts(head: Seq<u8>, more: Seq<u8>)
    requires
        head.len() >= LINEARIZATION_WINDOW,
    ensures
        linearization_of(head + more) == linearization_of(head),
{
    assert(window_of(head + more) =~= window_of(head));
}

/// Law: linearization parameters are read back from the dictionary that says
/// them: the length of the file, the hint streams by offset and length, the
/// first page's object, its end, the number of pages, the offset of the main
/// cross-reference table and the first page's number, zero where none is given.
pub proof fn parameters_read_back(
    d: Map<Seq<char>, ObjectV>,
    version: Real,
    length: i64,
    hint: i64,
    hint_len: i64,
    object: u32,
    end: i64,
    count: u32,
    xref: i64,
    page: u32,
)
    requires
        length >= 0,
        hint >= 0,
        hint_len >= 0,
        end >= 0,
        xref >= 0,
        d.contains_key("Linearized"@) && d["Linearized"@] == ObjectV::Real(version),
        d.contains_key("L"@) && d["L"@] == ObjectV::Int(length),
        d.contains_key("H"@) && d["H"@] == ObjectV::Array(
            seq![ObjectV::Int(hint), ObjectV::Int(hint_len)],
        ),
        d.contains_key("O"@) && d["O"@] == ObjectV::Int(object as i64),
        d.contains_key("E"@) && d["E"@] == ObjectV::Int(end),
        d.contains_key("N"@) && d["N"@] == ObjectV::Int(count as i64),
        d.contains_key("T"@) && d["T"@] == ObjectV::Int(xref),
        (d.contains_key("P"@) && d["P"@] == ObjectV::Int(page as i64)) || (!d.contains_key("P"@)
            && page == 0),
    ensures
        parameters_of(d) matches Some(p) && ({
            &&& p.version == version.bits
            &&& p.file_length == length
            &&& p.hint_streams == seq![(hint as u64, hint_len as u64)]
            &&& p.first_page_object == object
            &&& p.first_page_end == end
            &&& p.page_count == count
            &&& p.main_xref_offset == xref
            &&& p.first_page == page
        }),
{
    let items = seq![ObjectV::Int(hint), ObjectV::Int(hint_len)];
    assert(items[0] == ObjectV::Int(hint) && items[1] == ObjectV::Int(hint_len));
    assert(all_offsets(items));
    assert(hint_pairs(items) is Some);
    assert(hint_pairs(items)->0 =~= seq![(hint as u64, hint_len as u64)]);
}

/// Law: only the first 1024 bytes of a file are looked at.
pub proof fn the_window_is_a_kibibyte(head: Seq<u8>)
    ensures
        head.len() <= 1024 ==> window_of(head) == head,
        head.len() > 1024 ==> window_of(head) == head.take(1024),
{
}

} // verus!
