//! The object model: the nine basic object types plus indirect references.

use crate::number::Real;
use crate::text;
use vstd::prelude::*;

verus! {

/// An indirect object reference: object number and generation number.
#[derive(Debug, Clone, Copy, PartialEq, Eq, Hash, Structural)]
pub struct ObjRef {
    pub num: u32,
    pub gen: u16,
}

/// A name object, stored decoded (any `#xx` escapes already resolved) and
/// without the leading solidus.
#[derive(Debug, PartialEq, Eq, Hash, PartialOrd, Ord)]
pub struct Name(pub String);

/// A dictionary object mapping names to objects.
#[derive(Debug, PartialEq)]
pub struct Dict {
    /// The entries in the order of their keys, no key twice.
    entries: Vec<(Name, Object)>,
}

/// A stream object: its dictionary plus the raw, still-encoded data bytes.
#[derive(Debug, PartialEq)]
pub struct Stream {
    pub dict: Dict,
    /// Raw stream bytes as stored in the file (filters not yet applied).
    pub data: Vec<u8>,
}

/// Any object.
#[derive(Debug, PartialEq)]
pub enum Object {
    Null,
    Bool(bool),
    Int(i64),
    Real(Real),
    /// A string object as raw bytes (may be text or binary data).
    String(Vec<u8>),
    Name(Name),
    Array(Vec<Object>),
    Dict(Dict),
    Stream(Stream),
    Ref(ObjRef),
}

/// What a dictionary maps: keys to the objects under them.
pub type DictV = Map<Seq<char>, ObjectV>;

/// What an object is, apart from how it is stored.
#[verifier::ext_equal]
pub enum ObjectV {
    Null,
    Bool(bool),
    Int(i64),
    Real(Real),
    String(Seq<u8>),
    Name(Seq<char>),
    Array(Seq<ObjectV>),
    Dict(Map<Seq<char>, ObjectV>),
    Stream(StreamV),
    Ref(ObjRef),
}

/// What a stream is: its dictionary and its data.
#[verifier::ext_equal]
pub struct StreamV {
    pub dict: Map<Seq<char>, ObjectV>,
    pub data: Seq<u8>,
}

/// The model of an object.
pub open spec fn object_view(o: Object) -> ObjectV
    decreases o,
{
    match o {
        Object::Null => ObjectV::Null,
        Object::Bool(b) => ObjectV::Bool(b),
        Object::Int(i) => ObjectV::Int(i),
        Object::Real(r) => ObjectV::Real(r),
        Object::String(bytes) => ObjectV::String(bytes@),
        Object::Name(n) => ObjectV::Name(n.0@),
        Object::Array(items) => ObjectV::Array(objects_view(items@)),
        Object::Dict(d) => ObjectV::Dict(dict_view(d)),
        Object::Stream(s) => ObjectV::Stream(stream_view(s)),
        Object::Ref(r) => ObjectV::Ref(r),
    }
}

/// The models of objects in a row.
pub open spec fn objects_view(items: Seq<Object>) -> Seq<ObjectV>
    decreases items,
{
    Seq::new(
        items.len(),
        |i: int|
            if 0 <= i < items.len() {
                object_view(items[i])
            } else {
                ObjectV::Null
            },
    )
}

/// The model of a stream.
pub open spec fn stream_view(s: Stream) -> StreamV
    decreases s,
{
    StreamV { dict: dict_view(s.dict), data: s.data@ }
}

/// The model of a dictionary.
pub closed spec fn dict_view(d: Dict) -> Map<Seq<char>, ObjectV>
    decreases d,
{
    entries_view(d.entries@)
}

spec fn entries_view(entries: Seq<(Name, Object)>) -> Map<Seq<char>, ObjectV>
    decreases entries,
{
    Map::new(
        |key: Seq<char>| has_key(entries, key),
        |key: Seq<char>|
            {
                let i = key_index(entries, key);
                if 0 <= i < entries.len() {
                    object_view(entries[i].1)
                } else {
                    ObjectV::Null
                }
            },
    )
}

spec fn has_key(entries: Seq<(Name, Object)>, key: Seq<char>) -> bool {
    exists|i: int| 0 <= i < entries.len() && #[trigger] entries[i].0.0@ == key
}

spec fn key_index(entries: Seq<(Name, Object)>, key: Seq<char>) -> int {
    choose|i: int| 0 <= i < entries.len() && #[trigger] entries[i].0.0@ == key
}

spec fn sorted(entries: Seq<(Name, Object)>) -> bool {
    forall|i: int, j: int|
        0 <= i < j < entries.len() ==> text::chars_before(
            #[trigger] entries[i].0.0@,
            #[trigger] entries[j].0.0@,
        )
}

impl View for Object {
    type V = ObjectV;

    open spec fn view(&self) -> ObjectV {
        object_view(*self)
    }
}

impl View for Name {
    type V = Seq<char>;

    open spec fn view(&self) -> Seq<char> {
        self.0@
    }
}

impl View for Dict {
    type V = Map<Seq<char>, ObjectV>;

    open spec fn view(&self) -> Map<Seq<char>, ObjectV> {
        dict_view(*self)
    }
}

impl View for Stream {
    type V = StreamV;

    open spec fn view(&self) -> StreamV {
        stream_view(*self)
    }
}

/// The object under `key`, if any.
pub open spec fn lookup(d: Map<Seq<char>, ObjectV>, key: Seq<char>) -> Option<ObjectV> {
    if d.contains_key(key) {
        Some(d[key])
    } else {
        None
    }
}

/// The model of a borrowed object that may be absent.
pub open spec fn opt_view(o: Option<&Object>) -> Option<ObjectV> {
    match o {
        Some(o) => Some(o@),
        None => None,
    }
}

/// The model of an object that may be absent.
pub open spec fn owned_view(o: Option<Object>) -> Option<ObjectV> {
    match o {
        Some(o) => Some(o@),
        None => None,
    }
}

proof fn lemma_key_unique(entries: Seq<(Name, Object)>, i: int)
    requires
        sorted(entries),
        0 <= i < entries.len(),
    ensures
        has_key(entries, entries[i].0.0@),
        key_index(entries, entries[i].0.0@) == i,
{
    let k = key_index(entries, entries[i].0.0@);
    text::lemma_before_total(entries[i].0.0@, entries[k].0.0@);
}

/// The value at each position is the one the model maps its key to.
proof fn lemma_entry(entries: Seq<(Name, Object)>, i: int)
    requires
        sorted(entries),
        0 <= i < entries.len(),
    ensures
        entries_view(entries).contains_key(entries[i].0.0@),
        entries_view(entries)[entries[i].0.0@] == entries[i].1@,
{
    lemma_key_unique(entries, i);
}

proof fn lemma_entries_len(entries: Seq<(Name, Object)>)
    requires
        sorted(entries),
    ensures
        entries_view(entries).dom().finite(),
        entries_view(entries).dom().len() == entries.len(),
{
    let keys = entries.map_values(|e: (Name, Object)| e.0.0@);
    assert(keys.no_duplicates()) by {
        assert forall|i: int, j: int| 0 <= i < keys.len() && 0 <= j < keys.len() && i != j implies
            keys[i] != keys[j] by {
            lemma_key_unique(entries, i);
            lemma_key_unique(entries, j);
        }
    }
    keys.unique_seq_to_set();
    assert(keys.to_set() =~= entries_view(entries).dom()) by {
        assert forall|k: Seq<char>| keys.to_set().contains(k) == has_key(entries, k) by {
            if has_key(entries, k) {
                let i = key_index(entries, k);
                assert(keys[i] == k);
            }
            if keys.contains(k) {
                let i = choose|i: int| 0 <= i < keys.len() && keys[i] == k;
                assert(entries[i].0.0@ == k);
            }
        }
    }
}

proof fn lemma_insert(entries: Seq<(Name, Object)>, i: int, entry: (Name, Object))
    requires
        sorted(entries),
        0 <= i <= entries.len(),
        forall|j: int| 0 <= j < i ==> text::chars_before(#[trigger] entries[j].0.0@, entry.0.0@),
        i < entries.len() ==> text::chars_before(entry.0.0@, entries[i].0.0@),
    ensures
        sorted(entries.insert(i, entry)),
        entries_view(entries.insert(i, entry)) == entries_view(entries).insert(
            entry.0.0@,
            entry.1@,
        ),
        !entries_view(entries).contains_key(entry.0.0@),
{
    let after = entries.insert(i, entry);
    let key = entry.0.0@;
    assert forall|j: int| i <= j < entries.len() implies text::chars_before(
        key,
        #[trigger] entries[j].0.0@,
    ) by {
        if i < j {
            text::lemma_before_transitive(key, entries[i].0.0@, entries[j].0.0@);
        }
    }
    assert forall|a: int, b: int| 0 <= a < b < after.len() implies text::chars_before(
        #[trigger] after[a].0.0@,
        #[trigger] after[b].0.0@,
    ) by {
        let x = if a < i {
            a
        } else {
            a - 1
        };
        let y = if b < i {
            b
        } else {
            b - 1
        };
        if a != i {
            assert(after[a] == entries[x]);
        }
        if b != i {
            assert(after[b] == entries[y]);
        }
    }
    assert(!has_key(entries, key)) by {
        if has_key(entries, key) {
            let j = key_index(entries, key);
            text::lemma_before_total(key, entries[j].0.0@);
        }
    }
    assert(entries_view(after) =~= entries_view(entries).insert(key, entry.1@)) by {
        lemma_entry(after, i);
        assert(after[i] == entry);
        assert forall|k: Seq<char>| #[trigger] has_key(after, k) == (k == key || has_key(
            entries,
            k,
        )) by {
            if has_key(after, k) {
                let j = key_index(after, k);
                if j < i {
                    assert(entries[j].0.0@ == k);
                } else if j > i {
                    assert(entries[j - 1].0.0@ == k);
                }
            }
            if has_key(entries, k) {
                let j = key_index(entries, k);
                if j < i {
                    assert(after[j].0.0@ == k);
                } else {
                    assert(after[j + 1].0.0@ == k);
                }
            }
        }
        assert forall|k: Seq<char>| has_key(entries, k) && k != key implies
            #[trigger] entries_view(after)[k] == entries_view(entries)[k] by {
            let j = key_index(entries, k);
            if j < i {
                assert(after[j] == entries[j]);
                lemma_entry(after, j);
            } else {
                assert(after[j + 1] == entries[j]);
                lemma_entry(after, j + 1);
            }
        }
    }
}

proof fn lemma_update(entries: Seq<(Name, Object)>, i: int, entry: (Name, Object))
    requires
        sorted(entries),
        0 <= i < entries.len(),
        entry.0.0@ == entries[i].0.0@,
    ensures
        sorted(entries.update(i, entry)),
        entries_view(entries.update(i, entry)) == entries_view(entries).insert(
            entry.0.0@,
            entry.1@,
        ),
{
    let after = entries.update(i, entry);
    assert(forall|j: int|
        0 <= j < after.len() ==> #[trigger] after[j].0.0@ == entries[j].0.0@);
    assert(entries_view(after) =~= entries_view(entries).insert(entry.0.0@, entry.1@)) by {
        lemma_entry(after, i);
        assert forall|k: Seq<char>| #[trigger] has_key(after, k) == has_key(entries, k) by {
            if has_key(after, k) {
                let j = key_index(after, k);
                assert(entries[j].0.0@ == k);
            }
            if has_key(entries, k) {
                let j = key_index(entries, k);
                assert(after[j].0.0@ == k);
            }
        }
        lemma_key_unique(entries, i);
        assert forall|k: Seq<char>| has_key(entries, k) && k != entry.0.0@ implies
            #[trigger] entries_view(after)[k] == entries_view(entries)[k] by {
            let j = key_index(entries, k);
            lemma_entry(after, j);
        }
    }
}

proof fn lemma_remove(entries: Seq<(Name, Object)>, i: int)
    requires
        sorted(entries),
        0 <= i < entries.len(),
    ensures
        sorted(entries.remove(i)),
        entries_view(entries.remove(i)) == entries_view(entries).remove(entries[i].0.0@),
{
    let after = entries.remove(i);
    let key = entries[i].0.0@;
    assert forall|a: int, b: int| 0 <= a < b < after.len() implies text::chars_before(
        #[trigger] after[a].0.0@,
        #[trigger] after[b].0.0@,
    ) by {
        let x = if a < i {
            a
        } else {
            a + 1
        };
        let y = if b < i {
            b
        } else {
            b + 1
        };
        assert(after[a] == entries[x] && after[b] == entries[y]);
    }
    assert(entries_view(after) =~= entries_view(entries).remove(key)) by {
        assert forall|k: Seq<char>| #[trigger] has_key(after, k) == (k != key && has_key(
            entries,
            k,
        )) by {
            if has_key(after, k) {
                let j = key_index(after, k);
                let x = if j < i {
                    j
                } else {
                    j + 1
                };
                assert(after[j] == entries[x]);
                lemma_key_unique(entries, x);
                lemma_key_unique(entries, i);
            }
            if has_key(entries, k) && k != key {
                let j = key_index(entries, k);
                let x = if j < i {
                    j
                } else {
                    j - 1
                };
                assert(after[x] == entries[j]);
            }
        }
        assert forall|k: Seq<char>| has_key(entries, k) && k != key implies
            #[trigger] entries_view(after)[k] == entries_view(entries)[k] by {
            let j = key_index(entries, k);
            let x = if j < i {
                j
            } else {
                j - 1
            };
            assert(after[x] == entries[j]);
            lemma_entry(after, x);
        }
    }
}

/// The first position whose key does not come before `key`.
fn position(entries: &Vec<(Name, Object)>, key: &str) -> (i: usize)
    requires
        sorted(entries@),
    ensures
        i <= entries@.len(),
        forall|j: int| 0 <= j < i ==> text::chars_before(#[trigger] entries@[j].0.0@, key@),
        i < entries@.len() ==> !text::chars_before(entries@[i as int].0.0@, key@),
{
    let mut i: usize = 0;
    while i < entries.len() && text::before(entries[i].0.0.as_str(), key)
        invariant
            i <= entries@.len(),
            forall|j: int| 0 <= j < i ==> text::chars_before(#[trigger] entries@[j].0.0@, key@),
        decreases entries@.len() - i,
    {
        i += 1;
    }
    i
}

/// A key that is not where it would have to be is absent.
proof fn lemma_absent(entries: Seq<(Name, Object)>, key: Seq<char>, i: int)
    requires
        sorted(entries),
        0 <= i <= entries.len(),
        forall|j: int| 0 <= j < i ==> text::chars_before(#[trigger] entries[j].0.0@, key),
        i < entries.len() ==> !text::chars_before(entries[i].0.0@, key) && entries[i].0.0@ != key,
    ensures
        !has_key(entries, key),
        i < entries.len() ==> text::chars_before(key, entries[i].0.0@),
{
    if i < entries.len() {
        text::lemma_before_total(entries[i].0.0@, key);
    }
    if has_key(entries, key) {
        let j = key_index(entries, key);
        text::lemma_before_total(key, key);
        if j >= i && j != i {
            text::lemma_before_transitive(key, entries[i].0.0@, entries[j].0.0@);
        }
    }
}

impl Dict {
    #[verifier::type_invariant]
    spec fn ordered(self) -> bool {
        sorted(self.entries@)
    }

    /// Creates an empty dictionary.
    pub fn new() -> (out: Dict)
        ensures
            out@ == Map::<Seq<char>, ObjectV>::empty(),
    {
        let out = Dict { entries: Vec::new() };
        assert(out@ =~= Map::<Seq<char>, ObjectV>::empty()) by {
            assert forall|k: Seq<char>| !has_key(out.entries@, k) by {}
        }
        out
    }

    /// Looks up a value by key (without the leading solidus).
    pub fn get(&self, key: &str) -> (out: Option<&Object>)
        ensures
            opt_view(out) == lookup(self@, key@),
    {
        proof {
            use_type_invariant(self);
        }
        let i: usize = position(&self.entries, key);
        if i < self.entries.len() && text::same(self.entries[i].0.0.as_str(), key) {
            proof {
                lemma_entry(self.entries@, i as int);
            }
            Some(&self.entries[i].1)
        } else {
            proof {
                lemma_absent(self.entries@, key@, i as int);
            }
            None
        }
    }

    /// Inserts a key/value pair, returning the previous value if any.
    pub fn insert(&mut self, key: Name, value: Object) -> (out: Option<Object>)
        ensures
            final(self)@ == old(self)@.insert(key@, value@),
            owned_view(out) == lookup(old(self)@, key@),
    {
        proof {
            use_type_invariant(&*self);
        }
        let mut entries: Vec<(Name, Object)> = Vec::new();
        assert(sorted(entries@));
        std::mem::swap(&mut entries, &mut self.entries);
        let ghost before = entries@;
        let i: usize = position(&entries, key.0.as_str());
        if i < entries.len() && text::same(entries[i].0.0.as_str(), key.0.as_str()) {
            proof {
                lemma_entry(before, i as int);
                lemma_update(before, i as int, (key, value));
            }
            let (_, old_value) = entries.remove(i);
            entries.insert(i, (key, value));
            assert(entries@ =~= before.update(i as int, (key, value)));
            self.entries = entries;
            Some(old_value)
        } else {
            proof {
                lemma_absent(before, key@, i as int);
                lemma_insert(before, i as int, (key, value));
            }
            entries.insert(i, (key, value));
            self.entries = entries;
            None
        }
    }

    /// Removes a key, returning its value if present.
    pub fn remove(&mut self, key: &str) -> (out: Option<Object>)
        ensures
            final(self)@ == old(self)@.remove(key@),
            owned_view(out) == lookup(old(self)@, key@),
    {
        proof {
            use_type_invariant(&*self);
        }
        let mut entries: Vec<(Name, Object)> = Vec::new();
        assert(sorted(entries@));
        std::mem::swap(&mut entries, &mut self.entries);
        let ghost before = entries@;
        let i: usize = position(&entries, key);
        if i < entries.len() && text::same(entries[i].0.0.as_str(), key) {
            proof {
                lemma_entry(before, i as int);
                lemma_remove(before, i as int);
            }
            let (_, value) = entries.remove(i);
            self.entries = entries;
            Some(value)
        } else {
            proof {
                lemma_absent(before, key@, i as int);
                assert(entries_view(before).remove(key@) =~= entries_view(before));
            }
            self.entries = entries;
            None
        }
    }

    /// All key/value pairs, in the order of the keys.
    pub fn iter(&self) -> (out: Vec<(&Name, &Object)>)
        ensures
            out@.len() == self@.dom().len(),
            forall|i: int|
                0 <= i < out@.len() ==> lookup(self@, #[trigger] out@[i].0@) == Some(out@[i].1@),
            forall|i: int, j: int|
                0 <= i < j < out@.len() ==> text::chars_before(
                    #[trigger] out@[i].0@,
                    #[trigger] out@[j].0@,
                ),
            forall|key: Seq<char>|
                self@.contains_key(key) ==> exists|i: int|
                    0 <= i < out@.len() && #[trigger] out@[i].0@ == key,
    {
        proof {
            use_type_invariant(self);
            lemma_entries_len(self.entries@);
        }
        let mut out: Vec<(&Name, &Object)> = Vec::new();
        let mut i: usize = 0;
        while i < self.entries.len()
            invariant
                i <= self.entries@.len(),
                out@.len() == i,
                forall|j: int|
                    0 <= j < i ==> out@[j].0 == self.entries@[j].0 && out@[j].1
                        == self.entries@[j].1,
            decreases self.entries@.len() - i,
        {
            out.push((&self.entries[i].0, &self.entries[i].1));
            i += 1;
        }
        proof {
            assert forall|j: int| 0 <= j < out@.len() implies lookup(self@, #[trigger] out@[j].0@)
                == Some(out@[j].1@) by {
                lemma_entry(self.entries@, j);
            }
            assert forall|key: Seq<char>| self@.contains_key(key) implies exists|i: int|
                0 <= i < out@.len() && #[trigger] out@[i].0@ == key by {
                let j = key_index(self.entries@, key);
                assert(out@[j].0@ == key);
            }
        }
        out
    }

    /// Number of entries.
    pub fn len(&self) -> (out: usize)
        ensures
            self@.dom().finite(),
            out == self@.dom().len(),
    {
        proof {
            use_type_invariant(self);
            lemma_entries_len(self.entries@);
        }
        self.entries.len()
    }

    /// Whether the dictionary has no entries.
    pub fn is_empty(&self) -> (out: bool)
        ensures
            out == (self@.dom().len() == 0),
    {
        self.len() == 0
    }
}

impl Default for Dict {
    fn default() -> (out: Dict)
        ensures
            out@ == Map::<Seq<char>, ObjectV>::empty(),
    {
        Dict::new()
    }
}

fn clone_object(o: &Object) -> (out: Object)
    ensures
        out@ == o@,
    decreases o,
{
    match o {
        Object::Null => Object::Null,
        Object::Bool(b) => Object::Bool(*b),
        Object::Int(i) => Object::Int(*i),
        Object::Real(r) => Object::Real(*r),
        Object::String(bytes) => {
            let copy = bytes.clone();
            assert(copy@ =~= bytes@);
            Object::String(copy)
        },
        Object::Name(n) => Object::Name(Name(n.0.clone())),
        Object::Array(items) => {
            let mut copy: Vec<Object> = Vec::new();
            let mut i: usize = 0;
            while i < items.len()
                invariant
                    i <= items@.len(),
                    copy@.len() == i,
                    forall|j: int| 0 <= j < i ==> (#[trigger] copy@[j])@ == items@[j]@,
                    decreases_to!(o => items),
                decreases items@.len() - i,
            {
                assert(decreases_to!(items@ => items@[i as int]));
                copy.push(clone_object(&items[i]));
                i += 1;
            }
            assert(objects_view(copy@) =~= objects_view(items@));
            Object::Array(copy)
        },
        Object::Dict(d) => Object::Dict(clone_dict(d)),
        Object::Stream(s) => {
            let data = s.data.clone();
            assert(data@ =~= s.data@);
            Object::Stream(Stream { dict: clone_dict(&s.dict), data })
        },
        Object::Ref(r) => Object::Ref(*r),
    }
}

fn clone_dict(d: &Dict) -> (out: Dict)
    ensures
        out@ == d@,
    decreases d,
{
    proof {
        use_type_invariant(d);
    }
    let mut entries: Vec<(Name, Object)> = Vec::new();
    let mut i: usize = 0;
    while i < d.entries.len()
        invariant
            i <= d.entries@.len(),
            entries@.len() == i,
            forall|j: int|
                0 <= j < i ==> #[trigger] entries@[j].0 == d.entries@[j].0 && entries@[j].1@
                    == d.entries@[j].1@,
        decreases d.entries@.len() - i,
    {
        assert(decreases_to!(d.entries@ => d.entries@[i as int]));
        entries.push((Name(d.entries[i].0.0.clone()), clone_object(&d.entries[i].1)));
        i += 1;
    }
    proof {
        assert forall|k: Seq<char>| #[trigger] has_key(entries@, k) == has_key(d.entries@, k) by {
            if has_key(entries@, k) {
                let j = key_index(entries@, k);
                assert(d.entries@[j].0.0@ == k);
            }
            if has_key(d.entries@, k) {
                let j = key_index(d.entries@, k);
                assert(entries@[j].0.0@ == k);
            }
        }
        assert forall|k: Seq<char>| has_key(d.entries@, k) implies #[trigger] entries_view(
            entries@,
        )[k] == entries_view(d.entries@)[k] by {
            let j = key_index(d.entries@, k);
            assert(entries@[j].0 == d.entries@[j].0);
            lemma_entry(entries@, j);
        }
        assert(entries_view(entries@) =~= entries_view(d.entries@));
    }
    Dict { entries }
}

impl Clone for Object {
    fn clone(&self) -> (out: Object)
        ensures
            out@ == self@,
    {
        clone_object(self)
    }
}

impl Clone for Dict {
    fn clone(&self) -> (out: Dict)
        ensures
            out@ == self@,
    {
        clone_dict(self)
    }
}

impl Clone for Stream {
    fn clone(&self) -> (out: Stream)
        ensures
            out@ == self@,
    {
        let data = self.data.clone();
        assert(data@ =~= self.data@);
        Stream { dict: clone_dict(&self.dict), data }
    }
}

impl Clone for Name {
    fn clone(&self) -> (out: Name)
        ensures
            out == *self,
    {
        Name(self.0.clone())
    }
}

impl ObjectV {
    /// The dictionary of a dictionary or a stream.
    pub open spec fn dict(self) -> Option<Map<Seq<char>, ObjectV>> {
        match self {
            ObjectV::Dict(d) => Some(d),
            ObjectV::Stream(s) => Some(s.dict),
            _ => None,
        }
    }

    /// The bytes of a string.
    pub open spec fn str_bytes(self) -> Option<Seq<u8>> {
        match self {
            ObjectV::String(bytes) => Some(bytes),
            _ => None,
        }
    }

    /// The characters of a name.
    pub open spec fn name(self) -> Option<Seq<char>> {
        match self {
            ObjectV::Name(name) => Some(name),
            _ => None,
        }
    }

    /// The value of an integer.
    pub open spec fn integer(self) -> Option<i64> {
        match self {
            ObjectV::Int(i) => Some(i),
            _ => None,
        }
    }

    /// The value of a boolean.
    pub open spec fn boolean(self) -> Option<bool> {
        match self {
            ObjectV::Bool(b) => Some(b),
            _ => None,
        }
    }

    /// The items of an array.
    pub open spec fn array(self) -> Option<Seq<ObjectV>> {
        match self {
            ObjectV::Array(items) => Some(items),
            _ => None,
        }
    }

    /// The reference an indirect object is written as.
    pub open spec fn reference(self) -> Option<ObjRef> {
        match self {
            ObjectV::Ref(r) => Some(r),
            _ => None,
        }
    }

    /// The bit pattern of a number, an integer rounded to one.
    pub open spec fn number(self) -> Option<nat> {
        match self {
            ObjectV::Int(i) => Some(crate::number::int_bits(i)),
            ObjectV::Real(r) => Some(r.bits as nat),
            _ => None,
        }
    }
}

impl Object {
    /// Boolean value, if this is a `Bool`.
    pub fn as_bool(&self) -> (out: Option<bool>)
        ensures
            out == self@.boolean(),
    {
        match self {
            Object::Bool(b) => Some(*b),
            _ => None,
        }
    }

    /// Integer value, if this is an `Int`.
    pub fn as_int(&self) -> (out: Option<i64>)
        ensures
            out == self@.integer(),
    {
        match self {
            Object::Int(i) => Some(*i),
            _ => None,
        }
    }

    /// Numeric value as a real; `Int` coerces.
    pub fn as_f64(&self) -> (out: Option<Real>)
        ensures
            match out {
                Some(r) => self@.number() == Some(r.bits as nat),
                None => self@.number() is None,
            },
    {
        match self {
            Object::Int(i) => Some(Real::from_int(*i)),
            Object::Real(r) => Some(*r),
            _ => None,
        }
    }

    /// Raw string bytes, if this is a `String`.
    pub fn as_str_bytes(&self) -> (out: Option<&[u8]>)
        ensures
            match out {
                Some(bytes) => self@.str_bytes() == Some(bytes@),
                None => self@.str_bytes() is None,
            },
    {
        match self {
            Object::String(bytes) => Some(bytes.as_slice()),
            _ => None,
        }
    }

    /// Name value, if this is a `Name`.
    pub fn as_name(&self) -> (out: Option<&Name>)
        ensures
            match out {
                Some(name) => self@.name() == Some(name@),
                None => self@.name() is None,
            },
    {
        match self {
            Object::Name(n) => Some(n),
            _ => None,
        }
    }

    /// Array contents, if this is an `Array`.
    pub fn as_array(&self) -> (out: Option<&[Object]>)
        ensures
            match out {
                Some(items) => self@.array() == Some(objects_view(items@)),
                None => self@.array() is None,
            },
    {
        match self {
            Object::Array(items) => Some(items.as_slice()),
            _ => None,
        }
    }

    /// Dictionary, if this is a `Dict` (or the dictionary of a `Stream`).
    pub fn as_dict(&self) -> (out: Option<&Dict>)
        ensures
            match out {
                Some(d) => self@.dict() == Some(d@),
                None => self@.dict() is None,
            },
    {
        match self {
            Object::Dict(d) => Some(d),
            Object::Stream(s) => Some(&s.dict),
            _ => None,
        }
    }

    /// Stream, if this is a `Stream`.
    pub fn as_stream(&self) -> (out: Option<&Stream>)
        ensures
            match out {
                Some(s) => self@ == ObjectV::Stream(s@),
                None => !(self@ is Stream),
            },
    {
        match self {
            Object::Stream(s) => Some(s),
            _ => None,
        }
    }

    /// Indirect reference, if this is a `Ref`.
    pub fn as_ref(&self) -> (out: Option<ObjRef>)
        ensures
            out == self@.reference(),
    {
        match self {
            Object::Ref(r) => Some(*r),
            _ => None,
        }
    }

    /// Whether this object is `Null`.
    pub fn is_null(&self) -> (out: bool)
        ensures
            out == (self@ == ObjectV::Null),
    {
        match self {
            Object::Null => true,
            _ => false,
        }
    }
}

impl Dict {
    /// Typed lookup: integer value.
    pub fn get_int(&self, key: &str) -> (out: Option<i64>)
        ensures
            out == (match lookup(self@, key@) {
                Some(o) => o.integer(),
                None => None,
            }),
    {
        match self.get(key) {
            Some(o) => o.as_int(),
            None => None,
        }
    }

    /// Typed lookup: numeric value as a real (integers coerce).
    pub fn get_f64(&self, key: &str) -> (out: Option<Real>)
        ensures
            match out {
                Some(r) => lookup(self@, key@) matches Some(o) && o.number() == Some(
                    r.bits as nat,
                ),
                None => lookup(self@, key@) matches Some(o) ==> o.number() is None,
            },
    {
        match self.get(key) {
            Some(o) => o.as_f64(),
            None => None,
        }
    }

    /// Typed lookup: name value.
    pub fn get_name(&self, key: &str) -> (out: Option<&Name>)
        ensures
            match out {
                Some(name) => lookup(self@, key@) == Some(ObjectV::Name(name@)),
                None => lookup(self@, key@) matches Some(o) ==> o.name() is None,
            },
    {
        match self.get(key) {
            Some(o) => o.as_name(),
            None => None,
        }
    }

    /// Typed lookup: array value.
    pub fn get_array(&self, key: &str) -> (out: Option<&[Object]>)
        ensures
            match out {
                Some(items) => lookup(self@, key@) == Some(ObjectV::Array(objects_view(items@))),
                None => lookup(self@, key@) matches Some(o) ==> o.array() is None,
            },
    {
        match self.get(key) {
            Some(o) => o.as_array(),
            None => None,
        }
    }

    /// Typed lookup: dictionary value.
    pub fn get_dict(&self, key: &str) -> (out: Option<&Dict>)
        ensures
            match out {
                Some(d) => lookup(self@, key@) matches Some(o) && o.dict() == Some(d@),
                None => lookup(self@, key@) matches Some(o) ==> o.dict() is None,
            },
    {
        match self.get(key) {
            Some(o) => o.as_dict(),
            None => None,
        }
    }

    /// Typed lookup: indirect reference value.
    pub fn get_ref(&self, key: &str) -> (out: Option<ObjRef>)
        ensures
            out == (match lookup(self@, key@) {
                Some(o) => o.reference(),
                None => None,
            }),
    {
        match self.get(key) {
            Some(o) => o.as_ref(),
            None => None,
        }
    }
}

/// The accents of PDFDocEncoding, from code 0x18 on.
pub open spec fn doc_accents() -> Seq<char> {
    seq![
        '\u{2D8}', '\u{2C7}', '\u{2C6}', '\u{2D9}', '\u{2DD}', '\u{2DB}',
        '\u{2DA}', '\u{2DC}',
    ]
}

/// The punctuation and ligatures of PDFDocEncoding, from code 0x80 on.
pub open spec fn doc_punctuation() -> Seq<char> {
    seq![
        '\u{2022}', '\u{2020}', '\u{2021}', '\u{2026}', '\u{2014}', '\u{2013}',
        '\u{192}', '\u{2044}', '\u{2039}', '\u{203A}', '\u{2212}', '\u{2030}',
        '\u{201E}', '\u{201C}', '\u{201D}', '\u{2018}', '\u{2019}', '\u{201A}',
        '\u{2122}', '\u{FB01}', '\u{FB02}', '\u{141}', '\u{152}', '\u{160}',
        '\u{178}', '\u{17D}', '\u{131}', '\u{142}', '\u{153}', '\u{161}',
        '\u{17E}',
    ]
}

/// The character of a PDFDocEncoding code: Latin-1 but for the accents, the
/// punctuation, the Euro sign and the codes left undefined.
pub open spec fn doc_char(code: u8) -> Option<char> {
    if 0x18 <= code <= 0x1F {
        Some(doc_accents()[code - 0x18])
    } else if 0x80 <= code <= 0x9E {
        Some(doc_punctuation()[code - 0x80])
    } else if code == 0xA0 {
        Some('\u{20AC}')
    } else if (code < 0x20 && code != 0x09 && code != 0x0A && code != 0x0D) || code == 0x7F || code
        == 0x9F || code == 0xAD {
        None
    } else {
        Some(code as char)
    }
}

/// The character a PDFDocEncoding byte stands for, or `None` for the codes
/// the encoding leaves undefined (0x00 to 0x17 except tab, line feed and
/// carriage return, 0x7F, 0x9F and 0xAD). The encoding agrees with Latin-1
/// except for the eight accents at 0x18 to 0x1F, the punctuation and
/// ligatures at 0x80 to 0x9E and the Euro sign at 0xA0.
pub fn pdf_doc_char(code: u8) -> (out: Option<char>)
    ensures
        out == doc_char(code),
{
    let c: char = match code {
        0x09 | 0x0A | 0x0D | 0x20..=0x7E | 0xA1..=0xAC | 0xAE..=0xFF => code as char,
        0x18 => '\u{2D8}',
        0x19 => '\u{2C7}',
        0x1A => '\u{2C6}',
        0x1B => '\u{2D9}',
        0x1C => '\u{2DD}',
        0x1D => '\u{2DB}',
        0x1E => '\u{2DA}',
        0x1F => '\u{2DC}',
        0x80 => '\u{2022}',
        0x81 => '\u{2020}',
        0x82 => '\u{2021}',
        0x83 => '\u{2026}',
        0x84 => '\u{2014}',
        0x85 => '\u{2013}',
        0x86 => '\u{192}',
        0x87 => '\u{2044}',
        0x88 => '\u{2039}',
        0x89 => '\u{203A}',
        0x8A => '\u{2212}',
        0x8B => '\u{2030}',
        0x8C => '\u{201E}',
        0x8D => '\u{201C}',
        0x8E => '\u{201D}',
        0x8F => '\u{2018}',
        0x90 => '\u{2019}',
        0x91 => '\u{201A}',
        0x92 => '\u{2122}',
        0x93 => '\u{FB01}',
        0x94 => '\u{FB02}',
        0x95 => '\u{141}',
        0x96 => '\u{152}',
        0x97 => '\u{160}',
        0x98 => '\u{178}',
        0x99 => '\u{17D}',
        0x9A => '\u{131}',
        0x9B => '\u{142}',
        0x9C => '\u{153}',
        0x9D => '\u{161}',
        0x9E => '\u{17E}',
        0xA0 => '\u{20AC}',
        _ => {
            return None;
        },
    };
    Some(c)
}

/// `char::from_u32`: the character with the code point `i`, if `i` is that
/// of a character.
pub assume_specification[ std::char::from_u32 ](i: u32) -> (out: Option<char>)
    ensures
        match out {
            Some(c) => c as int == i,
            None => 0xD800 <= i <= 0xDFFF || i > 0x10FFFF,
        },
;

/// The characters of UTF-16 code units, the replacement character for a
/// surrogate without its partner.
pub open spec fn utf16_chars(units: Seq<u16>) -> Seq<char>
    decreases units.len(),
{
    if units.len() == 0 {
        Seq::empty()
    } else if units[0] < 0xD800 || units[0] > 0xDFFF {
        seq![units[0] as char] + utf16_chars(units.skip(1))
    } else if units[0] < 0xDC00 && units.len() > 1 && 0xDC00 <= units[1] <= 0xDFFF {
        seq![(0x10000 + (units[0] - 0xD800) * 0x400 + (units[1] - 0xDC00)) as char] + utf16_chars(
            units.skip(2),
        )
    } else {
        seq!['\u{FFFD}'] + utf16_chars(units.skip(1))
    }
}

/// The big-endian 16-bit units of bytes, an odd last byte left out.
pub open spec fn be_units(bytes: Seq<u8>) -> Seq<u16> {
    Seq::new(bytes.len() / 2, |i: int| (bytes[2 * i] * 256 + bytes[2 * i + 1]) as u16)
}

/// Whether bytes begin with the byte order mark of UTF-8.
pub open spec fn starts_utf8(bytes: Seq<u8>) -> bool {
    bytes.len() >= 3 && bytes[0] == 0xEF && bytes[1] == 0xBB && bytes[2] == 0xBF
}

/// The characters of a text string.
pub open spec fn text_chars(bytes: Seq<u8>) -> Seq<char> {
    if bytes.len() >= 2 && bytes[0] == 0xFE && bytes[1] == 0xFF {
        let rest = bytes.skip(2);
        let chars = utf16_chars(be_units(rest));
        if rest.len() % 2 == 1 {
            chars.push('\u{FFFD}')
        } else {
            chars
        }
    } else if starts_utf8(bytes) {
        text::utf8_lossy(bytes.skip(3))
    } else {
        bytes.map_values(
            |b: u8|
                match doc_char(b) {
                    Some(c) => c,
                    None => '\u{FFFD}',
                },
        )
    }
}

/// Appends the characters of the big-endian UTF-16 units of `bytes`.
fn push_utf16(out: &mut String, bytes: &[u8])
    ensures
        final(out)@ == old(out)@ + utf16_chars(be_units(bytes@)),
{
    let ghost units = be_units(bytes@);
    let ghost start = out@;
    let mut i: usize = 0;
    let n: usize = bytes.len() / 2;
    assert(units.skip(0) =~= units);
    assert(start + utf16_chars(units) =~= out@ + utf16_chars(units.skip(0)));
    while i < n
        invariant
            i <= n,
            n == bytes@.len() / 2,
            bytes@.len() <= usize::MAX,
            units == be_units(bytes@),
            start + utf16_chars(units) == out@ + utf16_chars(units.skip(i as int)),
        decreases n - i,
    {
        let ghost before = out@;
        let ghost left = units.skip(i as int);
        let unit: u32 = bytes[2 * i] as u32 * 256 + bytes[2 * i + 1] as u32;
        assert(left[0] == units[i as int]);
        assert(unit == left[0]);
        let mut c: char = '\u{FFFD}';
        let mut used: usize = 1;
        if unit < 0xD800 || unit > 0xDFFF {
            if let Some(found) = std::char::from_u32(unit) {
                c = found;
            }
        } else if unit < 0xDC00 && i + 1 < n {
            let low: u32 = bytes[2 * i + 2] as u32 * 256 + bytes[2 * i + 3] as u32;
            assert(left[1] == units[i + 1]);
            assert(low == left[1]);
            if 0xDC00 <= low && low <= 0xDFFF {
                if let Some(found) = std::char::from_u32(
                    0x10000 + (unit - 0xD800) * 0x400 + (low - 0xDC00),
                ) {
                    c = found;
                    used = 2;
                }
            }
        }
        out.push(c);
        assert(left.skip(used as int) =~= units.skip(i + used));
        proof {
            if unit < 0xD800 || unit > 0xDFFF {
                assert(c == left[0] as char);
            } else if used == 2 {
                assert(c == (0x10000 + (left[0] - 0xD800) * 0x400 + (left[1] - 0xDC00)) as char);
            }
        }
        assert(utf16_chars(left) =~= seq![c] + utf16_chars(left.skip(used as int)));
        assert(out@ + utf16_chars(left.skip(used as int)) =~= before + utf16_chars(left));
        i += used;
    }
    assert(units.skip(i as int) =~= Seq::<u16>::empty());
    assert(out@ + Seq::<char>::empty() =~= out@);
}

/// Decodes a text string: UTF-16BE with BOM, UTF-8 with BOM (PDF 2.0),
/// otherwise PDFDocEncoding, with the replacement character for the codes
/// that encoding leaves undefined.
pub fn decode_text_string(bytes: &[u8]) -> (out: String)
    ensures
        out@ == text_chars(bytes@),
        starts_utf8(bytes@) && vstd::utf8::valid_utf8(bytes@.skip(3)) ==> out@
            == vstd::utf8::decode_utf8(bytes@.skip(3)),
{
    if bytes.len() >= 2 && bytes[0] == 0xFE && bytes[1] == 0xFF {
        let rest = vstd::slice::slice_subrange(bytes, 2, bytes.len());
        assert(rest@ =~= bytes@.skip(2));
        let mut out = String::new();
        push_utf16(&mut out, rest);
        assert(out@ =~= utf16_chars(be_units(rest@)));
        if rest.len() % 2 == 1 {
            // A dangling trailing byte cannot form a UTF-16 code unit.
            out.push('\u{FFFD}');
        }
        out
    } else if bytes.len() >= 3 && bytes[0] == 0xEF && bytes[1] == 0xBB && bytes[2] == 0xBF {
        let rest = vstd::slice::slice_subrange(bytes, 3, bytes.len());
        assert(rest@ =~= bytes@.skip(3));
        text::from_utf8_lossy(rest)
    } else {
        let mut out = String::new();
        let mut i: usize = 0;
        while i < bytes.len()
            invariant
                i <= bytes@.len(),
                out@.len() == i,
                forall|j: int|
                    0 <= j < i ==> #[trigger] out@[j] == (match doc_char(bytes@[j]) {
                        Some(c) => c,
                        None => '\u{FFFD}',
                    }),
            decreases bytes@.len() - i,
        {
            let c: char = match pdf_doc_char(bytes[i]) {
                Some(c) => c,
                None => '\u{FFFD}',
            };
            out.push(c);
            i += 1;
        }
        assert(out@ =~= text_chars(bytes@));
        out
    }
}

/// The UTF-16 code units of a character.
pub open spec fn units_of(c: char) -> Seq<u16> {
    if (c as int) < 0x10000 {
        seq![c as u16]
    } else {
        seq![
            (0xD800 + (c as int - 0x10000) / 0x400) as u16,
            (0xDC00 + (c as int - 0x10000) % 0x400) as u16,
        ]
    }
}

/// The UTF-16 code units of a text.
pub open spec fn utf16_units(text: Seq<char>) -> Seq<u16>
    decreases text.len(),
{
    if text.len() == 0 {
        Seq::empty()
    } else {
        units_of(text[0]) + utf16_units(text.skip(1))
    }
}

/// Code units as bytes, the high one first.
pub open spec fn be_bytes(units: Seq<u16>) -> Seq<u8> {
    Seq::new(
        2 * units.len(),
        |i: int|
            if i % 2 == 0 {
                (units[i / 2] / 256) as u8
            } else {
                (units[i / 2] % 256) as u8
            },
    )
}

/// A text written in big-endian UTF-16 behind its byte order mark is read back.
pub proof fn utf16_text_reads_back(text: Seq<char>)
    ensures
        text_chars(seq![0xFEu8, 0xFFu8] + be_bytes(utf16_units(text))) == text,
{
    let units = utf16_units(text);
    let bytes = be_bytes(units);
    let all = seq![0xFEu8, 0xFFu8] + bytes;
    assert(all.skip(2) =~= bytes);
    assert(be_units(bytes) =~= units) by {
        assert forall|i: int| 0 <= i < units.len() implies be_units(bytes)[i] == units[i] by {
            assert(2 * i / 2 == i && (2 * i + 1) / 2 == i);
            assert(bytes[2 * i] == (units[i] / 256) as u8);
            assert(bytes[2 * i + 1] == (units[i] % 256) as u8);
        }
    }
    lemma_utf16_reads_back(text);
}

/// The code units of a text stand for its characters.
proof fn lemma_utf16_reads_back(text: Seq<char>)
    ensures
        utf16_chars(utf16_units(text)) == text,
    decreases text.len(),
{
    let units = utf16_units(text);
    if text.len() > 0 {
        let c = text[0];
        lemma_char_range(c);
        let head = units_of(c);
        let tail = utf16_units(text.skip(1));
        lemma_utf16_reads_back(text.skip(1));
        assert(units =~= head + tail);
        assert(units.skip(head.len() as int) =~= tail);
        assert(units[0] == head[0]);
        if c as int >= 0x10000 {
            let v = c as int - 0x10000;
            assert(units[1] == head[1]);
            assert(0xD800 <= head[0] < 0xDC00 && 0xDC00 <= head[1] <= 0xDFFF);
            assert((v / 0x400) * 0x400 + v % 0x400 == v);
        }
        assert(utf16_chars(units) =~= seq![c] + utf16_chars(tail));
        assert(seq![c] + text.skip(1) =~= text);
    } else {
        assert(units =~= Seq::empty());
        assert(utf16_chars(units) =~= text);
    }
}

/// A character is no surrogate and lies in the range of code points.
proof fn lemma_char_range(c: char)
    ensures
        0 <= c as int <= 0x10FFFF,
        !(0xD800 <= c as int <= 0xDFFF),
{
}

/// Printable ASCII reads as itself, with no byte order mark before it.
pub proof fn printable_text_reads_as_it_is(bytes: Seq<u8>)
    requires
        forall|i: int| 0 <= i < bytes.len() ==> 0x20 <= #[trigger] bytes[i] <= 0x7E,
    ensures
        text_chars(bytes) == bytes.map_values(|b: u8| b as char),
{
    assert(text_chars(bytes) =~= bytes.map_values(|b: u8| b as char));
}

/// Law: PDFDocEncoding agrees with Latin-1 on the printable codes and on tab,
/// line feed and carriage return, but for the Euro sign.
pub proof fn doc_encoding_agrees_with_latin_1(code: u8)
    requires
        0x20 <= code <= 0x7E || 0xA1 <= code <= 0xAC || code >= 0xAE || code == 0x09 || code == 0x0A
            || code == 0x0D,
    ensures
        doc_char(code) matches Some(c) && c as int == code,
{
}

/// Law: the codes without a character are the control codes but for tab, line
/// feed and carriage return, and 0x7F, 0x9F and 0xAD.
pub proof fn doc_encoding_leaves_control_codes_undefined(code: u8)
    ensures
        doc_char(code) is None <==> (code < 0x18 && code != 9 && code != 10 && code != 13) || code
            == 127 || code == 159 || code == 173,
{
}

/// The code an encoder gives to a character, where PDFDocEncoding has it: its
/// own code point, or the place of an accent, a punctuation mark, a ligature or
/// a letter that Latin-1 lacks.
pub open spec fn doc_code(c: char) -> Option<u8> {
    let n = c as int;
    if 0x20 <= n <= 0x7E || 0xA1 <= n <= 0xAC || 0xAE <= n <= 0xFF || n == 9 || n == 10 || n == 13 {
        Some(n as u8)
    } else if c == '\u{131}' {
        Some(0x9A)
    } else if c == '\u{141}' {
        Some(0x95)
    } else if c == '\u{142}' {
        Some(0x9B)
    } else if c == '\u{152}' {
        Some(0x96)
    } else if c == '\u{153}' {
        Some(0x9C)
    } else if c == '\u{160}' {
        Some(0x97)
    } else if c == '\u{161}' {
        Some(0x9D)
    } else if c == '\u{178}' {
        Some(0x98)
    } else if c == '\u{17D}' {
        Some(0x99)
    } else if c == '\u{17E}' {
        Some(0x9E)
    } else if c == '\u{192}' {
        Some(0x86)
    } else if c == '\u{2C6}' {
        Some(0x1A)
    } else if c == '\u{2C7}' {
        Some(0x19)
    } else if c == '\u{2D8}' {
        Some(0x18)
    } else if c == '\u{2D9}' {
        Some(0x1B)
    } else if c == '\u{2DA}' {
        Some(0x1E)
    } else if c == '\u{2DB}' {
        Some(0x1D)
    } else if c == '\u{2DC}' {
        Some(0x1F)
    } else if c == '\u{2DD}' {
        Some(0x1C)
    } else if c == '\u{2013}' {
        Some(0x85)
    } else if c == '\u{2014}' {
        Some(0x84)
    } else if c == '\u{2018}' {
        Some(0x8F)
    } else if c == '\u{2019}' {
        Some(0x90)
    } else if c == '\u{201A}' {
        Some(0x91)
    } else if c == '\u{201C}' {
        Some(0x8D)
    } else if c == '\u{201D}' {
        Some(0x8E)
    } else if c == '\u{201E}' {
        Some(0x8C)
    } else if c == '\u{2020}' {
        Some(0x81)
    } else if c == '\u{2021}' {
        Some(0x82)
    } else if c == '\u{2022}' {
        Some(0x80)
    } else if c == '\u{2026}' {
        Some(0x83)
    } else if c == '\u{2030}' {
        Some(0x8B)
    } else if c == '\u{2039}' {
        Some(0x88)
    } else if c == '\u{203A}' {
        Some(0x89)
    } else if c == '\u{2044}' {
        Some(0x87)
    } else if c == '\u{20AC}' {
        Some(0xA0)
    } else if c == '\u{2122}' {
        Some(0x92)
    } else if c == '\u{2212}' {
        Some(0x8A)
    } else if c == '\u{FB01}' {
        Some(0x93)
    } else if c == '\u{FB02}' {
        Some(0x94)
    } else {
        None
    }
}

/// Law: every character with a code is what its code stands for, and every code
/// with a character is that character's.
pub proof fn doc_codes_read_back(c: char, code: u8)
    ensures
        doc_code(c) matches Some(n) ==> doc_char(n) == Some(c),
        doc_char(code) matches Some(d) ==> doc_code(d) == Some(code),
{
}

/// Law: no two codes stand for the same character.
pub proof fn doc_codes_are_told_apart(a: u8, b: u8)
    requires
        doc_char(a) is Some,
        doc_char(a) == doc_char(b),
    ensures
        a == b,
{
    doc_codes_read_back('a', a);
    doc_codes_read_back('a', b);
}

/// Law: a text written in PDFDocEncoding is read back, unless its first
/// characters look like a byte order mark.
pub proof fn doc_text_reads_back(text: Seq<char>)
    requires
        forall|i: int| 0 <= i < text.len() ==> doc_code(#[trigger] text[i]) is Some,
        !(text.len() >= 2 && text[0] == '\u{FE}' && text[1] == '\u{FF}'),
        !(text.len() >= 3 && text[0] == '\u{EF}' && text[1] == '\u{BB}' && text[2] == '\u{BF}'),
    ensures
        text_chars(Seq::new(text.len(), |i: int| doc_code(text[i])->0)) == text,
{
    let bytes = Seq::new(text.len(), |i: int| doc_code(text[i])->0);
    assert forall|i: int| 0 <= i < text.len() implies doc_char(#[trigger] bytes[i]) == Some(
        text[i],
    ) by {
        doc_codes_read_back(text[i], 0);
    }
    if text.len() >= 2 {
        doc_encoding_agrees_with_latin_1(0xFE);
        doc_encoding_agrees_with_latin_1(0xFF);
        assert(bytes[0] == 0xFE ==> text[0] == '\u{FE}');
        assert(bytes[1] == 0xFF ==> text[1] == '\u{FF}');
    }
    if text.len() >= 3 {
        assert(bytes[0] == 0xEF ==> text[0] == '\u{EF}');
        assert(bytes[1] == 0xBB ==> text[1] == '\u{BB}');
        assert(bytes[2] == 0xBF ==> text[2] == '\u{BF}');
    }
    assert(text_chars(bytes) =~= text);
}

/// Law: a byte that stands for no character reads as the replacement character,
/// and a text has one character for each byte.
pub proof fn undefined_codes_are_replaced(bytes: Seq<u8>, i: int)
    requires
        0 <= i < bytes.len(),
        bytes[0] != 0xFE,
        bytes[0] != 0xEF,
    ensures
        text_chars(bytes).len() == bytes.len(),
        doc_char(bytes[i]) is None ==> text_chars(bytes)[i] == '\u{FFFD}',
{
}

/// The code units of a text are read as it, whatever stands behind them.
proof fn lemma_utf16_prefix(text: Seq<char>, rest: Seq<u16>)
    ensures
        utf16_chars(utf16_units(text) + rest) == text + utf16_chars(rest),
    decreases text.len(),
{
    let units = utf16_units(text) + rest;
    if text.len() > 0 {
        let c = text[0];
        lemma_char_range(c);
        let head = units_of(c);
        let tail = utf16_units(text.skip(1)) + rest;
        lemma_utf16_prefix(text.skip(1), rest);
        assert(units =~= head + tail);
        assert(units.skip(head.len() as int) =~= tail);
        assert(units[0] == head[0]);
        if c as int >= 0x10000 {
            let v = c as int - 0x10000;
            assert(units[1] == head[1]);
            assert(0xD800 <= head[0] < 0xDC00 && 0xDC00 <= head[1] <= 0xDFFF);
            assert((v / 0x400) * 0x400 + v % 0x400 == v);
        }
        assert(utf16_chars(units) =~= seq![c] + utf16_chars(tail));
        assert(seq![c] + (text.skip(1) + utf16_chars(rest)) =~= text + utf16_chars(rest));
    } else {
        assert(units =~= rest);
        assert(text + utf16_chars(rest) =~= utf16_chars(rest));
    }
}

/// Law: a surrogate without its partner reads as the replacement character, and
/// the texts before and behind it are read as they are.
pub proof fn lone_surrogates_are_replaced(before: Seq<char>, unit: u16, behind: Seq<char>)
    requires
        0xD800 <= unit <= 0xDFFF,
    ensures
        utf16_chars(utf16_units(before) + (seq![unit] + utf16_units(behind))) == before
            + seq!['\u{FFFD}'] + behind,
{
    let tail = utf16_units(behind);
    let units = seq![unit] + tail;
    lemma_utf16_prefix(before, units);
    lemma_utf16_reads_back(behind);
    assert(units.skip(1) =~= tail);
    if behind.len() > 0 {
        let c = behind[0];
        lemma_char_range(c);
        assert(tail =~= units_of(c) + utf16_units(behind.skip(1)));
        assert(tail[0] == units_of(c)[0]);
        assert(!(0xDC00 <= tail[0] <= 0xDFFF)) by {
            if c as int >= 0x10000 {
                assert((c as int - 0x10000) / 0x400 < 0x400);
            }
        }
        assert(units[1] == tail[0]);
    } else {
        assert(tail =~= Seq::<u16>::empty());
    }
    assert(utf16_chars(units) =~= seq!['\u{FFFD}'] + behind);
    assert(before + (seq!['\u{FFFD}'] + behind) =~= before + seq!['\u{FFFD}'] + behind);
}

/// Law: an odd last byte of a UTF-16 text reads as one replacement character
/// behind the text.
pub proof fn an_odd_byte_is_replaced(text: Seq<char>, byte: u8)
    ensures
        text_chars(seq![0xFEu8, 0xFFu8] + be_bytes(utf16_units(text)) + seq![byte]) == text.push(
            '\u{FFFD}',
        ),
{
    let units = utf16_units(text);
    let bytes = be_bytes(units);
    let all = seq![0xFEu8, 0xFFu8] + bytes + seq![byte];
    let rest = bytes + seq![byte];
    assert(all.skip(2) =~= rest);
    assert(rest.len() / 2 == units.len() && rest.len() % 2 == 1);
    assert(be_units(rest) =~= units) by {
        assert forall|i: int| 0 <= i < units.len() implies be_units(rest)[i] == units[i] by {
            assert(2 * i / 2 == i && (2 * i + 1) / 2 == i);
            assert(rest[2 * i] == bytes[2 * i] == (units[i] / 256) as u8);
            assert(rest[2 * i + 1] == bytes[2 * i + 1] == (units[i] % 256) as u8);
        }
    }
    lemma_utf16_reads_back(text);
}

/// Law: behind its byte order mark a text is read as UTF-8.
pub proof fn marked_utf8_is_read_as_utf8(bytes: Seq<u8>)
    ensures
        text_chars(seq![0xEFu8, 0xBBu8, 0xBFu8] + bytes) == text::utf8_lossy(bytes),
{
    let all = seq![0xEFu8, 0xBBu8, 0xBFu8] + bytes;
    assert(all.skip(3) =~= bytes);
}

/// Law: what an object answers when it is asked for a kind of value: its own where
/// it is of that kind, the number of an integer or a real, the dictionary of a
/// dictionary or a stream, and nothing else.
pub proof fn objects_answer_for_their_kind(
    v: i64,
    x: Real,
    b: bool,
    bytes: Seq<u8>,
    name: Seq<char>,
    items: Seq<ObjectV>,
    d: Map<Seq<char>, ObjectV>,
    data: Seq<u8>,
    r: ObjRef,
)
    ensures
        ObjectV::Int(v).integer() == Some(v) && ObjectV::Int(v).number() == Some(
            crate::number::int_bits(v),
        ),
        ObjectV::Real(x).integer() is None && ObjectV::Real(x).number() == Some(
            x.bits as nat,
        ),
        ObjectV::Bool(b).boolean() == Some(b) && ObjectV::Bool(b).integer() is None,
        ObjectV::String(bytes).str_bytes() == Some(bytes) && ObjectV::String(bytes).name() is None,
        ObjectV::Name(name).name() == Some(name) && ObjectV::Name(name).str_bytes() is None,
        ObjectV::Array(items).array() == Some(items) && ObjectV::Array(items).dict() is None,
        ObjectV::Dict(d).dict() == Some(d) && ObjectV::Dict(d).array() is None,
        ObjectV::Stream(StreamV { dict: d, data }).dict() == Some(d),
        ObjectV::Ref(r).reference() == Some(r) && ObjectV::Ref(r).integer() is None,
        ObjectV::Null.integer() is None && ObjectV::Null.boolean() is None && ObjectV::Null.name()
            is None && ObjectV::Null.number() is None && ObjectV::Null.reference() is None,
{
}

} // verus!
