//! Sets of indirect references.

use crate::object::ObjRef;
use vstd::prelude::*;

verus! {

/// A set of indirect references.
#[derive(Debug, PartialEq, Eq)]
pub struct RefSet {
    /// The members in increasing order of object and generation number.
    keys: Vec<u64>,
}

/// One more than the largest key.
pub const KEY_LIMIT: u64 = 0x1_0000_0000_0000;

/// The number that stands for a reference.
spec fn key_of(r: ObjRef) -> u64 {
    (r.num * 0x1_0000 + r.gen) as u64
}

spec fn increasing(keys: Seq<u64>) -> bool {
    &&& forall|i: int, j: int| 0 <= i < j < keys.len() ==> keys[i] < keys[j]
    &&& forall|i: int| 0 <= i < keys.len() ==> #[trigger] keys[i] < KEY_LIMIT
}

proof fn lemma_few(keys: Seq<u64>, i: int)
    requires
        increasing(keys),
        0 <= i < keys.len(),
    ensures
        keys[i] >= i,
    decreases i,
{
    if i > 0 {
        lemma_few(keys, i - 1);
    }
}

fn key(r: ObjRef) -> (out: u64)
    ensures
        out == key_of(r),
        out < KEY_LIMIT,
{
    r.num as u64 * 0x1_0000 + r.gen as u64
}

fn reference(key: u64) -> (out: ObjRef)
    requires
        key < KEY_LIMIT,
    ensures
        key_of(out) == key,
{
    ObjRef { num: (key / 0x1_0000) as u32, gen: (key % 0x1_0000) as u16 }
}

/// The references that keys stand for.
spec fn refs_of(keys: Seq<u64>) -> Seq<ObjRef> {
    Seq::new(
        keys.len(),
        |i: int|
            ObjRef { num: (keys[i] / 0x1_0000) as u32, gen: (keys[i] % 0x1_0000) as u16 },
    )
}

proof fn lemma_refs(keys: Seq<u64>)
    requires
        increasing(keys),
    ensures
        ({
            let members = Set::new(|r: ObjRef| keys.contains(key_of(r)));
            &&& members.finite()
            &&& members.len() == keys.len()
            &&& keys.len() <= KEY_LIMIT
        }),
{
    let refs = refs_of(keys);
    let members = Set::new(|r: ObjRef| keys.contains(key_of(r)));
    assert forall|i: int| 0 <= i < keys.len() implies key_of(#[trigger] refs[i]) == keys[i] by {}
    assert(refs.no_duplicates()) by {
        assert forall|a: int, b: int| 0 <= a < refs.len() && 0 <= b < refs.len() && a != b implies
            refs[a] != refs[b] by {
            assert(key_of(refs[a]) == keys[a] && key_of(refs[b]) == keys[b]);
        }
    }
    assert forall|r: ObjRef| refs.to_set().contains(r) == members.contains(r) by {
        if refs.contains(r) {
            let j = refs.index_of(r);
            assert(keys[j] == key_of(r));
        }
        if members.contains(r) {
            let j = keys.index_of(key_of(r));
            assert(key_of(refs[j]) == key_of(r));
            assert(refs[j] == r);
        }
    }
    assert(refs.to_set() =~= members);
    refs.unique_seq_to_set();
    if keys.len() > 0 {
        lemma_few(keys, keys.len() - 1);
    }
}

/// The first position whose key is not below `k`.
fn position(keys: &Vec<u64>, k: u64) -> (at: usize)
    requires
        increasing(keys@),
    ensures
        at <= keys@.len(),
        forall|i: int| 0 <= i < at ==> #[trigger] keys@[i] < k,
        forall|i: int| at <= i < keys@.len() ==> #[trigger] keys@[i] >= k,
{
    let mut low: usize = 0;
    let mut high: usize = keys.len();
    while low < high
        invariant
            increasing(keys@),
            low <= high <= keys@.len(),
            forall|i: int| 0 <= i < low ==> #[trigger] keys@[i] < k,
            forall|i: int| high <= i < keys@.len() ==> #[trigger] keys@[i] >= k,
        decreases high - low,
    {
        let mid: usize = low + (high - low) / 2;
        if keys[mid] < k {
            low = mid + 1;
        } else {
            high = mid;
        }
    }
    low
}

impl View for RefSet {
    type V = Set<ObjRef>;

    closed spec fn view(&self) -> Set<ObjRef> {
        Set::new(|r: ObjRef| self.keys@.contains(key_of(r)))
    }
}

impl RefSet {
    #[verifier::type_invariant]
    spec fn ordered(self) -> bool {
        increasing(self.keys@)
    }

    /// The empty set.
    pub fn new() -> (out: RefSet)
        ensures
            out@ == Set::<ObjRef>::empty(),
    {
        let out = RefSet { keys: Vec::new() };
        assert(out@ =~= Set::<ObjRef>::empty());
        out
    }

    /// Whether `r` is a member.
    pub fn contains(&self, r: ObjRef) -> (out: bool)
        ensures
            out == self@.contains(r),
    {
        proof {
            use_type_invariant(self);
        }
        let k: u64 = key(r);
        let at: usize = position(&self.keys, k);
        if at < self.keys.len() && self.keys[at] == k {
            assert(self.keys@[at as int] == k);
            true
        } else {
            assert(!self.keys@.contains(k)) by {
                if self.keys@.contains(k) {
                    let j = self.keys@.index_of(k);
                    if j > at {
                        assert(self.keys@[at as int] < self.keys@[j]);
                    }
                }
            }
            false
        }
    }

    /// Adds `r`; false if it was a member already.
    pub fn insert(&mut self, r: ObjRef) -> (out: bool)
        ensures
            final(self)@ == old(self)@.insert(r),
            out == !old(self)@.contains(r),
            old(self)@.finite(),
            final(self)@.finite(),
            final(self)@.len() <= KEY_LIMIT,
    {
        if self.contains(r) {
            proof {
                use_type_invariant(&*self);
                assert(self@.insert(r) =~= self@);
                lemma_refs(self.keys@);
            }
            return false;
        }
        proof {
            use_type_invariant(&*self);
        }
        let k: u64 = key(r);
        let mut keys: Vec<u64> = Vec::new();
        std::mem::swap(&mut keys, &mut self.keys);
        let ghost before = keys@;
        let at: usize = position(&keys, k);
        assert(!before.contains(k));
        keys.insert(at, k);
        proof {
            assert forall|i: int, j: int| 0 <= i < j < keys@.len() implies keys@[i] < keys@[j] by {
                if i < at {
                    assert(keys@[i] == before[i]);
                } else if i > at {
                    assert(keys@[i] == before[i - 1]);
                }
                if j < at {
                    assert(keys@[j] == before[j]);
                } else if j > at {
                    assert(keys@[j] == before[j - 1]);
                }
            }
            assert forall|i: int| 0 <= i < keys@.len() implies #[trigger] keys@[i] < KEY_LIMIT by {
                if i < at {
                    assert(keys@[i] == before[i]);
                } else if i > at {
                    assert(keys@[i] == before[i - 1]);
                }
            }
            lemma_refs(before);
            lemma_refs(keys@);
            assert forall|x: u64| #[trigger] keys@.contains(x) == (x == k || before.contains(x)) by {
                if before.contains(x) {
                    let i = before.index_of(x);
                    if i < at {
                        assert(keys@[i] == x);
                    } else {
                        assert(keys@[i + 1] == x);
                    }
                }
                if x == k {
                    assert(keys@[at as int] == k);
                }
                if keys@.contains(x) {
                    let i = keys@.index_of(x);
                    if i < at {
                        assert(before[i] == x);
                    } else if i > at {
                        assert(before[i - 1] == x);
                    }
                }
            }
        }
        self.keys = keys;
        assert(self@ =~= old(self)@.insert(r)) by {
            assert forall|q: ObjRef| self@.contains(q) == old(self)@.insert(r).contains(q) by {
                assert(key_of(q) == key_of(r) ==> q == r);
            }
        }
        true
    }

    /// Takes `r` out; false if it was no member.
    pub fn remove(&mut self, r: ObjRef) -> (out: bool)
        ensures
            final(self)@ == old(self)@.remove(r),
            out == old(self)@.contains(r),
    {
        if !self.contains(r) {
            assert(self@.remove(r) =~= self@);
            return false;
        }
        proof {
            use_type_invariant(&*self);
        }
        let k: u64 = key(r);
        let mut keys: Vec<u64> = Vec::new();
        std::mem::swap(&mut keys, &mut self.keys);
        let ghost before = keys@;
        let at: usize = position(&keys, k);
        proof {
            let j = before.index_of(k);
            assert(before[j] == k);
            if j != at {
                assert(before[at as int] < before[j]);
            }
        }
        let _ = keys.remove(at);
        proof {
            assert forall|i: int, j: int| 0 <= i < j < keys@.len() implies keys@[i] < keys@[j] by {
                let x = if i < at {
                    i
                } else {
                    i + 1
                };
                let y = if j < at {
                    j
                } else {
                    j + 1
                };
                assert(keys@[i] == before[x] && keys@[j] == before[y]);
            }
            assert forall|i: int| 0 <= i < keys@.len() implies #[trigger] keys@[i] < KEY_LIMIT by {
                let x = if i < at {
                    i
                } else {
                    i + 1
                };
                assert(keys@[i] == before[x]);
            }
            assert forall|x: u64| #[trigger] keys@.contains(x) == (x != k && before.contains(x)) by {
                if before.contains(x) && x != k {
                    let i = before.index_of(x);
                    if i < at {
                        assert(keys@[i] == x);
                    } else {
                        assert(keys@[i - 1] == x);
                    }
                }
                if keys@.contains(x) {
                    let i = keys@.index_of(x);
                    if i < at {
                        assert(before[i] == x);
                        assert(before[i] < before[at as int]);
                    } else {
                        assert(before[i + 1] == x);
                        assert(before[at as int] < before[i + 1]);
                    }
                }
            }
        }
        self.keys = keys;
        assert(self@ =~= old(self)@.remove(r)) by {
            assert forall|q: ObjRef| self@.contains(q) == old(self)@.remove(r).contains(q) by {
                assert(key_of(q) == key_of(r) ==> q == r);
            }
        }
        true
    }

    /// Whether the set has no member.
    pub fn is_empty(&self) -> (out: bool)
        ensures
            out == (self@ == Set::<ObjRef>::empty()),
    {
        proof {
            use_type_invariant(self);
            if self.keys@.len() == 0 {
                assert(self@ =~= Set::<ObjRef>::empty());
            }
        }
        if self.keys.len() == 0 {
            true
        } else {
            let first = reference(self.keys[0]);
            assert(self@.contains(first));
            false
        }
    }

    /// The members, in increasing order.
    pub fn members(&self) -> (out: Vec<ObjRef>)
        ensures
            out@.to_set() == self@,
            out@.no_duplicates(),
    {
        proof {
            use_type_invariant(self);
        }
        let mut out: Vec<ObjRef> = Vec::new();
        let mut i: usize = 0;
        while i < self.keys.len()
            invariant
                increasing(self.keys@),
                i <= self.keys@.len(),
                out@.len() == i,
                forall|j: int| 0 <= j < i ==> key_of(#[trigger] out@[j]) == self.keys@[j],
            decreases self.keys@.len() - i,
        {
            out.push(reference(self.keys[i]));
            i += 1;
        }
        proof {
            assert forall|r: ObjRef| out@.to_set().contains(r) == self@.contains(r) by {
                if out@.contains(r) {
                    let j = out@.index_of(r);
                    assert(self.keys@[j] == key_of(r));
                }
                if self@.contains(r) {
                    let j = self.keys@.index_of(key_of(r));
                    assert(key_of(out@[j]) == key_of(r));
                    assert(out@[j] == r);
                }
            }
            assert(out@.to_set() =~= self@);
            assert forall|a: int, b: int| 0 <= a < out@.len() && 0 <= b < out@.len() && a != b implies
                out@[a] != out@[b] by {
                if a < b {
                    assert(self.keys@[a] < self.keys@[b]);
                } else {
                    assert(self.keys@[b] < self.keys@[a]);
                }
            }
        }
        out
    }
}

impl Clone for RefSet {
    fn clone(&self) -> (out: RefSet)
        ensures
            out@ == self@,
    {
        proof {
            use_type_invariant(self);
        }
        let keys = self.keys.clone();
        assert(keys@ =~= self.keys@);
        RefSet { keys }
    }
}

impl Default for RefSet {
    fn default() -> (out: RefSet)
        ensures
            out@ == Set::<ObjRef>::empty(),
    {
        RefSet::new()
    }
}

} // verus!
