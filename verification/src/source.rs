//! The object-source abstraction: what a caller that can deliver objects
//! provides, and the one way of following references through it.

use crate::error::{Error, Result};
use crate::object::{ObjRef, Object, ObjectV, Stream, StreamV};
use vstd::prelude::*;

verus! {

/// Reference-chase depth limit for every reference chase in the crate.
///
/// This is a denial-of-service guard — a file can encode a reference chain of
/// any length, and a malicious one can encode a cycle — so it is deliberately
/// one definition. It is public because the cap is part of the observable
/// contract: a caller that hands the library a legitimately deep chain needs
/// to know where the crate stops chasing and reports
/// [`Error::CircularReference`] instead.
pub const MAX_RESOLVE_DEPTH: usize = 32;

/// Why an object could not be delivered.
pub enum FaultV {
    /// A reference chain, last seen at this object number, does not end.
    Circular(u32),
    /// Anything else.
    Other,
}

/// What an error says about a reference chain.
pub open spec fn fault(e: Error) -> FaultV {
    match e {
        Error::CircularReference(n) => FaultV::Circular(n),
        _ => FaultV::Other,
    }
}

/// What came of asking for an object.
pub open spec fn outcome(r: Result<Object>) -> std::result::Result<ObjectV, FaultV> {
    match r {
        Ok(o) => Ok(o@),
        Err(e) => Err(fault(e)),
    }
}

/// What a source holds: the object it delivers for each reference, and the
/// data it decodes from each stream.
pub struct SourceV {
    pub fetched: spec_fn(ObjRef) -> std::result::Result<ObjectV, FaultV>,
    pub decoded: spec_fn(StreamV) -> Option<Seq<u8>>,
}

/// The object that `o` leads to in at most `hops` steps. An object that is no
/// reference is its own end; a reference whose target cannot be delivered
/// leads to null; a chain too long is named by the last reference followed.
pub open spec fn chase(src: SourceV, o: ObjectV, hops: nat, last: u32) -> std::result::Result<
    ObjectV,
    FaultV,
>
    decreases hops,
{
    if hops == 0 {
        Err(FaultV::Circular(last))
    } else {
        match o {
            ObjectV::Ref(r) => match (src.fetched)(r) {
                Ok(next) => chase(src, next, (hops - 1) as nat, r.num),
                Err(FaultV::Circular(n)) => Err(FaultV::Circular(n)),
                Err(FaultV::Other) => Ok(ObjectV::Null),
            },
            _ => Ok(o),
        }
    }
}

/// What `o` resolves to.
pub open spec fn resolved(src: SourceV, o: ObjectV) -> std::result::Result<ObjectV, FaultV> {
    chase(src, o, MAX_RESOLVE_DEPTH as nat, 0)
}

/// Reads indirect objects and decodes streams, with the whole file already
/// available.
///
/// Implement `get` and `stream_data`; `resolve` has a provided implementation
/// that chases reference chains through `get` via [`resolve_sync_with`]. A
/// source answers the same question always the same way.
pub trait ObjectSource {
    /// What the source holds.
    spec fn model(&self) -> SourceV;

    /// Fetches an indirect object by reference.
    fn get(&self, r: ObjRef) -> (out: Result<Object>)
        ensures
            outcome(out) == (self.model().fetched)(r),
    ;

    /// Decodes a stream's data through its filter chain, resolving indirect
    /// filter parameters against this source.
    fn stream_data(&self, s: &Stream) -> (out: Result<Vec<u8>>)
        ensures
            match out {
                Ok(data) => (self.model().decoded)(s@) == Some(data@),
                Err(_) => (self.model().decoded)(s@) is None,
            },
    ;

    /// Chases reference chains, depth-capped at [`MAX_RESOLVE_DEPTH`].
    ///
    /// Lenient: a reference to a missing or unreadable object resolves to
    /// [`Object::Null`]. Exceeding the depth cap is
    /// [`Error::CircularReference`].
    ///
    /// An implementor overriding this method should delegate to
    /// [`resolve_sync_with`].
    fn resolve(&self, o: &Object) -> (out: Result<Object>)
        ensures
            outcome(out) == resolved(self.model(), o@),
    {
        let mut current = o.clone();
        let mut last_num: u32 = 0;
        let mut hops: usize = MAX_RESOLVE_DEPTH;
        while hops > 0
            invariant
                hops <= MAX_RESOLVE_DEPTH,
                resolved(self.model(), o@) == chase(
                    self.model(),
                    current@,
                    hops as nat,
                    last_num,
                ),
            decreases hops,
        {
            match current {
                Object::Ref(r) => {
                    last_num = r.num;
                    match hop(self.get(r)) {
                        Hop::Next(object) => {
                            current = object;
                        },
                        Hop::End(end) => {
                            return end;
                        },
                    }
                },
                other => {
                    return Ok(other);
                },
            }
            hops -= 1;
        }
        Err(Error::CircularReference(last_num))
    }
}

/// One step along a reference chain.
enum Hop {
    /// The chain goes on with this object.
    Next(Object),
    /// The chain ends with this result.
    End(Result<Object>),
}

/// The step that a fetched object allows: an error ends the chain, lenient
/// but for a circular one.
fn hop(fetched: Result<Object>) -> (out: Hop)
    ensures
        match out {
            Hop::Next(o) => outcome(fetched) == Ok::<ObjectV, FaultV>(o@),
            Hop::End(end) => match outcome(fetched) {
                Ok(_) => false,
                Err(FaultV::Circular(n)) => end matches Err(Error::CircularReference(m)) && m == n,
                Err(FaultV::Other) => end matches Ok(o) && o@ == ObjectV::Null,
            },
        },
{
    match fetched {
        Ok(object) => Hop::Next(object),
        Err(Error::CircularReference(n)) => Hop::End(Err(Error::CircularReference(n))),
        Err(_) => Hop::End(Ok(Object::Null)),
    }
}

/// A shared reference to a source is itself a source, forwarding every method.
impl<T: ObjectSource> ObjectSource for &T {
    open spec fn model(&self) -> SourceV {
        (**self).model()
    }

    fn get(&self, r: ObjRef) -> (out: Result<Object>) {
        (**self).get(r)
    }

    fn stream_data(&self, s: &Stream) -> (out: Result<Vec<u8>>) {
        (**self).stream_data(s)
    }

    fn resolve(&self, o: &Object) -> (out: Result<Object>) {
        (**self).resolve(o)
    }
}

/// Chases reference chains against a synchronous source, depth-capped at
/// [`MAX_RESOLVE_DEPTH`].
///
/// Lenient: a reference whose target is missing or unreadable resolves to
/// [`Object::Null`], because a real-world file routinely dangles a reference
/// into nothing and the format makes such a reference equivalent to `null`.
/// A non-reference is returned unchanged without a fetch.
///
/// # Errors
///
/// Returns [`Error::CircularReference`] when the chain exceeds
/// `MAX_RESOLVE_DEPTH` hops — naming the last reference followed — or when
/// the underlying source reports one, which is propagated unchanged rather
/// than flattened to `Null`.
pub fn resolve_sync_with<S: ObjectSource + ?Sized>(src: &S, o: &Object) -> (out: Result<Object>)
    ensures
        outcome(out) == resolved(src.model(), o@),
        out matches Err(e) ==> e is CircularReference,
{
    let mut current = o.clone();
    let mut last_num: u32 = 0;
    let mut hops: usize = MAX_RESOLVE_DEPTH;
    while hops > 0
        invariant
            hops <= MAX_RESOLVE_DEPTH,
            resolved(src.model(), o@) == chase(src.model(), current@, hops as nat, last_num),
        decreases hops,
    {
        match current {
            Object::Ref(r) => {
                last_num = r.num;
                match hop(src.get(r)) {
                    Hop::Next(object) => {
                        current = object;
                    },
                    Hop::End(end) => {
                        return end;
                    },
                }
            },
            other => {
                return Ok(other);
            },
        }
        hops -= 1;
    }
    Err(Error::CircularReference(last_num))
}

/// What a chase ends with is no reference.
proof fn lemma_chase_ends(src: SourceV, o: ObjectV, hops: nat, last: u32)
    ensures
        chase(src, o, hops, last) matches Ok(end) ==> !(end is Ref),
    decreases hops,
{
    if hops > 0 {
        if let ObjectV::Ref(r) = o {
            if let Ok(next) = (src.fetched)(r) {
                lemma_chase_ends(src, next, (hops - 1) as nat, r.num);
            }
        }
    }
}

/// Law: resolving never delivers a reference, and resolving what was resolved
/// changes nothing.
pub proof fn resolving_is_final(src: SourceV, o: ObjectV)
    ensures
        resolved(src, o) matches Ok(end) ==> !(end is Ref) && resolved(src, end) == Ok::<
            ObjectV,
            FaultV,
        >(end),
        !(o is Ref) ==> resolved(src, o) == Ok::<ObjectV, FaultV>(o),
{
    lemma_chase_ends(src, o, MAX_RESOLVE_DEPTH as nat, 0);
}

/// Whether every reference in `chain` but the last fetches the next one.
pub open spec fn is_chain(src: SourceV, chain: Seq<ObjRef>) -> bool {
    forall|i: int|
        0 <= i < chain.len() - 1 ==> (src.fetched)(#[trigger] chain[i]) == Ok::<ObjectV, FaultV>(
            ObjectV::Ref(chain[i + 1]),
        )
}

proof fn lemma_chase_chain(src: SourceV, chain: Seq<ObjRef>, hops: nat, last: u32)
    requires
        is_chain(src, chain),
        chain.len() > 0,
        hops <= chain.len(),
        hops < chain.len() || (src.fetched)(chain.last()) matches Ok(_),
    ensures
        chase(src, ObjectV::Ref(chain[0]), hops, last) == Err::<ObjectV, FaultV>(
            FaultV::Circular(
                if hops == 0 {
                    last
                } else {
                    chain[hops - 1].num
                },
            ),
        ),
    decreases hops,
{
    if hops == 1 {
        let next = (src.fetched)(chain[0])->Ok_0;
        if chain.len() == 1 {
            assert(chain.last() == chain[0]);
        }
        assert(chase(src, next, 0, chain[0].num) == Err::<ObjectV, FaultV>(
            FaultV::Circular(chain[0].num),
        ));
    } else if hops > 1 {
        let rest = chain.skip(1);
        assert forall|i: int| 0 <= i < rest.len() - 1 implies (src.fetched)(#[trigger] rest[i])
            == Ok::<ObjectV, FaultV>(ObjectV::Ref(rest[i + 1])) by {
            assert(rest[i] == chain[i + 1]);
        }
        lemma_chase_chain(src, rest, (hops - 1) as nat, chain[0].num);
        assert(rest[hops - 2] == chain[hops - 1]);
    }
}

/// Law: a chain of as many references as the depth limit, or more, whose last
/// one still delivers an object, is reported as circular and named by the
/// last reference that was followed.
pub proof fn long_chains_are_circular(src: SourceV, chain: Seq<ObjRef>)
    requires
        is_chain(src, chain),
        chain.len() >= MAX_RESOLVE_DEPTH,
        (src.fetched)(chain.last()) matches Ok(_),
    ensures
        resolved(src, ObjectV::Ref(chain[0])) == Err::<ObjectV, FaultV>(
            FaultV::Circular(chain[MAX_RESOLVE_DEPTH - 1].num),
        ),
{
    lemma_chase_chain(src, chain, MAX_RESOLVE_DEPTH as nat, 0);
}

/// Law: what is no reference resolves to itself, a reference to what it leads
/// to, one that leads nowhere to null, and one reference to another to what the
/// other resolves to, as long as that is not too deep.
pub proof fn references_lead_on(src: SourceV, r: ObjRef, o: ObjectV, hops: nat, last: u32)
    requires
        hops >= 2,
    ensures
        !(o is Ref) ==> chase(src, o, hops, last) == Ok::<ObjectV, FaultV>(o),
        (src.fetched)(r) == Ok::<ObjectV, FaultV>(o) && !(o is Ref) ==> chase(
            src,
            ObjectV::Ref(r),
            hops,
            last,
        ) == Ok::<ObjectV, FaultV>(o),
        (src.fetched)(r) == Err::<ObjectV, FaultV>(FaultV::Other) ==> chase(
            src,
            ObjectV::Ref(r),
            hops,
            last,
        ) == Ok::<ObjectV, FaultV>(ObjectV::Null),
        (src.fetched)(r) == Ok::<ObjectV, FaultV>(o) ==> chase(src, ObjectV::Ref(r), hops, last)
            == chase(src, o, (hops - 1) as nat, r.num),
        chase(src, o, 0, last) == Err::<ObjectV, FaultV>(FaultV::Circular(last)),
{
    reveal_with_fuel(chase, 3);
}

/// Law: a chain of up to 31 references is followed to its end; one of 32 or more
/// is not.
pub proof fn short_chains_are_followed(src: SourceV, chain: Seq<ObjRef>, o: ObjectV)
    requires
        is_chain(src, chain),
        chain.len() > 0,
        (src.fetched)(chain.last()) == Ok::<ObjectV, FaultV>(o),
        !(o is Ref),
    ensures
        chain.len() <= 31 ==> resolved(src, ObjectV::Ref(chain[0])) == Ok::<ObjectV, FaultV>(o),
        chain.len() >= 32 ==> resolved(src, ObjectV::Ref(chain[0])) is Err,
{
    if chain.len() <= 31 {
        lemma_chain_followed(src, chain, o, 32, 0);
    } else {
        long_chains_are_circular(src, chain);
    }
}

proof fn lemma_chain_followed(
    src: SourceV,
    chain: Seq<ObjRef>,
    o: ObjectV,
    hops: nat,
    last: u32,
)
    requires
        is_chain(src, chain),
        0 < chain.len() < hops,
        (src.fetched)(chain.last()) == Ok::<ObjectV, FaultV>(o),
        !(o is Ref),
    ensures
        chase(src, ObjectV::Ref(chain[0]), hops, last) == Ok::<ObjectV, FaultV>(o),
    decreases chain.len(),
{
    if chain.len() == 1 {
        assert(chain[0] == chain.last());
        reveal_with_fuel(chase, 2);
    } else {
        let rest = chain.skip(1);
        assert(forall|i: int| 0 <= i < rest.len() ==> #[trigger] rest[i] == chain[i + 1]);
        assert(is_chain(src, rest)) by {
            assert forall|i: int| 0 <= i < rest.len() - 1 implies (src.fetched)(#[trigger] rest[i])
                == Ok::<ObjectV, FaultV>(ObjectV::Ref(rest[i + 1])) by {
                assert((src.fetched)(chain[i + 1]) == Ok::<ObjectV, FaultV>(
                    ObjectV::Ref(chain[i + 1 + 1]),
                ));
            }
        }
        assert((src.fetched)(chain[0]) == Ok::<ObjectV, FaultV>(ObjectV::Ref(chain[0int + 1])));
        lemma_chain_followed(src, rest, o, (hops - 1) as nat, chain[0].num);
    }
}

} // verus!
