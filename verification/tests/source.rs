use pdfboss_core::error::{Error, Result};
use pdfboss_core::object::{ObjRef, Object, Stream};
use pdfboss_core::source::{resolve_sync_with, ObjectSource, SourceV, MAX_RESOLVE_DEPTH};

struct SyncSelfReferential;

impl ObjectSource for SyncSelfReferential {
    fn model(&self) -> SourceV {
        unreachable!("a model is only spoken of")
    }

    fn get(&self, r: ObjRef) -> Result<Object> {
        Ok(Object::Ref(r))
    }

    fn stream_data(&self, s: &Stream) -> Result<Vec<u8>> {
        Ok(s.data.clone())
    }
}

struct CircularSource;

impl ObjectSource for CircularSource {
    fn model(&self) -> SourceV {
        unreachable!("a model is only spoken of")
    }

    fn get(&self, r: ObjRef) -> Result<Object> {
        Err(Error::CircularReference(r.num))
    }

    fn stream_data(&self, s: &Stream) -> Result<Vec<u8>> {
        Ok(s.data.clone())
    }
}

struct UnreadableSource;

impl ObjectSource for UnreadableSource {
    fn model(&self) -> SourceV {
        unreachable!("a model is only spoken of")
    }

    fn get(&self, _: ObjRef) -> Result<Object> {
        Err(Error::MissingKey("Length"))
    }

    fn stream_data(&self, s: &Stream) -> Result<Vec<u8>> {
        Ok(s.data.clone())
    }
}

struct Chain;

impl ObjectSource for Chain {
    fn model(&self) -> SourceV {
        unreachable!("a model is only spoken of")
    }

    fn get(&self, r: ObjRef) -> Result<Object> {
        if r.num == 0 {
            Ok(Object::Int(0))
        } else {
            Ok(Object::Ref(ObjRef {
                num: r.num - 1,
                gen: 0,
            }))
        }
    }

    fn stream_data(&self, s: &Stream) -> Result<Vec<u8>> {
        Ok(s.data.clone())
    }
}

#[test]
fn resolve_sync_with_stops_at_the_depth_cap() {
    let chain = Object::Ref(ObjRef { num: 7, gen: 0 });
    let err = resolve_sync_with(&SyncSelfReferential, &chain).unwrap_err();
    assert!(
        matches!(err, Error::CircularReference(7)),
        "a self-referential chain must exhaust the cap and report \
         CircularReference for the last reference seen, got {err:?}"
    );
}

#[test]
fn resolve_sync_with_returns_a_direct_object_unchanged() {
    assert_eq!(
        resolve_sync_with(&SyncSelfReferential, &Object::Int(42)).unwrap(),
        Object::Int(42)
    );
}

#[test]
fn resolve_sync_with_is_lenient_but_propagates_cycles() {
    let r = Object::Ref(ObjRef { num: 5, gen: 0 });
    assert_eq!(
        resolve_sync_with(&UnreadableSource, &r).unwrap(),
        Object::Null,
        "a fetch failing for any reason other than a cycle must flatten \
         to Null"
    );
    assert!(matches!(
        resolve_sync_with(&CircularSource, &r).unwrap_err(),
        Error::CircularReference(5)
    ));
}

#[test]
fn the_provided_resolve_is_the_shared_chase() {
    let direct = Object::Int(9);
    assert_eq!(
        ObjectSource::resolve(&SyncSelfReferential, &direct).unwrap(),
        resolve_sync_with(&SyncSelfReferential, &direct).unwrap()
    );

    let chain = Object::Ref(ObjRef { num: 3, gen: 0 });
    assert!(matches!(
        ObjectSource::resolve(&SyncSelfReferential, &chain).unwrap_err(),
        Error::CircularReference(3)
    ));
}

#[test]
fn a_chase_ends_at_the_depth_cap_and_not_before() {
    let longest = u32::try_from(MAX_RESOLVE_DEPTH - 2).expect("the cap fits in a u32");
    let fits = Object::Ref(ObjRef { num: longest, gen: 0 });
    let too_long = Object::Ref(ObjRef { num: longest + 1, gen: 0 });
    assert_eq!(resolve_sync_with(&Chain, &fits).unwrap(), Object::Int(0));
    assert_eq!((&Chain).resolve(&fits).unwrap(), Object::Int(0));
    assert!(matches!(
        resolve_sync_with(&Chain, &too_long).unwrap_err(),
        Error::CircularReference(0)
    ));
}

#[test]
fn what_a_chase_ends_at_is_chased_no_further() {
    let r = Object::Ref(ObjRef { num: 4, gen: 0 });
    let end = resolve_sync_with(&Chain, &r).unwrap();
    assert_eq!(resolve_sync_with(&Chain, &end).unwrap(), end);
}
