//! Stable entity references and typed field access.
//!
//! A store address may be recycled after its node is deleted; the uid stored
//! under the node's `"uid"` key never is. An [`EntityId`] caches both, and
//! every access re-reads the uid at the cached address: a missing node or a
//! different uid means the entity this handle referred to is gone.
use vstd::prelude::*;

use crate::errors::Error;
use crate::store::{FieldValue, GetValue, Store, Val};

verus! {

/// A stable reference to one entity: the node address it was created at,
/// paired with the uid stored there at creation time.
#[derive(Debug, Clone, Copy, PartialEq, Eq, Structural)]
pub struct EntityId {
    pub addr: i64,
    pub uid: u64,
}

impl EntityId {
    /// The cached address still holds a node carrying this id's uid.
    pub open spec fn live(self, s: Store) -> bool {
        self.addr > 0 && s.field(self.addr as int, "uid"@) == Some(Val::U64(self.uid))
    }

    /// Re-validate this id against the store and return the address, which is
    /// only trusted if the uid stored there still matches the cached one.
    pub fn resolve(&self, s: &Store) -> (r: Result<i64, Error>)
        requires
            s.ok(),
        ensures
            r matches Ok(a) ==> self.live(*s) && a == self.addr,
            self.live(*s) ==> !(r matches Err(e) && e is RemovedEntity),
            r matches Err(e) ==> e is RemovedEntity || e is Internal,
    {
        if self.addr <= 0 {
            return Err(Error::RemovedEntity);
        }
        match s.get_value(self.addr, "uid") {
            GetValue::Found(FieldValue::U64(u)) => {
                if u == self.uid {
                    Ok(self.addr)
                } else {
                    // The address was recycled by a newer entity.
                    Err(Error::RemovedEntity)
                }
            },
            // The address was recycled by a node that is not an entity.
            GetValue::Found(_) => Err(Error::RemovedEntity),
            GetValue::Missing => Err(Error::RemovedEntity),
            GetValue::Fault(m) => Err(Error::Internal(m)),
        }
    }
}

/// Read a text field of a live entity.
pub fn get_text(s: &Store, id: EntityId, key: &str) -> (r: Result<String, Error>)
    requires
        s.ok(),
    ensures
        r matches Ok(t) ==> id.live(*s) && s.field(id.addr as int, key@) == Some(Val::Text(t@)),
        r matches Err(e) ==> e is RemovedEntity || e is Internal,
        r matches Err(e) && e is RemovedEntity ==> !id.live(*s),
{
    let addr = id.resolve(s)?;
    match s.get_value(addr, key) {
        GetValue::Found(FieldValue::Text(t)) => Ok(t),
        GetValue::Found(_) => Err(Error::Internal("field does not hold text".to_owned())),
        GetValue::Missing => Err(Error::Internal("field is missing".to_owned())),
        GetValue::Fault(m) => Err(Error::Internal(m)),
    }
}

/// Read an unsigned-integer field of a live entity.
pub fn get_u64(s: &Store, id: EntityId, key: &str) -> (r: Result<u64, Error>)
    requires
        s.ok(),
    ensures
        r matches Ok(u) ==> id.live(*s) && s.field(id.addr as int, key@) == Some(Val::U64(u)),
        r matches Err(e) ==> e is RemovedEntity || e is Internal,
        r matches Err(e) && e is RemovedEntity ==> !id.live(*s),
{
    let addr = id.resolve(s)?;
    match s.get_value(addr, key) {
        GetValue::Found(FieldValue::U64(u)) => Ok(u),
        GetValue::Found(_) => Err(Error::Internal("field does not hold an integer".to_owned())),
        GetValue::Missing => Err(Error::Internal("field is missing".to_owned())),
        GetValue::Fault(m) => Err(Error::Internal(m)),
    }
}

/// Read a boolean field of a live entity; booleans are stored as 0 or 1.
pub fn get_flag(s: &Store, id: EntityId, key: &str) -> (r: Result<bool, Error>)
    requires
        s.ok(),
    ensures
        r matches Ok(b) ==> id.live(*s) && (s.field(id.addr as int, key@) matches Some(v) && v
            matches Val::U64(u) && (b <==> u != 0)),
        r matches Err(e) ==> e is RemovedEntity || e is Internal,
        r matches Err(e) && e is RemovedEntity ==> !id.live(*s),
{
    let u = get_u64(s, id, key)?;
    Ok(u != 0)
}

/// Read a list-of-text field of a live entity.
pub fn get_text_list(s: &Store, id: EntityId, key: &str) -> (r: Result<Vec<String>, Error>)
    requires
        s.ok(),
    ensures
        r matches Ok(v) ==> id.live(*s) && s.field(id.addr as int, key@) == Some(
            Val::TextList(v.deep_view()),
        ),
        r matches Err(e) ==> e is RemovedEntity || e is Internal,
        r matches Err(e) && e is RemovedEntity ==> !id.live(*s),
{
    let addr = id.resolve(s)?;
    match s.get_value(addr, key) {
        GetValue::Found(FieldValue::TextList(v)) => Ok(v),
        GetValue::Found(_) => Err(Error::Internal("field does not hold a text list".to_owned())),
        GetValue::Missing => Err(Error::Internal("field is missing".to_owned())),
        GetValue::Fault(m) => Err(Error::Internal(m)),
    }
}

/// Write one field of a live entity, re-validating the id first.
pub fn set_field(s: &mut Store, id: EntityId, key: &str, value: &FieldValue) -> (r: Result<
    (),
    Error,
>)
    requires
        old(s).ok(),
    ensures
        final(s).ok(),
        final(s).edges() == old(s).edges(),
        final(s).aliases() == old(s).aliases(),
        r is Ok ==> id.live(*old(s)) && final(s).nodes() == old(s).nodes().insert(
            id.addr as int,
            old(s).nodes()[id.addr as int].insert(key@, value@),
        ),
        r is Err ==> final(s).nodes() == old(s).nodes(),
        r matches Err(e) ==> e is RemovedEntity || e is Internal,
        r matches Err(e) && e is RemovedEntity ==> !id.live(*old(s)),
{
    let addr = id.resolve(s)?;
    match s.set_value(addr, key, value) {
        Ok(()) => Ok(()),
        Err(f) => Err(Error::Internal(f.message)),
    }
}

} // verus!
