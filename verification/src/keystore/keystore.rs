//! The metadata store interface: a persisted map from object id to object
//! key, consulted only through set, get, delete and enumerate operations.

use vstd::prelude::*;

use crate::object::ObjKey;
use crate::object::ObjKeyV;
use crate::object::ObjectId;
use crate::RResult;
use crate::StoreError;

verus! {

/// A persisted key/value map from object id to object key. `set` and
/// `delete` commit durably before returning `Ok`; a failed operation
/// changes nothing.
pub trait KeyStore {
    /// The structural invariant of the store's state. The default, for
    /// outside stores no proof reaches into, models an empty store.
    open spec fn inv(&self) -> bool {
        true
    }

    /// The stored keys, by object id.
    open spec fn kmap(&self) -> Map<ObjectId, ObjKeyV> {
        Map::empty()
    }

    /// Stores a key under its id, returning the key previously stored
    /// there, if any.
    fn set(&mut self, uuid: ObjectId, key: ObjKey) -> (r: RResult<Option<ObjKey>>)
        requires
            old(self).inv(),
            key@.wf(),
            key.uuid == uuid,
        ensures
            final(self).inv(),
            r matches Ok(prev) ==> {
                &&& final(self).kmap() == old(self).kmap().insert(uuid, key@)
                &&& match prev {
                    Some(p) => old(self).kmap().dom().contains(uuid) && p@ == old(
                        self,
                    ).kmap()[uuid],
                    None => !old(self).kmap().dom().contains(uuid),
                }
            },
            r is Err ==> final(self).kmap() == old(self).kmap(),
            r matches Err(e) ==> e == StoreError::IoError,
    ;

    /// Looks a key up by id.
    fn get(&self, uuid: &ObjectId) -> (r: RResult<Option<&ObjKey>>)
        requires
            self.inv(),
        ensures
            r matches Ok(o) ==> match o {
                Some(k) => self.kmap().dom().contains(*uuid) && k@ == self.kmap()[*uuid]
                    && k@.wf() && k.uuid == *uuid,
                None => !self.kmap().dom().contains(*uuid),
            },
            r matches Err(e) ==> e == StoreError::IoError,
    ;

    /// Removes and returns the key stored under an id, if any.
    fn delete(&mut self, uuid: &ObjectId) -> (r: RResult<Option<ObjKey>>)
        requires
            old(self).inv(),
        ensures
            final(self).inv(),
            r matches Ok(removed) ==> {
                &&& final(self).kmap() == old(self).kmap().remove(*uuid)
                &&& match removed {
                    Some(k) => old(self).kmap().dom().contains(*uuid) && k@ == old(
                        self,
                    ).kmap()[*uuid],
                    None => !old(self).kmap().dom().contains(*uuid),
                }
            },
            r is Err ==> final(self).kmap() == old(self).kmap(),
            r matches Err(e) ==> e == StoreError::IoError,
    ;

    /// Enumerates every stored key, once each; used only by startup
    /// reconciliation.
    fn get_objects(&self) -> (r: RResult<Vec<ObjKey>>)
        requires
            self.inv(),
        ensures
            r matches Ok(v) ==> {
                &&& v@.len() == self.kmap().dom().len()
                &&& forall|i: int|
                    0 <= i < v@.len() ==> self.kmap().dom().contains((#[trigger] v@[i])@.uuid)
                        && self.kmap()[v@[i]@.uuid] == v@[i]@ && v@[i]@.wf()
                &&& forall|id: ObjectId|
                    self.kmap().dom().contains(id) ==> exists|i: int|
                        0 <= i < v@.len() && (#[trigger] v@[i])@.uuid == id
            },
            r matches Err(e) ==> e == StoreError::IoError,
    ;
}

} // verus!
