use vstd::prelude::*;

verus! {

use crate::afs::FSError;

/// The opaque identifier a caller presents to be allowed to mutate the
/// store.
#[derive(Debug)]
pub struct ClientId(pub String);

/// Why no identifier could be taken from a request.
#[derive(Debug)]
pub enum ClientIdError {
    Missing,
    Invalid,
}

/// Derive the caller's identifier from the authorization header, when one
/// was sent.
pub fn client_id_from_header(header: Option<String>) -> (r: Result<ClientId, ClientIdError>)
    ensures
        match r {
            Ok(c) => header matches Some(h) && c.0@ == h@,
            Err(e) => header is None && e is Missing,
        },
{
    match header {
        Some(h) => Ok(ClientId(h)),
        None => Err(ClientIdError::Missing),
    }
}

/// Let the caller through exactly when its identifier stands in the
/// allow-list; everyone else is turned away as `Forbidden` before any lock
/// on the store is taken.
pub fn authorize(allowed: &Vec<String>, id: &ClientId) -> (r: Result<(), FSError>)
    ensures
        r is Ok <==> (exists|i: int| 0 <= i < allowed@.len() && (#[trigger] allowed@[i])@ == id.0@),
        r is Err ==> r->Err_0 is Forbidden,
{
    let mut i: usize = 0;
    while i < allowed.len()
        invariant
            i <= allowed@.len(),
            forall|k: int| 0 <= k < i ==> (#[trigger] allowed@[k])@ != id.0@,
        decreases allowed@.len() - i,
    {
        if allowed[i] == id.0 {
            return Ok(());
        }
        i += 1;
    }
    Err(FSError::Forbidden)
}

} // verus!
