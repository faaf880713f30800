//! A store that holds nothing, for code that needs a [`Store`] before a
//! real one is available: every read misses and every write fails.

use vstd::prelude::*;

use crate::{ContentId, Error, Result, Store};

verus! {

/// `std::io::Error::other`: an error of kind `Other` carrying `msg`.
/// Nothing is stated of the value: the type is opaque here.
#[verifier::external_body]
fn io_other(msg: &str) -> std::io::Error {
    std::io::Error::other(msg.to_string())
}

/// The empty placeholder store.
#[derive(Debug, Default)]
pub struct StubStore;

impl Store for StubStore {
    fn put(&mut self, content: &[u8]) -> (r: Result<ContentId>)
        ensures
            r matches Err(Error::Io(_)),
    {
        Err(Error::Io(io_other("store not implemented yet")))
    }

    fn get(&self, id: &ContentId) -> (r: Result<Vec<u8>>)
        ensures
            r matches Err(Error::UnknownContent(x)) && x == *id,
    {
        Err(Error::UnknownContent(*id))
    }

    fn contains(&self, id: &ContentId) -> (r: bool)
        ensures
            !r,
    {
        false
    }

    fn add_ref(&mut self, id: &ContentId) -> (r: Result<()>)
        ensures
            r matches Err(Error::UnknownContent(x)) && x == *id,
    {
        Err(Error::UnknownContent(*id))
    }

    fn release_ref(&mut self, id: &ContentId) -> (r: Result<()>)
        ensures
            r matches Err(Error::RefCountUnderflow(x)) && x == *id,
    {
        Err(Error::RefCountUnderflow(*id))
    }

    fn ref_count(&self, id: &ContentId) -> (r: Result<u64>)
        ensures
            r matches Err(Error::UnknownContent(x)) && x == *id,
    {
        Err(Error::UnknownContent(*id))
    }
}

} // verus!
