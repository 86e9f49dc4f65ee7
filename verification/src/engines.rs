//! The storage engines and the interface they answer to.

use vstd::prelude::*;

use crate::common::WiscError;

pub mod lsm_log_engine;

pub use lsm_log_engine::lsm_engine::LsmLogEngine;

verus! {

/// A reserved range-scan request: the bounds of the user keys asked
/// for.
#[derive(Debug)]
pub struct Scans {
    /// The first key of the range.
    pub start: String,
    /// The first key past the range.
    pub end: String,
}

/// The operations a storage engine offers. Each implementation states
/// what it guarantees through the spec functions: its invariant and
/// one relation per operation, which the methods' contracts tie to the
/// states before and after.
pub trait KvsEngine: Sized {
    /// The engine invariant that every operation preserves.
    spec fn inv(&self) -> bool;

    /// What `set` promises, relating the engine before (`self`) and
    /// after (`post`) to the result.
    spec fn set_ens(
        &self,
        post: &Self,
        r: Result<(), WiscError>,
        key: Seq<char>,
        value: Seq<char>,
    ) -> bool;

    /// What `get` promises of its result.
    spec fn get_ens(&self, r: Result<Option<String>, WiscError>, key: Seq<char>) -> bool;

    /// What `scan` promises of its result.
    spec fn scan_ens(&self, r: Result<Option<Vec<String>>, WiscError>) -> bool;

    /// What `remove` promises, relating the engine before and after to
    /// the result.
    spec fn remove_ens(&self, post: &Self, r: Result<(), WiscError>, key: Seq<char>) -> bool;

    /// Stores `value` under `key`; an earlier value for the key is
    /// superseded.
    fn set(&mut self, key: &str, value: &str) -> (r: Result<(), WiscError>)
        requires
            old(self).inv(),
        ensures
            final(self).inv(),
            old(self).set_ens(final(self), r, key@, value@),
    ;

    /// The value stored under `key`, or nothing when the key is absent
    /// or removed.
    fn get(&self, key: &str) -> (r: Result<Option<String>, WiscError>)
        requires
            self.inv(),
        ensures
            self.get_ens(r, key@),
    ;

    /// Range scan; reserved in the contract.
    fn scan(&self, range: Scans) -> (r: Result<Option<Vec<String>>, WiscError>)
        requires
            self.inv(),
        ensures
            self.scan_ens(r),
    ;

    /// Removes `key`.
    fn remove(&mut self, key: &str) -> (r: Result<(), WiscError>)
        requires
            old(self).inv(),
        ensures
            final(self).inv(),
            old(self).remove_ens(final(self), r, key@),
    ;
}

} // verus!
