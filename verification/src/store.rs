//! The engine-independent store abstraction: the capability interface that
//! the service layer talks to, so that the storage engine can be swapped
//! without touching the service.

use vstd::prelude::*;

use crate::model::{lex_le, name_view, opt_bytes_view, spec_lookup, spec_set, StoreModel};

verus! {

/// A failure of the storage engine, reported instead of a panic.
#[derive(Clone, Copy, Debug, PartialEq, Eq, Structural)]
pub enum StoreError {
    /// The requested table does not exist.
    TableMissing,
    /// The engine could not complete the operation.
    Engine,
}

/// The capability interface of a multi-table key-value store: point reads,
/// point writes, ordered lowest-match lookups, and full scans, all
/// specified against the abstract table model `tables()`.
pub trait KeyValueStore: Sized {
    /// The abstract contents of the store.
    spec fn tables(&self) -> StoreModel;

    /// Well-formedness of the store's representation; constructors
    /// establish it and every operation preserves it.
    spec fn inv(&self) -> bool;

    /// Point read: the value stored under `key` in `table`, absence when
    /// the table or the key does not exist, or an engine failure. A
    /// missing table reads as absent, never as an error.
    fn get(&self, table: &Option<String>, key: &Vec<u8>) -> (r: Result<
        Option<Vec<u8>>,
        StoreError,
    >)
        requires
            self.inv(),
        ensures
            r matches Ok(o) ==> opt_bytes_view(o) == spec_lookup(
                self.tables(),
                name_view(*table),
                key@,
            ),
            r matches Err(e) ==> e == StoreError::Engine,
    ;

    /// Upsert: stores `value` under `key`, creating `table` when absent;
    /// reports failure instead of raising, leaving the store unchanged.
    fn set(&mut self, table: &Option<String>, key: Vec<u8>, value: Vec<u8>) -> (ok: bool)
        requires
            old(self).inv(),
        ensures
            final(self).inv(),
            ok ==> final(self).tables() == spec_set(
                old(self).tables(),
                name_view(*table),
                key@,
                value@,
            ),
            !ok ==> final(self).tables() == old(self).tables(),
    ;

    /// The least stored entry of `table` whose key lies at or after
    /// `lower`, in byte-lexicographic order; `None` when no entry matches.
    fn first_entry_from(&self, table: &Option<String>, lower: &Vec<u8>) -> (r: Result<
        Option<(Vec<u8>, Vec<u8>)>,
        StoreError,
    >)
        requires
            self.inv(),
        ensures
            match r {
                Ok(Some(kv)) => {
                    &&& self.tables().contains_key(name_view(*table))
                    &&& self.tables()[name_view(*table)].contains_key(kv.0@)
                    &&& kv.1@ == self.tables()[name_view(*table)][kv.0@]
                    &&& lex_le(lower@, kv.0@)
                    &&& forall|k2: Seq<u8>|
                        #[trigger] self.tables()[name_view(*table)].contains_key(k2) && lex_le(
                            lower@,
                            k2,
                        ) ==> lex_le(kv.0@, k2)
                },
                Ok(None) => {
                    &&& self.tables().contains_key(name_view(*table))
                    &&& forall|k2: Seq<u8>|
                        #[trigger] self.tables()[name_view(*table)].contains_key(k2) ==> !lex_le(
                            lower@,
                            k2,
                        )
                },
                Err(e) => e == StoreError::TableMissing ==> !self.tables().contains_key(
                    name_view(*table),
                ),
            },
    ;

    /// A store always holds finitely much: finitely many tables, each
    /// with finitely many keys.
    proof fn tables_finite(&self)
        ensures
            self.tables().dom().finite(),
            forall|t: Option<Seq<char>>|
                self.tables().dom().contains(t) ==> (#[trigger] self.tables()[t]).dom().finite(),
    ;

}

} // verus!
