//! The repository abstractions: the error taxonomy, the serial-id
//! generator, and the traits every entity repository implements.

use vstd::prelude::*;

use crate::entities::Timestamp;

verus! {

/// Errors of the repository layer.
#[derive(Debug, Clone, PartialEq, Eq)]
pub enum RepositoryError {
    /// The operation targets an id absent from the primary store.
    NotFound,
    /// Reserved for write-to-existing-key violations; the insert paths never
    /// raise it, since ids are always freshly allocated.
    Conflict,
    /// A semantic rule was violated: message immutability, or a conversation
    /// owner change.
    IllegalUpdate { reason: String },
}

/// The result of every repository operation.
pub type RepositoryResult<T> = Result<T, RepositoryError>;

/// A per-entity-kind monotonic counter producing unique ascending
/// identifiers, starting at 1.
///
/// At the maximum representable id the counter saturates: `next_id` then
/// keeps returning the maximum instead of advancing. The id-monotonicity
/// guarantee — `next_id()` returns the old `peek_next_id()` and advances the
/// next value by exactly one — therefore holds on every state short of
/// saturation, and stands in the `ensures` of [`SerialId::next_id`].
#[derive(Debug, Clone, Copy, PartialEq, Eq, Structural)]
pub struct SerialId {
    next: u64,
}

impl SerialId {
    /// The value the next allocation will return.
    pub closed spec fn spec_peek(&self) -> u64 {
        self.next
    }

    /// A fresh generator: the first id is 1.
    pub fn new() -> (r: SerialId)
        ensures
            r.spec_peek() == 1,
    {
        SerialId { next: 1 }
    }

    /// Returns the next value without mutating state.
    pub fn peek_next_id(&self) -> (r: u64)
        ensures
            r == self.spec_peek(),
    {
        self.next
    }

    /// Returns the current value and advances the counter by one,
    /// saturating at the maximum representable id.
    pub fn next_id(&mut self) -> (r: u64)
        ensures
            r == old(self).spec_peek(),
            old(self).spec_peek() < u64::MAX ==> final(self).spec_peek() == old(self).spec_peek()
                + 1,
            old(self).spec_peek() == u64::MAX ==> final(self).spec_peek() == u64::MAX,
    {
        let id = self.next;
        if self.next < u64::MAX {
            self.next = self.next + 1;
        }
        id
    }
}

/// The operation set shared by every entity repository.
///
/// `insert` and `update` take the current time from the caller: the clock is
/// a collaborator outside this crate, and recency (`updated_at`, message
/// timestamps) must be assigned by the repository, never trusted from the
/// entity value.
pub trait Repository<K, V> {
    /// Well-formedness of the repository: every secondary-index entry
    /// reflects the primary store, and conversely.
    spec fn inv(&self) -> bool;

    /// Retrieves an entity by its id.
    fn get(&self, id: &K) -> (r: Option<V>)
        requires
            self.inv(),
    ;

    /// Inserts a new entity, assigning its id (and recency, where the
    /// entity carries one).
    fn insert(&mut self, value: V, now: Timestamp) -> (r: RepositoryResult<V>)
        requires
            old(self).inv(),
        ensures
            final(self).inv(),
    ;

    /// Updates a stored entity.
    fn update(&mut self, value: V, now: Timestamp) -> (r: RepositoryResult<V>)
        requires
            old(self).inv(),
        ensures
            final(self).inv(),
    ;

    /// Deletes an entity by its id; absent ids are reported as
    /// [`RepositoryError::NotFound`].
    fn delete(&mut self, id: &K) -> (r: RepositoryResult<K>)
        requires
            old(self).inv(),
        ensures
            final(self).inv(),
    ;
}

/// Index maintenance shared by every entity repository: the entries derived
/// from one entity value are added and removed as a unit, so that after any
/// mutation the index state exactly reflects the primary store.
pub trait IndexedRepository<V> {
    /// Well-formedness of the index structures alone. Unlike the full
    /// repository invariant, this one also holds between a primary-store
    /// write and the index rewrite that follows it.
    spec fn indexes_inv(&self) -> bool;

    /// Removes the index entries for `value`.
    fn remove_indexes(&mut self, value: &V)
        requires
            old(self).indexes_inv(),
        ensures
            final(self).indexes_inv(),
    ;

    /// Adds the index entries for `value`.
    fn add_indexes(&mut self, value: &V)
        requires
            old(self).indexes_inv(),
        ensures
            final(self).indexes_inv(),
    ;

    /// Removes every index entry.
    fn clear_indexes(&mut self)
        requires
            old(self).indexes_inv(),
        ensures
            final(self).indexes_inv(),
    ;

    /// Replaces the index entries of a superseded value with those of the
    /// new one: remove the old entries first, then add the new — never leave
    /// both, never leave neither.
    fn save_indexes(&mut self, value: &V, old_value: Option<&V>)
        requires
            old(self).indexes_inv(),
        ensures
            final(self).indexes_inv(),
    {
        if let Some(existing) = old_value {
            self.remove_indexes(existing);
        }
        self.add_indexes(value);
    }
}

} // verus!
