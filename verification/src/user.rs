//! The user repository: users in a primary store, with an identity index
//! resolving a caller credential to the users registered under it.
//!
//! Insertion never rejects a duplicate identity at the data layer; identity
//! lookup then returns the last match in index order, that is, the matching
//! user with the greatest id.

use std::collections::HashMap;

use vstd::prelude::*;

use crate::entities::{Identity, Timestamp, User, UserId, UserView};
use crate::index::{
    identity_entries_wf, lemma_ids_for_ascending, lemma_ids_for_contains, IdentityEntry,
    IndexManagementRepository, UserIdentityIndexRepository,
};
use crate::repository::{
    IndexedRepository, Repository, RepositoryError, RepositoryResult, SerialId,
};

verus! {

broadcast use vstd::std_specs::hash::group_hash_axioms;

/// Consistency of an identity index with its primary store: one entry per
/// stored user, pairing the user's identity with its id; entries are
/// distinct, in never-decreasing id order, and every stored user sits under
/// its own id, which is at least 1.
pub open spec fn user_index_consistent(
    users: Map<UserId, UserView>,
    entries: Seq<IdentityEntry>,
) -> bool {
    &&& identity_entries_wf(entries)
    &&& forall|id: UserId| #[trigger] users.dom().contains(id) ==> users[id].id == id && 1 <= id
    &&& forall|id: UserId|
        #[trigger] users.dom().contains(id) ==> entries.contains((users[id].identity, id))
    &&& forall|p: IdentityEntry|
        #[trigger] entries.contains(p) ==> users.dom().contains(p.1) && users[p.1].identity == p.0
}

/// Resolution of a caller credential to a registered user.
pub trait IdentityProvider {
    /// Well-formedness of the providing store.
    spec fn provider_inv(&self) -> bool;

    /// The user registered under this identity; with duplicates, the one
    /// with the greatest id.
    fn get_user(&self, identity: Identity) -> (r: Option<User>)
        requires
            self.provider_inv(),
    ;
}

/// The repository of users.
#[derive(Debug)]
pub struct UserRepository {
    identity_index: UserIdentityIndexRepository,
    primary: HashMap<UserId, User>,
    serial: SerialId,
}

impl UserRepository {
    /// The stored users, as a map from id to user view.
    pub closed spec fn users(&self) -> Map<UserId, UserView> {
        Map::new(
            |id: UserId| self.primary@.dom().contains(id),
            |id: UserId| self.primary@[id]@,
        )
    }

    /// The entry sequence of the identity index.
    pub closed spec fn entries(&self) -> Seq<IdentityEntry> {
        self.identity_index@
    }

    /// The id the next insert will assign.
    pub closed spec fn spec_peek(&self) -> u64 {
        self.serial.spec_peek()
    }

    /// An empty repository.
    pub fn new() -> (r: UserRepository)
        ensures
            r.inv(),
            r.users() == Map::<UserId, UserView>::empty(),
            r.entries() == Seq::<IdentityEntry>::empty(),
            r.spec_peek() == 1,
    {
        let r = UserRepository {
            identity_index: UserIdentityIndexRepository::new(),
            primary: HashMap::new(),
            serial: SerialId::new(),
        };
        proof {
            assert(r.users() =~= Map::<UserId, UserView>::empty());
        }
        r
    }

    /// Peeks the next user id without advancing the generator.
    pub fn peek_next_id(&self) -> (r: u64)
        ensures
            r == self.spec_peek(),
    {
        self.serial.peek_next_id()
    }

    /// Takes the next user id; see [`SerialId::next_id`].
    pub fn next_id(&mut self) -> (r: u64)
        ensures
            r == old(self).spec_peek(),
            old(self).spec_peek() < u64::MAX ==> final(self).spec_peek() == old(self).spec_peek()
                + 1,
            old(self).spec_peek() == u64::MAX ==> final(self).spec_peek() == u64::MAX,
            final(self).users() == old(self).users(),
            final(self).entries() == old(self).entries(),
    {
        let r = self.serial.next_id();
        proof {
            assert(final(self).users() =~= old(self).users());
        }
        r
    }
}

impl IndexedRepository<User> for UserRepository {
    /// The index alone is well-formed; see [`identity_entries_wf`].
    open spec fn indexes_inv(&self) -> bool {
        identity_entries_wf(self.entries())
    }

    fn remove_indexes(&mut self, value: &User)
        ensures
            forall|p: IdentityEntry|
                final(self).entries().contains(p) <==> (old(self).entries().contains(p) && p != (
                value@.identity,
                value.id,
                )),
            final(self).users() == old(self).users(),
            final(self).spec_peek() == old(self).spec_peek(),
    {
        let key = (value.identity.clone(), value.id);
        let _ = self.identity_index.remove(&key);
        proof {
            assert(final(self).users() =~= old(self).users());
        }
    }

    fn add_indexes(&mut self, value: &User)
        ensures
            forall|p: IdentityEntry|
                final(self).entries().contains(p) <==> (old(self).entries().contains(p) || p == (
                value@.identity,
                value.id,
                )),
            final(self).users() == old(self).users(),
            final(self).spec_peek() == old(self).spec_peek(),
    {
        self.identity_index.insert((value.identity.clone(), value.id));
        proof {
            assert(final(self).users() =~= old(self).users());
        }
    }

    fn clear_indexes(&mut self)
        ensures
            final(self).entries() == Seq::<IdentityEntry>::empty(),
            final(self).users() == old(self).users(),
            final(self).spec_peek() == old(self).spec_peek(),
    {
        self.identity_index.clear();
        proof {
            assert(final(self).users() =~= old(self).users());
        }
    }

    fn save_indexes(&mut self, value: &User, old_value: Option<&User>)
        ensures
            forall|p: IdentityEntry|
                final(self).entries().contains(p) <==> ((old(self).entries().contains(p)
                    && match old_value {
                    Some(o) => p != (o@.identity, o.id),
                    None => true,
                }) || p == (value@.identity, value.id)),
            final(self).users() == old(self).users(),
            final(self).spec_peek() == old(self).spec_peek(),
    {
        if let Some(existing) = old_value {
            self.remove_indexes(existing);
        }
        self.add_indexes(value);
    }
}

impl Repository<UserId, User> for UserRepository {
    /// Index and primary store agree, and every stored id is below the
    /// generator (except once the generator has saturated).
    open spec fn inv(&self) -> bool {
        &&& user_index_consistent(self.users(), self.entries())
        &&& 1 <= self.spec_peek()
        &&& forall|id: UserId|
            #[trigger] self.users().dom().contains(id) ==> id < self.spec_peek()
                || self.spec_peek() == u64::MAX
    }

    /// Retrieves a user by its id.
    fn get(&self, id: &UserId) -> (r: Option<User>)
        ensures
            match r {
                Some(u) => self.users().dom().contains(*id) && u@ == self.users()[*id],
                None => !self.users().dom().contains(*id),
            },
    {
        match self.primary.get(id) {
            Some(u) => Some(u.clone()),
            None => None,
        }
    }

    /// Inserts a new user. The repository assigns the id — the next serial
    /// value; identity data carries no recency, so `now` is unused.
    /// Insertion always succeeds, never rejecting a duplicate identity, and
    /// the assigned id is fresh as long as the generator has not saturated.
    fn insert(&mut self, value: User, now: Timestamp) -> (r: RepositoryResult<User>)
        ensures
            ({
                &&& r matches Ok(u)
                &&& u@ == (UserView {
                    id: old(self).spec_peek(),
                    fullname: value@.fullname,
                    identity: value@.identity,
                    resume: value@.resume,
                })
                &&& final(self).users() == old(self).users().insert(old(self).spec_peek(), u@)
                &&& old(self).spec_peek() < u64::MAX ==> !old(self).users().dom().contains(
                    old(self).spec_peek(),
                )
                &&& old(self).spec_peek() < u64::MAX ==> final(self).spec_peek() == old(
                    self,
                ).spec_peek() + 1
                &&& old(self).spec_peek() == u64::MAX ==> final(self).spec_peek() == u64::MAX
            }),
    {
        let mut user = value;
        user.id = self.serial.next_id();
        let ghost m_mid = self.users();
        proof {
            assert(m_mid =~= old(self).users());
        }
        let prev = self.primary.insert(user.id, user.clone());
        let ghost m_ins = self.users();
        proof {
            assert(m_ins =~= m_mid.insert(user.id, user@));
        }
        self.save_indexes(&user, prev.as_ref());
        proof {
            self.lemma_write_consistent(*old(self), user@, prev);
        }
        Ok(user)
    }

    /// Updates a stored user, replacing every profile field; fails with
    /// not-found — leaving everything untouched — when the id is absent. The
    /// identity-index entry is recomputed, which moves it only if the
    /// identity changed.
    fn update(&mut self, value: User, now: Timestamp) -> (r: RepositoryResult<User>)
        ensures
            !old(self).users().dom().contains(value.id) ==> ({
                &&& r == Err::<User, RepositoryError>(RepositoryError::NotFound)
                &&& final(self).users() == old(self).users()
                &&& final(self).entries() == old(self).entries()
            }),
            old(self).users().dom().contains(value.id) ==> ({
                &&& r matches Ok(u)
                &&& u@ == value@
                &&& final(self).users() == old(self).users().insert(value.id, value@)
            }),
            final(self).spec_peek() == old(self).spec_peek(),
    {
        let present = match self.get(&value.id) {
            Some(_) => true,
            None => false,
        };
        if !present {
            return Err(RepositoryError::NotFound);
        }
        let user = value;
        let prev = self.primary.insert(user.id, user.clone());
        let ghost m_ins = self.users();
        proof {
            assert(m_ins =~= old(self).users().insert(user.id, user@));
        }
        self.save_indexes(&user, prev.as_ref());
        proof {
            self.lemma_write_consistent(*old(self), user@, prev);
        }
        Ok(user)
    }

    /// Deletes the user with this id, failing with not-found — and leaving
    /// everything untouched — when no such user is stored.
    fn delete(&mut self, id: &UserId) -> (r: RepositoryResult<UserId>)
        ensures
            ({
                match r {
                    Ok(i) => {
                        &&& i == *id
                        &&& old(self).users().dom().contains(*id)
                        &&& final(self).users() == old(self).users().remove(*id)
                    },
                    Err(e) => {
                        &&& e == RepositoryError::NotFound
                        &&& !old(self).users().dom().contains(*id)
                        &&& final(self).users() == old(self).users()
                        &&& final(self).entries() == old(self).entries()
                    },
                }
            }),
            final(self).spec_peek() == old(self).spec_peek(),
    {
        let old_u = self.primary.remove(id);
        match old_u {
            None => {
                proof {
                    assert(final(self).users() =~= old(self).users());
                }
                Err(RepositoryError::NotFound)
            },
            Some(u) => {
                let ghost m_mid = self.users();
                proof {
                    assert(m_mid =~= old(self).users().remove(*id));
                    assert(old(self).users().dom().contains(*id));
                    assert(u@ == old(self).users()[*id]);
                    assert(u@.id == *id);
                }
                self.remove_indexes(&u);
                proof {
                    let m_new = self.users();
                    let e_new = self.entries();
                    let m_old = old(self).users();
                    let e_old = old(self).entries();
                    assert(m_new == m_mid);
                    let gone = (u@.identity, *id);
                    assert forall|p: IdentityEntry| #[trigger] e_new.contains(p) implies
                        m_new.dom().contains(p.1) && m_new[p.1].identity == p.0 by {
                        assert(e_old.contains(p) && p != gone);
                        if p.1 == *id {
                            assert(m_old[*id].identity == p.0);
                            assert(p == gone);
                        }
                    }
                    assert forall|i: UserId| #[trigger] m_new.dom().contains(i) implies
                        e_new.contains((m_new[i].identity, i)) by {
                        assert(m_old.dom().contains(i) && i != *id);
                        assert(e_old.contains((m_old[i].identity, i)));
                        assert((m_old[i].identity, i) != gone);
                    }
                }
                Ok(*id)
            },
        }
    }
}

impl UserRepository {
    /// After a primary-store write of `uv` (with `prev` the superseded
    /// value) followed by the index rewrite, index and primary agree again.
    proof fn lemma_write_consistent(&self, pre: UserRepository, uv: UserView, prev: Option<User>)
        requires
            user_index_consistent(pre.users(), pre.entries()),
            1 <= uv.id,
            self.users() == pre.users().insert(uv.id, uv),
            match prev {
                Some(p) => pre.users().dom().contains(uv.id) && p@ == pre.users()[uv.id],
                None => !pre.users().dom().contains(uv.id),
            },
            forall|p: IdentityEntry|
                self.entries().contains(p) <==> ((pre.entries().contains(p) && match prev {
                    Some(o) => p != (o@.identity, o@.id),
                    None => true,
                }) || p == (uv.identity, uv.id)),
            identity_entries_wf(self.entries()),
        ensures
            user_index_consistent(self.users(), self.entries()),
    {
        let m_new = self.users();
        let e_new = self.entries();
        let m_old = pre.users();
        let e_old = pre.entries();
        let id = uv.id;
        assert forall|p: IdentityEntry| #[trigger] e_new.contains(p) implies m_new.dom().contains(
            p.1,
        ) && m_new[p.1].identity == p.0 by {
            if p == (uv.identity, id) {
            } else {
                assert(e_old.contains(p));
                if p.1 == id {
                    match prev {
                        Some(o) => {
                            assert(m_old.dom().contains(id));
                            assert(o@ == m_old[id]);
                            assert(m_old[id].id == id);
                            assert(m_old[id].identity == p.0);
                            assert(p == (o@.identity, o@.id));
                        },
                        None => {
                            assert(m_old.dom().contains(p.1));
                        },
                    }
                }
            }
        }
        assert forall|i: UserId| #[trigger] m_new.dom().contains(i) implies m_new[i].id == i && 1
            <= i && e_new.contains((m_new[i].identity, i)) by {
            if i == id {
                assert(m_new[i] == uv);
            } else {
                assert(m_old.dom().contains(i));
                assert(e_old.contains((m_old[i].identity, i)));
                match prev {
                    Some(o) => {
                        assert(m_old[id].id == id);
                        assert((m_old[i].identity, i) != (o@.identity, o@.id));
                    },
                    None => {},
                }
            }
        }
    }
}

impl IdentityProvider for UserRepository {
    /// The full repository invariant.
    open spec fn provider_inv(&self) -> bool {
        self.inv()
    }

    /// Resolves a caller credential: walks every identity-index match in
    /// ascending id order and returns the last one — the matching user with
    /// the greatest id — or nothing when no user carries this identity.
    fn get_user(&self, identity: Identity) -> (r: Option<User>)
        ensures
            match r {
                Some(u) => {
                    &&& self.users().dom().contains(u@.id)
                    &&& u@ == self.users()[u@.id]
                    &&& u@.identity == identity@
                    &&& forall|id: UserId|
                        self.users().dom().contains(id) && (#[trigger] self.users()[id]).identity
                            == identity@ ==> id <= u@.id
                },
                None => forall|id: UserId|
                    #[trigger] self.users().dom().contains(id) ==> self.users()[id].identity
                        != identity@,
            },
    {
        let ghost idb = identity@;
        let ids = self.identity_index.find(identity, None, 0);
        proof {
            lemma_ids_for_ascending(self.entries(), idb);
        }
        if ids.len() == 0 {
            proof {
                assert forall|id: UserId| #[trigger] self.users().dom().contains(id) implies
                    self.users()[id].identity != idb by {
                    if self.users()[id].identity == idb {
                        assert(self.entries().contains((idb, id)));
                        lemma_ids_for_contains(self.entries(), idb, id);
                        assert(ids@.contains(id));
                    }
                }
            }
            return None;
        }
        let last = ids[ids.len() - 1];
        proof {
            assert(ids@.contains(last));
            lemma_ids_for_contains(self.entries(), idb, last);
            assert(self.entries().contains((idb, last)));
            assert(self.users().dom().contains(last));
            assert(self.users()[last].identity == idb);
        }
        match self.get(&last) {
            Some(u) => {
                proof {
                    assert(u@.id == last);
                    assert forall|id: UserId|
                        self.users().dom().contains(id) && (#[trigger] self.users()[id]).identity
                            == idb implies id <= last by {
                        assert(self.entries().contains((idb, id)));
                        lemma_ids_for_contains(self.entries(), idb, id);
                        assert(ids@.contains(id));
                        let m = choose|m: int| 0 <= m < ids@.len() && ids@[m] == id;
                        if m < ids@.len() - 1 {
                            assert(ids@[m] < ids@[ids@.len() - 1]);
                        }
                    }
                }
                Some(u)
            },
            None => {
                proof {
                    assert(false);
                }
                None
            },
        }
    }
}

} // verus!
