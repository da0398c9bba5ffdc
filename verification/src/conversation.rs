//! The conversation repository: conversations in a primary store, with an
//! owner-recency index. Every write refreshes `updated_at`, which may move
//! the conversation's index position; the owner is immutable after creation.

use std::collections::HashMap;

use vstd::prelude::*;

use crate::entities::{Conversation, ConversationId, ConversationView, Timestamp, UserId};
use crate::index::{
    conv_key, conv_page_ids, ConversationUserIndexRepository, IndexManagementRepository,
};
use crate::keyset::{sorted, spec_rev_rank, Key3};
use crate::repository::{
    IndexedRepository, Repository, RepositoryError, RepositoryResult, SerialId,
};

verus! {

broadcast use vstd::std_specs::hash::group_hash_axioms;

/// Consistency of a conversation index with its primary store: exactly one
/// entry per stored conversation, keyed by its owner and reversed recency
/// with the conversation id as tiebreaker, and every stored conversation
/// sits under its own id, which is at least 1.
pub open spec fn conv_index_consistent(
    convs: Map<ConversationId, ConversationView>,
    keys: Seq<Key3>,
) -> bool {
    &&& sorted(keys)
    &&& forall|id: ConversationId|
        #[trigger] convs.dom().contains(id) ==> convs[id].id == id && 1 <= id
    &&& forall|id: ConversationId|
        #[trigger] convs.dom().contains(id) ==> keys.contains(
            conv_key(convs[id].user, convs[id].updated_at, id),
        )
    &&& forall|k: Key3|
        #[trigger] keys.contains(k) ==> convs.dom().contains(k.tie) && convs[k.tie].user == k.group
            && convs[k.tie].updated_at == spec_rev_rank(k.rank)
}

/// The repository of conversations.
#[derive(Debug)]
pub struct ConversationRepository {
    /// The secondary index over (owner, reversed recency, conversation id).
    pub user_index: ConversationUserIndexRepository,
    primary: HashMap<ConversationId, Conversation>,
    serial: SerialId,
}

impl ConversationRepository {
    /// The stored conversations, as a map from id to conversation view.
    pub closed spec fn convs(&self) -> Map<ConversationId, ConversationView> {
        Map::new(
            |id: ConversationId| self.primary@.dom().contains(id),
            |id: ConversationId| self.primary@[id]@,
        )
    }

    /// The key sequence of the owner-recency index.
    pub closed spec fn index_keys(&self) -> Seq<Key3> {
        self.user_index@
    }

    /// The id the next insert will assign.
    pub closed spec fn spec_peek(&self) -> u64 {
        self.serial.spec_peek()
    }

    /// An empty repository.
    pub fn new() -> (r: ConversationRepository)
        ensures
            r.inv(),
            r.convs() == Map::<ConversationId, ConversationView>::empty(),
            r.index_keys() == Seq::<Key3>::empty(),
            r.spec_peek() == 1,
    {
        let r = ConversationRepository {
            user_index: ConversationUserIndexRepository::new(),
            primary: HashMap::new(),
            serial: SerialId::new(),
        };
        proof {
            assert(r.convs() =~= Map::<ConversationId, ConversationView>::empty());
        }
        r
    }

    /// Peeks the next conversation id without advancing the generator.
    pub fn peek_next_id(&self) -> (r: u64)
        ensures
            r == self.spec_peek(),
    {
        self.serial.peek_next_id()
    }

    /// Takes the next conversation id; see [`SerialId::next_id`].
    pub fn next_id(&mut self) -> (r: u64)
        ensures
            r == old(self).spec_peek(),
            old(self).spec_peek() < u64::MAX ==> final(self).spec_peek() == old(self).spec_peek()
                + 1,
            old(self).spec_peek() == u64::MAX ==> final(self).spec_peek() == u64::MAX,
            final(self).convs() == old(self).convs(),
            final(self).index_keys() == old(self).index_keys(),
    {
        let r = self.serial.next_id();
        proof {
            assert(final(self).convs() =~= old(self).convs());
        }
        r
    }
}

impl IndexedRepository<Conversation> for ConversationRepository {
    /// The index alone is well-formed: sorted keys.
    open spec fn indexes_inv(&self) -> bool {
        sorted(self.index_keys())
    }

    fn remove_indexes(&mut self, value: &Conversation)
        ensures
            forall|x: Key3|
                final(self).index_keys().contains(x) <==> (old(self).index_keys().contains(x) && x
                    != conv_key(value.user, value.updated_at, value.id)),
            final(self).convs() == old(self).convs(),
            final(self).spec_peek() == old(self).spec_peek(),
    {
        let _ = self.user_index.remove(&(value.user, value.updated_at, value.id));
        proof {
            assert(final(self).convs() =~= old(self).convs());
        }
    }

    fn add_indexes(&mut self, value: &Conversation)
        ensures
            forall|x: Key3|
                final(self).index_keys().contains(x) <==> (old(self).index_keys().contains(x) || x
                    == conv_key(value.user, value.updated_at, value.id)),
            final(self).convs() == old(self).convs(),
            final(self).spec_peek() == old(self).spec_peek(),
    {
        self.user_index.insert((value.user, value.updated_at, value.id));
        proof {
            assert(final(self).convs() =~= old(self).convs());
        }
    }

    fn clear_indexes(&mut self)
        ensures
            final(self).index_keys() == Seq::<Key3>::empty(),
            final(self).convs() == old(self).convs(),
            final(self).spec_peek() == old(self).spec_peek(),
    {
        self.user_index.clear();
        proof {
            assert(final(self).convs() =~= old(self).convs());
        }
    }

    fn save_indexes(&mut self, value: &Conversation, old_value: Option<&Conversation>)
        ensures
            forall|x: Key3|
                final(self).index_keys().contains(x) <==> ((old(self).index_keys().contains(x)
                    && match old_value {
                    Some(o) => x != conv_key(o.user, o.updated_at, o.id),
                    None => true,
                }) || x == conv_key(value.user, value.updated_at, value.id)),
            final(self).convs() == old(self).convs(),
            final(self).spec_peek() == old(self).spec_peek(),
    {
        if let Some(existing) = old_value {
            self.remove_indexes(existing);
        }
        self.add_indexes(value);
    }
}

impl Repository<ConversationId, Conversation> for ConversationRepository {
    /// Index and primary store agree, and every stored id is below the
    /// generator (except once the generator has saturated).
    open spec fn inv(&self) -> bool {
        &&& conv_index_consistent(self.convs(), self.index_keys())
        &&& 1 <= self.spec_peek()
        &&& forall|id: ConversationId|
            #[trigger] self.convs().dom().contains(id) ==> id < self.spec_peek()
                || self.spec_peek() == u64::MAX
    }

    /// Retrieves a conversation by its id.
    fn get(&self, id: &ConversationId) -> (r: Option<Conversation>)
        ensures
            match r {
                Some(c) => self.convs().dom().contains(*id) && c@ == self.convs()[*id],
                None => !self.convs().dom().contains(*id),
            },
    {
        match self.primary.get(id) {
            Some(c) => Some(c.clone()),
            None => None,
        }
    }

    /// Inserts a new conversation. The repository assigns the id — the next
    /// serial value — and refreshes `updated_at` to `now`; the caller's id
    /// and recency fields are never trusted. Insertion always succeeds, and
    /// the assigned id is fresh as long as the generator has not saturated.
    fn insert(&mut self, value: Conversation, now: Timestamp) -> (r: RepositoryResult<Conversation>)
        ensures
            ({
                &&& r matches Ok(c)
                &&& c@ == (ConversationView {
                    id: old(self).spec_peek(),
                    user: value.user,
                    updated_at: now,
                    name: value@.name,
                })
                &&& final(self).convs() == old(self).convs().insert(old(self).spec_peek(), c@)
                &&& old(self).spec_peek() < u64::MAX ==> !old(self).convs().dom().contains(
                    old(self).spec_peek(),
                )
                &&& old(self).spec_peek() < u64::MAX ==> final(self).spec_peek() == old(
                    self,
                ).spec_peek() + 1
                &&& old(self).spec_peek() == u64::MAX ==> final(self).spec_peek() == u64::MAX
            }),
    {
        let mut conv = value;
        conv.id = self.serial.next_id();
        conv.updated_at = now;
        let ghost m_mid = self.convs();
        proof {
            assert(m_mid =~= old(self).convs());
        }
        let prev = self.primary.insert(conv.id, conv.clone());
        let ghost m_ins = self.convs();
        proof {
            assert(m_ins =~= m_mid.insert(conv.id, conv@));
        }
        self.save_indexes(&conv, prev.as_ref());
        proof {
            self.lemma_write_consistent(*old(self), conv@, prev);
        }
        Ok(conv)
    }

    /// Updates a stored conversation: fails with not-found when the id is
    /// absent, and with an illegal update — leaving the store untouched —
    /// when the caller tries to change the owner. Otherwise the name is
    /// replaced and `updated_at` refreshed to `now`, which moves the
    /// conversation's index position.
    fn update(&mut self, value: Conversation, now: Timestamp) -> (r: RepositoryResult<Conversation>)
        ensures
            !old(self).convs().dom().contains(value.id) ==> ({
                &&& r == Err::<Conversation, RepositoryError>(RepositoryError::NotFound)
                &&& final(self).convs() == old(self).convs()
                &&& final(self).index_keys() == old(self).index_keys()
            }),
            (old(self).convs().dom().contains(value.id) && old(self).convs()[value.id].user
                != value.user) ==> ({
                &&& r matches Err(RepositoryError::IllegalUpdate { reason })
                &&& reason@ == "User is different"@
                &&& final(self).convs() == old(self).convs()
                &&& final(self).index_keys() == old(self).index_keys()
            }),
            (old(self).convs().dom().contains(value.id) && old(self).convs()[value.id].user
                == value.user) ==> ({
                &&& r matches Ok(c)
                &&& c@ == (ConversationView {
                    id: value.id,
                    user: value.user,
                    updated_at: now,
                    name: value@.name,
                })
                &&& final(self).convs() == old(self).convs().insert(value.id, c@)
            }),
            final(self).spec_peek() == old(self).spec_peek(),
    {
        match self.get(&value.id) {
            Some(old_conv) => {
                if old_conv.user != value.user {
                    return Err(
                        RepositoryError::IllegalUpdate { reason: "User is different".to_owned() },
                    );
                }
            },
            None => {
                return Err(RepositoryError::NotFound);
            },
        }
        let mut conv = value;
        conv.updated_at = now;
        let prev = self.primary.insert(conv.id, conv.clone());
        let ghost m_ins = self.convs();
        proof {
            assert(m_ins =~= old(self).convs().insert(conv.id, conv@));
        }
        self.save_indexes(&conv, prev.as_ref());
        proof {
            self.lemma_write_consistent(*old(self), conv@, prev);
        }
        Ok(conv)
    }

    /// Deletes the conversation with this id, failing with not-found — and
    /// leaving everything untouched — when no such conversation is stored.
    /// Deleting does not itself cascade to the conversation's messages;
    /// cascading is the caller's responsibility.
    fn delete(&mut self, id: &ConversationId) -> (r: RepositoryResult<ConversationId>)
        ensures
            ({
                match r {
                    Ok(i) => {
                        &&& i == *id
                        &&& old(self).convs().dom().contains(*id)
                        &&& final(self).convs() == old(self).convs().remove(*id)
                    },
                    Err(e) => {
                        &&& e == RepositoryError::NotFound
                        &&& !old(self).convs().dom().contains(*id)
                        &&& final(self).convs() == old(self).convs()
                        &&& final(self).index_keys() == old(self).index_keys()
                    },
                }
            }),
            final(self).spec_peek() == old(self).spec_peek(),
    {
        let old_c = self.primary.remove(id);
        match old_c {
            None => {
                proof {
                    assert(final(self).convs() =~= old(self).convs());
                }
                Err(RepositoryError::NotFound)
            },
            Some(c) => {
                let ghost m_mid = self.convs();
                proof {
                    assert(m_mid =~= old(self).convs().remove(*id));
                    assert(old(self).convs().dom().contains(*id));
                    assert(c@ == old(self).convs()[*id]);
                    assert(c@.id == *id);
                }
                self.remove_indexes(&c);
                proof {
                    let m_new = self.convs();
                    let k_new = self.index_keys();
                    let m_old = old(self).convs();
                    let k_old = old(self).index_keys();
                    assert(m_new == m_mid);
                    let gone = conv_key(c@.user, c@.updated_at, *id);
                    assert forall|k: Key3| #[trigger] k_new.contains(k) implies m_new.dom()
                        .contains(k.tie) && m_new[k.tie].user == k.group && m_new[k.tie].updated_at
                        == spec_rev_rank(k.rank) by {
                        assert(k_old.contains(k) && k != gone);
                        if k.tie == *id {
                            assert(k.group == m_old[*id].user && spec_rev_rank(k.rank)
                                == m_old[*id].updated_at);
                            assert(spec_rev_rank(spec_rev_rank(m_old[*id].updated_at))
                                == m_old[*id].updated_at);
                            assert(k == gone);
                        }
                    }
                    assert forall|i: ConversationId| #[trigger] m_new.dom().contains(i) implies
                        k_new.contains(conv_key(m_new[i].user, m_new[i].updated_at, i)) by {
                        assert(m_old.dom().contains(i) && i != *id);
                        assert(k_old.contains(conv_key(m_old[i].user, m_old[i].updated_at, i)));
                        assert(conv_key(m_old[i].user, m_old[i].updated_at, i).tie == i);
                    }
                }
                Ok(*id)
            },
        }
    }
}

impl ConversationRepository {
    /// After a primary-store write of `cv` (with `prev` the superseded
    /// value) followed by the index rewrite, index and primary agree again.
    proof fn lemma_write_consistent(
        &self,
        pre: ConversationRepository,
        cv: ConversationView,
        prev: Option<Conversation>,
    )
        requires
            conv_index_consistent(pre.convs(), pre.index_keys()),
            1 <= cv.id,
            self.convs() == pre.convs().insert(cv.id, cv),
            match prev {
                Some(p) => pre.convs().dom().contains(cv.id) && p@ == pre.convs()[cv.id],
                None => !pre.convs().dom().contains(cv.id),
            },
            forall|x: Key3|
                self.index_keys().contains(x) <==> ((pre.index_keys().contains(x) && match prev {
                    Some(o) => x != conv_key(o@.user, o@.updated_at, o@.id),
                    None => true,
                }) || x == conv_key(cv.user, cv.updated_at, cv.id)),
            sorted(self.index_keys()),
        ensures
            conv_index_consistent(self.convs(), self.index_keys()),
    {
        let m_new = self.convs();
        let k_new = self.index_keys();
        let m_old = pre.convs();
        let k_old = pre.index_keys();
        let id = cv.id;
        assert forall|k: Key3| #[trigger] k_new.contains(k) implies m_new.dom().contains(k.tie)
            && m_new[k.tie].user == k.group && m_new[k.tie].updated_at == spec_rev_rank(
            k.rank,
        ) by {
            if k == conv_key(cv.user, cv.updated_at, id) {
                assert(spec_rev_rank(spec_rev_rank(cv.updated_at)) == cv.updated_at);
            } else {
                assert(k_old.contains(k));
                if k.tie == id {
                    match prev {
                        Some(p) => {
                            assert(m_old.dom().contains(id));
                            assert(p@ == m_old[id]);
                            assert(m_old[id].id == id);
                            assert(k.group == m_old[id].user && spec_rev_rank(k.rank)
                                == m_old[id].updated_at);
                            assert(spec_rev_rank(spec_rev_rank(m_old[id].updated_at))
                                == m_old[id].updated_at);
                            assert(k == conv_key(p@.user, p@.updated_at, p@.id));
                        },
                        None => {
                            assert(m_old.dom().contains(k.tie));
                        },
                    }
                }
            }
        }
        assert forall|i: ConversationId| #[trigger] m_new.dom().contains(i) implies m_new[i].id == i
            && 1 <= i && k_new.contains(conv_key(m_new[i].user, m_new[i].updated_at, i)) by {
            if i == id {
                assert(m_new[i] == cv);
            } else {
                assert(m_old.dom().contains(i));
                assert(k_old.contains(conv_key(m_old[i].user, m_old[i].updated_at, i)));
                match prev {
                    Some(p) => {
                        assert(conv_key(m_old[i].user, m_old[i].updated_at, i).tie == i);
                        assert(conv_key(p@.user, p@.updated_at, p@.id).tie == id);
                    },
                    None => {},
                }
            }
        }
    }

    /// Inserts the conversation when its id is not yet stored, else updates
    /// it; the combined contract is the union of the two operations'.
    pub fn upsert(&mut self, conversation: Conversation, now: Timestamp) -> (r: RepositoryResult<
        Conversation,
    >)
        requires
            old(self).inv(),
        ensures
            final(self).inv(),
            !old(self).convs().dom().contains(conversation.id) ==> ({
                &&& r matches Ok(c)
                &&& c@ == (ConversationView {
                    id: old(self).spec_peek(),
                    user: conversation.user,
                    updated_at: now,
                    name: conversation@.name,
                })
                &&& final(self).convs() == old(self).convs().insert(old(self).spec_peek(), c@)
            }),
            (old(self).convs().dom().contains(conversation.id) && old(
                self,
            ).convs()[conversation.id].user != conversation.user) ==> ({
                &&& r matches Err(RepositoryError::IllegalUpdate { reason })
                &&& reason@ == "User is different"@
                &&& final(self).convs() == old(self).convs()
                &&& final(self).index_keys() == old(self).index_keys()
            }),
            (old(self).convs().dom().contains(conversation.id) && old(
                self,
            ).convs()[conversation.id].user == conversation.user) ==> ({
                &&& r matches Ok(c)
                &&& c@ == (ConversationView {
                    id: conversation.id,
                    user: conversation.user,
                    updated_at: now,
                    name: conversation@.name,
                })
                &&& final(self).convs() == old(self).convs().insert(conversation.id, c@)
            }),
    {
        let present = match self.get(&conversation.id) {
            Some(_) => true,
            None => false,
        };
        if present {
            self.update(conversation, now)
        } else {
            self.insert(conversation, now)
        }
    }

    /// The paginated listing of an owner's conversations, most recently
    /// updated first (ties broken by ascending id): up to `limit`
    /// conversations strictly older than the cursor recency (from the most
    /// recent when none is given), together with the `updated_at` of the
    /// last conversation returned — the cursor of the next page — or nothing
    /// when the page is empty.
    pub fn paged_list(&self, user_id: UserId, cursor: Option<Timestamp>, limit: usize) -> (r: (
        Option<Timestamp>,
        Vec<Conversation>,
    ))
        requires
            self.inv(),
        ensures
            ({
                let ids = conv_page_ids(self.index_keys(), user_id, cursor, limit);
                &&& r.1@.len() == ids.len()
                &&& forall|i: int|
                    0 <= i < ids.len() ==> self.convs().dom().contains(ids[i]) && (
                    #[trigger] r.1@[i])@ == self.convs()[ids[i]]
                &&& r.0 == (if ids.len() == 0 {
                    None
                } else {
                    Some(self.convs()[ids.last()].updated_at)
                })
            }),
    {
        proof {
            crate::index::lemma_conv_page(self.index_keys(), user_id, cursor, limit);
        }
        let ids = self.user_index.find(user_id, cursor, limit);
        let n = ids.len();
        let mut out: Vec<Conversation> = Vec::new();
        let mut i: usize = 0;
        while i < n
            invariant
                self.inv(),
                n == ids@.len(),
                ids@ == conv_page_ids(self.index_keys(), user_id, cursor, limit),
                forall|j: int| 0 <= j < n ==> self.convs().dom().contains(#[trigger] ids@[j]),
                i <= n,
                out@.len() == i,
                forall|j: int| 0 <= j < i ==> (#[trigger] out@[j])@ == self.convs()[ids@[j]],
            decreases n - i,
        {
            match self.get(&ids[i]) {
                Some(c) => {
                    out.push(c);
                },
                None => {
                    proof {
                        assert(false);
                    }
                },
            }
            i += 1;
        }
        let next_cursor: Option<Timestamp> = if n == 0 {
            None
        } else {
            Some(out[n - 1].updated_at)
        };
        (next_cursor, out)
    }
}

} // verus!
