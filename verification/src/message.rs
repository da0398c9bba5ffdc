//! The message repository: write-once messages in a primary store, with a
//! conversation-recency index that answers the paginated listing.

use std::collections::HashMap;

use vstd::prelude::*;

use crate::entities::{ConversationId, Message, MessageId, MessageView, Timestamp};
use crate::index::{
    msg_key, msg_page_ids, IndexManagementRepository, MessageConversationIndexRepository,
};
use crate::keyset::{sorted, spec_rev_rank, Key3};
use crate::repository::{
    IndexedRepository, Repository, RepositoryError, RepositoryResult, SerialId,
};

verus! {

broadcast use vstd::std_specs::hash::group_hash_axioms;

/// Consistency of a message index with its primary store: the index holds
/// exactly one entry per stored message, keyed by the message's conversation
/// and reversed id, and every stored message sits under its own id, which is
/// at least 1.
pub open spec fn msg_index_consistent(msgs: Map<MessageId, MessageView>, keys: Seq<Key3>) -> bool {
    &&& sorted(keys)
    &&& forall|k: Key3| #[trigger] keys.contains(k) ==> k.tie == 0
    &&& forall|id: MessageId|
        #[trigger] msgs.dom().contains(id) ==> msgs[id].id == id && 1 <= id
    &&& forall|id: MessageId|
        #[trigger] msgs.dom().contains(id) ==> keys.contains(msg_key(msgs[id].conversation, id))
    &&& forall|k: Key3|
        #[trigger] keys.contains(k) ==> msgs.dom().contains(spec_rev_rank(k.rank))
            && msgs[spec_rev_rank(k.rank)].conversation == k.group
}

/// The repository of messages.
#[derive(Debug)]
pub struct MessageRepository {
    /// The secondary index over (conversation, reversed message id).
    pub conversation_index: MessageConversationIndexRepository,
    primary: HashMap<MessageId, Message>,
    serial: SerialId,
}

impl MessageRepository {
    /// The stored messages, as a map from id to message view.
    pub closed spec fn msgs(&self) -> Map<MessageId, MessageView> {
        Map::new(
            |id: MessageId| self.primary@.dom().contains(id),
            |id: MessageId| self.primary@[id]@,
        )
    }

    /// The key sequence of the conversation index.
    pub closed spec fn index_keys(&self) -> Seq<Key3> {
        self.conversation_index@
    }

    /// The id the next insert will assign.
    pub closed spec fn spec_peek(&self) -> u64 {
        self.serial.spec_peek()
    }

    /// An empty repository.
    pub fn new() -> (r: MessageRepository)
        ensures
            r.inv(),
            r.msgs() == Map::<MessageId, MessageView>::empty(),
            r.index_keys() == Seq::<Key3>::empty(),
            r.spec_peek() == 1,
    {
        let r = MessageRepository {
            conversation_index: MessageConversationIndexRepository::new(),
            primary: HashMap::new(),
            serial: SerialId::new(),
        };
        proof {
            assert(r.msgs() =~= Map::<MessageId, MessageView>::empty());
        }
        r
    }

    /// Peeks the next message id without advancing the generator.
    pub fn peek_next_id(&self) -> (r: u64)
        ensures
            r == self.spec_peek(),
    {
        self.serial.peek_next_id()
    }

    /// Takes the next message id; see [`SerialId::next_id`].
    pub fn next_id(&mut self) -> (r: u64)
        ensures
            r == old(self).spec_peek(),
            old(self).spec_peek() < u64::MAX ==> final(self).spec_peek() == old(self).spec_peek()
                + 1,
            old(self).spec_peek() == u64::MAX ==> final(self).spec_peek() == u64::MAX,
            final(self).msgs() == old(self).msgs(),
            final(self).index_keys() == old(self).index_keys(),
    {
        let r = self.serial.next_id();
        proof {
            assert(final(self).msgs() =~= old(self).msgs());
        }
        r
    }
}

impl IndexedRepository<Message> for MessageRepository {
    /// The index alone is well-formed: sorted keys, tiebreakers all zero.
    open spec fn indexes_inv(&self) -> bool {
        &&& sorted(self.index_keys())
        &&& forall|k: Key3| #[trigger] self.index_keys().contains(k) ==> k.tie == 0
    }

    fn remove_indexes(&mut self, value: &Message)
        ensures
            forall|x: Key3|
                final(self).index_keys().contains(x) <==> (old(self).index_keys().contains(x) && x
                    != msg_key(value.conversation, value.id)),
            final(self).msgs() == old(self).msgs(),
            final(self).spec_peek() == old(self).spec_peek(),
    {
        let _ = self.conversation_index.remove(&(value.conversation, value.id));
        proof {
            assert(final(self).msgs() =~= old(self).msgs());
        }
    }

    fn add_indexes(&mut self, value: &Message)
        ensures
            forall|x: Key3|
                final(self).index_keys().contains(x) <==> (old(self).index_keys().contains(x) || x
                    == msg_key(value.conversation, value.id)),
            final(self).msgs() == old(self).msgs(),
            final(self).spec_peek() == old(self).spec_peek(),
    {
        self.conversation_index.insert((value.conversation, value.id));
        proof {
            assert(final(self).msgs() =~= old(self).msgs());
        }
    }

    fn clear_indexes(&mut self)
        ensures
            final(self).index_keys() == Seq::<Key3>::empty(),
            final(self).msgs() == old(self).msgs(),
            final(self).spec_peek() == old(self).spec_peek(),
    {
        self.conversation_index.clear();
        proof {
            assert(final(self).msgs() =~= old(self).msgs());
        }
    }

    fn save_indexes(&mut self, value: &Message, old_value: Option<&Message>)
        ensures
            forall|x: Key3|
                final(self).index_keys().contains(x) <==> ((old(self).index_keys().contains(x)
                    && match old_value {
                    Some(o) => x != msg_key(o.conversation, o.id),
                    None => true,
                }) || x == msg_key(value.conversation, value.id)),
            final(self).msgs() == old(self).msgs(),
            final(self).spec_peek() == old(self).spec_peek(),
    {
        if let Some(existing) = old_value {
            self.remove_indexes(existing);
        }
        self.add_indexes(value);
    }
}

impl Repository<MessageId, Message> for MessageRepository {
    /// Index and primary store agree, and every stored id is below the
    /// generator (except once the generator has saturated).
    open spec fn inv(&self) -> bool {
        &&& msg_index_consistent(self.msgs(), self.index_keys())
        &&& 1 <= self.spec_peek()
        &&& forall|id: MessageId|
            #[trigger] self.msgs().dom().contains(id) ==> id < self.spec_peek()
                || self.spec_peek() == u64::MAX
    }

    /// Retrieves a message by its id.
    fn get(&self, id: &MessageId) -> (r: Option<Message>)
        ensures
            match r {
                Some(m) => self.msgs().dom().contains(*id) && m@ == self.msgs()[*id],
                None => !self.msgs().dom().contains(*id),
            },
    {
        match self.primary.get(id) {
            Some(m) => Some(m.clone()),
            None => None,
        }
    }

    /// Inserts a new message. The repository assigns the id — the next
    /// serial value — and the timestamp `now`; the caller's id and timestamp
    /// fields are never trusted. Insertion always succeeds, and the assigned
    /// id is fresh as long as the generator has not saturated.
    fn insert(&mut self, value: Message, now: Timestamp) -> (r: RepositoryResult<Message>)
        ensures
            ({
                &&& r matches Ok(m)
                &&& m@ == (MessageView {
                    id: old(self).spec_peek(),
                    conversation: value.conversation,
                    content: value@.content,
                    timestamp: now,
                    role: value.role,
                })
                &&& final(self).msgs() == old(self).msgs().insert(old(self).spec_peek(), m@)
                &&& old(self).spec_peek() < u64::MAX ==> !old(self).msgs().dom().contains(
                    old(self).spec_peek(),
                )
                &&& old(self).spec_peek() < u64::MAX ==> final(self).spec_peek() == old(
                    self,
                ).spec_peek() + 1
                &&& old(self).spec_peek() == u64::MAX ==> final(self).spec_peek() == u64::MAX
            }),
    {
        let mut msg = value;
        msg.id = self.serial.next_id();
        msg.timestamp = now;
        let ghost m_mid = self.msgs();
        let ghost k_mid = self.index_keys();
        proof {
            assert(m_mid =~= old(self).msgs());
        }
        let prev = self.primary.insert(msg.id, msg.clone());
        let ghost m_ins = self.msgs();
        proof {
            assert(m_ins =~= m_mid.insert(msg.id, msg@));
            assert(self.index_keys() == k_mid);
        }
        self.save_indexes(&msg, prev.as_ref());
        proof {
            let m_new = self.msgs();
            let k_new = self.index_keys();
            let m_old = old(self).msgs();
            let k_old = old(self).index_keys();
            let id = msg.id;
            assert(m_new == m_ins);
            assert(m_new =~= m_old.insert(id, msg@));
            // the index reflects the new primary store
            assert forall|k: Key3| #[trigger] k_new.contains(k) implies m_new.dom().contains(
                spec_rev_rank(k.rank),
            ) && m_new[spec_rev_rank(k.rank)].conversation == k.group by {
                if k == msg_key(msg.conversation, id) {
                    assert(spec_rev_rank(k.rank) == id);
                } else {
                    assert(k_old.contains(k));
                    match prev {
                        Some(p) => {
                            assert(m_old.dom().contains(id));
                            assert(m_old[id].id == id);
                            assert(p@ == m_old[id]);
                            assert(p@.id == id);
                            assert(k != msg_key(p@.conversation, id));
                            if spec_rev_rank(k.rank) == id {
                                assert(k == msg_key(m_old[id].conversation, id)) by {
                                    assert(m_old.dom().contains(id));
                                    assert(k.tie == 0);
                                    assert(m_old[id].conversation == k.group);
                                    assert(spec_rev_rank(spec_rev_rank(id)) == id);
                                }
                            }
                        },
                        None => {
                            assert(!m_old.dom().contains(id));
                            if spec_rev_rank(k.rank) == id {
                                assert(m_old.dom().contains(spec_rev_rank(k.rank)));
                            }
                        },
                    }
                }
            }
            assert forall|i: MessageId| #[trigger] m_new.dom().contains(i) implies k_new.contains(
                msg_key(m_new[i].conversation, i),
            ) && m_new[i].id == i && 1 <= i by {
                if i == id {
                } else {
                    assert(m_old.dom().contains(i));
                    assert(k_old.contains(msg_key(m_old[i].conversation, i)));
                    match prev {
                        Some(p) => {
                            assert(m_old.dom().contains(id));
                            assert(p@ == m_old[id]);
                            assert(p@.id == id);
                            assert(msg_key(m_old[i].conversation, i) != msg_key(
                                p@.conversation,
                                id,
                            )) by {
                                assert(spec_rev_rank(i) != spec_rev_rank(id));
                            }
                        },
                        None => {},
                    }
                }
            }
        }
        Ok(msg)
    }

    /// Messages are write-once: every update fails with an illegal-update
    /// error, whatever the message holds, and the store is untouched.
    fn update(&mut self, value: Message, now: Timestamp) -> (r: RepositoryResult<Message>)
        ensures
            ({
                &&& r matches Err(RepositoryError::IllegalUpdate { reason })
                &&& reason@ == "Message entity cannot be updated"@
            }),
            final(self).msgs() == old(self).msgs(),
            final(self).index_keys() == old(self).index_keys(),
            final(self).spec_peek() == old(self).spec_peek(),
    {
        Err(
            RepositoryError::IllegalUpdate {
                reason: "Message entity cannot be updated".to_owned(),
            },
        )
    }

    /// Deletes the message with this id, failing with not-found — and
    /// leaving everything untouched — when no such message is stored.
    fn delete(&mut self, id: &MessageId) -> (r: RepositoryResult<MessageId>)
        ensures
            ({
                match r {
                    Ok(i) => {
                        &&& i == *id
                        &&& old(self).msgs().dom().contains(*id)
                        &&& final(self).msgs() == old(self).msgs().remove(*id)
                    },
                    Err(e) => {
                        &&& e == RepositoryError::NotFound
                        &&& !old(self).msgs().dom().contains(*id)
                        &&& final(self).msgs() == old(self).msgs()
                        &&& final(self).index_keys() == old(self).index_keys()
                    },
                }
            }),
            final(self).spec_peek() == old(self).spec_peek(),
    {
        let old_m = self.primary.remove(id);
        match old_m {
            None => {
                proof {
                    assert(final(self).msgs() =~= old(self).msgs());
                }
                Err(RepositoryError::NotFound)
            },
            Some(m) => {
                let ghost m_mid = self.msgs();
                proof {
                    assert(m_mid =~= old(self).msgs().remove(*id));
                    assert(old(self).msgs().dom().contains(*id));
                    assert(m@ == old(self).msgs()[*id]);
                    assert(m@.id == *id);
                }
                self.remove_indexes(&m);
                proof {
                    let m_new = self.msgs();
                    let k_new = self.index_keys();
                    let m_old = old(self).msgs();
                    let k_old = old(self).index_keys();
                    assert(m_new == m_mid);
                    let gone = msg_key(m@.conversation, *id);
                    assert forall|k: Key3| #[trigger] k_new.contains(k) implies m_new.dom()
                        .contains(spec_rev_rank(k.rank)) && m_new[spec_rev_rank(
                        k.rank,
                    )].conversation == k.group by {
                        assert(k_old.contains(k) && k != gone);
                        let i = spec_rev_rank(k.rank);
                        if i == *id {
                            assert(k == msg_key(m_old[i].conversation, i)) by {
                                assert(k.tie == 0);
                                assert(spec_rev_rank(spec_rev_rank(i)) == i);
                            }
                        }
                    }
                    assert forall|i: MessageId| #[trigger] m_new.dom().contains(i) implies
                        k_new.contains(msg_key(m_new[i].conversation, i)) by {
                        assert(m_old.dom().contains(i) && i != *id);
                        assert(k_old.contains(msg_key(m_old[i].conversation, i)));
                        assert(msg_key(m_old[i].conversation, i) != gone) by {
                            assert(spec_rev_rank(i) != spec_rev_rank(*id));
                        }
                    }
                }
                Ok(*id)
            },
        }
    }
}

impl MessageRepository {
    /// The paginated listing of a conversation, newest first: up to `limit`
    /// messages strictly older than the cursor (from the newest when none is
    /// given), together with the id of the last message returned — the
    /// cursor of the next page — or nothing when the page is empty.
    pub fn paged_list(
        &self,
        conversation: ConversationId,
        cursor: Option<MessageId>,
        limit: usize,
    ) -> (r: (Option<MessageId>, Vec<Message>))
        requires
            self.inv(),
        ensures
            ({
                let ids = msg_page_ids(self.index_keys(), conversation, cursor, limit);
                &&& r.1@.len() == ids.len()
                &&& forall|i: int|
                    0 <= i < ids.len() ==> self.msgs().dom().contains(ids[i]) && (
                    #[trigger] r.1@[i])@ == self.msgs()[ids[i]]
                &&& r.0 == (if ids.len() == 0 {
                    None
                } else {
                    Some(ids.last())
                })
            }),
    {
        proof {
            crate::index::lemma_msg_page(self.index_keys(), conversation, cursor, limit);
        }
        let ids = self.conversation_index.find(conversation, cursor, limit);
        let n = ids.len();
        let mut out: Vec<Message> = Vec::new();
        let mut i: usize = 0;
        while i < n
            invariant
                self.inv(),
                n == ids@.len(),
                ids@ == msg_page_ids(self.index_keys(), conversation, cursor, limit),
                forall|j: int|
                    0 <= j < n ==> self.msgs().dom().contains(#[trigger] ids@[j]),
                i <= n,
                out@.len() == i,
                forall|j: int|
                    0 <= j < i ==> (#[trigger] out@[j])@ == self.msgs()[ids@[j]],
            decreases n - i,
        {
            match self.get(&ids[i]) {
                Some(m) => {
                    out.push(m);
                },
                None => {
                    proof {
                        assert(false);
                    }
                },
            }
            i += 1;
        }
        let next_cursor: Option<MessageId> = if n == 0 {
            None
        } else {
            Some(ids[n - 1])
        };
        (next_cursor, out)
    }

    /// Cascade delete: removes every message of the conversation, returning
    /// the deleted ids newest first; every other conversation's messages are
    /// untouched.
    pub fn delete_by_conversation(&mut self, conversation: &ConversationId) -> (r:
        RepositoryResult<Vec<MessageId>>)
        requires
            old(self).inv(),
        ensures
            final(self).inv(),
            ({
                &&& r matches Ok(ids)
                &&& ids@ == msg_page_ids(old(self).index_keys(), *conversation, None, 0)
                &&& forall|id: MessageId|
                    final(self).msgs().dom().contains(id) <==> (old(self).msgs().dom().contains(id)
                        && (#[trigger] old(self).msgs()[id]).conversation != *conversation)
                &&& forall|id: MessageId|
                    #[trigger] final(self).msgs().dom().contains(id) ==> final(self).msgs()[id]
                        == old(self).msgs()[id]
            }),
            final(self).spec_peek() == old(self).spec_peek(),
    {
        proof {
            crate::index::lemma_msg_page(old(self).index_keys(), *conversation, None, 0);
        }
        let ids = self.conversation_index.find(*conversation, None, 0);
        let ghost ids_g = ids@;
        let n = ids.len();
        let mut deleted: Vec<MessageId> = Vec::new();
        let mut i: usize = 0;
        while i < n
            invariant
                self.inv(),
                n == ids_g.len(),
                ids@ == ids_g,
                i <= n,
                deleted@ == ids_g.take(i as int),
                self.spec_peek() == old(self).spec_peek(),
                ids_g == msg_page_ids(old(self).index_keys(), *conversation, None, 0),
                forall|a: int, b: int| 0 <= a < b < n ==> #[trigger] ids_g[a] > #[trigger] ids_g[b],
                forall|j: int|
                    0 <= j < n ==> old(self).msgs().dom().contains(#[trigger] ids_g[j]),
                forall|id: MessageId|
                    self.msgs().dom().contains(id) <==> (old(self).msgs().dom().contains(id)
                        && !ids_g.take(i as int).contains(id)),
                forall|id: MessageId|
                    #[trigger] self.msgs().dom().contains(id) ==> self.msgs()[id] == old(
                        self,
                    ).msgs()[id],
            decreases n - i,
        {
            proof {
                assert(self.msgs().dom().contains(ids_g[i as int])) by {
                    if ids_g.take(i as int).contains(ids_g[i as int]) {
                        let j = choose|j: int|
                            0 <= j < i && ids_g.take(i as int)[j] == ids_g[i as int];
                        assert(ids_g[j] == ids_g[i as int]);
                    }
                }
            }
            let res = self.delete(&ids[i]);
            proof {
                assert(res is Ok);
                assert(ids_g.take(i + 1).drop_last() =~= ids_g.take(i as int));
                assert(ids_g.take(i + 1).last() == ids_g[i as int]);
            }
            match res {
                Ok(d) => {
                    deleted.push(d);
                },
                Err(_) => {
                    proof {
                        assert(false);
                    }
                },
            }
            i += 1;
            proof {
                assert(deleted@ =~= ids_g.take(i as int));
                assert forall|id: MessageId|
                    self.msgs().dom().contains(id) <==> (old(self).msgs().dom().contains(id)
                        && !ids_g.take(i as int).contains(id)) by {
                    let t = ids_g.take(i as int);
                    let tp = ids_g.take(i - 1);
                    assert(t.drop_last() =~= tp);
                    if t.contains(id) {
                        let j = choose|j: int| 0 <= j < t.len() && t[j] == id;
                        if j < i - 1 {
                            assert(tp[j] == id);
                        } else {
                            assert(id == ids_g[i - 1]);
                        }
                    }
                    if tp.contains(id) {
                        let j = choose|j: int| 0 <= j < tp.len() && tp[j] == id;
                        assert(t[j] == id);
                    }
                    assert(t[i - 1] == ids_g[i - 1]);
                }
            }
        }
        proof {
            assert(ids_g.take(n as int) =~= ids_g);
            // a message of another conversation is never in the page; one of
            // this conversation always is
            assert forall|id: MessageId|
                final(self).msgs().dom().contains(id) <==> (old(self).msgs().dom().contains(id)
                    && (#[trigger] old(self).msgs()[id]).conversation != *conversation) by {
                if old(self).msgs().dom().contains(id) {
                    if old(self).msgs()[id].conversation == *conversation {
                        // completeness: the unlimited page holds it
                        assert(old(self).index_keys().contains(msg_key(*conversation, id)));
                        assert(ids_g.contains(id));
                    } else {
                        if ids_g.contains(id) {
                            let j = choose|j: int| 0 <= j < ids_g.len() && ids_g[j] == id;
                            assert(old(self).index_keys().contains(
                                msg_key(*conversation, ids_g[j]),
                            ));
                            assert(old(self).msgs()[id].conversation == *conversation);
                        }
                    }
                }
            }
        }
        Ok(deleted)
    }
}

} // verus!
