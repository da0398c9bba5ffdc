//! Secondary indexes: ordered sets of composite keys that encode one query
//! dimension per entity kind, kept in sync with the primary stores by the
//! repositories.
//!
//! Each index entry carries no payload; only its presence matters. The
//! message and conversation indexes order their entries by a reversed rank
//! (message id, conversation `updated_at`), so an ascending range scan
//! yields logical descending order; see [`crate::keyset`].

use vstd::prelude::*;

use crate::entities::{ConversationId, Identity, MessageId, Timestamp, UserId};
use crate::keyset::{
    in_range, key_le, key_lt, page_of, restrict, rev_rank, sorted, spec_rev_rank, Key3, KeySet,
};

verus! {

/// The operations every secondary index offers: membership management plus
/// the core paginated query.
pub trait IndexManagementRepository<I, T> {
    type Criteria;

    type Cursor;

    /// Well-formedness of the index structure.
    spec fn inv(&self) -> bool;

    /// Whether an index entry is present.
    fn index_exists(&self, index: &I) -> bool
        requires
            self.inv(),
    ;

    /// Adds an index entry; adding a present entry is a no-op.
    fn insert(&mut self, index: I)
        requires
            old(self).inv(),
        ensures
            final(self).inv(),
    ;

    /// Removes an index entry, reporting whether it was present.
    fn remove(&mut self, index: &I) -> (r: bool)
        requires
            old(self).inv(),
        ensures
            final(self).inv(),
    ;

    /// Removes every entry.
    fn clear(&mut self)
        requires
            old(self).inv(),
        ensures
            final(self).inv(),
    ;

    /// The core query: at most `limit` entries matching `criteria`, strictly
    /// after the `cursor` position; a `limit` of exactly zero means "no
    /// limit" and yields the full matching range.
    fn find(&self, criteria: Self::Criteria, cursor: Option<Self::Cursor>, limit: usize) -> Vec<T>
        requires
            self.inv(),
    ;
}

/// The index key of a message: messages of one conversation sort by
/// descending message id.
pub open spec fn msg_key(conversation: ConversationId, id: MessageId) -> Key3 {
    Key3 { group: conversation, rank: spec_rev_rank(id), tie: 0 }
}

/// The lower scan bound for a message page: the newest admissible entry.
/// A cursor is the id of the last message already seen; the scan resumes
/// strictly below it, saturating at zero.
pub open spec fn msg_scan_lo(conversation: ConversationId, cursor: Option<MessageId>) -> Key3 {
    let newest: u64 = match cursor {
        Some(c) => if c == 0 {
            0u64
        } else {
            (c - 1) as u64
        },
        None => u64::MAX,
    };
    Key3 { group: conversation, rank: spec_rev_rank(newest), tie: 0 }
}

/// The upper scan bound for a message page: the oldest message id, 1.
pub open spec fn msg_scan_hi(conversation: ConversationId) -> Key3 {
    Key3 { group: conversation, rank: spec_rev_rank(1), tie: u64::MAX }
}

/// One page of message-index keys.
pub open spec fn msg_page_keys(
    s: Seq<Key3>,
    conversation: ConversationId,
    cursor: Option<MessageId>,
    limit: usize,
) -> Seq<Key3> {
    page_of(s, msg_scan_lo(conversation, cursor), msg_scan_hi(conversation), limit)
}

/// One page of message ids: the page keys, decoded back to logical ids.
pub open spec fn msg_page_ids(
    s: Seq<Key3>,
    conversation: ConversationId,
    cursor: Option<MessageId>,
    limit: usize,
) -> Seq<MessageId> {
    msg_page_keys(s, conversation, cursor, limit).map_values(|k: Key3| spec_rev_rank(k.rank))
}

/// Keyset ordering of a message page, stated for any well-formed message
/// index: the page's ids belong to the queried conversation, respect the
/// cursor, are strictly descending, and are the highest such ids — anything
/// admissible that was left out is older than the whole page, which happens
/// only once a limited page is full.
pub proof fn lemma_msg_page(
    s: Seq<Key3>,
    conversation: ConversationId,
    cursor: Option<MessageId>,
    limit: usize,
)
    requires
        sorted(s),
        forall|k: Key3| #[trigger] s.contains(k) ==> k.tie == 0,
    ensures
        ({
            let ids = msg_page_ids(s, conversation, cursor, limit);
            &&& forall|i: int|
                0 <= i < ids.len() ==> s.contains(msg_key(conversation, #[trigger] ids[i]))
            &&& forall|i: int|
                0 <= i < ids.len() ==> 1 <= #[trigger] ids[i] && (cursor matches Some(c) ==> ids[i]
                    < c)
            &&& forall|i: int, j: int|
                0 <= i < j < ids.len() ==> #[trigger] ids[i] > #[trigger] ids[j]
            &&& limit != 0 ==> ids.len() <= limit
            &&& forall|id: MessageId|
                1 <= id && (cursor matches Some(c) ==> id < c) && #[trigger] s.contains(
                    msg_key(conversation, id),
                ) && !ids.contains(id) ==> (limit != 0 && ids.len() == limit && id < ids[ids.len()
                    - 1])
        }),
{
    let lo = msg_scan_lo(conversation, cursor);
    let hi = msg_scan_hi(conversation);
    let p = msg_page_keys(s, conversation, cursor, limit);
    let ids = msg_page_ids(s, conversation, cursor, limit);
    crate::keyset::lemma_page_of_props(s, lo, hi, limit);
    assert(ids.len() == p.len());
    assert forall|i: int| 0 <= i < ids.len() implies s.contains(
        msg_key(conversation, #[trigger] ids[i]),
    ) && 1 <= ids[i] && (cursor matches Some(c) ==> ids[i] < c) by {
        assert(s.contains(p[i]) && in_range(p[i], lo, hi));
        assert(p[i].tie == 0);
        assert(p[i].group == conversation);
        assert(ids[i] == spec_rev_rank(p[i].rank));
        assert(p[i] == msg_key(conversation, ids[i]));
    }
    assert forall|i: int, j: int| 0 <= i < j < ids.len() implies #[trigger] ids[i]
        > #[trigger] ids[j] by {
        assert(s.contains(p[i]) && s.contains(p[j]));
        assert(p[i].tie == 0 && p[j].tie == 0);
        assert(in_range(p[i], lo, hi) && in_range(p[j], lo, hi));
        assert(key_lt(p[i], p[j]));
    }
    assert forall|id: MessageId|
        1 <= id && (cursor matches Some(c) ==> id < c) && #[trigger] s.contains(
            msg_key(conversation, id),
        ) && !ids.contains(id) implies (limit != 0 && ids.len() == limit && id < ids[ids.len()
        - 1]) by {
        let k = msg_key(conversation, id);
        assert(in_range(k, lo, hi));
        assert(!p.contains(k)) by {
            if p.contains(k) {
                let i = choose|i: int| 0 <= i < p.len() && p[i] == k;
                assert(ids[i] == spec_rev_rank(k.rank));
                assert(ids[i] == id);
                assert(ids.contains(id));
            }
        }
        assert(limit != 0 && p.len() == limit && key_lt(p[p.len() - 1], k));
        assert(s.contains(p[p.len() - 1]) && in_range(p[p.len() - 1], lo, hi));
        assert(p[p.len() - 1].tie == 0 && p[p.len() - 1].group == conversation);
        assert(ids[ids.len() - 1] == spec_rev_rank(p[p.len() - 1].rank));
    }
}

/// Cursor continuity of message pages, for any well-formed message index:
/// a page shorter than its limit is the full remainder, and after a full
/// page of `k` ids, passing the last id as the cursor yields exactly the
/// rest — concatenating the pages walks every message of the conversation
/// exactly once, in descending id order, with no duplicates or gaps.
pub proof fn lemma_msg_cursor_continuity(
    s: Seq<Key3>,
    conversation: ConversationId,
    cursor: Option<MessageId>,
    k: usize,
)
    requires
        sorted(s),
        forall|x: Key3| #[trigger] s.contains(x) ==> x.tie == 0,
        k != 0,
    ensures
        ({
            let p1 = msg_page_ids(s, conversation, cursor, k);
            let full = msg_page_ids(s, conversation, cursor, 0);
            &&& p1 == full.take(p1.len() as int)
            &&& p1.len() < k ==> p1 == full
            &&& p1.len() == k ==> full == p1 + msg_page_ids(
                s,
                conversation,
                Some(p1.last()),
                0,
            )
        }),
{
    let lo1 = msg_scan_lo(conversation, cursor);
    let hi = msg_scan_hi(conversation);
    let keys1 = msg_page_keys(s, conversation, cursor, k);
    let full_keys = restrict(s, lo1, hi);
    let p1 = msg_page_ids(s, conversation, cursor, k);
    let full = msg_page_ids(s, conversation, cursor, 0);
    crate::keyset::lemma_page_of_props(s, lo1, hi, k);
    crate::keyset::lemma_page_of_props(s, lo1, hi, 0);
    crate::keyset::lemma_restrict_sorted(s, lo1, hi);
    assert(msg_page_keys(s, conversation, cursor, 0) == full_keys);
    assert(keys1 == full_keys.take(keys1.len() as int));
    assert(p1 =~= full.take(p1.len() as int));
    if p1.len() < k {
        assert(keys1.len() == full_keys.len());
        assert(keys1 =~= full_keys);
    }
    if p1.len() == k {
        let last_key = keys1[k - 1];
        assert(last_key == full_keys[k - 1]);
        assert(s.contains(last_key) && in_range(last_key, lo1, hi));
        assert(last_key.tie == 0 && last_key.group == conversation);
        let c = spec_rev_rank(last_key.rank);
        assert(p1.last() == c);
        assert(1 <= c) by {
            assert(key_le(last_key, hi));
        }
        let lo2 = msg_scan_lo(conversation, Some(c));
        assert(lo2.rank == last_key.rank + 1) by {
            assert(spec_rev_rank((c - 1) as u64) == spec_rev_rank(c) + 1);
            assert(spec_rev_rank(c) == last_key.rank);
        }
        let keys2 = restrict(s, lo2, hi);
        let tail = full_keys.skip(k as int);
        crate::keyset::lemma_restrict_sorted(s, lo2, hi);
        assert(sorted(tail)) by {
            assert forall|i: int, j: int| 0 <= i < j < tail.len() implies key_lt(
                #[trigger] tail[i],
                #[trigger] tail[j],
            ) by {
                assert(tail[i] == full_keys[i + k] && tail[j] == full_keys[j + k]);
            }
        }
        assert forall|x: Key3| keys2.contains(x) <==> tail.contains(x) by {
            crate::keyset::lemma_restrict_contains(s, lo2, hi, x);
            if keys2.contains(x) {
                assert(s.contains(x) && in_range(x, lo2, hi));
                assert(x.tie == 0);
                assert(x.group == conversation);
                assert(x.rank >= lo2.rank);
                assert(key_le(lo1, x)) by {
                    assert(key_le(lo1, last_key));
                    assert(lo1.rank <= last_key.rank);
                }
                crate::keyset::lemma_restrict_contains(s, lo1, hi, x);
                assert(full_keys.contains(x));
                let m = choose|m: int| 0 <= m < full_keys.len() && full_keys[m] == x;
                assert(m >= k) by {
                    if m < k {
                        if m < k - 1 {
                            assert(key_lt(full_keys[m], full_keys[k - 1]));
                        }
                        assert(x.rank <= last_key.rank);
                    }
                }
                assert(tail[m - k] == x);
            }
            if tail.contains(x) {
                let m0 = choose|m0: int| 0 <= m0 < tail.len() && tail[m0] == x;
                assert(full_keys[m0 + k] == x);
                assert(full_keys.contains(x));
                crate::keyset::lemma_restrict_contains(s, lo1, hi, x);
                assert(s.contains(x) && in_range(x, lo1, hi));
                assert(x.tie == 0 && x.group == conversation);
                assert(key_lt(full_keys[k - 1], full_keys[m0 + k]));
                assert(x.rank > last_key.rank);
                assert(key_le(lo2, x));
                assert(key_le(x, hi));
            }
        }
        crate::keyset::lemma_sorted_equal(keys2, tail);
        assert(full_keys =~= keys1 + tail);
        assert(msg_page_keys(s, conversation, Some(c), 0) == keys2);
        assert(full =~= p1 + msg_page_ids(s, conversation, Some(c), 0));
    }
}

/// What one conversation page holds, for any sorted conversation index: keys
/// of the queried owner, strictly older than the cursor recency, ordered by
/// descending recency with ascending conversation id as tiebreak.
pub proof fn lemma_conv_page(
    s: Seq<Key3>,
    user: UserId,
    cursor: Option<Timestamp>,
    limit: usize,
)
    requires
        sorted(s),
    ensures
        ({
            let p = conv_page_keys(s, user, cursor, limit);
            let ids = conv_page_ids(s, user, cursor, limit);
            &&& ids.len() == p.len()
            &&& forall|i: int| 0 <= i < p.len() ==> ids[i] == (#[trigger] p[i]).tie
            &&& forall|i: int|
                0 <= i < p.len() ==> s.contains(#[trigger] p[i]) && p[i].group == user && (
                cursor matches Some(c) ==> spec_rev_rank(p[i].rank) < c)
            &&& forall|i: int, j: int|
                0 <= i < j < p.len() ==> (spec_rev_rank((#[trigger] p[i]).rank) > spec_rev_rank(
                    (#[trigger] p[j]).rank,
                ) || (p[i].rank == p[j].rank && p[i].tie < p[j].tie))
            &&& limit != 0 ==> p.len() <= limit
        }),
{
    let p = conv_page_keys(s, user, cursor, limit);
    if cursor == Some(0u64) {
    } else {
        let lo = conv_scan_lo(user, cursor);
        let hi = conv_scan_hi(user);
        crate::keyset::lemma_page_of_props(s, lo, hi, limit);
        assert forall|i: int| 0 <= i < p.len() implies s.contains(#[trigger] p[i]) && p[i].group
            == user && (cursor matches Some(c) ==> spec_rev_rank(p[i].rank) < c) by {
            assert(in_range(p[i], lo, hi));
            match cursor {
                Some(c) => {
                    assert(c >= 1);
                    assert(p[i].rank >= lo.rank);
                    assert(lo.rank == spec_rev_rank((c - 1) as u64));
                },
                None => {},
            }
        }
        assert forall|i: int, j: int| 0 <= i < j < p.len() implies (spec_rev_rank(
            (#[trigger] p[i]).rank,
        ) > spec_rev_rank((#[trigger] p[j]).rank) || (p[i].rank == p[j].rank && p[i].tie
            < p[j].tie)) by {
            assert(key_lt(p[i], p[j]));
            assert(in_range(p[i], lo, hi) && in_range(p[j], lo, hi));
        }
    }
    assert(conv_page_ids(s, user, cursor, limit) =~= p.map_values(|k: Key3| k.tie));
}

/// The secondary index of messages, keyed conversation-first with reversed
/// message ids, so each conversation's messages scan newest-first.
#[derive(Debug)]
pub struct MessageConversationIndexRepository {
    set: KeySet,
}

impl View for MessageConversationIndexRepository {
    type V = Seq<Key3>;

    closed spec fn view(&self) -> Seq<Key3> {
        self.set@
    }
}

impl MessageConversationIndexRepository {
    /// An empty index.
    pub fn new() -> (r: MessageConversationIndexRepository)
        ensures
            r.inv(),
            r@ == Seq::<Key3>::empty(),
    {
        MessageConversationIndexRepository { set: KeySet::new() }
    }

    /// Whether the index holds an entry for message `id` in `conversation`.
    pub open spec fn contains_entry(&self, conversation: ConversationId, id: MessageId) -> bool {
        self@.contains(msg_key(conversation, id))
    }
}

impl IndexManagementRepository<(ConversationId, MessageId), MessageId> for MessageConversationIndexRepository {
    type Criteria = ConversationId;

    type Cursor = MessageId;

    /// The keys are strictly sorted and every tiebreaker is zero: a message
    /// id is unique within its conversation, so no tiebreaker is needed.
    open spec fn inv(&self) -> bool {
        &&& sorted(self@)
        &&& forall|k: Key3| self@.contains(k) ==> k.tie == 0
    }

    fn index_exists(&self, index: &(ConversationId, MessageId)) -> (r: bool)
        ensures
            r == self.contains_entry(index.0, index.1),
    {
        let k = Key3 { group: index.0, rank: rev_rank(index.1), tie: 0 };
        self.set.contains(&k)
    }

    fn insert(&mut self, index: (ConversationId, MessageId))
        ensures
            forall|x: Key3|
                final(self)@.contains(x) <==> (old(self)@.contains(x) || x == msg_key(
                    index.0,
                    index.1,
                )),
    {
        let k = Key3 { group: index.0, rank: rev_rank(index.1), tie: 0 };
        self.set.insert(k);
    }

    fn remove(&mut self, index: &(ConversationId, MessageId)) -> (r: bool)
        ensures
            r == old(self)@.contains(msg_key(index.0, index.1)),
            forall|x: Key3|
                final(self)@.contains(x) <==> (old(self)@.contains(x) && x != msg_key(
                    index.0,
                    index.1,
                )),
    {
        let k = Key3 { group: index.0, rank: rev_rank(index.1), tie: 0 };
        self.set.remove(&k)
    }

    fn clear(&mut self)
        ensures
            final(self)@ == Seq::<Key3>::empty(),
    {
        self.set.clear();
    }

    /// Message ids of `conversation` strictly below the cursor (newest first
    /// when none is given), newest first, at most `limit` of them.
    fn find(
        &self,
        criteria: ConversationId,
        cursor: Option<MessageId>,
        limit: usize,
    ) -> (r: Vec<MessageId>)
        ensures
            r@ == msg_page_ids(self@, criteria, cursor, limit),
    {
        let newest: u64 = match cursor {
            Some(c) => if c == 0 {
                0u64
            } else {
                c - 1
            },
            None => u64::MAX,
        };
        let lo = Key3 { group: criteria, rank: rev_rank(newest), tie: 0 };
        let hi = Key3 { group: criteria, rank: rev_rank(1), tie: u64::MAX };
        let keys = self.set.range(lo, hi, limit);
        let n = keys.len();
        let mut out: Vec<MessageId> = Vec::new();
        let mut i: usize = 0;
        while i < n
            invariant
                n == keys@.len(),
                i <= n,
                out@.len() == i,
                forall|j: int| 0 <= j < i ==> out@[j] == spec_rev_rank(#[trigger] keys@[j].rank),
            decreases n - i,
        {
            out.push(rev_rank(keys[i].rank));
            i += 1;
        }
        proof {
            assert(out@ =~= keys@.map_values(|k: Key3| spec_rev_rank(k.rank)));
        }
        out
    }
}

/// A conversation-index entry: owner, `updated_at`, conversation id.
pub type ConversationIndex = (UserId, Timestamp, ConversationId);

/// The index key of a conversation: conversations of one owner sort by
/// descending recency, with the conversation id as ascending tiebreaker.
pub open spec fn conv_key(user: UserId, updated_at: Timestamp, id: ConversationId) -> Key3 {
    Key3 { group: user, rank: spec_rev_rank(updated_at), tie: id }
}

/// The lower scan bound for a conversation page. A cursor is the
/// `updated_at` of the last conversation already seen; the scan resumes
/// strictly below it. A cursor of zero admits nothing.
pub open spec fn conv_scan_lo(user: UserId, cursor: Option<Timestamp>) -> Key3 {
    let newest: u64 = match cursor {
        Some(c) => (c - 1) as u64,
        None => u64::MAX,
    };
    Key3 { group: user, rank: spec_rev_rank(newest), tie: 0 }
}

/// The upper scan bound for a conversation page: recency zero, any id.
pub open spec fn conv_scan_hi(user: UserId) -> Key3 {
    Key3 { group: user, rank: spec_rev_rank(0), tie: u64::MAX }
}

/// One page of conversation-index keys. A cursor of zero excludes every
/// recency value, so the page is empty.
pub open spec fn conv_page_keys(
    s: Seq<Key3>,
    user: UserId,
    cursor: Option<Timestamp>,
    limit: usize,
) -> Seq<Key3> {
    if cursor == Some(0u64) {
        Seq::empty()
    } else {
        page_of(s, conv_scan_lo(user, cursor), conv_scan_hi(user), limit)
    }
}

/// One page of conversation ids: the tiebreaker field of the page keys.
pub open spec fn conv_page_ids(
    s: Seq<Key3>,
    user: UserId,
    cursor: Option<Timestamp>,
    limit: usize,
) -> Seq<ConversationId> {
    conv_page_keys(s, user, cursor, limit).map_values(|k: Key3| k.tie)
}

/// The secondary index of conversations, keyed owner-first with reversed
/// `updated_at`, so each owner's conversations scan most-recent-first.
#[derive(Debug)]
pub struct ConversationUserIndexRepository {
    set: KeySet,
}

impl View for ConversationUserIndexRepository {
    type V = Seq<Key3>;

    closed spec fn view(&self) -> Seq<Key3> {
        self.set@
    }
}

impl ConversationUserIndexRepository {
    /// An empty index.
    pub fn new() -> (r: ConversationUserIndexRepository)
        ensures
            r.inv(),
            r@ == Seq::<Key3>::empty(),
    {
        ConversationUserIndexRepository { set: KeySet::new() }
    }

    /// Whether the index holds an entry for `id` under `user` at recency
    /// `updated_at`.
    pub open spec fn contains_entry(
        &self,
        user: UserId,
        updated_at: Timestamp,
        id: ConversationId,
    ) -> bool {
        self@.contains(conv_key(user, updated_at, id))
    }
}

impl IndexManagementRepository<ConversationIndex, ConversationId> for ConversationUserIndexRepository {
    type Criteria = UserId;

    type Cursor = Timestamp;

    /// The keys are strictly sorted.
    open spec fn inv(&self) -> bool {
        sorted(self@)
    }

    fn index_exists(&self, index: &ConversationIndex) -> (r: bool)
        ensures
            r == self.contains_entry(index.0, index.1, index.2),
    {
        let k = Key3 { group: index.0, rank: rev_rank(index.1), tie: index.2 };
        self.set.contains(&k)
    }

    fn insert(&mut self, index: ConversationIndex)
        ensures
            forall|x: Key3|
                final(self)@.contains(x) <==> (old(self)@.contains(x) || x == conv_key(
                    index.0,
                    index.1,
                    index.2,
                )),
    {
        let k = Key3 { group: index.0, rank: rev_rank(index.1), tie: index.2 };
        self.set.insert(k);
    }

    fn remove(&mut self, index: &ConversationIndex) -> (r: bool)
        ensures
            r == old(self)@.contains(conv_key(index.0, index.1, index.2)),
            forall|x: Key3|
                final(self)@.contains(x) <==> (old(self)@.contains(x) && x != conv_key(
                    index.0,
                    index.1,
                    index.2,
                )),
    {
        let k = Key3 { group: index.0, rank: rev_rank(index.1), tie: index.2 };
        self.set.remove(&k)
    }

    fn clear(&mut self)
        ensures
            final(self)@ == Seq::<Key3>::empty(),
    {
        self.set.clear();
    }

    /// Conversation ids of `user` strictly older than the cursor recency
    /// (most recent first when none is given), at most `limit` of them.
    fn find(
        &self,
        criteria: UserId,
        cursor: Option<Timestamp>,
        limit: usize,
    ) -> (r: Vec<ConversationId>)
        ensures
            r@ == conv_page_ids(self@, criteria, cursor, limit),
    {
        let newest: u64 = match cursor {
            Some(c) => {
                if c == 0 {
                    return Vec::new();
                }
                c - 1
            },
            None => u64::MAX,
        };
        let lo = Key3 { group: criteria, rank: rev_rank(newest), tie: 0 };
        let hi = Key3 { group: criteria, rank: rev_rank(0), tie: u64::MAX };
        let keys = self.set.range(lo, hi, limit);
        let n = keys.len();
        let mut out: Vec<ConversationId> = Vec::new();
        let mut i: usize = 0;
        while i < n
            invariant
                n == keys@.len(),
                i <= n,
                out@.len() == i,
                forall|j: int| 0 <= j < i ==> out@[j] == #[trigger] keys@[j].tie,
            decreases n - i,
        {
            out.push(keys[i].tie);
            i += 1;
        }
        proof {
            assert(out@ =~= keys@.map_values(|k: Key3| k.tie));
        }
        out
    }
}

/// An identity-index entry as the contracts see it: credential bytes paired
/// with a user id.
pub type IdentityEntry = (Seq<u8>, UserId);

/// The user ids among `s` whose identity equals `identity`, in the order of
/// `s`.
pub open spec fn ids_for(s: Seq<IdentityEntry>, identity: Seq<u8>) -> Seq<UserId>
    decreases s.len(),
{
    if s.len() == 0 {
        Seq::empty()
    } else if s.last().0 == identity {
        ids_for(s.drop_last(), identity).push(s.last().1)
    } else {
        ids_for(s.drop_last(), identity)
    }
}

/// Membership in [`ids_for`]: exactly the ids paired with `identity`.
pub proof fn lemma_ids_for_contains(s: Seq<IdentityEntry>, identity: Seq<u8>, id: UserId)
    ensures
        ids_for(s, identity).contains(id) <==> s.contains((identity, id)),
    decreases s.len(),
{
    if s.len() == 0 {
        assert(!s.contains((identity, id)));
    } else {
        let dl = s.drop_last();
        lemma_ids_for_contains(dl, identity, id);
        assert(s.contains((identity, id)) <==> (dl.contains((identity, id)) || s.last() == (
        identity,
        id,
        ))) by {
            if s.contains((identity, id)) {
                let i = choose|i: int| 0 <= i < s.len() && s[i] == (identity, id);
                if i < s.len() - 1 {
                    assert(dl[i] == (identity, id));
                }
            }
            if dl.contains((identity, id)) {
                let i = choose|i: int| 0 <= i < dl.len() && dl[i] == (identity, id);
                assert(s[i] == (identity, id));
            }
            assert(s[s.len() - 1] == s.last());
        }
        if s.last().0 == identity {
            let r = ids_for(dl, identity);
            let p = r.push(s.last().1);
            assert(p.contains(id) <==> (r.contains(id) || s.last().1 == id)) by {
                if p.contains(id) {
                    let i = choose|i: int| 0 <= i < p.len() && p[i] == id;
                    if i < r.len() {
                        assert(r[i] == id);
                    }
                }
                if r.contains(id) {
                    let i = choose|i: int| 0 <= i < r.len() && r[i] == id;
                    assert(p[i] == id);
                }
                assert(p[r.len() as int] == s.last().1);
            }
            assert(s.last() == (identity, id) <==> s.last().1 == id);
        }
    }
}

/// Under the identity-index invariant, the matching ids are strictly
/// ascending.
pub proof fn lemma_ids_for_ascending(s: Seq<IdentityEntry>, identity: Seq<u8>)
    requires
        forall|i: int, j: int| 0 <= i < j < s.len() ==> (#[trigger] s[i]).1 <= (#[trigger] s[j]).1,
        forall|i: int, j: int| 0 <= i < j < s.len() ==> #[trigger] s[i] != #[trigger] s[j],
    ensures
        forall|i: int, j: int|
            0 <= i < j < ids_for(s, identity).len() ==> #[trigger] ids_for(s, identity)[i]
                < #[trigger] ids_for(s, identity)[j],
    decreases s.len(),
{
    if s.len() > 0 {
        let dl = s.drop_last();
        assert(forall|i: int| 0 <= i < dl.len() ==> #[trigger] dl[i] == s[i]);
        lemma_ids_for_ascending(dl, identity);
        let r = ids_for(dl, identity);
        let p = ids_for(s, identity);
        assert forall|i: int, j: int| 0 <= i < j < p.len() implies #[trigger] p[i]
            < #[trigger] p[j] by {
            if s.last().0 == identity {
                assert(p == r.push(s.last().1));
                if j < r.len() {
                    assert(p[i] == r[i] && p[j] == r[j]);
                } else {
                    assert(p[j] == s.last().1);
                    assert(p[i] == r[i]);
                    assert(r.contains(r[i]));
                    lemma_ids_for_contains(dl, identity, r[i]);
                    let m = choose|m: int| 0 <= m < dl.len() && dl[m] == (identity, r[i]);
                    assert(s[m] == (identity, r[i]));
                    assert(s[m].1 <= s[s.len() - 1].1);
                    assert(s[m] != s[s.len() - 1]);
                    assert(s[s.len() - 1] == (identity, s.last().1));
                }
            } else {
                assert(p == r);
                assert(p[i] == r[i] && p[j] == r[j]);
            }
        }
        assert(forall|i: int, j: int|
            0 <= i < j < ids_for(s, identity).len() ==> #[trigger] ids_for(s, identity)[i]
                < #[trigger] ids_for(s, identity)[j]);
    }
}

/// Well-formedness of an identity-index entry sequence: the entries are
/// distinct and their user ids never decrease, so the ids matching one
/// identity come out strictly ascending.
pub open spec fn identity_entries_wf(s: Seq<IdentityEntry>) -> bool {
    &&& forall|i: int, j: int|
        0 <= i < j < s.len() ==> (#[trigger] s[i]).1 <= (#[trigger] s[j]).1
    &&& forall|i: int, j: int| 0 <= i < j < s.len() ==> #[trigger] s[i] != #[trigger] s[j]
}

/// The secondary index of users, mapping each credential to the user ids
/// registered under it, kept in ascending user-id order.
#[derive(Debug)]
pub struct UserIdentityIndexRepository {
    entries: Vec<(Identity, UserId)>,
}

impl View for UserIdentityIndexRepository {
    type V = Seq<IdentityEntry>;

    closed spec fn view(&self) -> Seq<IdentityEntry> {
        self.entries@.map_values(|e: (Identity, UserId)| (e.0@, e.1))
    }
}

impl UserIdentityIndexRepository {
    /// An empty index.
    pub fn new() -> (r: UserIdentityIndexRepository)
        ensures
            r.inv(),
            r@ == Seq::<IdentityEntry>::empty(),
    {
        let r = UserIdentityIndexRepository { entries: Vec::new() };
        proof {
            assert(r@ =~= Seq::<IdentityEntry>::empty());
        }
        r
    }
}

impl IndexManagementRepository<(Identity, UserId), UserId> for UserIdentityIndexRepository {
    type Criteria = Identity;

    type Cursor = UserId;

    /// See [`identity_entries_wf`].
    open spec fn inv(&self) -> bool {
        identity_entries_wf(self@)
    }

    fn index_exists(&self, index: &(Identity, UserId)) -> (r: bool)
        ensures
            r == self@.contains((index.0@, index.1)),
    {
        let n = self.entries.len();
        let mut i: usize = 0;
        while i < n
            invariant
                n == self@.len(),
                n == self.entries@.len(),
                i <= n,
                forall|j: int| 0 <= j < i ==> #[trigger] self@[j] != (index.0@, index.1),
            decreases n - i,
        {
            let e = &self.entries[i];
            if e.1 == index.1 && e.0.same_as(&index.0) {
                assert(self@[i as int] == (index.0@, index.1));
                return true;
            }
            assert(self@[i as int] == (self.entries@[i as int].0@, self.entries@[i as int].1));
            i += 1;
        }
        false
    }

    fn insert(&mut self, index: (Identity, UserId))
        ensures
            forall|p: IdentityEntry|
                final(self)@.contains(p) <==> (old(self)@.contains(p) || p == (index.0@, index.1)),
    {
        if self.index_exists(&index) {
            return;
        }
        let n = self.entries.len();
        let mut idx: usize = 0;
        while idx < n
            invariant
                self == old(self),
                n == self@.len(),
                n == self.entries@.len(),
                idx <= n,
                forall|j: int| 0 <= j < idx ==> (#[trigger] self@[j]).1 <= index.1,
            ensures
                self == old(self),
                n == self@.len(),
                n == self.entries@.len(),
                idx <= n,
                forall|j: int| 0 <= j < idx ==> (#[trigger] self@[j]).1 <= index.1,
                idx == n || self@[idx as int].1 > index.1,
            decreases n - idx,
        {
            if self.entries[idx].1 > index.1 {
                assert(self@[idx as int].1 == self.entries@[idx as int].1);
                break;
            }
            assert(self@[idx as int].1 == self.entries@[idx as int].1);
            idx += 1;
        }
        let ghost v_old = self@;
        let ghost pair = (index.0@, index.1);
        self.entries.insert(idx, index);
        proof {
            let v_new = self@;
            assert(v_new =~= v_old.insert(idx as int, pair)) by {
                assert forall|a: int| 0 <= a < v_new.len() implies #[trigger] v_new[a]
                    == v_old.insert(idx as int, pair)[a] by {
                    if a < idx {
                    } else if a == idx {
                    } else {
                    }
                }
            }
            assert forall|i: int, j: int| 0 <= i < j < v_new.len() implies (
            #[trigger] v_new[i]).1 <= (#[trigger] v_new[j]).1 by {
                let x = if i < idx {
                    v_old[i]
                } else if i == idx {
                    pair
                } else {
                    v_old[i - 1]
                };
                let y = if j < idx {
                    v_old[j]
                } else if j == idx {
                    pair
                } else {
                    v_old[j - 1]
                };
                assert(v_new[i] == x && v_new[j] == y);
            }
            assert forall|p: IdentityEntry| v_new.contains(p) <==> (v_old.contains(p) || p
                == pair) by {
                if v_new.contains(p) {
                    let i = choose|i: int| 0 <= i < v_new.len() && v_new[i] == p;
                    if i < idx {
                        assert(v_old[i] == p);
                    } else if i > idx {
                        assert(v_old[i - 1] == p);
                    }
                }
                if v_old.contains(p) {
                    let i = choose|i: int| 0 <= i < v_old.len() && v_old[i] == p;
                    if i < idx {
                        assert(v_new[i] == p);
                    } else {
                        assert(v_new[i + 1] == p);
                    }
                }
                assert(v_new[idx as int] == pair);
            }
            assert forall|i: int, j: int| 0 <= i < j < v_new.len() implies #[trigger] v_new[i]
                != #[trigger] v_new[j] by {
                if i == idx {
                    assert(!v_old.contains(pair));
                    assert(v_new[j] == v_old[j - 1]);
                } else if j == idx {
                    assert(!v_old.contains(pair));
                    assert(v_new[i] == v_old[i]);
                } else {
                    let x = if i < idx {
                        v_old[i]
                    } else {
                        v_old[i - 1]
                    };
                    let y = if j < idx {
                        v_old[j]
                    } else {
                        v_old[j - 1]
                    };
                    assert(v_new[i] == x && v_new[j] == y);
                }
            }
        }
    }

    fn remove(&mut self, index: &(Identity, UserId)) -> (r: bool)
        ensures
            r == old(self)@.contains((index.0@, index.1)),
            forall|p: IdentityEntry|
                final(self)@.contains(p) <==> (old(self)@.contains(p) && p != (index.0@, index.1)),
    {
        let n = self.entries.len();
        let mut i: usize = 0;
        while i < n
            invariant
                self == old(self),
                old(self).inv(),
                n == self@.len(),
                n == self.entries@.len(),
                i <= n,
                forall|j: int| 0 <= j < i ==> #[trigger] self@[j] != (index.0@, index.1),
            decreases n - i,
        {
            let e = &self.entries[i];
            if e.1 == index.1 && e.0.same_as(&index.0) {
                let ghost v_old = self@;
                let ghost pair = (index.0@, index.1);
                assert(v_old[i as int] == pair);
                self.entries.remove(i);
                proof {
                    let v_new = self@;
                    assert(v_new =~= v_old.remove(i as int)) by {
                        assert forall|a: int| 0 <= a < v_new.len() implies #[trigger] v_new[a]
                            == v_old.remove(i as int)[a] by {
                            assert(v_old.remove(i as int) == v_old.subrange(0, i as int)
                                + v_old.subrange(i + 1, v_old.len() as int));
                        }
                    }
                    assert forall|a: int| 0 <= a < v_new.len() implies #[trigger] v_new[a] == (
                    if a < i {
                        v_old[a]
                    } else {
                        v_old[a + 1]
                    }) by {
                        assert(v_old.remove(i as int) == v_old.subrange(0, i as int)
                            + v_old.subrange(i + 1, v_old.len() as int));
                    }
                    assert forall|a: int, b: int| 0 <= a < b < v_new.len() implies (
                    #[trigger] v_new[a]).1 <= (#[trigger] v_new[b]).1 && v_new[a] != v_new[b] by {
                        let x = if a < i {
                            v_old[a]
                        } else {
                            v_old[a + 1]
                        };
                        let y = if b < i {
                            v_old[b]
                        } else {
                            v_old[b + 1]
                        };
                        assert(v_new[a] == x && v_new[b] == y);
                    }
                    assert forall|p: IdentityEntry|
                        v_new.contains(p) <==> (v_old.contains(p) && p != pair) by {
                        if v_new.contains(p) {
                            let j = choose|j: int| 0 <= j < v_new.len() && v_new[j] == p;
                            if j < i {
                                assert(v_old[j] == p);
                                assert(v_old[j] != v_old[i as int]);
                            } else {
                                assert(v_old[j + 1] == p);
                                assert(v_old[j + 1] != v_old[i as int]);
                            }
                        }
                        if v_old.contains(p) && p != pair {
                            let j = choose|j: int| 0 <= j < v_old.len() && v_old[j] == p;
                            if j < i {
                                assert(v_new[j] == p);
                            } else {
                                assert(j != i);
                                assert(v_new[j - 1] == p);
                            }
                        }
                    }
                }
                return true;
            }
            assert(self@[i as int] == (self.entries@[i as int].0@, self.entries@[i as int].1));
            i += 1;
        }
        false
    }

    fn clear(&mut self)
        ensures
            final(self)@ == Seq::<IdentityEntry>::empty(),
    {
        self.entries.clear();
        proof {
            assert(self@ =~= Seq::<IdentityEntry>::empty());
        }
    }

    /// Every user id registered under `criteria`, in ascending order; the
    /// cursor and limit do not apply to identity lookup.
    fn find(&self, criteria: Identity, _cursor: Option<UserId>, _limit: usize) -> (r: Vec<UserId>)
        ensures
            r@ == ids_for(self@, criteria@),
    {
        let n = self.entries.len();
        let mut out: Vec<UserId> = Vec::new();
        let mut i: usize = 0;
        while i < n
            invariant
                n == self@.len(),
                n == self.entries@.len(),
                i <= n,
                out@ == ids_for(self@.take(i as int), criteria@),
            decreases n - i,
        {
            let ghost t1 = self@.take(i as int);
            let e = &self.entries[i];
            assert(self@[i as int] == (self.entries@[i as int].0@, self.entries@[i as int].1));
            if e.0.same_as(&criteria) {
                out.push(e.1);
            }
            i += 1;
            proof {
                let t2 = self@.take(i as int);
                assert(t2.drop_last() =~= t1);
                assert(t2.last() == self@[i - 1]);
                assert(t2.len() > 0);
            }
        }
        proof {
            assert(self@.take(n as int) =~= self@);
        }
        out
    }
}

} // verus!
