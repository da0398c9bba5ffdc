use chat_repo::conversation::ConversationRepository;
use chat_repo::entities::{Conversation, Message, Roles};
use chat_repo::message::MessageRepository;
use chat_repo::repository::{Repository, RepositoryError};

fn msg(conversation: u64) -> Message {
    Message {
        id: 0,
        conversation,
        content: "text".to_string(),
        timestamp: 0,
        role: Roles::User,
    }
}

fn conv(id: u64, user: u64) -> Conversation {
    Conversation { id, user, updated_at: 0, name: format!("Conversation {}", id) }
}

#[test]
fn keyset_ordering_returns_highest_ids_descending() {
    let mut repo = MessageRepository::new();
    for i in 1..=6u64 {
        repo.insert(msg(1), i).unwrap();
    }
    let (_, page) = repo.paged_list(1, None, 4);
    assert_eq!(page.iter().map(|m| m.id).collect::<Vec<_>>(), vec![6, 5, 4, 3]);
}

#[test]
fn cursor_continuity_walks_every_message_exactly_once() {
    let mut repo = MessageRepository::new();
    for i in 1..=7u64 {
        repo.insert(msg(1), i).unwrap();
    }
    let mut seen: Vec<u64> = Vec::new();
    let mut cursor: Option<u64> = None;
    loop {
        let (next, page) = repo.paged_list(1, cursor, 2);
        if page.is_empty() {
            break;
        }
        seen.extend(page.iter().map(|m| m.id));
        cursor = next;
    }
    assert_eq!(seen, vec![7, 6, 5, 4, 3, 2, 1]);
}

#[test]
fn zero_limit_means_no_limit() {
    let mut repo = MessageRepository::new();
    for i in 1..=4u64 {
        repo.insert(msg(1), i).unwrap();
    }
    let (next, page) = repo.paged_list(1, None, 0);
    assert_eq!(page.len(), 4);
    assert_eq!(next, Some(1));
}

#[test]
fn empty_conversation_yields_empty_page_without_cursor() {
    let repo = MessageRepository::new();
    let (next, page) = repo.paged_list(1, None, 3);
    assert!(next.is_none());
    assert!(page.is_empty());
}

#[test]
fn cursor_zero_excludes_everything() {
    let mut msgs = MessageRepository::new();
    msgs.insert(msg(1), 1).unwrap();
    assert!(msgs.paged_list(1, Some(0), 3).1.is_empty());

    let mut convs = ConversationRepository::new();
    convs.upsert(conv(1, 1), 5).unwrap();
    assert!(convs.paged_list(1, Some(0), 3).1.is_empty());
}

#[test]
fn message_update_always_fails_illegal_update() {
    let mut repo = MessageRepository::new();
    repo.insert(msg(1), 1).unwrap();
    let err = repo
        .update(
            Message {
                id: 1,
                conversation: 1,
                content: "replaced".to_string(),
                timestamp: 9,
                role: Roles::Assistant,
            },
            9,
        )
        .unwrap_err();
    assert!(matches!(err, RepositoryError::IllegalUpdate { .. }));
    assert_eq!("text", repo.get(&1).unwrap().content);
}

#[test]
fn owner_change_is_rejected_and_leaves_conversation_unchanged() {
    let mut repo = ConversationRepository::new();
    repo.upsert(conv(1, 1), 3).unwrap();
    let err = repo
        .update(
            Conversation { id: 1, user: 2, updated_at: 0, name: "stolen".to_string() },
            4,
        )
        .unwrap_err();
    assert!(matches!(err, RepositoryError::IllegalUpdate { .. }));
    let stored = repo.get(&1).unwrap();
    assert_eq!(1, stored.user);
    assert_eq!("Conversation 1", stored.name);
    assert_eq!(3, stored.updated_at);
}

#[test]
fn cascade_delete_returns_ids_and_spares_other_conversations() {
    let mut repo = MessageRepository::new();
    for i in 0..3u64 {
        repo.insert(msg(10), i).unwrap();
    }
    for i in 0..5u64 {
        repo.insert(msg(20), 3 + i).unwrap();
    }
    let deleted = repo.delete_by_conversation(&10).unwrap();
    assert_eq!(deleted, vec![3, 2, 1]);
    assert!(repo.paged_list(10, None, 0).1.is_empty());
    assert_eq!(5, repo.paged_list(20, None, 0).1.len());
}

#[test]
fn id_generator_is_monotonic() {
    let mut repo = MessageRepository::new();
    let peeked = repo.peek_next_id();
    let taken = repo.next_id();
    assert_eq!(taken, peeked);
    assert_eq!(repo.peek_next_id(), peeked + 1);
}

#[test]
fn equal_recency_breaks_ties_by_ascending_id() {
    let mut repo = ConversationRepository::new();
    for i in 1..=3u64 {
        repo.upsert(conv(i, 1), 5).unwrap();
    }
    let (_, page) = repo.paged_list(1, None, 0);
    assert_eq!(page.iter().map(|c| c.id).collect::<Vec<_>>(), vec![1, 2, 3]);
}

#[test]
fn delete_of_absent_ids_reports_not_found() {
    let mut msgs = MessageRepository::new();
    assert_eq!(msgs.delete(&9), Err(RepositoryError::NotFound));
    let mut convs = ConversationRepository::new();
    assert_eq!(convs.delete(&9), Err(RepositoryError::NotFound));
}

#[test]
fn update_of_absent_conversation_reports_not_found() {
    let mut repo = ConversationRepository::new();
    let err = repo.update(conv(4, 1), 1).unwrap_err();
    assert_eq!(err, RepositoryError::NotFound);
}
