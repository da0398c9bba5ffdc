use chat_repo::conversation::ConversationRepository;
use chat_repo::entities::{Conversation, Identity, Message, Roles, User};
use chat_repo::message::MessageRepository;
use chat_repo::repository::Repository;
use chat_repo::user::{IdentityProvider, UserRepository};

#[test]
fn parse_roles_from_str_should_works() {
    let r = "user".parse::<Roles>().unwrap();
    assert!(matches!(r, Roles::User));
    let r: Roles = "assistant".parse().unwrap();
    assert!(matches!(r, Roles::Assistant));
    let s = String::from("system");
    let r: Roles = s.parse().unwrap();
    assert!(matches!(r, Roles::System));
}

#[test]
#[should_panic]
fn parse_roles_from_unknown_str_should_failed() {
    "jedi".parse::<Roles>().unwrap();
}

#[test]
fn generated_id_should_consistent() {
    let mut msg_repo = MessageRepository::new();
    let mut con_repo = ConversationRepository::new();

    assert_eq!(msg_repo.peek_next_id(), 1);
    assert_eq!(con_repo.peek_next_id(), 1);

    assert_eq!(msg_repo.next_id(), 1);
    assert_eq!(msg_repo.peek_next_id(), 2);
    assert_eq!(con_repo.next_id(), 1);
    assert_eq!(con_repo.peek_next_id(), 2);
    assert_eq!(con_repo.next_id(), 2);
    assert_eq!(con_repo.peek_next_id(), 3);
}

#[test]
fn get_and_insert_message_should_work() {
    let mut repo = MessageRepository::new();
    repo.insert(
        Message {
            id: 123,
            conversation: 1,
            content: "Hi World!".to_string(),
            timestamp: 123,
            role: Roles::User,
        },
        0,
    )
    .unwrap();
    assert!(repo.get(&123).is_none());
    assert!(repo.get(&1).is_some());
    assert_eq!("Hi World!".to_string(), repo.get(&1).unwrap().content)
}

#[test]
#[should_panic]
fn update_message_should_failed() {
    let mut repo = MessageRepository::new();
    repo.update(
        Message {
            id: 1,
            conversation: 1,
            content: "one".to_string(),
            timestamp: 0,
            role: Roles::Assistant,
        },
        0,
    )
    .unwrap();
}

#[test]
fn delete_message_should_work() {
    let mut repo = MessageRepository::new();
    (0..3u64).for_each(|i| {
        repo.insert(
            Message {
                id: 0,
                conversation: 0,
                content: format!("number-{}", i),
                timestamp: 0,
                role: Roles::User,
            },
            i,
        )
        .unwrap();
    });
    repo.delete(&2).unwrap();
    assert!(repo.get(&2).is_none());
}

#[test]
#[should_panic]
fn delete_non_exist_message_should_failed() {
    let mut repo = MessageRepository::new();
    (0..3u64).for_each(|i| {
        repo.insert(
            Message {
                id: 0,
                conversation: 0,
                content: format!("number-{}", i),
                timestamp: 0,
                role: Roles::User,
            },
            i,
        )
        .unwrap();
    });
    repo.delete(&10).unwrap();
}

#[test]
fn delete_messge_by_conversation_should_work() {
    let mut repo = MessageRepository::new();
    (0..3u64).for_each(|i| {
        repo.insert(
            Message {
                id: 0,
                conversation: 1,
                content: format!("number-{}", i),
                timestamp: 0,
                role: Roles::User,
            },
            i,
        )
        .unwrap();
    });
    (0..5u64).for_each(|i| {
        repo.insert(
            Message {
                id: 0,
                conversation: 7,
                content: format!("number-{}", i),
                timestamp: 0,
                role: Roles::User,
            },
            3 + i,
        )
        .unwrap();
    });
    repo.delete_by_conversation(&1).unwrap();
    assert!(repo.paged_list(1, None, usize::default()).1.is_empty());
    assert_eq!(5, repo.paged_list(7, None, usize::default()).1.len());
}

#[test]
fn message_cursor_paged_list_should_return_correct_list() {
    let mut repo = MessageRepository::new();

    // 1-5 for conv 1
    for i in 1..=5u64 {
        repo.insert(
            Message {
                id: i,
                conversation: 1,
                content: format!("Message {}", i),
                timestamp: i,
                role: Roles::User,
            },
            i,
        )
        .unwrap();
    }
    // 6-9 for conv 2
    for i in 6..=9u64 {
        repo.insert(
            Message {
                id: i,
                conversation: 2,
                content: format!("Message {}", i),
                timestamp: 2,
                role: Roles::User,
            },
            i,
        )
        .unwrap();
    }
    // 10 for conv 1
    repo.insert(
        Message {
            id: 10,
            conversation: 1,
            content: format!("Message {}", 10),
            timestamp: 10,
            role: Roles::User,
        },
        10,
    )
    .unwrap();

    // Initial load (latest 3 messages for conv 1)
    let (next_cursor, page1) = repo.paged_list(1, None, 3);
    assert_eq!(page1.iter().map(|m| m.id).collect::<Vec<_>>(), vec![10, 5, 4]);
    assert_eq!(next_cursor.unwrap(), 4);

    // Scroll up (older than 10)
    let (_, page2) = repo.paged_list(1, Some(10), 3);
    assert_eq!(page2.iter().map(|m| m.id).collect::<Vec<_>>(), vec![5, 4, 3]);

    // conv 2 out of limit
    let (_, conv2) = repo.paged_list(2, Some(8), 5);
    assert_eq!(conv2.iter().map(|m| m.id).collect::<Vec<_>>(), vec![7, 6]);
}

#[test]
fn get_and_upsert_conversation_should_work() {
    let mut repo = ConversationRepository::new();
    let mut conversation = Conversation {
        id: 1,
        user: 1,
        updated_at: 1234567890,
        name: "Test Conversation".to_string(),
    };
    repo.upsert(conversation.clone(), 0).unwrap();
    assert!(repo.get(&1).is_some());
    assert_eq!("Test Conversation", repo.get(&1).unwrap().name);
    conversation.name = "Updated Conversation".to_string();
    repo.upsert(conversation, 1).unwrap();
    assert_eq!("Updated Conversation", repo.get(&1).unwrap().name);
}

#[test]
fn delete_conversation_should_work() {
    let mut repo = ConversationRepository::new();
    repo.insert(
        Conversation { id: 0, user: 1, updated_at: 0, name: String::from("abc") },
        0,
    )
    .unwrap();
    assert!(repo.get(&1).is_some());
    repo.delete(&1).unwrap();
    assert!(repo.get(&1).is_none());
}

#[test]
#[should_panic]
fn delete_non_exist_conversation_should_failed() {
    let mut repo = ConversationRepository::new();
    repo.insert(
        Conversation { id: 0, user: 1, updated_at: 0, name: String::from("abc") },
        0,
    )
    .unwrap();
    assert!(repo.get(&1).is_some());
    repo.delete(&3).unwrap();
}

#[test]
fn conversation_cursor_paged_list_should_return_correct_list() {
    let mut repo = ConversationRepository::new();

    // 1-5 for user 1
    for i in 1..=5u64 {
        repo.upsert(
            Conversation { id: i, user: 1, updated_at: i, name: format!("Conversation {}", i) },
            i,
        )
        .unwrap();
    }
    // 6-9 for user 2
    for i in 6..=9u64 {
        repo.upsert(
            Conversation { id: i, user: 2, updated_at: i, name: format!("Conversation {}", i) },
            i,
        )
        .unwrap();
    }
    // 10 for user 1
    repo.upsert(
        Conversation { id: 10, user: 1, updated_at: 10, name: format!("Conversation {}", 10) },
        10,
    )
    .unwrap();

    // Initial load (latest 3 conversations for user 1)
    let (next_cursor, page1) = repo.paged_list(1, None, 3);
    assert_eq!(page1.iter().map(|c| c.id).collect::<Vec<_>>(), vec![10, 5, 4]);
    assert_eq!(next_cursor.unwrap(), 4);

    // Scroll up (older than 10)
    let (_, page2) = repo.paged_list(1, Some(10), 3);
    assert_eq!(page2.iter().map(|c| c.id).collect::<Vec<_>>(), vec![5, 4, 3]);

    // user 2 out of limit
    let (_, user2) = repo.paged_list(2, Some(8), 5);
    assert_eq!(user2.iter().map(|c| c.id).collect::<Vec<_>>(), vec![7, 6]);
}

#[test]
fn get_and_insert_user_should_work() {
    let mut repo = UserRepository::new();
    let user = User {
        id: 0,
        fullname: "fulan".to_string(),
        identity: Identity::anonymous(),
        resume: "profile".to_string(),
    };
    repo.insert(user, 0).unwrap();
    assert!(repo.get(&1).is_some());
    assert_eq!("fulan", repo.get(&1).unwrap().fullname);
}

#[test]
fn update_user_should_work() {
    let mut repo = UserRepository::new();
    repo.insert(
        User {
            id: 0,
            fullname: "fulan".to_string(),
            identity: Identity::anonymous(),
            resume: "profile".to_string(),
        },
        0,
    )
    .unwrap();
    assert!(repo.get(&1).is_some());
    assert_eq!("fulan", repo.get(&1).unwrap().fullname);
    repo.update(
        User {
            id: 1,
            fullname: "fulanah".to_string(),
            identity: Identity::anonymous(),
            resume: "profile".to_string(),
        },
        0,
    )
    .unwrap();
    assert_eq!("fulanah", repo.get(&1).unwrap().fullname);
}

#[test]
fn delete_user_should_work() {
    let mut repo = UserRepository::new();
    repo.insert(
        User {
            id: 0,
            fullname: "fulan".to_string(),
            identity: Identity::anonymous(),
            resume: "profile".to_string(),
        },
        0,
    )
    .unwrap();
    assert!(repo.get(&1).is_some());
    repo.delete(&1).unwrap();
    assert!(repo.get(&1).is_none());
}

#[test]
#[should_panic]
fn delete_non_exist_user_should_failed() {
    let mut repo = UserRepository::new();
    repo.insert(
        User {
            id: 0,
            fullname: "fulan".to_string(),
            identity: Identity::anonymous(),
            resume: "profile".to_string(),
        },
        0,
    )
    .unwrap();
    assert!(repo.get(&1).is_some());
    assert!(repo.get(&2).is_none());
    repo.delete(&2).unwrap();
}

#[test]
fn get_user_by_identity_should_work() {
    let mut repo = UserRepository::new();

    let principal = candid::Principal::from_text("2chl6-4hpzw-vqaaa-aaaaa-c").unwrap();
    let identity = Identity::new(principal.as_slice().to_vec());
    repo.insert(
        User {
            id: 0,
            fullname: "user1".to_string(),
            identity: identity.clone(),
            resume: "user1".to_string(),
        },
        0,
    )
    .unwrap();
    repo.insert(
        User {
            id: 0,
            fullname: "user2".to_string(),
            identity: Identity::anonymous(),
            resume: "user2".to_string(),
        },
        0,
    )
    .unwrap();
    let q = repo.get_user(identity);
    assert!(q.is_some());
    assert_eq!("user1", q.unwrap().fullname);
}
