//! Entity types of the chat domain: message roles, messages, conversations,
//! users, and the opaque caller identity, together with their mathematical
//! views used by the repository contracts.

use vstd::prelude::*;
use vstd::string::StrSliceExecFns;

verus! {

/// A timestamp, in milliseconds since the epoch.
pub type Timestamp = u64;

/// A unique identifier for a message.
pub type MessageId = u64;

/// A unique identifier for a conversation.
pub type ConversationId = u64;

/// A unique identifier for a user.
pub type UserId = u64;

/// The role a message carries in a conversation.
#[derive(Clone, Copy, Debug, PartialEq, Eq, Structural)]
pub enum Roles {
    System,
    User,
    Assistant,
}

/// Errors of the entity layer.
#[derive(Clone, Debug, PartialEq, Eq, Structural)]
pub enum EntityError {
    /// A role name that names none of the known roles.
    UnknownRoles,
}

/// Compares two string slices by their character sequences.
fn str_eq(a: &str, b: &str) -> (r: bool)
    ensures
        r == (a@ == b@),
{
    let la = a.unicode_len();
    let lb = b.unicode_len();
    if la != lb {
        return false;
    }
    let mut i: usize = 0;
    while i < la
        invariant
            la == a@.len(),
            la == b@.len(),
            i <= la,
            forall|j: int| 0 <= j < i ==> a@[j] == b@[j],
        decreases la - i,
    {
        let ca = a.get_char(i);
        let cb = b.get_char(i);
        if ca != cb {
            return false;
        }
        i += 1;
    }
    proof {
        assert(a@ =~= b@);
    }
    true
}

impl Roles {
    /// Parses a role from its lower-case name; any other text is rejected.
    pub fn parse(s: &str) -> (r: Result<Roles, EntityError>)
        ensures
            s@ == "assistant"@ ==> r == Ok::<Roles, EntityError>(Roles::Assistant),
            s@ == "user"@ ==> r == Ok::<Roles, EntityError>(Roles::User),
            s@ == "system"@ ==> r == Ok::<Roles, EntityError>(Roles::System),
            (s@ != "assistant"@ && s@ != "user"@ && s@ != "system"@) ==> r == Err::<
                Roles,
                EntityError,
            >(EntityError::UnknownRoles),
    {
        proof {
            broadcast use vstd::string::group_string_axioms;

            reveal_strlit("assistant");
            reveal_strlit("user");
            reveal_strlit("system");
            assert("assistant"@.len() == 9);
            assert("user"@.len() == 4);
            assert("system"@.len() == 6);
        }
        if str_eq(s, "assistant") {
            Ok(Roles::Assistant)
        } else if str_eq(s, "user") {
            Ok(Roles::User)
        } else if str_eq(s, "system") {
            Ok(Roles::System)
        } else {
            Err(EntityError::UnknownRoles)
        }
    }
}

impl core::str::FromStr for Roles {
    type Err = EntityError;

    fn from_str(s: &str) -> Result<Roles, EntityError> {
        Roles::parse(s)
    }
}

/// A message in a conversation.
#[derive(Debug)]
pub struct Message {
    pub id: MessageId,
    pub conversation: ConversationId,
    pub content: String,
    pub timestamp: Timestamp,
    pub role: Roles,
}

/// The mathematical view of a [`Message`].
#[verifier::ext_equal]
pub struct MessageView {
    pub id: MessageId,
    pub conversation: ConversationId,
    pub content: Seq<char>,
    pub timestamp: Timestamp,
    pub role: Roles,
}

impl View for Message {
    type V = MessageView;

    open spec fn view(&self) -> MessageView {
        MessageView {
            id: self.id,
            conversation: self.conversation,
            content: self.content@,
            timestamp: self.timestamp,
            role: self.role,
        }
    }
}

impl Clone for Message {
    fn clone(&self) -> (r: Self)
        ensures
            r@ == self@,
    {
        Message {
            id: self.id,
            conversation: self.conversation,
            content: self.content.clone(),
            timestamp: self.timestamp,
            role: self.role,
        }
    }
}

/// A conversation between a user and the assistant.
#[derive(Debug)]
pub struct Conversation {
    pub id: ConversationId,
    pub user: UserId,
    pub updated_at: Timestamp,
    pub name: String,
}

/// The mathematical view of a [`Conversation`].
#[verifier::ext_equal]
pub struct ConversationView {
    pub id: ConversationId,
    pub user: UserId,
    pub updated_at: Timestamp,
    pub name: Seq<char>,
}

impl View for Conversation {
    type V = ConversationView;

    open spec fn view(&self) -> ConversationView {
        ConversationView {
            id: self.id,
            user: self.user,
            updated_at: self.updated_at,
            name: self.name@,
        }
    }
}

impl Clone for Conversation {
    fn clone(&self) -> (r: Self)
        ensures
            r@ == self@,
    {
        Conversation {
            id: self.id,
            user: self.user,
            updated_at: self.updated_at,
            name: self.name.clone(),
        }
    }
}

/// An opaque caller credential, held as its raw bytes. The identity
/// collaborator (outside this crate) supplies the bytes; the repositories
/// only ever compare them for equality.
#[derive(Debug)]
pub struct Identity {
    bytes: Vec<u8>,
}

impl View for Identity {
    type V = Seq<u8>;

    closed spec fn view(&self) -> Seq<u8> {
        self.bytes@
    }
}

impl Identity {
    /// Wraps raw credential bytes.
    pub fn new(bytes: Vec<u8>) -> (r: Identity)
        ensures
            r@ == bytes@,
    {
        Identity { bytes }
    }

    /// The anonymous identity: the single byte 4.
    pub fn anonymous() -> (r: Identity)
        ensures
            r@ == seq![4u8],
    {
        let mut bytes: Vec<u8> = Vec::new();
        bytes.push(4u8);
        proof {
            assert(bytes@ =~= seq![4u8]);
        }
        Identity { bytes }
    }

    /// The credential bytes.
    pub fn as_bytes(&self) -> (r: &Vec<u8>)
        ensures
            r@ == self@,
    {
        &self.bytes
    }

    /// Whether two identities hold the same bytes.
    pub fn same_as(&self, other: &Identity) -> (r: bool)
        ensures
            r == (self@ == other@),
    {
        if self.bytes.len() != other.bytes.len() {
            return false;
        }
        let n = self.bytes.len();
        let mut i: usize = 0;
        while i < n
            invariant
                n == self@.len(),
                n == other@.len(),
                i <= n,
                forall|j: int| 0 <= j < i ==> self@[j] == other@[j],
            decreases n - i,
        {
            if self.bytes[i] != other.bytes[i] {
                return false;
            }
            i += 1;
        }
        proof {
            assert(self@ =~= other@);
        }
        true
    }
}

impl Clone for Identity {
    fn clone(&self) -> (r: Self)
        ensures
            r@ == self@,
    {
        let bytes = self.bytes.clone();
        proof {
            assert(bytes@ =~= self.bytes@);
        }
        Identity { bytes }
    }
}

/// A registered user.
#[derive(Debug)]
pub struct User {
    pub id: UserId,
    pub fullname: String,
    pub identity: Identity,
    pub resume: String,
}

/// The mathematical view of a [`User`].
#[verifier::ext_equal]
pub struct UserView {
    pub id: UserId,
    pub fullname: Seq<char>,
    pub identity: Seq<u8>,
    pub resume: Seq<char>,
}

impl View for User {
    type V = UserView;

    open spec fn view(&self) -> UserView {
        UserView {
            id: self.id,
            fullname: self.fullname@,
            identity: self.identity@,
            resume: self.resume@,
        }
    }
}

impl Clone for User {
    fn clone(&self) -> (r: Self)
        ensures
            r@ == self@,
    {
        User {
            id: self.id,
            fullname: self.fullname.clone(),
            identity: self.identity.clone(),
            resume: self.resume.clone(),
        }
    }
}

} // verus!
