//! The service shell around the repositories: the per-request context that
//! resolves the caller's identity to a registered user, and the user
//! service. The caller credential itself is produced by the identity
//! collaborator outside this crate and handed in as plain bytes.

use vstd::prelude::*;
use vstd::string::StringExecFns;

use crate::entities::{Identity, User, UserView};
use crate::repository::Repository;
use crate::user::{IdentityProvider, UserRepository};

verus! {

/// Errors of the service layer.
#[derive(Debug, Clone, PartialEq, Eq)]
pub enum UserError {
    /// No user is registered under the caller's identity; the identity is
    /// reported as the hex rendering of its credential bytes.
    IdentityNotFound { identity: String },
}

/// The hex digit of a value below 16.
pub open spec fn hex_char(n: u8) -> char {
    if n == 0 {
        '0'
    } else if n == 1 {
        '1'
    } else if n == 2 {
        '2'
    } else if n == 3 {
        '3'
    } else if n == 4 {
        '4'
    } else if n == 5 {
        '5'
    } else if n == 6 {
        '6'
    } else if n == 7 {
        '7'
    } else if n == 8 {
        '8'
    } else if n == 9 {
        '9'
    } else if n == 10 {
        'a'
    } else if n == 11 {
        'b'
    } else if n == 12 {
        'c'
    } else if n == 13 {
        'd'
    } else if n == 14 {
        'e'
    } else {
        'f'
    }
}

/// The hex rendering of a byte sequence: two digits per byte.
pub open spec fn hex_seq(bytes: Seq<u8>) -> Seq<char>
    decreases bytes.len(),
{
    if bytes.len() == 0 {
        Seq::empty()
    } else {
        hex_seq(bytes.drop_last()) + seq![
            hex_char(bytes.last() / 16),
            hex_char(bytes.last() % 16),
        ]
    }
}

/// The hex digit of a value below 16, as a string slice.
fn hex_digit(n: u8) -> (r: &'static str)
    requires
        n < 16,
    ensures
        r@ == seq![hex_char(n)],
{
    proof {
        broadcast use vstd::string::group_string_axioms;

        reveal_strlit("0");
        reveal_strlit("1");
        reveal_strlit("2");
        reveal_strlit("3");
        reveal_strlit("4");
        reveal_strlit("5");
        reveal_strlit("6");
        reveal_strlit("7");
        reveal_strlit("8");
        reveal_strlit("9");
        reveal_strlit("a");
        reveal_strlit("b");
        reveal_strlit("c");
        reveal_strlit("d");
        reveal_strlit("e");
        reveal_strlit("f");
    }
    let r: &'static str = match n {
        0 => "0",
        1 => "1",
        2 => "2",
        3 => "3",
        4 => "4",
        5 => "5",
        6 => "6",
        7 => "7",
        8 => "8",
        9 => "9",
        10 => "a",
        11 => "b",
        12 => "c",
        13 => "d",
        14 => "e",
        _ => "f",
    };
    proof {
        assert(r@ =~= seq![hex_char(n)]);
    }
    r
}

/// Renders credential bytes as hex, two digits per byte.
fn hex_of(bytes: &Vec<u8>) -> (r: String)
    ensures
        r@ == hex_seq(bytes@),
{
    let n = bytes.len();
    let mut out = String::new();
    let mut i: usize = 0;
    while i < n
        invariant
            n == bytes@.len(),
            i <= n,
            out@ == hex_seq(bytes@.take(i as int)),
        decreases n - i,
    {
        let ghost t1 = bytes@.take(i as int);
        let b = bytes[i];
        out.append(hex_digit(b / 16));
        out.append(hex_digit(b % 16));
        i += 1;
        proof {
            let t2 = bytes@.take(i as int);
            assert(t2.drop_last() =~= t1);
            assert(t2.last() == bytes@[i - 1]);
            assert(out@ =~= hex_seq(t2));
        }
    }
    proof {
        assert(bytes@.take(n as int) =~= bytes@);
    }
    out
}

/// The per-request context: the caller's credential, and the user resolved
/// from it, if one is registered.
#[derive(Debug)]
pub struct IcvCtx {
    caller: Identity,
    user: Option<User>,
}

impl IcvCtx {
    /// The caller's credential bytes.
    pub closed spec fn spec_caller(&self) -> Seq<u8> {
        self.caller@
    }

    /// The resolved user, if any.
    pub closed spec fn spec_user(&self) -> Option<UserView> {
        match self.user {
            Some(u) => Some(u@),
            None => None,
        }
    }
}

impl Default for IcvCtx {
    /// The context before any resolution: the anonymous caller, no user.
    fn default() -> (r: IcvCtx)
        ensures
            r.spec_caller() == seq![4u8],
            r.spec_user() is None,
    {
        IcvCtx { caller: Identity::anonymous(), user: None }
    }
}

impl IcvCtx {
    /// Builds the context for a request: resolves `caller` against the user
    /// repository — with duplicate identities the match with the greatest id
    /// wins — and pins the credential. The credential itself comes from the
    /// identity collaborator, which the surrounding program queries.
    pub fn get(caller: Identity, users: &UserRepository) -> (r: IcvCtx)
        requires
            users.inv(),
        ensures
            r.spec_caller() == caller@,
            match r.spec_user() {
                Some(uv) => {
                    &&& users.users().dom().contains(uv.id)
                    &&& uv == users.users()[uv.id]
                    &&& uv.identity == caller@
                    &&& forall|id: u64|
                        users.users().dom().contains(id) && (#[trigger] users.users()[id]).identity
                            == caller@ ==> id <= uv.id
                },
                None => forall|id: u64|
                    #[trigger] users.users().dom().contains(id) ==> users.users()[id].identity
                        != caller@,
            },
    {
        let user = users.get_user(caller.clone());
        IcvCtx { caller, user }
    }

    /// The resolved user, or an identity-not-found error carrying the hex
    /// rendering of the caller's credential.
    pub fn user(&self) -> (r: Result<User, UserError>)
        ensures
            match self.spec_user() {
                Some(uv) => ({
                    &&& r matches Ok(u)
                    &&& u@ == uv
                }),
                None => ({
                    &&& r matches Err(UserError::IdentityNotFound { identity })
                    &&& identity@ == hex_seq(self.spec_caller())
                }),
            },
    {
        match &self.user {
            Some(u) => Ok(u.clone()),
            None => Err(
                UserError::IdentityNotFound { identity: hex_of(self.caller.as_bytes()) },
            ),
        }
    }

    /// The caller's credential.
    pub fn caller(&self) -> (r: Identity)
        ensures
            r@ == self.spec_caller(),
    {
        self.caller.clone()
    }
}

/// The user service: the service-layer shell owning the user repository.
#[derive(Debug)]
pub struct UserService {
    /// The repository the service works on.
    pub user_repository: UserRepository,
}

impl UserService {
    /// A service over a fresh, empty user repository.
    pub fn new() -> (r: UserService)
        ensures
            r.user_repository.inv(),
            r.user_repository.users() == Map::<u64, UserView>::empty(),
    {
        UserService { user_repository: UserRepository::new() }
    }
}

} // verus!
