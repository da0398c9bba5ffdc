use chat_repo::entities::{Identity, User};
use chat_repo::repository::Repository;
use chat_repo::service::{IcvCtx, UserError, UserService};
use chat_repo::user::UserRepository;

#[test]
fn init_ctx_should_have_anon_caller() {
    let ctx = IcvCtx::default();
    assert!(ctx.caller().same_as(&Identity::anonymous()));
    assert!(ctx.user().is_err());
}

#[test]
fn get_ctx_should_query_user() {
    let id_str = String::from("bx5fm-umlzd-vxxln-dg7bd-xb6xi-zs26l-lslll-zgnje-bhguv-ov47m-zqe");
    let principal = candid::Principal::from_text(id_str.clone()).unwrap();
    let identity = Identity::new(principal.as_slice().to_vec());
    let mut repo = UserRepository::new();
    repo.insert(
        User {
            id: 1,
            fullname: "fulan".to_string(),
            identity: identity.clone(),
            resume: String::new(),
        },
        0,
    )
    .unwrap();
    let ctx = IcvCtx::get(identity.clone(), &repo);
    assert!(identity.same_as(&ctx.caller()));
    assert_eq!("fulan", ctx.user().unwrap().fullname);
}

#[test]
fn unresolved_caller_reports_hex_identity() {
    let repo = UserRepository::new();
    let ctx = IcvCtx::get(Identity::anonymous(), &repo);
    match ctx.user() {
        Err(UserError::IdentityNotFound { identity }) => {
            assert_eq!("04", identity);
        },
        Ok(_) => panic!("no user is registered"),
    }
}

#[test]
fn fresh_service_holds_empty_repository() {
    let service = UserService::new();
    assert!(service.user_repository.get(&1).is_none());
}
