use cargo_registry::datetime::Date;
use cargo_registry::datetime::DateTime;
use cargo_registry::errors::CargoError;
use cargo_registry::owners::OwnerSet;
use cargo_registry::owners::Team;
use cargo_registry::owners::User;
use cargo_registry::registry::Package;
use cargo_registry::registry::Registry;

fn t0() -> DateTime {
    DateTime { date: Date { year: 2017, month: 1, day: 25 }, hour: 0, minute: 0, second: 0 }
}

fn user(id: i32, login: &str) -> User {
    User { id, gh_id: id * 100, gh_login: login.to_string() }
}

fn package(id: i32, name: &str, owner: &User) -> Package {
    let mut owners = OwnerSet::new();
    owners.add_user(owner.duplicate()).unwrap();
    Package { id, name: name.to_string(), created_at: t0(), owners, versions: Vec::new() }
}

fn add_and_accept(reg: &mut Registry, actor: i32, pkg_i: usize, login: &str) {
    let logins = vec![login.to_string()];
    let grants: Vec<i32> = Vec::new();
    reg.add_named_owners(actor, pkg_i, &logins, &grants, t0()).unwrap();
    let uid = reg.lookup_user(login).map(|u| reg.users[u].id).unwrap();
    let cid = reg.packages[pkg_i].id;
    reg.accept_invitation(uid, cid).unwrap();
}

#[test]
fn new_crate_owner() {
    let mut reg = Registry::new();
    let u1 = user(1, "foo_user");
    let u2 = user(2, "bar");
    reg.users.push(u1.duplicate());
    reg.users.push(u2.duplicate());
    reg.packages.push(package(10, "foo_owner", &u1));

    add_and_accept(&mut reg, 1, 0, "bar");
    assert!(reg.packages[0].owners.is_user_owner(2));

    // the second user may now publish the next version
    let grants: Vec<i32> = Vec::new();
    assert!(reg.check_publish(2, "foo_owner", &grants).is_ok());
}

#[test]
fn subcrate_permissions() {
    let mut reg = Registry::new();
    let u1 = user(1, "user1");
    let u2 = user(2, "user2");
    let u3 = user(3, "user3");
    reg.users.push(u1.duplicate());
    reg.users.push(u2.duplicate());
    reg.users.push(u3.duplicate());
    reg.packages.push(package(10, "foo", &u1));
    reg.packages.push(package(11, "foo/bar", &u1));
    let grants: Vec<i32> = Vec::new();

    add_and_accept(&mut reg, 1, 1, "user2");
    assert!(reg.packages[1].owners.is_user_owner(2));
    assert!(reg.check_publish(2, "foo/bar", &grants).is_ok());

    // an owner of the namespace may publish the subcrate
    add_and_accept(&mut reg, 1, 0, "user3");
    assert!(reg.check_publish(3, "foo/bar", &grants).is_ok());

    // user2 is an explicit owner of the subcrate, user3 is not
    let names = vec!["user2".to_string()];
    reg.remove_named_owners(1, 1, &names, &grants).unwrap();
    assert!(!reg.packages[1].owners.is_user_owner(2));

    let names = vec!["user3".to_string()];
    let err = reg.remove_named_owners(1, 1, &names, &grants).unwrap_err();
    assert!(matches!(err, CargoError::UnknownOwner(_)));
    // namespace-derived rights are untouched
    assert!(reg.check_publish(3, "foo/bar", &grants).is_ok());
}

#[test]
fn subcrate_permissions_rejects_if_user_doesnt_own_namespace() {
    let mut reg = Registry::new();
    let u1 = user(1, "user1");
    let u2 = user(2, "user2");
    reg.users.push(u1.duplicate());
    reg.users.push(u2.duplicate());
    reg.packages.push(package(10, "foo", &u1));
    let grants: Vec<i32> = Vec::new();

    let err = reg.check_publish(2, "foo/bar", &grants).unwrap_err();
    let detail = err.detail();
    assert!(detail.contains("this crate doesn't exist, but it belongs to a namespace which exists"));
}

#[test]
fn owner_of_namespace_also_owns_subcrates() {
    let mut reg = Registry::new();
    let u1 = user(1, "user1");
    let u2 = user(2, "user2");
    reg.users.push(u1.duplicate());
    reg.users.push(u2.duplicate());
    reg.packages.push(package(10, "foo", &u1));
    let grants: Vec<i32> = Vec::new();

    add_and_accept(&mut reg, 1, 0, "user2");
    reg.packages.push(package(11, "foo/bar", &u1));

    // user2 owns the namespace, hence may publish the subcrate too
    assert!(reg.check_publish(2, "foo", &grants).is_ok());
    assert!(reg.check_publish(2, "foo/bar", &grants).is_ok());
    assert!(!reg.packages[1].owners.is_user_owner(2));
}

#[test]
fn owners_can_remove_self() {
    let mut reg = Registry::new();
    let u1 = user(1, "firstowner");
    let u2 = user(2, "secondowner");
    reg.users.push(u1.duplicate());
    reg.users.push(u2.duplicate());
    reg.packages.push(package(10, "owners_selfremove", &u1));
    let grants: Vec<i32> = Vec::new();

    // deleting yourself when you are the only owner is not allowed
    let names = vec!["firstowner".to_string()];
    let err = reg.remove_named_owners(1, 0, &names, &grants).unwrap_err();
    assert!(err.detail().contains("cannot remove all individual owners of a crate"));

    add_and_accept(&mut reg, 1, 0, "secondowner");

    // deleting yourself when there are other owners is allowed
    reg.remove_named_owners(1, 0, &names, &grants).unwrap();
    assert!(!reg.packages[0].owners.is_user_owner(1));

    // after removing yourself you may no longer manage owners
    let err = reg.remove_named_owners(1, 0, &names, &grants).unwrap_err();
    assert!(err.detail().contains("only owners have permission to modify owners"));
}

#[test]
fn modify_multiple_owners() {
    let mut reg = Registry::new();
    let u1 = user(1, "firstowner");
    let u2 = user(2, "user2");
    let u3 = user(3, "user3");
    reg.users.push(u1.duplicate());
    reg.users.push(u2.duplicate());
    reg.users.push(u3.duplicate());
    reg.packages.push(package(10, "owners_multiple", &u1));
    let grants: Vec<i32> = Vec::new();

    add_and_accept(&mut reg, 1, 0, "user2");
    add_and_accept(&mut reg, 1, 0, "user3");
    assert_eq!(reg.packages[0].owners.count_individual_owners(), 3);

    // deleting all owners is not allowed
    let names = vec!["firstowner".to_string(), "user2".to_string(), "user3".to_string()];
    let err = reg.remove_named_owners(1, 0, &names, &grants).unwrap_err();
    assert!(err.detail().contains("cannot remove all individual owners of a crate"));
    assert_eq!(reg.packages[0].owners.count_individual_owners(), 3);

    // deleting two owners at once is allowed
    let names = vec!["user2".to_string(), "user3".to_string()];
    reg.remove_named_owners(1, 0, &names, &grants).unwrap();
    assert_eq!(reg.packages[0].owners.count_individual_owners(), 1);

    // adding several users fails wholesale when one is already an owner
    let names = vec!["user2".to_string(), "firstowner".to_string()];
    let err = reg.add_named_owners(1, 0, &names, &grants, t0()).unwrap_err();
    assert!(err.detail().contains("is already an owner"));
    assert_eq!(reg.packages[0].owners.count_individual_owners(), 1);
    assert_eq!(reg.invitations.len(), 0);

    // adding several users at once succeeds
    let names = vec!["user2".to_string(), "user3".to_string()];
    reg.add_named_owners(1, 0, &names, &grants, t0()).unwrap();
    reg.accept_invitation(2, 10).unwrap();
    reg.accept_invitation(3, 10).unwrap();
    assert_eq!(reg.packages[0].owners.count_individual_owners(), 3);
}

#[test]
fn check_ownership_two_crates() {
    let mut reg = Registry::new();
    let u1 = user(1, "user_foo");
    let u2 = user(2, "user_bar");
    reg.users.push(u1.duplicate());
    reg.users.push(u2.duplicate());
    let mut krate = package(10, "foo", &u1);
    krate.owners.add_team(Team { id: 50, name: "team_foo".to_string() }).unwrap();
    reg.packages.push(krate);
    reg.packages.push(package(11, "bar", &u2));

    // user2 owns only `bar`; the team owns only `foo`
    assert!(reg.packages[1].owners.is_user_owner(2));
    assert!(!reg.packages[0].owners.is_user_owner(2));
    assert_eq!(reg.packages[0].owners.team_views().len(), 1);
    assert_eq!(reg.packages[1].owners.team_views().len(), 0);
}

#[test]
fn check_ownership_one_crate() {
    let mut reg = Registry::new();
    let u1 = user(1, "user_sloth");
    reg.users.push(u1.duplicate());
    let mut krate = package(10, "best_crate", &u1);
    krate.owners.add_team(Team { id: 50, name: "github:test_org:team_sloth".to_string() }).unwrap();
    reg.packages.push(krate);

    let teams = reg.packages[0].owners.team_views();
    assert_eq!(teams[0].kind, "team");
    assert_eq!(teams[0].name, "github:test_org:team_sloth");

    let users = reg.packages[0].owners.user_views();
    assert_eq!(users[0].kind, "user");
    assert_eq!(users[0].name, "user_sloth");
}

#[test]
fn deleted_ownership_isnt_in_owner_user() {
    // the administrative deletion path bypasses the floor; the view of
    // an ownerless package is simply empty
    let owners = OwnerSet::new();
    assert_eq!(owners.user_views().len(), 0);
}

#[test]
fn invitations_are_empty_by_default() {
    let mut reg = Registry::new();
    reg.users.push(user(1, "user_foo"));
    let invitations = reg.invitations_for(1);
    assert_eq!(invitations.len(), 0);
}

#[test]
fn invitations_list() {
    let mut reg = Registry::new();
    let owner = user(1, "the_owner");
    let invited = user(2, "invited_user");
    reg.users.push(owner.duplicate());
    reg.users.push(invited.duplicate());
    reg.packages.push(package(10, "invited_crate", &owner));
    let grants: Vec<i32> = Vec::new();

    let logins = vec!["invited_user".to_string()];
    reg.add_named_owners(1, 0, &logins, &grants, t0()).unwrap();

    let invitations = reg.invitations_for(2);
    assert_eq!(invitations.len(), 1);
    assert_eq!(invitations[0].invited_by_username, "the_owner");
    assert_eq!(invitations[0].crate_name, "invited_crate");
    assert_eq!(invitations[0].crate_id, 10);
}

#[test]
fn test_accept_invitation() {
    let mut reg = Registry::new();
    let owner = user(1, "the_owner");
    let invited = user(2, "user_bar");
    reg.users.push(owner.duplicate());
    reg.users.push(invited.duplicate());
    reg.packages.push(package(10, "accept_invitation", &owner));
    let grants: Vec<i32> = Vec::new();

    let logins = vec!["user_bar".to_string()];
    reg.add_named_owners(1, 0, &logins, &grants, t0()).unwrap();
    reg.accept_invitation(2, 10).unwrap();

    // the invitation list is now empty, and the crate has two owners
    assert_eq!(reg.invitations_for(2).len(), 0);
    assert_eq!(reg.packages[0].owners.count_individual_owners(), 2);
    assert!(reg.packages[0].owners.is_user_owner(2));
}

#[test]
fn test_decline_invitation() {
    let mut reg = Registry::new();
    let owner = user(1, "the_owner");
    let invited = user(2, "user_bar");
    reg.users.push(owner.duplicate());
    reg.users.push(invited.duplicate());
    reg.packages.push(package(10, "decline_invitation", &owner));
    let grants: Vec<i32> = Vec::new();

    let logins = vec!["user_bar".to_string()];
    reg.add_named_owners(1, 0, &logins, &grants, t0()).unwrap();
    reg.decline_invitation(2, 10).unwrap();

    // the invitation is gone and no ownership was granted
    assert_eq!(reg.invitations_for(2).len(), 0);
    assert_eq!(reg.packages[0].owners.count_individual_owners(), 1);
    assert!(!reg.packages[0].owners.is_user_owner(2));
}

#[test]
fn inactive_users_dont_get_invitations() {
    let mut reg = Registry::new();
    let owner = user(1, "the_owner");
    reg.users.push(owner.duplicate());
    // an inactive placeholder and the active account share the login
    reg.users.push(User { id: 2, gh_id: -1, gh_login: "user_bar".to_string() });
    reg.users.push(User { id: 3, gh_id: 500, gh_login: "user_bar".to_string() });
    reg.packages.push(package(10, "inactive_test", &owner));
    let grants: Vec<i32> = Vec::new();

    let logins = vec!["user_bar".to_string()];
    reg.add_named_owners(1, 0, &logins, &grants, t0()).unwrap();

    assert_eq!(reg.invitations_for(3).len(), 1);
    assert_eq!(reg.invitations_for(2).len(), 0);
}

#[test]
fn highest_gh_id_is_most_recent_account_we_know_of() {
    let mut reg = Registry::new();
    let owner = user(1, "the_owner");
    reg.users.push(owner.duplicate());
    reg.users.push(User { id: 2, gh_id: 100, gh_login: "user_bar".to_string() });
    reg.users.push(User { id: 3, gh_id: 200, gh_login: "user_bar".to_string() });
    reg.packages.push(package(10, "newer_user_test", &owner));
    let grants: Vec<i32> = Vec::new();

    let logins = vec!["user_bar".to_string()];
    reg.add_named_owners(1, 0, &logins, &grants, t0()).unwrap();

    // the account with the higher external identifier is the one invited
    assert_eq!(reg.invitations_for(3).len(), 1);
    assert_eq!(reg.invitations_for(2).len(), 0);
}

#[test]
fn accepting_or_declining_without_invitation_fails() {
    let mut reg = Registry::new();
    let owner = user(1, "the_owner");
    let other = user(2, "other");
    reg.users.push(owner.duplicate());
    reg.users.push(other.duplicate());
    reg.packages.push(package(10, "no_invite", &owner));

    let err = reg.accept_invitation(2, 10).unwrap_err();
    assert!(matches!(err, CargoError::InvitationNotFound));
    let err = reg.decline_invitation(2, 10).unwrap_err();
    assert!(matches!(err, CargoError::InvitationNotFound));
    assert!(!reg.packages[0].owners.is_user_owner(2));
}

#[test]
fn adding_an_unknown_login_fails_wholesale() {
    let mut reg = Registry::new();
    let owner = user(1, "the_owner");
    let known = user(2, "known");
    reg.users.push(owner.duplicate());
    reg.users.push(known.duplicate());
    reg.packages.push(package(10, "strict_adds", &owner));
    let grants: Vec<i32> = Vec::new();

    let logins = vec!["known".to_string(), "nobody".to_string()];
    let err = reg.add_named_owners(1, 0, &logins, &grants, t0()).unwrap_err();
    assert_eq!(err.detail(), "could not find user with login `nobody`");
    assert_eq!(reg.invitations.len(), 0);
}

#[test]
fn duplicate_invitation_create_is_a_no_op() {
    let mut reg = Registry::new();
    let owner = user(1, "the_owner");
    let invited = user(2, "user_bar");
    reg.users.push(owner.duplicate());
    reg.users.push(invited.duplicate());
    reg.packages.push(package(10, "twice_invited", &owner));
    let grants: Vec<i32> = Vec::new();

    let logins = vec!["user_bar".to_string()];
    reg.add_named_owners(1, 0, &logins, &grants, t0()).unwrap();
    reg.add_named_owners(1, 0, &logins, &grants, t0()).unwrap();
    assert_eq!(reg.invitations.len(), 1);
}
