//! The registry state and its authorized mutations: owner-list edits
//! through the invitation ledger, namespace-aware publish
//! authorization, version insertion, yank/unyank planning and
//! per-toolchain build-status recording.
//!
//! The datastore owns this state; every operation here reads it,
//! decides, and writes the new state, so the registry value stands for
//! one transactional snapshot.
use crate::build_info::VersionBuildInfo;
use crate::build_info;
use crate::datetime::encode_time;
use crate::datetime::time_repr;
use crate::datetime::DateTime;
use crate::errors::CargoError;
use crate::owners::users_have_id;
use crate::owners::users_have_login;
use crate::owners::OwnerSet;
use crate::owners::User;
use crate::rights::has_publish;
use crate::rights;
use crate::rights::Rights;
use crate::semver_num::SemVer;
use crate::semver_num;
use crate::strutil;
use crate::version::Version;
use vstd::prelude::*;
use vstd::string::StrSliceExecFns;
use vstd::string::StringExecFns;

verus! {

/// A pending offer of individual ownership, keyed by (package, invited
/// user).
#[derive(Clone, Copy, Debug)]
pub struct Invitation {
    pub crate_id: i32,
    pub invited_user_id: i32,
    pub invited_by: i32,
    pub created_at: DateTime,
}

/// A named, versioned publishable unit with its owner set.
#[derive(Debug)]
pub struct Package {
    pub id: i32,
    pub name: String,
    pub created_at: DateTime,
    pub owners: OwnerSet,
    pub versions: Vec<Version>,
}

/// One registry snapshot: the account directory, the packages and the
/// pending ownership invitations.
#[derive(Debug)]
pub struct Registry {
    pub users: Vec<User>,
    pub packages: Vec<Package>,
    pub invitations: Vec<Invitation>,
}

/// The public view of one pending invitation.
#[derive(Debug)]
pub struct EncodableCrateOwnerInvitation {
    pub invited_by_username: String,
    pub crate_name: String,
    pub crate_id: i32,
    pub created_at: String,
}

/// Some package carries this name.
pub open spec fn pkgs_have_name(pkgs: Seq<Package>, name: Seq<char>) -> bool {
    exists|i: int| 0 <= i < pkgs.len() && (#[trigger] pkgs[i]).name@ == name
}

/// Some package carries this identity.
pub open spec fn pkgs_have_id(pkgs: Seq<Package>, id: i32) -> bool {
    exists|i: int| 0 <= i < pkgs.len() && (#[trigger] pkgs[i]).id == id
}

/// A pending invitation for (package, user) exists.
pub open spec fn inv_pending(invs: Seq<Invitation>, crate_id: i32, uid: i32) -> bool {
    exists|i: int|
        0 <= i < invs.len() && (#[trigger] invs[i]).crate_id == crate_id
            && invs[i].invited_user_id == uid
}

/// `owner_name` covers `name`: the same package, or an ancestor
/// namespace (a proper prefix ending at a `/` boundary).
pub open spec fn name_covers(owner_name: Seq<char>, name: Seq<char>) -> bool {
    owner_name == name || (owner_name.len() < name.len() && name.take(owner_name.len() as int)
        == owner_name && name[owner_name.len() as int] == '/')
}

/// Some existing package is a proper ancestor namespace of `name`.
pub open spec fn namespace_exists(pkgs: Seq<Package>, name: Seq<char>) -> bool {
    exists|i: int|
        0 <= i < pkgs.len() && name_covers((#[trigger] pkgs[i]).name@, name) && (
        #[trigger] pkgs[i]).name@ != name
}

/// The actor holds Publish rights on `name` or on an ancestor
/// namespace of it.
pub open spec fn ns_publish(
    pkgs: Seq<Package>,
    actor: i32,
    name: Seq<char>,
    grants: Seq<i32>,
) -> bool {
    exists|i: int|
        0 <= i < pkgs.len() && name_covers((#[trigger] pkgs[i]).name@, name) && has_publish(
            actor,
            pkgs[i].owners,
            grants,
        )
}

impl Registry {
    /// Names and identities unique, every package's owner set
    /// well-formed with at least one individual owner, pending
    /// invitations unique per (package, user) and referring to existing
    /// packages and accounts, timestamps plausible.
    pub open spec fn wf(self) -> bool {
        &&& forall|i: int, j: int|
            0 <= i < j < self.packages@.len() ==> (#[trigger] self.packages@[i]).name@ != (
            #[trigger] self.packages@[j]).name@
        &&& forall|i: int, j: int|
            0 <= i < j < self.packages@.len() ==> (#[trigger] self.packages@[i]).id != (
            #[trigger] self.packages@[j]).id
        &&& forall|i: int| 0 <= i < self.packages@.len() ==> (#[trigger] self.packages@[i]).owners.wf()
        &&& forall|i: int|
            0 <= i < self.packages@.len() ==> (#[trigger] self.packages@[i]).owners.users@.len() >= 1
        &&& forall|i: int, j: int|
            0 <= i < j < self.invitations@.len() ==> !((#[trigger] self.invitations@[i]).crate_id
                == (#[trigger] self.invitations@[j]).crate_id && self.invitations@[i].invited_user_id
                == self.invitations@[j].invited_user_id)
        &&& forall|i: int|
            0 <= i < self.invitations@.len() ==> pkgs_have_id(
                self.packages@,
                (#[trigger] self.invitations@[i]).crate_id,
            )
        &&& forall|i: int|
            0 <= i < self.invitations@.len() ==> users_have_id(
                self.users@,
                (#[trigger] self.invitations@[i]).invited_user_id,
            )
        &&& forall|i: int|
            0 <= i < self.invitations@.len() ==> (#[trigger] self.invitations@[i]).created_at.wf()
        &&& forall|i: int, j: int|
            0 <= i < j < self.users@.len() ==> (#[trigger] self.users@[i]).id != (
            #[trigger] self.users@[j]).id
        &&& forall|i: int, j: int|
            0 <= i < j < self.users@.len() ==> !((#[trigger] self.users@[i]).gh_login@ == (
            #[trigger] self.users@[j]).gh_login@ && self.users@[i].gh_id == self.users@[j].gh_id)
        &&& forall|i: int, v: int|
            0 <= i < self.packages@.len() && 0 <= v < (#[trigger] self.packages@[i]).versions@.len()
                ==> (#[trigger] self.packages@[i].versions@[v]).wf()
    }

    /// An empty registry.
    pub fn new() -> (r: Registry)
        ensures
            r.wf(),
            r.users@.len() == 0,
            r.packages@.len() == 0,
            r.invitations@.len() == 0,
    {
        Registry { users: Vec::new(), packages: Vec::new(), invitations: Vec::new() }
    }

    /// Index of the package named `name`.
    pub fn find_package(&self, name: &str) -> (r: Option<usize>)
        ensures
            r is None ==> !pkgs_have_name(self.packages@, name@),
            r matches Some(i) ==> 0 <= i < self.packages@.len() && self.packages@[i as int].name@
                == name@,
    {
        let mut i: usize = 0;
        while i < self.packages.len()
            invariant
                0 <= i <= self.packages@.len(),
                forall|j: int| 0 <= j < i ==> (#[trigger] self.packages@[j]).name@ != name@,
            decreases self.packages@.len() - i,
        {
            if strutil::str_eq(self.packages[i].name.as_str(), name) {
                return Some(i);
            }
            i = i + 1;
        }
        None
    }

    /// Index of the package whose canonical name matches the query's
    /// canonical form, so `foo-download` finds `foo_download`.
    pub fn find_package_canonical(&self, name: &str) -> (r: Option<usize>)
        ensures
            r is None ==> forall|j: int|
                0 <= j < self.packages@.len() ==> crate::krate::canon_repr(
                    (#[trigger] self.packages@[j]).name@,
                ) != crate::krate::canon_repr(name@),
            r matches Some(i) ==> 0 <= i < self.packages@.len() && crate::krate::canon_repr(
                self.packages@[i as int].name@,
            ) == crate::krate::canon_repr(name@),
    {
        let canon = crate::krate::canon_crate_name(name);
        let mut i: usize = 0;
        while i < self.packages.len()
            invariant
                0 <= i <= self.packages@.len(),
                canon@ == crate::krate::canon_repr(name@),
                forall|j: int|
                    0 <= j < i ==> crate::krate::canon_repr(
                        (#[trigger] self.packages@[j]).name@,
                    ) != crate::krate::canon_repr(name@),
            decreases self.packages@.len() - i,
        {
            let pc = crate::krate::canon_crate_name(self.packages[i].name.as_str());
            if strutil::str_eq(pc.as_str(), canon.as_str()) {
                return Some(i);
            }
            i = i + 1;
        }
        None
    }

    /// Index of the package with identity `id`.
    pub fn find_package_by_id(&self, id: i32) -> (r: Option<usize>)
        ensures
            r is None ==> !pkgs_have_id(self.packages@, id),
            r matches Some(i) ==> 0 <= i < self.packages@.len() && self.packages@[i as int].id
                == id,
    {
        let mut i: usize = 0;
        while i < self.packages.len()
            invariant
                0 <= i <= self.packages@.len(),
                forall|j: int| 0 <= j < i ==> (#[trigger] self.packages@[j]).id != id,
            decreases self.packages@.len() - i,
        {
            if self.packages[i].id == id {
                return Some(i);
            }
            i = i + 1;
        }
        None
    }

    /// Index of the account row with identity `uid`.
    pub fn find_user_by_id(&self, uid: i32) -> (r: Option<usize>)
        ensures
            r is None ==> !users_have_id(self.users@, uid),
            r matches Some(i) ==> 0 <= i < self.users@.len() && self.users@[i as int].id == uid,
    {
        let mut i: usize = 0;
        while i < self.users.len()
            invariant
                0 <= i <= self.users@.len(),
                forall|j: int| 0 <= j < i ==> (#[trigger] self.users@[j]).id != uid,
            decreases self.users@.len() - i,
        {
            if self.users[i].id == uid {
                return Some(i);
            }
            i = i + 1;
        }
        None
    }

    /// Resolve a login to the account most recently known: among all
    /// rows carrying the login, the one with the numerically highest
    /// external identifier.
    pub fn lookup_user(&self, login: &str) -> (r: Option<usize>)
        ensures
            r is None <==> !users_have_login(self.users@, login@),
            r matches Some(i) ==> 0 <= i < self.users@.len() && self.users@[i as int].gh_login@
                == login@ && (forall|j: int|
                0 <= j < self.users@.len() && (#[trigger] self.users@[j]).gh_login@ == login@
                    ==> self.users@[j].gh_id <= self.users@[i as int].gh_id) && highest_match(
                self.users@,
                login@,
                self.users@[i as int].id,
            ),
    {
        let mut best: Option<usize> = None;
        let mut i: usize = 0;
        while i < self.users.len()
            invariant
                0 <= i <= self.users@.len(),
                best is None ==> forall|j: int|
                    0 <= j < i ==> (#[trigger] self.users@[j]).gh_login@ != login@,
                best matches Some(b) ==> 0 <= b < i && self.users@[b as int].gh_login@ == login@
                    && (forall|j: int|
                    0 <= j < i && (#[trigger] self.users@[j]).gh_login@ == login@
                        ==> self.users@[j].gh_id <= self.users@[b as int].gh_id),
            decreases self.users@.len() - i,
        {
            if strutil::str_eq(self.users[i].gh_login.as_str(), login) {
                match best {
                    None => {
                        best = Some(i);
                    },
                    Some(b) => {
                        if self.users[b].gh_id < self.users[i].gh_id {
                            best = Some(i);
                        }
                    },
                }
            }
            i = i + 1;
        }
        best
    }

    /// The actor's right level over `name`, namespace rights included:
    /// Publish when the actor holds it on the package itself or on any
    /// ancestor namespace package.
    pub fn rights_with_namespace(&self, actor: i32, name: &str, grants: &Vec<i32>) -> (r: Rights)
        ensures
            r is Publish <==> ns_publish(self.packages@, actor, name@, grants@),
    {
        let nlen = name.unicode_len();
        let mut i: usize = 0;
        while i < self.packages.len()
            invariant
                0 <= i <= self.packages@.len(),
                nlen == name@.len(),
                forall|j: int|
                    0 <= j < i ==> !(name_covers((#[trigger] self.packages@[j]).name@, name@)
                        && has_publish(actor, self.packages@[j].owners, grants@)),
            decreases self.packages@.len() - i,
        {
            let pname = self.packages[i].name.as_str();
            let plen = pname.unicode_len();
            let covers = if strutil::str_eq(pname, name) {
                true
            } else if strutil::starts_with(name, pname) && plen < nlen {
                name.get_char(plen) == '/'
            } else {
                false
            };
            proof {
                assert(covers == name_covers(self.packages@[i as int].name@, name@));
            }
            if covers {
                let r = rights::rights(actor, &self.packages[i].owners, grants);
                if r.can_publish() {
                    return Rights::Publish;
                }
            }
            i = i + 1;
        }
        Rights::NoAccess
    }

    /// Whether some existing package is a proper ancestor namespace of
    /// `name`.
    pub fn has_namespace(&self, name: &str) -> (r: bool)
        ensures
            r == namespace_exists(self.packages@, name@),
    {
        let nlen = name.unicode_len();
        let mut i: usize = 0;
        while i < self.packages.len()
            invariant
                0 <= i <= self.packages@.len(),
                nlen == name@.len(),
                forall|j: int|
                    0 <= j < i ==> !(name_covers((#[trigger] self.packages@[j]).name@, name@) && (
                    #[trigger] self.packages@[j]).name@ != name@),
            decreases self.packages@.len() - i,
        {
            let pname = self.packages[i].name.as_str();
            let plen = pname.unicode_len();
            if strutil::starts_with(name, pname) && plen < nlen {
                if name.get_char(plen) == '/' {
                    proof {
                        assert(name_covers(self.packages@[i as int].name@, name@));
                        assert(self.packages@[i as int].name@ != name@);
                    }
                    return true;
                }
            }
            i = i + 1;
        }
        false
    }

    /// Decide whether the actor may publish under `name`. An existing
    /// package requires Publish rights on it or an ancestor namespace;
    /// a new name under an existing namespace requires rights on that
    /// namespace, reported distinctly when absent; any other new name
    /// is free.
    pub fn check_publish(&self, actor: i32, name: &str, grants: &Vec<i32>) -> (r: Result<
        (),
        CargoError,
    >)
        ensures
            pkgs_have_name(self.packages@, name@) ==> (r is Ok <==> ns_publish(
                self.packages@,
                actor,
                name@,
                grants@,
            )),
            pkgs_have_name(self.packages@, name@) && !ns_publish(
                self.packages@,
                actor,
                name@,
                grants@,
            ) ==> (r matches Err(e) && e matches CargoError::InsufficientRights(m) && m@
                == "crate name has already been claimed by another user"@),
            !pkgs_have_name(self.packages@, name@) && ns_publish(
                self.packages@,
                actor,
                name@,
                grants@,
            ) ==> r is Ok,
            !pkgs_have_name(self.packages@, name@) && !ns_publish(
                self.packages@,
                actor,
                name@,
                grants@,
            ) && namespace_exists(self.packages@, name@) ==> (r matches Err(
                CargoError::NamespaceExistsChildMissing,
            )),
            !pkgs_have_name(self.packages@, name@) && !ns_publish(
                self.packages@,
                actor,
                name@,
                grants@,
            ) && !namespace_exists(self.packages@, name@) ==> r is Ok,
    {
        let exists_here = match self.find_package(name) {
            Some(_) => true,
            None => false,
        };
        proof {
            if !(exists_here) {
            } else {
                assert(pkgs_have_name(self.packages@, name@));
            }
        }
        let r = self.rights_with_namespace(actor, name, grants);
        if r.can_publish() {
            return Ok(());
        }
        if exists_here {
            return Err(
                CargoError::InsufficientRights(
                    "crate name has already been claimed by another user".to_owned(),
                ),
            );
        }
        if self.has_namespace(name) {
            return Err(CargoError::NamespaceExistsChildMissing);
        }
        Ok(())
    }
}

/// The login resolves to the account `uid`: some row carries the login
/// with identity `uid`, and no row with the login has a higher external
/// identifier.
pub open spec fn highest_match(users: Seq<User>, login: Seq<char>, uid: i32) -> bool {
    exists|ui: int|
        {
            &&& 0 <= ui < users.len()
            &&& (#[trigger] users[ui]).gh_login@ == login
            &&& users[ui].id == uid
            &&& forall|uj: int|
                0 <= uj < users.len() && (#[trigger] users[uj]).gh_login@ == login
                    ==> users[uj].gh_id <= users[ui].gh_id
        }
}

/// The account that a login resolves to (highest external identifier)
/// is already an individual owner.
pub open spec fn resolved_owner(users: Seq<User>, owners: OwnerSet, login: Seq<char>) -> bool {
    exists|ui: int|
        {
            &&& 0 <= ui < users.len()
            &&& (#[trigger] users[ui]).gh_login@ == login
            &&& users_have_id(owners.users@, users[ui].id)
            &&& forall|uj: int|
                0 <= uj < users.len() && (#[trigger] users[uj]).gh_login@ == login
                    ==> users[uj].gh_id <= users[ui].gh_id
        }
}

/// Some account with this login has a pending invitation for the
/// package.
pub open spec fn pending_for_login(
    users: Seq<User>,
    invs: Seq<Invitation>,
    crate_id: i32,
    login: Seq<char>,
) -> bool {
    exists|uid: i32|
        #[trigger] inv_pending(invs, crate_id, uid) && highest_match(users, login, uid)
}

impl Registry {
    /// Whether a pending invitation exists for (package, user).
    pub fn pending_exists(&self, crate_id: i32, uid: i32) -> (r: bool)
        ensures
            r == inv_pending(self.invitations@, crate_id, uid),
    {
        let mut i: usize = 0;
        while i < self.invitations.len()
            invariant
                0 <= i <= self.invitations@.len(),
                forall|j: int|
                    0 <= j < i ==> !((#[trigger] self.invitations@[j]).crate_id == crate_id
                        && self.invitations@[j].invited_user_id == uid),
            decreases self.invitations@.len() - i,
        {
            if self.invitations[i].crate_id == crate_id && self.invitations[i].invited_user_id
                == uid {
                return true;
            }
            i = i + 1;
        }
        false
    }

    /// Add named individual owners through the invitation ledger: the
    /// actor must hold Publish rights on the package; every login must
    /// resolve to a known account none of which is already an owner,
    /// else the whole request fails with no change; each resolved
    /// account then receives a pending invitation, existing pending
    /// invitations counting as already sent. Owner rows themselves
    /// never change here.
    pub fn add_named_owners(
        &mut self,
        actor: i32,
        pkg_i: usize,
        logins: &Vec<String>,
        grants: &Vec<i32>,
        now: DateTime,
    ) -> (r: Result<(), CargoError>)
        requires
            old(self).wf(),
            pkg_i < old(self).packages@.len(),
            now.wf(),
        ensures
            final(self).wf(),
            final(self).packages@ == old(self).packages@,
            final(self).users@ == old(self).users@,
            r is Err ==> final(self).invitations@ == old(self).invitations@,
            !has_publish(actor, old(self).packages@[pkg_i as int].owners, grants@) ==> (r matches
                Err(e) && e matches CargoError::InsufficientRights(m) && m@
                == "only owners have permission to modify owners"@),
            r is Ok ==> has_publish(actor, old(self).packages@[pkg_i as int].owners, grants@) && (
            forall|k: int|
                0 <= k < logins@.len() ==> users_have_login(
                    old(self).users@,
                    (#[trigger] logins@[k])@,
                ) && !resolved_owner(
                    old(self).users@,
                    old(self).packages@[pkg_i as int].owners,
                    logins@[k]@,
                )),
            has_publish(actor, old(self).packages@[pkg_i as int].owners, grants@) && (forall|
                k: int,
            |
                0 <= k < logins@.len() ==> users_have_login(
                    old(self).users@,
                    (#[trigger] logins@[k])@,
                ) && !resolved_owner(
                    old(self).users@,
                    old(self).packages@[pkg_i as int].owners,
                    logins@[k]@,
                )) ==> r is Ok,
            r matches Err(CargoError::UnknownUser(l)) ==> !users_have_login(old(self).users@, l@),
            r matches Err(CargoError::AlreadyOwner(l)) ==> resolved_owner(
                old(self).users@,
                old(self).packages@[pkg_i as int].owners,
                l@,
            ),
            r is Ok ==> old(self).invitations@.len() <= final(self).invitations@.len() && (forall|
                oi: int,
            |
                0 <= oi < old(self).invitations@.len() ==> final(self).invitations@[oi]
                    == #[trigger] old(self).invitations@[oi]) && (forall|fi: int|
                old(self).invitations@.len() <= fi < final(self).invitations@.len() ==> (
                #[trigger] final(self).invitations@[fi]).crate_id == old(self).packages@[pkg_i as int].id && final(self).invitations@[fi].invited_by == actor
                    && final(self).invitations@[fi].created_at == now) && (forall|k: int|
                0 <= k < logins@.len() ==> pending_for_login(
                    old(self).users@,
                    final(self).invitations@,
                    old(self).packages@[pkg_i as int].id,
                    (#[trigger] logins@[k])@,
                )),
    {
        let gate = rights::rights(actor, &self.packages[pkg_i].owners, grants);
        if !gate.can_publish() {
            return Err(
                CargoError::InsufficientRights(
                    "only owners have permission to modify owners".to_owned(),
                ),
            );
        }
        let cid = self.packages[pkg_i].id;
        let mut uids: Vec<i32> = Vec::new();
        let mut k: usize = 0;
        while k < logins.len()
            invariant
                0 <= k <= logins@.len(),
                *self == *old(self),
                old(self).wf(),
                has_publish(actor, old(self).packages@[pkg_i as int].owners, grants@),
                pkg_i < self.packages@.len(),
                uids@.len() == k,
                forall|j: int|
                    0 <= j < k ==> highest_match(
                        self.users@,
                        (#[trigger] logins@[j])@,
                        uids@[j],
                    ),
                forall|j: int|
                    0 <= j < k ==> users_have_login(self.users@, (#[trigger] logins@[j])@)
                        && !resolved_owner(
                        self.users@,
                        self.packages@[pkg_i as int].owners,
                        logins@[j]@,
                    ),
            decreases logins@.len() - k,
        {
            match self.lookup_user(logins[k].as_str()) {
                None => {
                    return Err(CargoError::UnknownUser(logins[k].clone()));
                },
                Some(ui) => {
                    let uid = self.users[ui].id;
                    if self.packages[pkg_i].owners.is_user_owner(uid) {
                        proof {
                            assert(resolved_owner(
                                self.users@,
                                self.packages@[pkg_i as int].owners,
                                logins@[k as int]@,
                            ));
                        }
                        return Err(CargoError::AlreadyOwner(logins[k].clone()));
                    }
                    proof {
                        assert forall|uj: int|
                            {
                                &&& 0 <= uj < self.users@.len()
                                &&& (#[trigger] self.users@[uj]).gh_login@ == logins@[k as int]@
                                &&& users_have_id(
                                    self.packages@[pkg_i as int].owners.users@,
                                    self.users@[uj].id,
                                )
                                &&& forall|um: int|
                                    0 <= um < self.users@.len() && (
                                    #[trigger] self.users@[um]).gh_login@ == logins@[k as int]@
                                        ==> self.users@[um].gh_id <= self.users@[uj].gh_id
                            } implies false by {
                            assert(self.users@[uj].gh_id <= self.users@[ui as int].gh_id);
                            assert(self.users@[ui as int].gh_id <= self.users@[uj].gh_id);
                            if uj < ui {
                                assert(!((self.users@[uj]).gh_login@ == (
                                self.users@[ui as int]).gh_login@ && self.users@[uj].gh_id
                                    == self.users@[ui as int].gh_id));
                            } else if ui < uj {
                                assert(!((self.users@[ui as int]).gh_login@ == (
                                self.users@[uj]).gh_login@ && self.users@[ui as int].gh_id
                                    == self.users@[uj].gh_id));
                            }
                        }
                        assert(!resolved_owner(
                            self.users@,
                            self.packages@[pkg_i as int].owners,
                            logins@[k as int]@,
                        ));
                    }
                    uids.push(uid);
                },
            }
            k = k + 1;
        }
        let ghost oldinv = self.invitations@;
        let mut k2: usize = 0;
        while k2 < uids.len()
            invariant
                0 <= k2 <= uids@.len(),
                uids@.len() == logins@.len(),
                old(self).wf(),
                has_publish(actor, old(self).packages@[pkg_i as int].owners, grants@),
                self.packages@ == old(self).packages@,
                self.users@ == old(self).users@,
                oldinv == old(self).invitations@,
                pkg_i < self.packages@.len(),
                cid == self.packages@[pkg_i as int].id,
                now.wf(),
                forall|j: int|
                    0 <= j < uids@.len() ==> highest_match(
                        self.users@,
                        (#[trigger] logins@[j])@,
                        uids@[j],
                    ),
                oldinv.len() <= self.invitations@.len(),
                forall|oi: int|
                    0 <= oi < oldinv.len() ==> self.invitations@[oi] == #[trigger] oldinv[oi],
                forall|fi: int|
                    oldinv.len() <= fi < self.invitations@.len() ==> (
                    #[trigger] self.invitations@[fi]).crate_id == cid
                        && self.invitations@[fi].invited_by == actor
                        && self.invitations@[fi].created_at == now,
                forall|j: int| 0 <= j < k2 ==> inv_pending(self.invitations@, cid, uids@[j]),
                self.wf(),
            decreases uids@.len() - k2,
        {
            let ghost previnv = self.invitations@;
            let uid = uids[k2];
            if !self.pending_exists(cid, uid) {
                let inv = Invitation {
                    crate_id: cid,
                    invited_user_id: uid,
                    invited_by: actor,
                    created_at: now,
                };
                proof {
                    assert(pkgs_have_id(self.packages@, cid));
                    assert(highest_match(self.users@, logins@[k2 as int]@, uids@[k2 as int]));
                    let ui = choose|ui: int|
                        {
                            &&& 0 <= ui < self.users@.len()
                            &&& (#[trigger] self.users@[ui]).gh_login@ == logins@[k2 as int]@
                            &&& self.users@[ui].id == uids@[k2 as int]
                            &&& forall|uj: int|
                                0 <= uj < self.users@.len() && (
                                #[trigger] self.users@[uj]).gh_login@ == logins@[k2 as int]@
                                    ==> self.users@[uj].gh_id <= self.users@[ui].gh_id
                        };
                    assert(users_have_id(self.users@, uid));
                }
                self.invitations.push(inv);
                proof {
                    assert(self.invitations@.last() == inv);
                    assert(forall|oi: int|
                        0 <= oi < previnv.len() ==> self.invitations@[oi] == #[trigger] previnv[oi]);
                    assert forall|i: int, j: int|
                        0 <= i < j < self.invitations@.len() implies !((
                    #[trigger] self.invitations@[i]).crate_id == (
                    #[trigger] self.invitations@[j]).crate_id
                        && self.invitations@[i].invited_user_id
                        == self.invitations@[j].invited_user_id) by {
                        if j == self.invitations@.len() - 1 {
                            assert(self.invitations@[i] == previnv[i]);
                            assert(!(previnv[i].crate_id == cid && previnv[i].invited_user_id
                                == uid));
                        } else {
                            assert(self.invitations@[i] == previnv[i]);
                            assert(self.invitations@[j] == previnv[j]);
                        }
                    }
                    assert forall|j: int|
                        0 <= j < k2 + 1 implies inv_pending(
                        self.invitations@,
                        cid,
                        uids@[j],
                    ) by {
                        if j < k2 {
                            assert(inv_pending(previnv, cid, uids@[j]));
                            let q = choose|q: int|
                                0 <= q < previnv.len() && (#[trigger] previnv[q]).crate_id == cid
                                    && previnv[q].invited_user_id == uids@[j];
                            assert(self.invitations@[q] == previnv[q]);
                        } else {
                            assert((self.invitations@.last()).crate_id == cid
                                && self.invitations@.last().invited_user_id == uids@[j]);
                        }
                    }
                }
            }
            k2 = k2 + 1;
        }
        proof {
            assert forall|j: int|
                0 <= j < logins@.len() implies pending_for_login(
                old(self).users@,
                self.invitations@,
                cid,
                (#[trigger] logins@[j])@,
            ) by {
                assert(highest_match(self.users@, logins@[j]@, uids@[j]));
                assert(inv_pending(self.invitations@, cid, uids@[j]));
            }
        }
        Ok(())
    }
}

impl Registry {
    /// Accept a pending invitation: atomically delete the invitation
    /// row and insert the individual ownership row. Accepting without a
    /// pending invitation fails with no change; a membership row that
    /// already exists is kept as is.
    pub fn accept_invitation(&mut self, uid: i32, crate_id: i32) -> (r: Result<(), CargoError>)
        requires
            old(self).wf(),
        ensures
            final(self).wf(),
            final(self).users@ == old(self).users@,
            r is Ok <==> inv_pending(old(self).invitations@, crate_id, uid),
            r is Err ==> final(self).invitations@ == old(self).invitations@ && final(self).packages@ == old(self).packages@ && (r matches Err(
                CargoError::InvitationNotFound,
            )),
            r is Ok ==> !inv_pending(final(self).invitations@, crate_id, uid),
            r is Ok ==> final(self).invitations@.len() == old(self).invitations@.len() - 1 && (
            exists|q: int|
                {
                    &&& 0 <= q < old(self).invitations@.len()
                    &&& (#[trigger] old(self).invitations@[q]).crate_id == crate_id
                    &&& old(self).invitations@[q].invited_user_id == uid
                    &&& forall|j: int|
                        0 <= j < q ==> final(self).invitations@[j] == #[trigger] old(self).invitations@[j]
                    &&& forall|j: int|
                        q < j < old(self).invitations@.len() ==> final(self).invitations@[j - 1]
                            == #[trigger] old(self).invitations@[j]
                }),
            r is Ok ==> final(self).packages@.len() == old(self).packages@.len() && (exists|
                pi: int,
            |
                {
                    &&& 0 <= pi < old(self).packages@.len()
                    &&& (#[trigger] old(self).packages@[pi]).id == crate_id
                    &&& users_have_id(final(self).packages@[pi].owners.users@, uid)
                    &&& final(self).packages@[pi].name@ == old(self).packages@[pi].name@
                    &&& final(self).packages@[pi].id == old(self).packages@[pi].id
                    &&& forall|j: int|
                        0 <= j < old(self).packages@.len() && j != pi ==> final(self).packages@[j] == #[trigger] old(self).packages@[j]
                }),
    {
        let mut q: usize = 0;
        let n = self.invitations.len();
        while q < n
            invariant
                0 <= q <= n,
                n == self.invitations@.len(),
                *self == *old(self),
                old(self).wf(),
                forall|j: int|
                    0 <= j < q ==> !((#[trigger] self.invitations@[j]).crate_id == crate_id
                        && self.invitations@[j].invited_user_id == uid),
            decreases n - q,
        {
            if self.invitations[q].crate_id == crate_id && self.invitations[q].invited_user_id
                == uid {
                let pi = match self.find_package_by_id(crate_id) {
                    Some(pi) => pi,
                    None => {
                        proof {
                            assert(pkgs_have_id(self.packages@, crate_id));
                            assert(false);
                        }
                        0
                    },
                };
                let u_idx = match self.find_user_by_id(uid) {
                    Some(u) => u,
                    None => {
                        proof {
                            assert(users_have_id(self.users@, uid));
                            assert(false);
                        }
                        0
                    },
                };
                let user = self.users[u_idx].duplicate();
                proof {
                    assert(user.id == uid);
                }
                let mut pkg = self.packages.remove(pi);
                let ghost oldpkgs = old(self).packages@;
                match pkg.owners.add_user(user) {
                    Ok(()) => {},
                    Err(_) => {},
                }
                proof {
                    assert(users_have_id(pkg.owners.users@, uid));
                }
                self.packages.insert(pi, pkg);
                proof {
                    assert(self.packages@ =~= oldpkgs.update(pi as int, self.packages@[pi as int]));
                    assert(forall|j: int|
                        0 <= j < oldpkgs.len() && j != pi ==> self.packages@[j]
                            == #[trigger] oldpkgs[j]);
                    assert(self.packages@[pi as int].name@ == oldpkgs[pi as int].name@);
                    assert(self.packages@[pi as int].id == oldpkgs[pi as int].id);
                    assert(self.packages@[pi as int].versions@ == oldpkgs[pi as int].versions@);
                }
                let ghost previnv = self.invitations@;
                self.invitations.remove(q);
                proof {
                    assert(forall|j: int|
                        0 <= j < q ==> self.invitations@[j] == #[trigger] previnv[j]);
                    assert(forall|j: int|
                        q < j < previnv.len() ==> self.invitations@[j - 1]
                            == #[trigger] previnv[j]);
                    assert forall|j: int|
                        0 <= j < self.invitations@.len() implies !((
                    #[trigger] self.invitations@[j]).crate_id == crate_id
                        && self.invitations@[j].invited_user_id == uid) by {
                        let jj = if j < q {
                            j
                        } else {
                            j + 1
                        };
                        assert(self.invitations@[j] == previnv[jj]);
                        if jj < q {
                        } else {
                            assert(!(previnv[jj].crate_id == crate_id
                                && previnv[jj].invited_user_id == uid));
                        }
                    }
                    lemma_registry_wf_after_accept(*old(self), *self, pi as int, q as int, uid);
                }
                return Ok(());
            }
            q = q + 1;
        }
        Err(CargoError::InvitationNotFound)
    }

    /// Decline a pending invitation: delete the invitation row, no
    /// membership change. Declining without a pending invitation fails
    /// with no change.
    pub fn decline_invitation(&mut self, uid: i32, crate_id: i32) -> (r: Result<(), CargoError>)
        requires
            old(self).wf(),
        ensures
            final(self).wf(),
            final(self).users@ == old(self).users@,
            final(self).packages@ == old(self).packages@,
            r is Ok <==> inv_pending(old(self).invitations@, crate_id, uid),
            r is Err ==> final(self).invitations@ == old(self).invitations@ && (r matches Err(
                CargoError::InvitationNotFound,
            )),
            r is Ok ==> !inv_pending(final(self).invitations@, crate_id, uid),
            r is Ok ==> final(self).invitations@.len() == old(self).invitations@.len() - 1 && (
            exists|q: int|
                {
                    &&& 0 <= q < old(self).invitations@.len()
                    &&& (#[trigger] old(self).invitations@[q]).crate_id == crate_id
                    &&& old(self).invitations@[q].invited_user_id == uid
                    &&& forall|j: int|
                        0 <= j < q ==> final(self).invitations@[j] == #[trigger] old(self).invitations@[j]
                    &&& forall|j: int|
                        q < j < old(self).invitations@.len() ==> final(self).invitations@[j - 1]
                            == #[trigger] old(self).invitations@[j]
                }),
    {
        let mut q: usize = 0;
        let n = self.invitations.len();
        while q < n
            invariant
                0 <= q <= n,
                n == self.invitations@.len(),
                *self == *old(self),
                old(self).wf(),
                forall|j: int|
                    0 <= j < q ==> !((#[trigger] self.invitations@[j]).crate_id == crate_id
                        && self.invitations@[j].invited_user_id == uid),
            decreases n - q,
        {
            if self.invitations[q].crate_id == crate_id && self.invitations[q].invited_user_id
                == uid {
                let ghost previnv = self.invitations@;
                self.invitations.remove(q);
                proof {
                    assert(forall|j: int|
                        0 <= j < q ==> self.invitations@[j] == #[trigger] previnv[j]);
                    assert(forall|j: int|
                        q < j < previnv.len() ==> self.invitations@[j - 1]
                            == #[trigger] previnv[j]);
                    assert forall|j: int|
                        0 <= j < self.invitations@.len() implies !((
                    #[trigger] self.invitations@[j]).crate_id == crate_id
                        && self.invitations@[j].invited_user_id == uid) by {
                        let jj = if j < q {
                            j
                        } else {
                            j + 1
                        };
                        assert(self.invitations@[j] == previnv[jj]);
                        if jj >= q {
                            assert(!(previnv[jj].crate_id == crate_id
                                && previnv[jj].invited_user_id == uid));
                        }
                    }
                    lemma_registry_wf_after_inv_removal(*old(self), *self, q as int);
                }
                return Ok(());
            }
            q = q + 1;
        }
        Err(CargoError::InvitationNotFound)
    }
}

/// Removing one invitation row keeps the registry well-formed.
proof fn lemma_registry_wf_after_inv_removal(pre: Registry, post: Registry, q: int)
    requires
        pre.wf(),
        post.users@ == pre.users@,
        post.packages@ == pre.packages@,
        0 <= q < pre.invitations@.len(),
        post.invitations@.len() == pre.invitations@.len() - 1,
        forall|j: int| 0 <= j < q ==> post.invitations@[j] == #[trigger] pre.invitations@[j],
        forall|j: int|
            q < j < pre.invitations@.len() ==> post.invitations@[j - 1]
                == #[trigger] pre.invitations@[j],
    ensures
        post.wf(),
{
    assert forall|i: int, j: int|
        0 <= i < j < post.invitations@.len() implies !((
    #[trigger] post.invitations@[i]).crate_id == (#[trigger] post.invitations@[j]).crate_id
        && post.invitations@[i].invited_user_id == post.invitations@[j].invited_user_id) by {
        let ii = if i < q {
            i
        } else {
            i + 1
        };
        let jj = if j < q {
            j
        } else {
            j + 1
        };
        assert(post.invitations@[i] == pre.invitations@[ii]);
        assert(post.invitations@[j] == pre.invitations@[jj]);
        assert(!((pre.invitations@[ii]).crate_id == (pre.invitations@[jj]).crate_id
            && pre.invitations@[ii].invited_user_id == pre.invitations@[jj].invited_user_id));
    }
    assert forall|i: int|
        0 <= i < post.invitations@.len() implies pkgs_have_id(
        post.packages@,
        (#[trigger] post.invitations@[i]).crate_id,
    ) && users_have_id(post.users@, post.invitations@[i].invited_user_id) && (
    #[trigger] post.invitations@[i]).created_at.wf() by {
        let ii = if i < q {
            i
        } else {
            i + 1
        };
        assert(post.invitations@[i] == pre.invitations@[ii]);
        assert(pkgs_have_id(pre.packages@, (pre.invitations@[ii]).crate_id));
        assert(users_have_id(pre.users@, pre.invitations@[ii].invited_user_id));
        assert((pre.invitations@[ii]).created_at.wf());
    }
    assert forall|i: int|
        0 <= i < post.packages@.len() implies (#[trigger] post.packages@[i]).owners.wf() && (
        #[trigger] post.packages@[i]).owners.users@.len() >= 1 by {
        assert(post.packages@[i] == pre.packages@[i]);
        assert((pre.packages@[i]).owners.wf());
        assert((pre.packages@[i]).owners.users@.len() >= 1);
    }
    assert forall|i: int, v: int|
        0 <= i < post.packages@.len() && 0 <= v < (
        #[trigger] post.packages@[i]).versions@.len() implies (
    #[trigger] post.packages@[i].versions@[v]).wf() by {
        assert(post.packages@[i] == pre.packages@[i]);
        assert((pre.packages@[i].versions@[v]).wf());
    }
}

/// Accepting an invitation keeps the registry well-formed: one package
/// gains one individual owner row, one invitation row leaves.
proof fn lemma_registry_wf_after_accept(pre: Registry, post: Registry, pi: int, q: int, uid: i32)
    requires
        pre.wf(),
        post.users@ == pre.users@,
        0 <= pi < pre.packages@.len(),
        post.packages@.len() == pre.packages@.len(),
        forall|j: int|
            0 <= j < pre.packages@.len() && j != pi ==> post.packages@[j]
                == #[trigger] pre.packages@[j],
        post.packages@[pi].name@ == pre.packages@[pi].name@,
        post.packages@[pi].id == pre.packages@[pi].id,
        post.packages@[pi].owners.wf(),
        post.packages@[pi].owners.users@.len() >= pre.packages@[pi].owners.users@.len(),
        post.packages@[pi].versions@ == pre.packages@[pi].versions@,
        0 <= q < pre.invitations@.len(),
        post.invitations@.len() == pre.invitations@.len() - 1,
        forall|j: int| 0 <= j < q ==> post.invitations@[j] == #[trigger] pre.invitations@[j],
        forall|j: int|
            q < j < pre.invitations@.len() ==> post.invitations@[j - 1]
                == #[trigger] pre.invitations@[j],
    ensures
        post.wf(),
{
    assert forall|i: int, j: int|
        0 <= i < j < post.packages@.len() implies (#[trigger] post.packages@[i]).name@ != (
    #[trigger] post.packages@[j]).name@ && (#[trigger] post.packages@[i]).id != (
    #[trigger] post.packages@[j]).id by {
        assert((pre.packages@[i]).name@ != (pre.packages@[j]).name@);
        assert((pre.packages@[i]).id != (pre.packages@[j]).id);
        if i != pi {
            assert(post.packages@[i] == pre.packages@[i]);
        }
        if j != pi {
            assert(post.packages@[j] == pre.packages@[j]);
        }
    }
    assert forall|i: int|
        0 <= i < post.packages@.len() implies (#[trigger] post.packages@[i]).owners.wf() && (
        #[trigger] post.packages@[i]).owners.users@.len() >= 1 by {
        if i != pi {
            assert(post.packages@[i] == pre.packages@[i]);
            assert((pre.packages@[i]).owners.wf());
            assert((pre.packages@[i]).owners.users@.len() >= 1);
        } else {
            assert((pre.packages@[pi]).owners.users@.len() >= 1);
        }
    }
    assert forall|i: int, v: int|
        0 <= i < post.packages@.len() && 0 <= v < (
        #[trigger] post.packages@[i]).versions@.len() implies (
    #[trigger] post.packages@[i].versions@[v]).wf() by {
        if i != pi {
            assert(post.packages@[i] == pre.packages@[i]);
        } else {
            assert(post.packages@[pi].versions@ == pre.packages@[pi].versions@);
        }
        assert((pre.packages@[i].versions@[v]).wf());
    }
    assert forall|i: int, j: int|
        0 <= i < j < post.invitations@.len() implies !((
    #[trigger] post.invitations@[i]).crate_id == (#[trigger] post.invitations@[j]).crate_id
        && post.invitations@[i].invited_user_id == post.invitations@[j].invited_user_id) by {
        let ii = if i < q {
            i
        } else {
            i + 1
        };
        let jj = if j < q {
            j
        } else {
            j + 1
        };
        assert(post.invitations@[i] == pre.invitations@[ii]);
        assert(post.invitations@[j] == pre.invitations@[jj]);
        assert(!((pre.invitations@[ii]).crate_id == (pre.invitations@[jj]).crate_id
            && pre.invitations@[ii].invited_user_id == pre.invitations@[jj].invited_user_id));
    }
    assert forall|i: int|
        0 <= i < post.invitations@.len() implies pkgs_have_id(
        post.packages@,
        (#[trigger] post.invitations@[i]).crate_id,
    ) && users_have_id(post.users@, post.invitations@[i].invited_user_id) && (
    #[trigger] post.invitations@[i]).created_at.wf() by {
        let ii = if i < q {
            i
        } else {
            i + 1
        };
        assert(post.invitations@[i] == pre.invitations@[ii]);
        assert(pkgs_have_id(pre.packages@, (pre.invitations@[ii]).crate_id));
        let wi = choose|wi: int|
            0 <= wi < pre.packages@.len() && (#[trigger] pre.packages@[wi]).id == (
            pre.invitations@[ii]).crate_id;
        assert((post.packages@[wi]).id == (pre.packages@[wi]).id);
        assert(users_have_id(pre.users@, pre.invitations@[ii].invited_user_id));
        assert((pre.invitations@[ii]).created_at.wf());
    }
}

/// One package element changed in place with its name, identity and
/// version list preserved and its owner set still valid: the registry
/// stays well-formed.
proof fn lemma_registry_wf_pkg_update(pre: Registry, post: Registry, pi: int)
    requires
        pre.wf(),
        post.users@ == pre.users@,
        post.invitations@ == pre.invitations@,
        0 <= pi < pre.packages@.len(),
        post.packages@.len() == pre.packages@.len(),
        forall|j: int|
            0 <= j < pre.packages@.len() && j != pi ==> post.packages@[j]
                == #[trigger] pre.packages@[j],
        post.packages@[pi].name@ == pre.packages@[pi].name@,
        post.packages@[pi].id == pre.packages@[pi].id,
        post.packages@[pi].owners.wf(),
        post.packages@[pi].owners.users@.len() >= 1,
        forall|v: int|
            0 <= v < post.packages@[pi].versions@.len() ==> (
            #[trigger] post.packages@[pi].versions@[v]).wf(),
    ensures
        post.wf(),
{
    assert forall|i: int, j: int|
        0 <= i < j < post.packages@.len() implies (#[trigger] post.packages@[i]).name@ != (
    #[trigger] post.packages@[j]).name@ && (#[trigger] post.packages@[i]).id != (
    #[trigger] post.packages@[j]).id by {
        assert((pre.packages@[i]).name@ != (pre.packages@[j]).name@);
        assert((pre.packages@[i]).id != (pre.packages@[j]).id);
        if i != pi {
            assert(post.packages@[i] == pre.packages@[i]);
        }
        if j != pi {
            assert(post.packages@[j] == pre.packages@[j]);
        }
    }
    assert forall|i: int|
        0 <= i < post.packages@.len() implies (#[trigger] post.packages@[i]).owners.wf() && (
        #[trigger] post.packages@[i]).owners.users@.len() >= 1 by {
        if i != pi {
            assert(post.packages@[i] == pre.packages@[i]);
            assert((pre.packages@[i]).owners.wf());
            assert((pre.packages@[i]).owners.users@.len() >= 1);
        }
    }
    assert forall|i: int, v: int|
        0 <= i < post.packages@.len() && 0 <= v < (
        #[trigger] post.packages@[i]).versions@.len() implies (
    #[trigger] post.packages@[i].versions@[v]).wf() by {
        if i != pi {
            assert(post.packages@[i] == pre.packages@[i]);
            assert((pre.packages@[i].versions@[v]).wf());
        }
    }
    assert forall|i: int|
        0 <= i < post.invitations@.len() implies pkgs_have_id(
        post.packages@,
        (#[trigger] post.invitations@[i]).crate_id,
    ) by {
        assert(pkgs_have_id(pre.packages@, (pre.invitations@[i]).crate_id));
        let wi = choose|wi: int|
            0 <= wi < pre.packages@.len() && (#[trigger] pre.packages@[wi]).id == (
            pre.invitations@[i]).crate_id;
        assert((post.packages@[wi]).id == (pre.packages@[wi]).id);
    }
}

/// The logins of a name list, as character sequences.
pub open spec fn logins_of(names: Seq<String>) -> Seq<Seq<char>> {
    names.map_values(|s: String| s@)
}

impl Registry {
    /// Remove named owners in one request: the actor must hold Publish
    /// rights on the package, and the names are removed one by one —
    /// first user row by login, else first team row by name — with the
    /// whole request failing with no change at all on the first
    /// failure (an unknown name, or the individual-owner floor).
    pub fn remove_named_owners(
        &mut self,
        actor: i32,
        pkg_i: usize,
        names: &Vec<String>,
        grants: &Vec<i32>,
    ) -> (r: Result<(), CargoError>)
        requires
            old(self).wf(),
            pkg_i < old(self).packages@.len(),
        ensures
            final(self).wf(),
            final(self).users@ == old(self).users@,
            final(self).invitations@ == old(self).invitations@,
            r is Err ==> final(self).packages@ == old(self).packages@,
            !has_publish(actor, old(self).packages@[pkg_i as int].owners, grants@) ==> (r matches
                Err(e) && e matches CargoError::InsufficientRights(m) && m@
                == "only owners have permission to modify owners"@),
            r is Ok ==> final(self).packages@.len() == old(self).packages@.len() && (forall|
                j: int,
            |
                0 <= j < old(self).packages@.len() && j != pkg_i ==> final(self).packages@[j]
                    == #[trigger] old(self).packages@[j]) && final(self).packages@[pkg_i as int].name@
                == old(self).packages@[pkg_i as int].name@ && final(self).packages@[pkg_i as int].id
                == old(self).packages@[pkg_i as int].id && final(self).packages@[pkg_i as int].versions@
                == old(self).packages@[pkg_i as int].versions@
                && final(self).packages@[pkg_i as int].owners.users@.len() >= 1,
            has_publish(actor, old(self).packages@[pkg_i as int].owners, grants@) ==> ({
                let pre = crate::owners::OwnerRows {
                    users: old(self).packages@[pkg_i as int].owners.users@,
                    teams: old(self).packages@[pkg_i as int].owners.teams@,
                };
                match crate::owners::remove_owner_batch(pre, logins_of(names@)) {
                    crate::owners::RemoveOutcome::Removed(rows) => r is Ok && final(self).packages@[pkg_i as int].owners.users@ == rows.users && final(self).packages@[pkg_i as int].owners.teams@ == rows.teams,
                    crate::owners::RemoveOutcome::LastOwner => r matches Err(
                        CargoError::LastOwnerViolation,
                    ),
                    crate::owners::RemoveOutcome::Unknown(missing) => (r matches Err(
                        CargoError::UnknownOwner(l),
                    ) && l@ == missing),
                }
            }),
    {
        let gate = rights::rights(actor, &self.packages[pkg_i].owners, grants);
        if !gate.can_publish() {
            return Err(
                CargoError::InsufficientRights(
                    "only owners have permission to modify owners".to_owned(),
                ),
            );
        }
        let mut work = self.packages[pkg_i].owners.duplicate();
        let ghost orig = crate::owners::OwnerRows {
            users: old(self).packages@[pkg_i as int].owners.users@,
            teams: old(self).packages@[pkg_i as int].owners.teams@,
        };
        proof {
            assert(logins_of(names@).skip(0) =~= logins_of(names@));
            assert(crate::owners::OwnerRows { users: work.users@, teams: work.teams@ } =~= orig);
        }
        let mut k: usize = 0;
        while k < names.len()
            invariant
                0 <= k <= names@.len(),
                *self == *old(self),
                old(self).wf(),
                has_publish(actor, old(self).packages@[pkg_i as int].owners, grants@),
                pkg_i < self.packages@.len(),
                orig == (crate::owners::OwnerRows {
                    users: old(self).packages@[pkg_i as int].owners.users@,
                    teams: old(self).packages@[pkg_i as int].owners.teams@,
                }),
                work.wf(),
                work.users@.len() >= 1,
                crate::owners::remove_owner_batch(orig, logins_of(names@))
                    == crate::owners::remove_owner_batch(
                    crate::owners::OwnerRows { users: work.users@, teams: work.teams@ },
                    logins_of(names@).skip(k as int),
                ),
            decreases names@.len() - k,
        {
            let ghost rows_pre = crate::owners::OwnerRows {
                users: work.users@,
                teams: work.teams@,
            };
            proof {
                assert(logins_of(names@)[k as int] == names@[k as int]@);
                assert(logins_of(names@).skip(k as int)[0] == logins_of(names@)[k as int]);
                assert(logins_of(names@).skip(k as int).drop_first() =~= logins_of(names@).skip(
                    k + 1,
                ));
            }
            match work.remove_named_owner(names[k].as_str()) {
                Ok(()) => {
                    proof {
                        let rows_post = crate::owners::OwnerRows {
                            users: work.users@,
                            teams: work.teams@,
                        };
                        assert(crate::owners::remove_one_owner(rows_pre, names@[k as int]@)
                            matches crate::owners::RemoveOutcome::Removed(rows) && rows
                            =~= rows_post);
                    }
                },
                Err(e) => {
                    proof {
                        assert(crate::owners::remove_owner_batch(orig, logins_of(names@))
                            == crate::owners::remove_one_owner(rows_pre, names@[k as int]@));
                    }
                    return Err(e);
                },
            }
            k = k + 1;
        }
        proof {
            assert(logins_of(names@).skip(names@.len() as int) =~= Seq::<Seq<char>>::empty());
            assert(crate::owners::remove_owner_batch(orig, logins_of(names@))
                == crate::owners::RemoveOutcome::Removed(
                crate::owners::OwnerRows { users: work.users@, teams: work.teams@ },
            ));
        }
        let mut pkg = self.packages.remove(pkg_i);
        pkg.owners = work;
        self.packages.insert(pkg_i, pkg);
        proof {
            let oldpkgs = old(self).packages@;
            assert(forall|j: int|
                0 <= j < oldpkgs.len() && j != pkg_i ==> self.packages@[j]
                    == #[trigger] oldpkgs[j]);
            assert(self.packages@[pkg_i as int].name@ == oldpkgs[pkg_i as int].name@);
            assert(self.packages@[pkg_i as int].id == oldpkgs[pkg_i as int].id);
            assert(self.packages@[pkg_i as int].versions@ == oldpkgs[pkg_i as int].versions@);
            assert forall|v: int|
                0 <= v < self.packages@[pkg_i as int].versions@.len() implies (
            #[trigger] self.packages@[pkg_i as int].versions@[v]).wf() by {
                assert((oldpkgs[pkg_i as int].versions@[v]).wf());
            }
            lemma_registry_wf_pkg_update(*old(self), *self, pkg_i as int);
        }
        Ok(())
    }
}

/// `post` equals `pre` except possibly at index `pi`.
pub open spec fn pkgs_same_except(pre: Seq<Package>, post: Seq<Package>, pi: int) -> bool {
    post.len() == pre.len() && forall|j: int|
        0 <= j < pre.len() && j != pi ==> post[j] == #[trigger] pre[j]
}

/// `post` equals `pre` except possibly at index `vi`.
pub open spec fn versions_same_except(pre: Seq<Version>, post: Seq<Version>, vi: int) -> bool {
    post.len() == pre.len() && forall|j: int|
        0 <= j < pre.len() && j != vi ==> post[j] == #[trigger] pre[j]
}

/// The decision of a yank/unyank request: where the version stands and
/// whether the index-publication collaborator must be notified.
#[derive(Debug)]
pub struct YankPlan {
    pub pkg_idx: usize,
    pub ver_idx: usize,
    pub yanked: bool,
    pub notify_index: bool,
}

/// How many invitations are pending for one user.
pub open spec fn pending_count(invs: Seq<Invitation>, uid: i32) -> int
    decreases invs.len(),
{
    if invs.len() == 0 {
        0
    } else {
        pending_count(invs.drop_last(), uid) + (if invs.last().invited_user_id == uid {
            1int
        } else {
            0int
        })
    }
}

/// Some package with identity `cid` carries this name.
pub open spec fn pkg_name_is(pkgs: Seq<Package>, cid: i32, name: Seq<char>) -> bool {
    exists|i: int|
        0 <= i < pkgs.len() && (#[trigger] pkgs[i]).id == cid && pkgs[i].name@ == name
}

/// Some account with identity `uid` carries this login.
pub open spec fn user_login_is(users: Seq<User>, uid: i32, login: Seq<char>) -> bool {
    exists|i: int|
        0 <= i < users.len() && (#[trigger] users[i]).id == uid && users[i].gh_login@ == login
}

/// Some rendered invitation names package `cid`.
pub open spec fn views_have_crate(vs: Seq<EncodableCrateOwnerInvitation>, cid: i32) -> bool {
    exists|k: int| 0 <= k < vs.len() && (#[trigger] vs[k]).crate_id == cid
}

/// `e` renders one pending invitation of `uid`: the invitation exists,
/// the package name and creation time correspond, and the inviter's
/// login is rendered, or empty when the account is gone.
pub open spec fn renders_pending(
    users: Seq<User>,
    pkgs: Seq<Package>,
    invs: Seq<Invitation>,
    uid: i32,
    e: EncodableCrateOwnerInvitation,
) -> bool {
    exists|ii: int|
        {
            &&& 0 <= ii < invs.len()
            &&& (#[trigger] invs[ii]).invited_user_id == uid
            &&& invs[ii].crate_id == e.crate_id
            &&& e.created_at@ == time_repr(invs[ii].created_at)
            &&& pkg_name_is(pkgs, invs[ii].crate_id, e.crate_name@)
            &&& (user_login_is(users, invs[ii].invited_by, e.invited_by_username@) || (
            !users_have_id(users, invs[ii].invited_by) && e.invited_by_username@ == Seq::<char>::empty()))
        }
}

/// Some package carries this name with a version of this number.
pub open spec fn pkgs_have_version(
    pkgs: Seq<Package>,
    name: Seq<char>,
    v: semver_num::SemVerV,
) -> bool {
    exists|pi: int, vi: int|
        #![trigger pkgs[pi].versions@[vi]]
        0 <= pi < pkgs.len() && pkgs[pi].name@ == name && 0 <= vi < pkgs[pi].versions@.len()
            && pkgs[pi].versions@[vi].num@ == v
}

impl Registry {
    /// Resolve a (package name, version string) pair, reporting a
    /// malformed version string, an unknown package, or a missing
    /// version distinctly.
    pub fn find_version(&self, crate_name: &str, num_str: &str) -> (r: Result<
        (usize, usize),
        CargoError,
    >)
        requires
            self.wf(),
        ensures
            semver_num::semver_parse(num_str@) matches Some(v) && pkgs_have_version(
                self.packages@,
                crate_name@,
                v,
            ) ==> r is Ok,
            semver_num::semver_parse(num_str@) is None ==> (r matches Err(
                CargoError::InvalidSemver(x),
            ) && x@ == num_str@),
            semver_num::semver_parse(num_str@) is Some && !pkgs_have_name(self.packages@, crate_name@)
                ==> (r matches Err(CargoError::NotFound)),
            r matches Ok(p) ==> 0 <= p.0 < self.packages@.len() && self.packages@[p.0 as int].name@
                == crate_name@ && 0 <= p.1 < self.packages@[p.0 as int].versions@.len() && (
            semver_num::semver_parse(num_str@) matches Some(v) && self.packages@[p.0 as int].versions@[p.1 as int].num@
                == v),
            semver_num::semver_parse(num_str@) is Some && pkgs_have_name(self.packages@, crate_name@)
                && r is Err ==> (r matches Err(CargoError::VersionNotFound(n, m)) && n@
                == crate_name@ && m@ == semver_num::semver_repr(
                semver_num::semver_parse(num_str@)->0,
            )),
            r matches Err(e) ==> (e is InvalidSemver || e is NotFound || e is VersionNotFound),
    {
        let num = match semver_num::parse_semver(num_str) {
            Some(v) => v,
            None => {
                return Err(CargoError::InvalidSemver(num_str.to_owned()));
            },
        };
        let pi = match self.find_package(crate_name) {
            Some(pi) => pi,
            None => {
                proof {
                    if pkgs_have_version(self.packages@, crate_name@, num@) {
                        let (wp, wv) = choose|wp: int, wv: int|
                            #![trigger self.packages@[wp].versions@[wv]]
                            0 <= wp < self.packages@.len() && self.packages@[wp].name@
                                == crate_name@ && 0 <= wv < self.packages@[wp].versions@.len()
                                && self.packages@[wp].versions@[wv].num@ == num@;
                        assert(pkgs_have_name(self.packages@, crate_name@));
                    }
                }
                return Err(CargoError::NotFound);
            },
        };
        match crate::version::Version::find_by_num(&self.packages[pi].versions, &num) {
            Some(vi) => Ok((pi, vi)),
            None => {
                proof {
                    if pkgs_have_version(self.packages@, crate_name@, num@) {
                        let (wp, wv) = choose|wp: int, wv: int|
                            #![trigger self.packages@[wp].versions@[wv]]
                            0 <= wp < self.packages@.len() && self.packages@[wp].name@
                                == crate_name@ && 0 <= wv < self.packages@[wp].versions@.len()
                                && self.packages@[wp].versions@[wv].num@ == num@;
                        if wp != pi {
                            assert((self.packages@[wp]).name@ != (
                            self.packages@[pi as int]).name@);
                        }
                        assert((self.packages@[pi as int].versions@[wv]).num@ != num@);
                        assert(false);
                    }
                }
                Err(CargoError::VersionNotFound(crate_name.to_owned(), num.to_version_string()))
            },
        }
    }

    /// Decide a yank/unyank request: resolve the version, require
    /// Publish rights on the package or an ancestor namespace, and plan
    /// an index notification exactly when the flag actually changes.
    /// An authorized request on an existing version always yields a
    /// plan.
    pub fn yank_plan(
        &self,
        actor: i32,
        crate_name: &str,
        num_str: &str,
        grants: &Vec<i32>,
        yanked: bool,
    ) -> (r: Result<YankPlan, CargoError>)
        requires
            self.wf(),
        ensures
            semver_num::semver_parse(num_str@) matches Some(v) && pkgs_have_version(
                self.packages@,
                crate_name@,
                v,
            ) && ns_publish(self.packages@, actor, crate_name@, grants@) ==> r is Ok,
            r matches Ok(plan) ==> {
                &&& 0 <= plan.pkg_idx < self.packages@.len()
                &&& self.packages@[plan.pkg_idx as int].name@ == crate_name@
                &&& 0 <= plan.ver_idx < self.packages@[plan.pkg_idx as int].versions@.len()
                &&& (semver_num::semver_parse(num_str@) matches Some(v)
                    && self.packages@[plan.pkg_idx as int].versions@[plan.ver_idx as int].num@
                    == v)
                &&& plan.yanked == yanked
                &&& plan.notify_index <==> self.packages@[plan.pkg_idx as int].versions@[plan.ver_idx as int].yanked
                    != yanked
                &&& ns_publish(self.packages@, actor, crate_name@, grants@)
            },
            semver_num::semver_parse(num_str@) matches Some(v) && pkgs_have_version(
                self.packages@,
                crate_name@,
                v,
            ) && !ns_publish(self.packages@, actor, crate_name@, grants@) ==> (r matches Err(
                CargoError::InsufficientRights(m),
            ) && m@ == "must already be an owner to yank or unyank"@),
            r matches Err(CargoError::InsufficientRights(m)) ==> m@
                == "must already be an owner to yank or unyank"@,
            semver_num::semver_parse(num_str@) is None ==> (r matches Err(
                CargoError::InvalidSemver(x),
            ) && x@ == num_str@),
            semver_num::semver_parse(num_str@) is Some && !pkgs_have_name(self.packages@, crate_name@)
                ==> (r matches Err(CargoError::NotFound)),
    {
        let (pi, vi) = match self.find_version(crate_name, num_str) {
            Ok(p) => p,
            Err(e) => {
                return Err(e);
            },
        };
        let gate = self.rights_with_namespace(actor, crate_name, grants);
        if !gate.can_publish() {
            return Err(
                CargoError::InsufficientRights("must already be an owner to yank or unyank".to_owned()),
            );
        }
        let notify_index = self.packages[pi].versions[vi].yanked != yanked;
        Ok(YankPlan { pkg_idx: pi, ver_idx: vi, yanked, notify_index })
    }

    /// Apply a yank plan given the outcome of the index notification:
    /// a no-op plan changes nothing; a failed notification rolls the
    /// whole operation back; otherwise the flag is set.
    pub fn apply_yank(&mut self, plan: &YankPlan, notify_ok: bool) -> (r: Result<(), CargoError>)
        requires
            old(self).wf(),
            plan.pkg_idx < old(self).packages@.len(),
            plan.ver_idx < old(self).packages@[plan.pkg_idx as int].versions@.len(),
        ensures
            final(self).wf(),
            final(self).users@ == old(self).users@,
            final(self).invitations@ == old(self).invitations@,
            !plan.notify_index ==> r is Ok && final(self).packages@ == old(self).packages@,
            plan.notify_index && !notify_ok ==> (r matches Err(CargoError::IndexUpdateFailed))
                && final(self).packages@ == old(self).packages@,
            plan.notify_index && notify_ok ==> r is Ok && {
                let pi = plan.pkg_idx as int;
                let vi = plan.ver_idx as int;
                &&& final(self).packages@.len() == old(self).packages@.len()
                &&& forall|j: int|
                    0 <= j < old(self).packages@.len() && j != pi ==> final(self).packages@[j]
                        == #[trigger] old(self).packages@[j]
                &&& final(self).packages@[pi].name@ == old(self).packages@[pi].name@
                &&& final(self).packages@[pi].id == old(self).packages@[pi].id
                &&& final(self).packages@[pi].owners == old(self).packages@[pi].owners
                &&& final(self).packages@[pi].versions@.len() == old(self).packages@[pi].versions@.len()
                &&& forall|w: int|
                    0 <= w < old(self).packages@[pi].versions@.len() && w != vi ==> final(self).packages@[pi].versions@[w] == #[trigger] old(self).packages@[pi].versions@[w]
                &&& final(self).packages@[pi].versions@[vi].yanked == plan.yanked
                &&& final(self).packages@[pi].versions@[vi].num@ == old(self).packages@[pi].versions@[vi].num@
                &&& final(self).packages@[pi].versions@[vi].id == old(self).packages@[pi].versions@[vi].id
                &&& final(self).packages@[pi].versions@[vi].build_records@ == old(self).packages@[pi].versions@[vi].build_records@
            },
    {
        if !plan.notify_index {
            return Ok(());
        }
        if !notify_ok {
            return Err(CargoError::IndexUpdateFailed);
        }
        let mut pkg = self.packages.remove(plan.pkg_idx);
        let mut ver = pkg.versions.remove(plan.ver_idx);
        ver.yank(plan.yanked);
        proof {
            assert(ver.wf()) by {
                assert((old(self).packages@[plan.pkg_idx as int].versions@[plan.ver_idx as int]).wf());
            }
        }
        pkg.versions.insert(plan.ver_idx, ver);
        self.packages.insert(plan.pkg_idx, pkg);
        proof {
            let pi = plan.pkg_idx as int;
            let vi = plan.ver_idx as int;
            let oldpkgs = old(self).packages@;
            assert(forall|j: int|
                0 <= j < oldpkgs.len() && j != pi ==> self.packages@[j] == #[trigger] oldpkgs[j]);
            assert(forall|w: int|
                0 <= w < oldpkgs[pi].versions@.len() && w != vi ==> self.packages@[pi].versions@[w]
                    == #[trigger] oldpkgs[pi].versions@[w]);
            assert forall|v: int|
                0 <= v < self.packages@[pi].versions@.len() implies (
            #[trigger] self.packages@[pi].versions@[v]).wf() by {
                if v != vi {
                    assert((oldpkgs[pi].versions@[v]).wf());
                }
            }
            assert(self.packages@[pi].owners.wf() && self.packages@[pi].owners.users@.len() >= 1)
                by {
                assert((oldpkgs[pi]).owners.wf());
                assert((oldpkgs[pi]).owners.users@.len() >= 1);
            }
            lemma_registry_wf_pkg_update(*old(self), *self, pi);
        }
        Ok(())
    }

    /// Record a build result for one version: resolve it, require
    /// Publish rights on the package or an ancestor namespace, verify
    /// the toolchain descriptor, and only then upsert the (descriptor,
    /// target) row. An authorized submission with a well-formed
    /// descriptor for an existing version always succeeds.
    pub fn publish_build_info(
        &mut self,
        actor: i32,
        crate_name: &str,
        num_str: &str,
        info: &VersionBuildInfo,
        grants: &Vec<i32>,
        now: DateTime,
    ) -> (r: Result<(), CargoError>)
        requires
            old(self).wf(),
        ensures
            final(self).wf(),
            final(self).users@ == old(self).users@,
            final(self).invitations@ == old(self).invitations@,
            r is Err ==> final(self).packages@ == old(self).packages@,
            r matches Err(CargoError::InsufficientRights(m)) ==> m@
                == "must already be an owner to publish build info"@,
            semver_num::semver_parse(num_str@) matches Some(v) && pkgs_have_version(
                old(self).packages@,
                crate_name@,
                v,
            ) && ns_publish(old(self).packages@, actor, crate_name@, grants@)
                && build_info::classify_ok(info.rust_version@) ==> r is Ok,
            semver_num::semver_parse(num_str@) matches Some(v) && pkgs_have_version(
                old(self).packages@,
                crate_name@,
                v,
            ) && !ns_publish(old(self).packages@, actor, crate_name@, grants@) ==> (r matches Err(
                CargoError::InsufficientRights(m),
            ) && m@ == "must already be an owner to publish build info"@),
            r is Ok ==> build_info::classify_ok(info.rust_version@) && ns_publish(
                old(self).packages@,
                actor,
                crate_name@,
                grants@,
            ),
            r matches Err(e) ==> (e is InsufficientRights || e is InvalidSemver || e is NotFound
                || e is VersionNotFound || build_info::classify_err(info.rust_version@, e)),
            r is Ok ==> exists|pi: int, vi: int|
                {
                    &&& 0 <= pi < old(self).packages@.len()
                    &&& 0 <= vi < old(self).packages@[pi].versions@.len()
                    &&& old(self).packages@[pi].name@ == crate_name@
                    &&& (semver_num::semver_parse(num_str@) matches Some(v)
                        && old(self).packages@[pi].versions@[vi].num@ == v)
                    &&& pkgs_same_except(old(self).packages@, final(self).packages@, pi)
                    &&& final(self).packages@[pi].name@ == old(self).packages@[pi].name@
                    &&& final(self).packages@[pi].owners == old(self).packages@[pi].owners
                    &&& #[trigger] versions_same_except(
                        old(self).packages@[pi].versions@,
                        final(self).packages@[pi].versions@,
                        vi,
                    )
                    &&& final(self).packages@[pi].versions@[vi].num@ == old(self).packages@[pi].versions@[vi].num@
                    &&& final(self).packages@[pi].versions@[vi].yanked == old(self).packages@[pi].versions@[vi].yanked
                    &&& build_info::upserted(
                        old(self).packages@[pi].versions@[vi].build_records@,
                        final(self).packages@[pi].versions@[vi].build_records@,
                        info.rust_version@,
                        info.target@,
                        info.passed,
                        now,
                    )
                },
    {
        let (pi, vi) = match self.find_version(crate_name, num_str) {
            Ok(p) => p,
            Err(e) => {
                return Err(e);
            },
        };
        let gate = self.rights_with_namespace(actor, crate_name, grants);
        if !gate.can_publish() {
            return Err(
                CargoError::InsufficientRights(
                    "must already be an owner to publish build info".to_owned(),
                ),
            );
        }
        match info.channel_version() {
            Err(e) => {
                return Err(e);
            },
            Ok(_) => {},
        }
        let mut pkg = self.packages.remove(pi);
        let mut ver = pkg.versions.remove(vi);
        proof {
            assert(ver.wf()) by {
                assert((old(self).packages@[pi as int].versions@[vi as int]).wf());
            }
        }
        let ghost pre_records = ver.build_records@;
        let res = ver.store_build_info(info, now);
        proof {
            assert(res is Ok);
            assert(build_info::upserted(
                pre_records,
                ver.build_records@,
                info.rust_version@,
                info.target@,
                info.passed,
                now,
            ));
            assert(pre_records == old(self).packages@[pi as int].versions@[vi as int].build_records@);
        }
        pkg.versions.insert(vi, ver);
        self.packages.insert(pi, pkg);
        proof {
            let pii = pi as int;
            let vii = vi as int;
            let oldpkgs = old(self).packages@;
            assert(forall|j: int|
                0 <= j < oldpkgs.len() && j != pii ==> self.packages@[j] == #[trigger] oldpkgs[j]);
            assert(forall|w: int|
                0 <= w < oldpkgs[pii].versions@.len() && w != vii
                    ==> self.packages@[pii].versions@[w] == #[trigger] oldpkgs[pii].versions@[w]);
            assert forall|v: int|
                0 <= v < self.packages@[pii].versions@.len() implies (
            #[trigger] self.packages@[pii].versions@[v]).wf() by {
                if v != vii {
                    assert((oldpkgs[pii].versions@[v]).wf());
                }
            }
            assert(self.packages@[pii].owners.wf() && self.packages@[pii].owners.users@.len()
                >= 1) by {
                assert((oldpkgs[pii]).owners.wf());
                assert((oldpkgs[pii]).owners.users@.len() >= 1);
            }
            lemma_registry_wf_pkg_update(*old(self), *self, pii);
            assert(0 <= pii < oldpkgs.len() && oldpkgs[pii].name@ == crate_name@);
            assert(self.packages@.len() == oldpkgs.len());
            assert(self.packages@[pii].versions@.len() == oldpkgs[pii].versions@.len());
            assert(0 <= vii < oldpkgs[pii].versions@.len());
            assert(self.packages@[pii].name@ == oldpkgs[pii].name@);
            assert(self.packages@[pii].owners == oldpkgs[pii].owners);
            assert(self.packages@[pii].versions@[vii].num@ == oldpkgs[pii].versions@[vii].num@);
            assert(self.packages@[pii].versions@[vii].yanked
                == oldpkgs[pii].versions@[vii].yanked);
            assert(pkgs_same_except(oldpkgs, self.packages@, pii));
            assert(versions_same_except(
                oldpkgs[pii].versions@,
                self.packages@[pii].versions@,
                vii,
            ));
            assert(semver_num::semver_parse(num_str@) matches Some(v)
                && oldpkgs[pii].versions@[vii].num@ == v);
            assert(self.packages@[pii].versions@[vii].build_records@ == ver.build_records@);
            assert(build_info::upserted(
                oldpkgs[pii].versions@[vii].build_records@,
                self.packages@[pii].versions@[vii].build_records@,
                info.rust_version@,
                info.target@,
                info.passed,
                now,
            ));
        }
        Ok(())
    }

    /// All pending invitations of one user, each with the inviter's
    /// login, the package name and identity and the creation time.
    pub fn invitations_for(&self, uid: i32) -> (r: Vec<EncodableCrateOwnerInvitation>)
        requires
            self.wf(),
        ensures
            r@.len() == pending_count(self.invitations@, uid),
            forall|k: int|
                0 <= k < r@.len() ==> renders_pending(
                    self.users@,
                    self.packages@,
                    self.invitations@,
                    uid,
                    #[trigger] r@[k],
                ),
            forall|ii: int|
                0 <= ii < self.invitations@.len() && (
                #[trigger] self.invitations@[ii]).invited_user_id == uid ==> views_have_crate(
                    r@,
                    self.invitations@[ii].crate_id,
                ),
    {
        let mut r: Vec<EncodableCrateOwnerInvitation> = Vec::new();
        let mut i: usize = 0;
        while i < self.invitations.len()
            invariant
                0 <= i <= self.invitations@.len(),
                self.wf(),
                r@.len() == pending_count(self.invitations@.take(i as int), uid),
                forall|k: int|
                    0 <= k < r@.len() ==> renders_pending(
                        self.users@,
                        self.packages@,
                        self.invitations@,
                        uid,
                        #[trigger] r@[k],
                    ),
                forall|ii: int|
                    0 <= ii < i && (#[trigger] self.invitations@[ii]).invited_user_id == uid
                        ==> views_have_crate(r@, self.invitations@[ii].crate_id),
            decreases self.invitations@.len() - i,
        {
            proof {
                assert(self.invitations@.take(i + 1).drop_last() =~= self.invitations@.take(
                    i as int,
                ));
                assert(self.invitations@.take(i + 1).last() == self.invitations@[i as int]);
            }
            if self.invitations[i].invited_user_id == uid {
                let inv = self.invitations[i];
                let pkg_i = match self.find_package_by_id(inv.crate_id) {
                    Some(p) => p,
                    None => {
                        proof {
                            assert(pkgs_have_id(self.packages@, inv.crate_id));
                            assert(false);
                        }
                        0
                    },
                };
                let inviter = match self.find_user_by_id(inv.invited_by) {
                    Some(u) => self.users[u].gh_login.clone(),
                    None => String::new(),
                };
                let e = EncodableCrateOwnerInvitation {
                    invited_by_username: inviter,
                    crate_name: self.packages[pkg_i].name.clone(),
                    crate_id: inv.crate_id,
                    created_at: encode_time(&inv.created_at),
                };
                proof {
                    assert(renders_pending(
                        self.users@,
                        self.packages@,
                        self.invitations@,
                        uid,
                        e,
                    ));
                }
                let ghost prev = r@;
                r.push(e);
                proof {
                    assert(forall|k: int| 0 <= k < prev.len() ==> r@[k] == #[trigger] prev[k]);
                    assert(r@.last().crate_id == self.invitations@[i as int].crate_id);
                    assert forall|ii: int|
                        0 <= ii < i + 1 && (#[trigger] self.invitations@[ii]).invited_user_id
                            == uid implies views_have_crate(
                        r@,
                        self.invitations@[ii].crate_id,
                    ) by {
                        if ii < i {
                            assert(views_have_crate(prev, self.invitations@[ii].crate_id));
                            let k = choose|k: int|
                                0 <= k < prev.len() && (#[trigger] prev[k]).crate_id
                                    == self.invitations@[ii].crate_id;
                            assert(r@[k].crate_id == self.invitations@[ii].crate_id);
                        } else {
                            assert(r@.last().crate_id == self.invitations@[ii].crate_id);
                        }
                    }
                }
            }
            i = i + 1;
        }
        proof {
            assert(self.invitations@.take(self.invitations@.len() as int) =~= self.invitations@);
        }
        r
    }
}

/// The individual-owner floor: in every well-formed registry each
/// package keeps at least one individual owner, and every public
/// mutation of this module carries well-formedness, so no sequence of
/// add and remove operations through the public paths can empty a
/// package's individual owners.
pub proof fn lemma_individual_owner_floor(reg: Registry, pi: int)
    requires
        reg.wf(),
        0 <= pi < reg.packages@.len(),
    ensures
        reg.packages@[pi].owners.users@.len() >= 1,
{
}

/// The invitation round-trip, create side: once adding an owner has
/// left an invitation pending for a login, some account carrying that
/// login has a pending invitation for the package, so accepting as
/// that account succeeds; `accept_invitation` then guarantees the
/// membership row and the removal of the invitation, and
/// `decline_invitation` guarantees removal with no membership change.
pub proof fn lemma_pending_login_accepts(
    users: Seq<User>,
    invs: Seq<Invitation>,
    cid: i32,
    login: Seq<char>,
)
    requires
        pending_for_login(users, invs, cid, login),
    ensures
        exists|uid: i32|
            highest_match(users, login, uid) && #[trigger] inv_pending(invs, cid, uid),
{
}

/// Namespace rights run downward: an owner of a namespace package
/// holds Publish rights on every package the namespace covers, even
/// one with no owner rows of its own.
pub proof fn lemma_namespace_grant(
    pkgs: Seq<Package>,
    actor: i32,
    pi: int,
    child: Seq<char>,
    grants: Seq<i32>,
)
    requires
        0 <= pi < pkgs.len(),
        name_covers(pkgs[pi].name@, child),
        has_publish(actor, pkgs[pi].owners, grants),
    ensures
        ns_publish(pkgs, actor, child, grants),
{
    assert(name_covers((pkgs[pi]).name@, child) && has_publish(actor, (pkgs[pi]).owners, grants));
}

/// And only downward: a covered child's name never covers its own
/// namespace, so owning `foo/bar` grants nothing on `foo`.
pub proof fn lemma_namespace_one_way(parent: Seq<char>, child: Seq<char>)
    requires
        name_covers(parent, child),
        parent != child,
    ensures
        !name_covers(child, parent),
{
    assert(parent.len() < child.len());
}

/// Some returned view carries this version identity.
pub open spec fn views_have_id(vs: Seq<crate::version::EncodableVersion>, id: i32) -> bool {
    exists|k: int| 0 <= k < vs.len() && (#[trigger] vs[k]).id == id
}

/// `e` is the view of some stored version, under its package's name.
pub open spec fn view_from_version(
    pkgs: Seq<Package>,
    e: crate::version::EncodableVersion,
) -> bool {
    exists|pi: int, vi: int|
        #![trigger pkgs[pi].versions@[vi]]
        {
            &&& 0 <= pi < pkgs.len()
            &&& 0 <= vi < pkgs[pi].versions@.len()
            &&& pkgs[pi].versions@[vi].id == e.id
            &&& e.krate@ == pkgs[pi].name@
            &&& e.num@ == semver_num::semver_repr(pkgs[pi].versions@[vi].num@)
            &&& e.yanked == pkgs[pi].versions@[vi].yanked
        }
}

impl Registry {
    /// Locate a version by its identity.
    pub fn find_version_by_id(&self, id: i32) -> (r: Option<(usize, usize)>)
        ensures
            r matches Some(p) ==> 0 <= p.0 < self.packages@.len() && 0 <= p.1
                < self.packages@[p.0 as int].versions@.len()
                && self.packages@[p.0 as int].versions@[p.1 as int].id == id,
            r is None ==> forall|pi: int, vi: int|
                0 <= pi < self.packages@.len() && 0 <= vi < (
                #[trigger] self.packages@[pi]).versions@.len() ==> (
                #[trigger] self.packages@[pi].versions@[vi]).id != id,
    {
        let mut pi: usize = 0;
        while pi < self.packages.len()
            invariant
                0 <= pi <= self.packages@.len(),
                forall|pj: int, vj: int|
                    0 <= pj < pi && 0 <= vj < (#[trigger] self.packages@[pj]).versions@.len()
                        ==> (#[trigger] self.packages@[pj].versions@[vj]).id != id,
            decreases self.packages@.len() - pi,
        {
            let mut vi: usize = 0;
            while vi < self.packages[pi].versions.len()
                invariant
                    0 <= pi < self.packages@.len(),
                    0 <= vi <= self.packages@[pi as int].versions@.len(),
                    forall|pj: int, vj: int|
                        0 <= pj < pi && 0 <= vj < (#[trigger] self.packages@[pj]).versions@.len()
                            ==> (#[trigger] self.packages@[pj].versions@[vj]).id != id,
                    forall|vj: int|
                        0 <= vj < vi ==> (
                        #[trigger] self.packages@[pi as int].versions@[vj]).id != id,
                decreases self.packages@[pi as int].versions@.len() - vi,
            {
                if self.packages[pi].versions[vi].id == id {
                    return Some((pi, vi));
                }
                vi = vi + 1;
            }
            pi = pi + 1;
        }
        None
    }

    /// The public views of the versions carrying the given identities,
    /// each under its package's name: every returned view is a
    /// requested version, and every version whose identity is requested
    /// is returned.
    pub fn versions_by_ids(&self, ids: &Vec<i32>) -> (r: Vec<crate::version::EncodableVersion>)
        requires
            forall|pi: int, vi: int|
                0 <= pi < self.packages@.len() && 0 <= vi < (
                #[trigger] self.packages@[pi]).versions@.len() ==> (
                #[trigger] self.packages@[pi].versions@[vi]).updated_at.wf()
                    && self.packages@[pi].versions@[vi].created_at.wf(),
        ensures
            forall|k: int|
                0 <= k < r@.len() ==> crate::reconcile::ids_have(ids@, (#[trigger] r@[k]).id)
                    && view_from_version(self.packages@, r@[k]),
            forall|pi: int, vi: int|
                0 <= pi < self.packages@.len() && 0 <= vi < (
                #[trigger] self.packages@[pi]).versions@.len() && crate::reconcile::ids_have(
                    ids@,
                    (#[trigger] self.packages@[pi].versions@[vi]).id,
                ) ==> views_have_id(r@, self.packages@[pi].versions@[vi].id),
    {
        let mut r: Vec<crate::version::EncodableVersion> = Vec::new();
        let mut pi: usize = 0;
        while pi < self.packages.len()
            invariant
                0 <= pi <= self.packages@.len(),
                forall|pj: int, vj: int|
                    0 <= pj < self.packages@.len() && 0 <= vj < (
                    #[trigger] self.packages@[pj]).versions@.len() ==> (
                    #[trigger] self.packages@[pj].versions@[vj]).updated_at.wf()
                        && self.packages@[pj].versions@[vj].created_at.wf(),
                forall|k: int|
                    0 <= k < r@.len() ==> crate::reconcile::ids_have(ids@, (#[trigger] r@[k]).id)
                        && view_from_version(self.packages@, r@[k]),
                forall|pj: int, vj: int|
                    0 <= pj < pi && 0 <= vj < (#[trigger] self.packages@[pj]).versions@.len()
                        && crate::reconcile::ids_have(
                        ids@,
                        (#[trigger] self.packages@[pj].versions@[vj]).id,
                    ) ==> views_have_id(r@, self.packages@[pj].versions@[vj].id),
            decreases self.packages@.len() - pi,
        {
            let mut vi: usize = 0;
            while vi < self.packages[pi].versions.len()
                invariant
                    0 <= pi < self.packages@.len(),
                    0 <= vi <= self.packages@[pi as int].versions@.len(),
                    forall|pj: int, vj: int|
                        0 <= pj < self.packages@.len() && 0 <= vj < (
                        #[trigger] self.packages@[pj]).versions@.len() ==> (
                        #[trigger] self.packages@[pj].versions@[vj]).updated_at.wf()
                            && self.packages@[pj].versions@[vj].created_at.wf(),
                    forall|k: int|
                        0 <= k < r@.len() ==> crate::reconcile::ids_have(
                            ids@,
                            (#[trigger] r@[k]).id,
                        ) && view_from_version(self.packages@, r@[k]),
                    forall|pj: int, vj: int|
                        0 <= pj < pi && 0 <= vj < (#[trigger] self.packages@[pj]).versions@.len()
                            && crate::reconcile::ids_have(
                            ids@,
                            (#[trigger] self.packages@[pj].versions@[vj]).id,
                        ) ==> views_have_id(r@, self.packages@[pj].versions@[vj].id),
                    forall|vj: int|
                        0 <= vj < vi && crate::reconcile::ids_have(
                            ids@,
                            (#[trigger] self.packages@[pi as int].versions@[vj]).id,
                        ) ==> views_have_id(r@, self.packages@[pi as int].versions@[vj].id),
                decreases self.packages@[pi as int].versions@.len() - vi,
            {
                let ghost prev = r@;
                let vid = self.packages[pi].versions[vi].id;
                if crate::reconcile::ids_contain(ids, vid) {
                    let e = self.packages[pi].versions[vi].encodable(
                        self.packages[pi].name.as_str(),
                    );
                    proof {
                        assert(e.id == vid);
                        assert(view_from_version(self.packages@, e)) by {
                            assert((self.packages@[pi as int].versions@[vi as int]).id == e.id);
                        }
                    }
                    r.push(e);
                    proof {
                        assert(forall|k: int| 0 <= k < prev.len() ==> r@[k] == #[trigger] prev[k]);
                        assert(r@.last().id == vid);
                        assert forall|pj: int, vj: int|
                            0 <= pj < pi && 0 <= vj < (
                            #[trigger] self.packages@[pj]).versions@.len()
                                && crate::reconcile::ids_have(
                                ids@,
                                (#[trigger] self.packages@[pj].versions@[vj]).id,
                            ) implies views_have_id(
                            r@,
                            self.packages@[pj].versions@[vj].id,
                        ) by {
                            assert(views_have_id(prev, self.packages@[pj].versions@[vj].id));
                            let k = choose|k: int|
                                0 <= k < prev.len() && (#[trigger] prev[k]).id
                                    == self.packages@[pj].versions@[vj].id;
                            assert(r@[k].id == self.packages@[pj].versions@[vj].id);
                        }
                        assert forall|vj: int|
                            0 <= vj < vi + 1 && crate::reconcile::ids_have(
                                ids@,
                                (#[trigger] self.packages@[pi as int].versions@[vj]).id,
                            ) implies views_have_id(
                            r@,
                            self.packages@[pi as int].versions@[vj].id,
                        ) by {
                            if vj < vi {
                                assert(views_have_id(
                                    prev,
                                    self.packages@[pi as int].versions@[vj].id,
                                ));
                                let k = choose|k: int|
                                    0 <= k < prev.len() && (#[trigger] prev[k]).id
                                        == self.packages@[pi as int].versions@[vj].id;
                                assert(r@[k].id == self.packages@[pi as int].versions@[vj].id);
                            } else {
                                assert(r@.last().id == self.packages@[pi as int].versions@[vj].id);
                            }
                        }
                    }
                }
                vi = vi + 1;
            }
            pi = pi + 1;
        }
        r
    }
}

impl Registry {
    fn packages_distinct(&self) -> (r: bool)
        ensures
            r == ((forall|i: int, j: int|
                0 <= i < j < self.packages@.len() ==> (#[trigger] self.packages@[i]).name@ != (
                #[trigger] self.packages@[j]).name@) && (forall|i: int, j: int|
                0 <= i < j < self.packages@.len() ==> (#[trigger] self.packages@[i]).id != (
                #[trigger] self.packages@[j]).id)),
    {
        let mut i: usize = 0;
        while i < self.packages.len()
            invariant
                0 <= i <= self.packages@.len(),
                forall|a: int, b: int|
                    0 <= a < b < self.packages@.len() && a < i ==> (
                    #[trigger] self.packages@[a]).name@ != (#[trigger] self.packages@[b]).name@
                        && self.packages@[a].id != self.packages@[b].id,
            decreases self.packages@.len() - i,
        {
            let mut j: usize = i + 1;
            while j < self.packages.len()
                invariant
                    0 <= i < j <= self.packages@.len(),
                    forall|b: int|
                        i < b < j ==> (#[trigger] self.packages@[b]).name@
                            != self.packages@[i as int].name@ && self.packages@[b].id
                            != self.packages@[i as int].id,
                decreases self.packages@.len() - j,
            {
                if strutil::str_eq(
                    self.packages[i].name.as_str(),
                    self.packages[j].name.as_str(),
                ) || self.packages[i].id == self.packages[j].id {
                    return false;
                }
                j = j + 1;
            }
            i = i + 1;
        }
        true
    }

    fn owner_rows_ok(&self) -> (r: bool)
        ensures
            r == ((forall|i: int|
                0 <= i < self.packages@.len() ==> (#[trigger] self.packages@[i]).owners.wf()) && (
            forall|i: int|
                0 <= i < self.packages@.len() ==> (
                #[trigger] self.packages@[i]).owners.users@.len() >= 1)),
    {
        let mut i: usize = 0;
        while i < self.packages.len()
            invariant
                0 <= i <= self.packages@.len(),
                forall|a: int|
                    0 <= a < i ==> (#[trigger] self.packages@[a]).owners.wf() && (
                    #[trigger] self.packages@[a]).owners.users@.len() >= 1,
            decreases self.packages@.len() - i,
        {
            if !self.packages[i].owners.is_well_formed() {
                return false;
            }
            if self.packages[i].owners.count_individual_owners() < 1 {
                return false;
            }
            i = i + 1;
        }
        true
    }

    fn versions_ok(&self) -> (r: bool)
        ensures
            r == (forall|i: int, v: int|
                0 <= i < self.packages@.len() && 0 <= v < (
                #[trigger] self.packages@[i]).versions@.len() ==> (
                #[trigger] self.packages@[i].versions@[v]).wf()),
    {
        let mut i: usize = 0;
        while i < self.packages.len()
            invariant
                0 <= i <= self.packages@.len(),
                forall|a: int, v: int|
                    0 <= a < i && 0 <= v < (#[trigger] self.packages@[a]).versions@.len() ==> (
                    #[trigger] self.packages@[a].versions@[v]).wf(),
            decreases self.packages@.len() - i,
        {
            let mut v: usize = 0;
            while v < self.packages[i].versions.len()
                invariant
                    0 <= i < self.packages@.len(),
                    0 <= v <= self.packages@[i as int].versions@.len(),
                    forall|a: int, w: int|
                        0 <= a < i && 0 <= w < (#[trigger] self.packages@[a]).versions@.len()
                            ==> (#[trigger] self.packages@[a].versions@[w]).wf(),
                    forall|w: int|
                        0 <= w < v ==> (#[trigger] self.packages@[i as int].versions@[w]).wf(),
                decreases self.packages@[i as int].versions@.len() - v,
            {
                if !self.packages[i].versions[v].is_well_formed() {
                    return false;
                }
                v = v + 1;
            }
            i = i + 1;
        }
        true
    }

    fn invitations_ok(&self) -> (r: bool)
        ensures
            r == ((forall|i: int, j: int|
                0 <= i < j < self.invitations@.len() ==> !((
                #[trigger] self.invitations@[i]).crate_id == (
                #[trigger] self.invitations@[j]).crate_id
                    && self.invitations@[i].invited_user_id
                    == self.invitations@[j].invited_user_id)) && (forall|i: int|
                0 <= i < self.invitations@.len() ==> pkgs_have_id(
                    self.packages@,
                    (#[trigger] self.invitations@[i]).crate_id,
                )) && (forall|i: int|
                0 <= i < self.invitations@.len() ==> users_have_id(
                    self.users@,
                    (#[trigger] self.invitations@[i]).invited_user_id,
                )) && (forall|i: int|
                0 <= i < self.invitations@.len() ==> (
                #[trigger] self.invitations@[i]).created_at.wf())),
    {
        let mut i: usize = 0;
        while i < self.invitations.len()
            invariant
                0 <= i <= self.invitations@.len(),
                forall|a: int, b: int|
                    0 <= a < b < self.invitations@.len() && a < i ==> !((
                    #[trigger] self.invitations@[a]).crate_id == (
                    #[trigger] self.invitations@[b]).crate_id
                        && self.invitations@[a].invited_user_id
                        == self.invitations@[b].invited_user_id),
                forall|a: int|
                    0 <= a < i ==> pkgs_have_id(
                        self.packages@,
                        (#[trigger] self.invitations@[a]).crate_id,
                    ) && users_have_id(
                        self.users@,
                        (#[trigger] self.invitations@[a]).invited_user_id,
                    ) && (#[trigger] self.invitations@[a]).created_at.wf(),
            decreases self.invitations@.len() - i,
        {
            let mut j: usize = i + 1;
            while j < self.invitations.len()
                invariant
                    0 <= i < j <= self.invitations@.len(),
                    forall|b: int|
                        i < b < j ==> !(self.invitations@[i as int].crate_id == (
                        #[trigger] self.invitations@[b]).crate_id
                            && self.invitations@[i as int].invited_user_id
                            == self.invitations@[b].invited_user_id),
                decreases self.invitations@.len() - j,
            {
                if self.invitations[i].crate_id == self.invitations[j].crate_id
                    && self.invitations[i].invited_user_id
                    == self.invitations[j].invited_user_id {
                    return false;
                }
                j = j + 1;
            }
            match self.find_package_by_id(self.invitations[i].crate_id) {
                Some(_) => {},
                None => {
                    return false;
                },
            }
            match self.find_user_by_id(self.invitations[i].invited_user_id) {
                Some(_) => {},
                None => {
                    return false;
                },
            }
            if !self.invitations[i].created_at.is_plausible() {
                return false;
            }
            i = i + 1;
        }
        true
    }

    fn users_distinct(&self) -> (r: bool)
        ensures
            r == ((forall|i: int, j: int|
                0 <= i < j < self.users@.len() ==> (#[trigger] self.users@[i]).id != (
                #[trigger] self.users@[j]).id) && (forall|i: int, j: int|
                0 <= i < j < self.users@.len() ==> !((#[trigger] self.users@[i]).gh_login@ == (
                #[trigger] self.users@[j]).gh_login@ && self.users@[i].gh_id
                    == self.users@[j].gh_id))),
    {
        let mut i: usize = 0;
        while i < self.users.len()
            invariant
                0 <= i <= self.users@.len(),
                forall|a: int, b: int|
                    0 <= a < b < self.users@.len() && a < i ==> (#[trigger] self.users@[a]).id != (
                    #[trigger] self.users@[b]).id && !(self.users@[a].gh_login@
                        == self.users@[b].gh_login@ && self.users@[a].gh_id
                        == self.users@[b].gh_id),
            decreases self.users@.len() - i,
        {
            let mut j: usize = i + 1;
            while j < self.users.len()
                invariant
                    0 <= i < j <= self.users@.len(),
                    forall|b: int|
                        i < b < j ==> (#[trigger] self.users@[b]).id != self.users@[i as int].id
                            && !(self.users@[b].gh_login@ == self.users@[i as int].gh_login@
                            && self.users@[b].gh_id == self.users@[i as int].gh_id),
                decreases self.users@.len() - j,
            {
                if self.users[i].id == self.users[j].id || (strutil::str_eq(
                    self.users[i].gh_login.as_str(),
                    self.users[j].gh_login.as_str(),
                ) && self.users[i].gh_id == self.users[j].gh_id) {
                    return false;
                }
                j = j + 1;
            }
            i = i + 1;
        }
        true
    }

    /// Check the whole registry invariant at run time, as the rim
    /// around the core does before running a mutation on state it did
    /// not build itself.
    pub fn is_well_formed(&self) -> (r: bool)
        ensures
            r == self.wf(),
    {
        let r = self.packages_distinct() && self.owner_rows_ok() && self.invitations_ok()
            && self.users_distinct() && self.versions_ok();
        r
    }
}

} // verus!








