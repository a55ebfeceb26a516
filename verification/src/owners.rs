//! The polymorphic owner model: individual accounts and teams jointly
//! owning a package.
//!
//! An owner set keeps its user rows and team rows separately, each
//! ordered by its stable numeric identity, and enforces exactly two
//! rules of its own: no duplicate membership row, and at least one
//! individual owner must remain after any removal through the public
//! path.
use crate::errors::CargoError;
use crate::strutil;
use vstd::prelude::*;
use vstd::string::StringExecFns;

verus! {

/// An individual account. `gh_id` is the external identity; duplicate
/// rows for one login may exist, the highest `gh_id` counting as the
/// account most recently known.
#[derive(Debug)]
pub struct User {
    pub id: i32,
    pub gh_id: i32,
    pub gh_login: String,
}

/// A group identity, named after its external group.
#[derive(Debug)]
pub struct Team {
    pub id: i32,
    pub name: String,
}

/// An owner row: an individual or a team.
#[derive(Debug)]
pub enum Owner {
    User(User),
    Team(Team),
}

impl User {
    /// Copy of the row.
    pub fn duplicate(&self) -> (r: User)
        ensures
            r == *self,
    {
        User { id: self.id, gh_id: self.gh_id, gh_login: self.gh_login.clone() }
    }
}

impl Team {
    /// Copy of the row.
    pub fn duplicate(&self) -> (r: Team)
        ensures
            r == *self,
    {
        Team { id: self.id, name: self.name.clone() }
    }
}

impl Owner {
    /// The kind tag rendered in public owner views.
    pub fn kind(&self) -> (r: &'static str)
        ensures
            self is User ==> r@ == "user"@,
            self is Team ==> r@ == "team"@,
    {
        match self {
            Owner::User(_) => "user",
            Owner::Team(_) => "team",
        }
    }

    /// The display name: the login of a user, the group name of a team.
    pub fn display_name(&self) -> (r: String)
        ensures
            self matches Owner::User(u) ==> r@ == u.gh_login@,
            self matches Owner::Team(t) ==> r@ == t.name@,
    {
        match self {
            Owner::User(u) => u.gh_login.clone(),
            Owner::Team(t) => t.name.clone(),
        }
    }
}

/// The public view of one owner row.
#[derive(Debug)]
pub struct EncodableOwner {
    pub id: i32,
    pub name: String,
    pub kind: String,
}

/// Some user row carries identity `uid`.
pub open spec fn users_have_id(users: Seq<User>, uid: i32) -> bool {
    exists|i: int| 0 <= i < users.len() && (#[trigger] users[i]).id == uid
}

/// Some user row carries login `login`.
pub open spec fn users_have_login(users: Seq<User>, login: Seq<char>) -> bool {
    exists|i: int| 0 <= i < users.len() && (#[trigger] users[i]).gh_login@ == login
}

/// Some team row carries identity `tid`.
pub open spec fn teams_have_id(teams: Seq<Team>, tid: i32) -> bool {
    exists|i: int| 0 <= i < teams.len() && (#[trigger] teams[i]).id == tid
}

/// Some team row carries name `name`.
pub open spec fn teams_have_name(teams: Seq<Team>, name: Seq<char>) -> bool {
    exists|i: int| 0 <= i < teams.len() && (#[trigger] teams[i]).name@ == name
}

/// The current owners of one package.
#[derive(Debug)]
pub struct OwnerSet {
    pub users: Vec<User>,
    pub teams: Vec<Team>,
}

impl OwnerSet {
    /// Rows of each kind strictly ascending by identity, hence unique.
    pub open spec fn wf(self) -> bool {
        &&& forall|i: int, j: int|
            0 <= i < j < self.users@.len() ==> (#[trigger] self.users@[i]).id < (
            #[trigger] self.users@[j]).id
        &&& forall|i: int, j: int|
            0 <= i < j < self.teams@.len() ==> (#[trigger] self.teams@[i]).id < (
            #[trigger] self.teams@[j]).id
    }

    /// An owner set with no rows at all.
    pub fn new() -> (r: OwnerSet)
        ensures
            r.wf(),
            r.users@.len() == 0,
            r.teams@.len() == 0,
    {
        OwnerSet { users: Vec::new(), teams: Vec::new() }
    }

    /// How many individual owners the package has.
    pub fn count_individual_owners(&self) -> (r: usize)
        ensures
            r == self.users@.len(),
    {
        self.users.len()
    }

    /// Whether the account `uid` is a directly listed individual owner.
    pub fn is_user_owner(&self, uid: i32) -> (r: bool)
        ensures
            r == users_have_id(self.users@, uid),
    {
        let mut i: usize = 0;
        while i < self.users.len()
            invariant
                0 <= i <= self.users@.len(),
                forall|j: int| 0 <= j < i ==> (#[trigger] self.users@[j]).id != uid,
            decreases self.users@.len() - i,
        {
            if self.users[i].id == uid {
                return true;
            }
            i = i + 1;
        }
        false
    }

    /// Whether some user row carries this login.
    pub fn has_user_login(&self, login: &str) -> (r: bool)
        ensures
            r == users_have_login(self.users@, login@),
    {
        let mut i: usize = 0;
        while i < self.users.len()
            invariant
                0 <= i <= self.users@.len(),
                forall|j: int| 0 <= j < i ==> (#[trigger] self.users@[j]).gh_login@ != login@,
            decreases self.users@.len() - i,
        {
            if strutil::str_eq(self.users[i].gh_login.as_str(), login) {
                return true;
            }
            i = i + 1;
        }
        false
    }

    /// Add an individual owner row; a row with the same identity is an
    /// error and leaves the set unchanged.
    pub fn add_user(&mut self, user: User) -> (r: Result<(), CargoError>)
        requires
            old(self).wf(),
        ensures
            final(self).wf(),
            final(self).teams@ == old(self).teams@,
            r is Ok <==> !users_have_id(old(self).users@, user.id),
            r is Err ==> final(self).users@ == old(self).users@ && (r matches Err(
                CargoError::AlreadyOwner(l),
            ) && l@ == user.gh_login@),
            r is Ok ==> final(self).users@.len() == old(self).users@.len() + 1 && users_have_id(
                final(self).users@,
                user.id,
            ) && (exists|p: int|
                {
                    &&& 0 <= p <= old(self).users@.len()
                    &&& #[trigger] final(self).users@[p] == user
                    &&& forall|j: int|
                        0 <= j < p ==> final(self).users@[j] == #[trigger] old(self).users@[j]
                    &&& forall|j: int|
                        p <= j < old(self).users@.len() ==> final(self).users@[j + 1]
                            == #[trigger] old(self).users@[j]
                }),
    {
        let n = self.users.len();
        let mut p: usize = 0;
        while p < n && self.users[p].id < user.id
            invariant
                0 <= p <= n,
                n == self.users@.len(),
                *self == *old(self),
                forall|j: int| 0 <= j < p ==> (#[trigger] self.users@[j]).id < user.id,
            decreases n - p,
        {
            p = p + 1;
        }
        if p < n && self.users[p].id == user.id {
            return Err(CargoError::AlreadyOwner(user.gh_login));
        }
        proof {
            assert(forall|j: int|
                0 <= j < self.users@.len() ==> (#[trigger] self.users@[j]).id != user.id);
        }
        let ghost oldu = self.users@;
        self.users.insert(p, user);
        proof {
            let newu = self.users@;
            assert(newu[p as int].id == user.id);
            assert(forall|j: int| 0 <= j < p ==> newu[j] == #[trigger] oldu[j]);
            assert(forall|j: int| p <= j < oldu.len() ==> newu[j + 1] == #[trigger] oldu[j]);
            assert forall|i: int, j: int|
                0 <= i < j < newu.len() implies (#[trigger] newu[i]).id < (
            #[trigger] newu[j]).id by {
                if i < p && j == p {
                    assert(oldu[i].id < user.id);
                } else if i < p && j > p {
                    assert(newu[j] == oldu[j - 1]);
                } else if i == p && j > p {
                    assert(newu[j] == oldu[j - 1]);
                    if j - 1 > p {
                        assert(oldu[p as int].id < oldu[j - 1].id);
                    }
                } else if i > p {
                    assert(newu[i] == oldu[i - 1] && newu[j] == oldu[j - 1]);
                }
            }
        }
        Ok(())
    }

    /// Add a team owner row; a row with the same identity is an error
    /// and leaves the set unchanged.
    pub fn add_team(&mut self, team: Team) -> (r: Result<(), CargoError>)
        requires
            old(self).wf(),
        ensures
            final(self).wf(),
            final(self).users@ == old(self).users@,
            r is Ok <==> !teams_have_id(old(self).teams@, team.id),
            r is Err ==> final(self).teams@ == old(self).teams@ && (r matches Err(
                CargoError::AlreadyOwner(l),
            ) && l@ == team.name@),
            r is Ok ==> final(self).teams@.len() == old(self).teams@.len() + 1 && teams_have_id(
                final(self).teams@,
                team.id,
            ),
    {
        let n = self.teams.len();
        let mut p: usize = 0;
        while p < n && self.teams[p].id < team.id
            invariant
                0 <= p <= n,
                n == self.teams@.len(),
                *self == *old(self),
                forall|j: int| 0 <= j < p ==> (#[trigger] self.teams@[j]).id < team.id,
            decreases n - p,
        {
            p = p + 1;
        }
        if p < n && self.teams[p].id == team.id {
            return Err(CargoError::AlreadyOwner(team.name));
        }
        proof {
            assert(forall|j: int|
                0 <= j < self.teams@.len() ==> (#[trigger] self.teams@[j]).id != team.id);
        }
        let ghost oldt = self.teams@;
        self.teams.insert(p, team);
        proof {
            let newt = self.teams@;
            assert(newt[p as int].id == team.id);
            assert(forall|j: int| 0 <= j < p ==> newt[j] == #[trigger] oldt[j]);
            assert(forall|j: int| p <= j < oldt.len() ==> newt[j + 1] == #[trigger] oldt[j]);
            assert forall|i: int, j: int|
                0 <= i < j < newt.len() implies (#[trigger] newt[i]).id < (
            #[trigger] newt[j]).id by {
                if i < p && j == p {
                } else if i < p && j > p {
                    assert(newt[j] == oldt[j - 1]);
                } else if i == p && j > p {
                    assert(newt[j] == oldt[j - 1]);
                    if j - 1 > p {
                        assert(oldt[p as int].id < oldt[j - 1].id);
                    }
                } else if i > p {
                    assert(newt[i] == oldt[i - 1] && newt[j] == oldt[j - 1]);
                }
            }
        }
        Ok(())
    }

    /// Remove the owner row whose display name is `name`: the first
    /// user row by login, else the first team row by group name.
    /// Removing a user row when it is the only individual owner is
    /// refused.
    pub fn remove_named_owner(&mut self, name: &str) -> (r: Result<(), CargoError>)
        requires
            old(self).wf(),
        ensures
            final(self).wf(),
            r is Err ==> final(self).users@ == old(self).users@ && final(self).teams@ == old(self).teams@,
            users_have_login(old(self).users@, name@) && old(self).users@.len() == 1 ==> (
            r matches Err(CargoError::LastOwnerViolation)),
            users_have_login(old(self).users@, name@) && old(self).users@.len() > 1 ==> r is Ok
                && final(self).teams@ == old(self).teams@ && final(self).users@.len() == old(self).users@.len() - 1 && (exists|p: int|
                {
                    &&& 0 <= p < old(self).users@.len()
                    &&& (#[trigger] old(self).users@[p]).gh_login@ == name@
                    &&& forall|j: int|
                        0 <= j < p ==> (#[trigger] old(self).users@[j]).gh_login@ != name@
                    &&& forall|j: int|
                        0 <= j < p ==> final(self).users@[j] == #[trigger] old(self).users@[j]
                    &&& forall|j: int|
                        p < j < old(self).users@.len() ==> final(self).users@[j - 1]
                            == #[trigger] old(self).users@[j]
                }),
            !users_have_login(old(self).users@, name@) && teams_have_name(
                old(self).teams@,
                name@,
            ) ==> r is Ok && final(self).users@ == old(self).users@ && final(self).teams@.len() == old(self).teams@.len() - 1 && (exists|p: int|
                {
                    &&& 0 <= p < old(self).teams@.len()
                    &&& (#[trigger] old(self).teams@[p]).name@ == name@
                    &&& forall|j: int|
                        0 <= j < p ==> final(self).teams@[j] == #[trigger] old(self).teams@[j]
                    &&& forall|j: int|
                        p < j < old(self).teams@.len() ==> final(self).teams@[j - 1]
                            == #[trigger] old(self).teams@[j]
                }),
            !users_have_login(old(self).users@, name@) && !teams_have_name(
                old(self).teams@,
                name@,
            ) ==> (r matches Err(CargoError::UnknownOwner(n)) && n@ == name@),
            ({
                let pre = OwnerRows { users: old(self).users@, teams: old(self).teams@ };
                match remove_one_owner(pre, name@) {
                    RemoveOutcome::Removed(rows) => r is Ok && final(self).users@ == rows.users
                        && final(self).teams@ == rows.teams,
                    RemoveOutcome::LastOwner => r matches Err(CargoError::LastOwnerViolation),
                    RemoveOutcome::Unknown(missing) => (r matches Err(CargoError::UnknownOwner(l))
                        && l@ == missing),
                }
            }),
    {
        let mut i: usize = 0;
        let n = self.users.len();
        while i < n
            invariant
                0 <= i <= n,
                n == self.users@.len(),
                old(self).wf(),
                self.users@ == old(self).users@,
                self.teams@ == old(self).teams@,
                forall|j: int| 0 <= j < i ==> (#[trigger] old(self).users@[j]).gh_login@ != name@,
            decreases n - i,
        {
            if strutil::str_eq(self.users[i].gh_login.as_str(), name) {
                proof {
                    assert((old(self).users@[i as int]).gh_login@ == name@);
                }
                if n == 1 {
                    proof {
                        lemma_owner_set_wf_eq(*old(self), *self);
                    }
                    return Err(CargoError::LastOwnerViolation);
                }
                self.users.remove(i);
                proof {
                    let oldu = old(self).users@;
                    let newu = self.users@;
                    assert(forall|j: int| 0 <= j < i ==> newu[j] == #[trigger] oldu[j]);
                    assert(forall|j: int|
                        i < j < oldu.len() ==> newu[j - 1] == #[trigger] oldu[j]);
                    lemma_user_login_idx(oldu, name@);
                    assert(user_login_idx(oldu, name@) == i) by {
                        if user_login_idx(oldu, name@) < i {
                            assert((oldu[user_login_idx(oldu, name@)]).gh_login@ != name@);
                        }
                    }
                    assert(newu =~= oldu.remove(i as int));
                    assert forall|a: int, b: int|
                        0 <= a < b < newu.len() implies (#[trigger] newu[a]).id < (
                    #[trigger] newu[b]).id by {
                        let aa = if a < i {
                            a
                        } else {
                            a + 1
                        };
                        let bb = if b < i {
                            b
                        } else {
                            b + 1
                        };
                        assert(newu[a] == oldu[aa] && newu[b] == oldu[bb]);
                        assert((old(self).users@[aa]).id < (old(self).users@[bb]).id);
                    }
                }
                return Ok(());
            }
            i = i + 1;
        }
        let mut t: usize = 0;
        let tn = self.teams.len();
        while t < tn
            invariant
                0 <= t <= tn,
                tn == self.teams@.len(),
                old(self).wf(),
                self.users@ == old(self).users@,
                self.teams@ == old(self).teams@,
                forall|j: int| 0 <= j < self.users@.len() ==> (#[trigger] old(self).users@[j]).gh_login@ != name@,
                forall|j: int| 0 <= j < t ==> (#[trigger] old(self).teams@[j]).name@ != name@,
            decreases tn - t,
        {
            if strutil::str_eq(self.teams[t].name.as_str(), name) {
                proof {
                    assert((old(self).teams@[t as int]).name@ == name@);
                }
                self.teams.remove(t);
                proof {
                    let oldt = old(self).teams@;
                    let newt = self.teams@;
                    assert(forall|j: int| 0 <= j < t ==> newt[j] == #[trigger] oldt[j]);
                    assert(forall|j: int|
                        t < j < oldt.len() ==> newt[j - 1] == #[trigger] oldt[j]);
                    lemma_team_name_idx(oldt, name@);
                    assert(team_name_idx(oldt, name@) == t) by {
                        if team_name_idx(oldt, name@) < t {
                            assert((oldt[team_name_idx(oldt, name@)]).name@ != name@);
                        }
                    }
                    assert(newt =~= oldt.remove(t as int));
                    assert(!users_have_login(old(self).users@, name@));
                    assert forall|a: int, b: int|
                        0 <= a < b < newt.len() implies (#[trigger] newt[a]).id < (
                    #[trigger] newt[b]).id by {
                        let aa = if a < t {
                            a
                        } else {
                            a + 1
                        };
                        let bb = if b < t {
                            b
                        } else {
                            b + 1
                        };
                        assert(newt[a] == oldt[aa] && newt[b] == oldt[bb]);
                        assert((old(self).teams@[aa]).id < (old(self).teams@[bb]).id);
                    }
                }
                return Ok(());
            }
            t = t + 1;
        }
        proof {
            lemma_owner_set_wf_eq(*old(self), *self);
        }
        Err(CargoError::UnknownOwner(name.to_owned()))
    }

    /// The owner rows as one sequence: user rows first, then team rows,
    /// each in identity order.
    pub fn owners(&self) -> (r: Vec<Owner>)
        ensures
            r@.len() == self.users@.len() + self.teams@.len(),
            forall|i: int|
                0 <= i < self.users@.len() ==> ((#[trigger] r@[i]) matches Owner::User(u) && u.id
                    == self.users@[i].id && u.gh_login@ == self.users@[i].gh_login@),
            forall|i: int|
                self.users@.len() <= i < r@.len() ==> ((#[trigger] r@[i]) matches Owner::Team(t)
                    && t.id == self.teams@[i - self.users@.len()].id && t.name@ == self.teams@[i
                    - self.users@.len()].name@),
    {
        let mut r: Vec<Owner> = Vec::new();
        let mut i: usize = 0;
        while i < self.users.len()
            invariant
                0 <= i <= self.users@.len(),
                r@.len() == i,
                forall|j: int|
                    0 <= j < i ==> ((#[trigger] r@[j]) matches Owner::User(u) && u.id
                        == self.users@[j].id && u.gh_login@ == self.users@[j].gh_login@),
            decreases self.users@.len() - i,
        {
            r.push(Owner::User(self.users[i].duplicate()));
            i = i + 1;
        }
        let mut t: usize = 0;
        while t < self.teams.len()
            invariant
                0 <= t <= self.teams@.len(),
                r@.len() == self.users@.len() + t,
                forall|j: int|
                    0 <= j < self.users@.len() ==> ((#[trigger] r@[j]) matches Owner::User(u)
                        && u.id == self.users@[j].id && u.gh_login@ == self.users@[j].gh_login@),
                forall|j: int|
                    self.users@.len() <= j < r@.len() ==> ((#[trigger] r@[j]) matches Owner::Team(
                        tm,
                    ) && tm.id == self.teams@[j - self.users@.len()].id && tm.name@
                        == self.teams@[j - self.users@.len()].name@),
            decreases self.teams@.len() - t,
        {
            r.push(Owner::Team(self.teams[t].duplicate()));
            t = t + 1;
        }
        r
    }
}

/// Well-formedness carries across equal row lists.
proof fn lemma_owner_set_wf_eq(a: OwnerSet, b: OwnerSet)
    requires
        a.wf(),
        b.users@ == a.users@,
        b.teams@ == a.teams@,
    ensures
        b.wf(),
{
    assert forall|i: int, j: int|
        0 <= i < j < b.users@.len() implies (#[trigger] b.users@[i]).id < (
    #[trigger] b.users@[j]).id by {
        assert((a.users@[i]).id < (a.users@[j]).id);
    }
    assert forall|i: int, j: int|
        0 <= i < j < b.teams@.len() implies (#[trigger] b.teams@[i]).id < (
    #[trigger] b.teams@[j]).id by {
        assert((a.teams@[i]).id < (a.teams@[j]).id);
    }
}

impl OwnerSet {
    /// Copy of the whole owner set.
    pub fn duplicate(&self) -> (r: OwnerSet)
        ensures
            r.users@ == self.users@,
            r.teams@ == self.teams@,
    {
        let mut users: Vec<User> = Vec::new();
        let mut i: usize = 0;
        while i < self.users.len()
            invariant
                0 <= i <= self.users@.len(),
                users@.len() == i,
                forall|j: int| 0 <= j < i ==> #[trigger] users@[j] == self.users@[j],
            decreases self.users@.len() - i,
        {
            users.push(self.users[i].duplicate());
            i = i + 1;
        }
        let mut teams: Vec<Team> = Vec::new();
        let mut t: usize = 0;
        while t < self.teams.len()
            invariant
                0 <= t <= self.teams@.len(),
                teams@.len() == t,
                forall|j: int| 0 <= j < t ==> #[trigger] teams@[j] == self.teams@[j],
            decreases self.teams@.len() - t,
        {
            teams.push(self.teams[t].duplicate());
            t = t + 1;
        }
        proof {
            assert(users@ =~= self.users@);
            assert(teams@ =~= self.teams@);
        }
        OwnerSet { users, teams }
    }
}

impl OwnerSet {
    /// The public views of the individual owners, in identity order.
    pub fn user_views(&self) -> (r: Vec<EncodableOwner>)
        ensures
            r@.len() == self.users@.len(),
            forall|i: int|
                0 <= i < r@.len() ==> (#[trigger] r@[i]).id == self.users@[i].id && r@[i].name@
                    == self.users@[i].gh_login@ && r@[i].kind@ == "user"@,
    {
        let mut r: Vec<EncodableOwner> = Vec::new();
        let mut i: usize = 0;
        while i < self.users.len()
            invariant
                0 <= i <= self.users@.len(),
                r@.len() == i,
                forall|j: int|
                    0 <= j < i ==> (#[trigger] r@[j]).id == self.users@[j].id && r@[j].name@
                        == self.users@[j].gh_login@ && r@[j].kind@ == "user"@,
            decreases self.users@.len() - i,
        {
            r.push(
                EncodableOwner {
                    id: self.users[i].id,
                    name: self.users[i].gh_login.clone(),
                    kind: "user".to_owned(),
                },
            );
            i = i + 1;
        }
        r
    }

    /// The public views of the team owners, in identity order.
    pub fn team_views(&self) -> (r: Vec<EncodableOwner>)
        ensures
            r@.len() == self.teams@.len(),
            forall|i: int|
                0 <= i < r@.len() ==> (#[trigger] r@[i]).id == self.teams@[i].id && r@[i].name@
                    == self.teams@[i].name@ && r@[i].kind@ == "team"@,
    {
        let mut r: Vec<EncodableOwner> = Vec::new();
        let mut i: usize = 0;
        while i < self.teams.len()
            invariant
                0 <= i <= self.teams@.len(),
                r@.len() == i,
                forall|j: int|
                    0 <= j < i ==> (#[trigger] r@[j]).id == self.teams@[j].id && r@[j].name@
                        == self.teams@[j].name@ && r@[j].kind@ == "team"@,
            decreases self.teams@.len() - i,
        {
            r.push(
                EncodableOwner {
                    id: self.teams[i].id,
                    name: self.teams[i].name.clone(),
                    kind: "team".to_owned(),
                },
            );
            i = i + 1;
        }
        r
    }
}

impl OwnerSet {
    /// Check well-formedness at run time.
    pub fn is_well_formed(&self) -> (r: bool)
        ensures
            r == self.wf(),
    {
        let mut i: usize = 0;
        while i < self.users.len()
            invariant
                0 <= i <= self.users@.len(),
                forall|a: int, b: int|
                    0 <= a < b < self.users@.len() && a < i ==> (#[trigger] self.users@[a]).id < (
                    #[trigger] self.users@[b]).id,
            decreases self.users@.len() - i,
        {
            let mut j: usize = i + 1;
            while j < self.users.len()
                invariant
                    0 <= i < j <= self.users@.len(),
                    forall|b: int|
                        i < b < j ==> (#[trigger] self.users@[b]).id > self.users@[i as int].id,
                decreases self.users@.len() - j,
            {
                if self.users[i].id >= self.users[j].id {
                    return false;
                }
                j = j + 1;
            }
            i = i + 1;
        }
        let mut i: usize = 0;
        while i < self.teams.len()
            invariant
                0 <= i <= self.teams@.len(),
                forall|a: int, b: int|
                    0 <= a < b < self.users@.len() ==> (#[trigger] self.users@[a]).id < (
                    #[trigger] self.users@[b]).id,
                forall|a: int, b: int|
                    0 <= a < b < self.teams@.len() && a < i ==> (#[trigger] self.teams@[a]).id < (
                    #[trigger] self.teams@[b]).id,
            decreases self.teams@.len() - i,
        {
            let mut j: usize = i + 1;
            while j < self.teams.len()
                invariant
                    0 <= i < j <= self.teams@.len(),
                    forall|a: int, b: int|
                        0 <= a < b < self.users@.len() ==> (#[trigger] self.users@[a]).id < (
                        #[trigger] self.users@[b]).id,
                    forall|b: int|
                        i < b < j ==> (#[trigger] self.teams@[b]).id > self.teams@[i as int].id,
                decreases self.teams@.len() - j,
            {
                if self.teams[i].id >= self.teams[j].id {
                    return false;
                }
                j = j + 1;
            }
            i = i + 1;
        }
        true
    }
}

/// The rows of an owner set, as one mathematical value.
#[verifier::ext_equal]
pub ghost struct OwnerRows {
    pub users: Seq<User>,
    pub teams: Seq<Team>,
}

/// The outcome of removing named owners: the remaining rows, or the
/// first failure.
pub ghost enum RemoveOutcome {
    Removed(OwnerRows),
    LastOwner,
    Unknown(Seq<char>),
}

/// First user row carrying `login`, or the length when absent.
pub open spec fn user_login_idx(users: Seq<User>, login: Seq<char>) -> int
    decreases users.len(),
{
    if users.len() == 0 {
        0
    } else if users[0].gh_login@ == login {
        0
    } else {
        1 + user_login_idx(users.drop_first(), login)
    }
}

/// First team row carrying `name`, or the length when absent.
pub open spec fn team_name_idx(teams: Seq<Team>, name: Seq<char>) -> int
    decreases teams.len(),
{
    if teams.len() == 0 {
        0
    } else if teams[0].name@ == name {
        0
    } else {
        1 + team_name_idx(teams.drop_first(), name)
    }
}

/// `user_login_idx` is the least matching index and is in bounds
/// exactly when the login occurs.
pub proof fn lemma_user_login_idx(users: Seq<User>, login: Seq<char>)
    ensures
        0 <= user_login_idx(users, login) <= users.len(),
        forall|j: int|
            0 <= j < user_login_idx(users, login) ==> (#[trigger] users[j]).gh_login@ != login,
        user_login_idx(users, login) < users.len() ==> users[user_login_idx(
            users,
            login,
        )].gh_login@ == login,
        users_have_login(users, login) <==> user_login_idx(users, login) < users.len(),
    decreases users.len(),
{
    if users.len() > 0 && users[0].gh_login@ != login {
        let d = users.drop_first();
        lemma_user_login_idx(d, login);
        assert(user_login_idx(users, login) == 1 + user_login_idx(d, login));
        assert forall|j: int|
            0 <= j < user_login_idx(users, login) implies (#[trigger] users[j]).gh_login@
            != login by {
            if j > 0 {
                assert(users[j] == d[j - 1]);
                assert(d[j - 1].gh_login@ != login);
            }
        }
        if user_login_idx(users, login) < users.len() {
            assert(users[user_login_idx(users, login)] == d[user_login_idx(d, login)]);
        }
        if users_have_login(users, login) {
            let w = choose|w: int|
                0 <= w < users.len() && (#[trigger] users[w]).gh_login@ == login;
            assert(users[w] == d[w - 1]);
            assert(users_have_login(d, login));
        }
        if users_have_login(d, login) {
            let w = choose|w: int| 0 <= w < d.len() && (#[trigger] d[w]).gh_login@ == login;
            assert(users[w + 1] == d[w]);
            assert(users_have_login(users, login));
        }
    } else if users.len() > 0 {
        assert(users_have_login(users, login));
    } else {
        if users_have_login(users, login) {
            let w = choose|w: int|
                0 <= w < users.len() && (#[trigger] users[w]).gh_login@ == login;
        }
    }
}

/// `team_name_idx` is the least matching index and is in bounds exactly
/// when the name occurs.
pub proof fn lemma_team_name_idx(teams: Seq<Team>, name: Seq<char>)
    ensures
        0 <= team_name_idx(teams, name) <= teams.len(),
        forall|j: int|
            0 <= j < team_name_idx(teams, name) ==> (#[trigger] teams[j]).name@ != name,
        team_name_idx(teams, name) < teams.len() ==> teams[team_name_idx(teams, name)].name@
            == name,
        teams_have_name(teams, name) <==> team_name_idx(teams, name) < teams.len(),
    decreases teams.len(),
{
    if teams.len() > 0 && teams[0].name@ != name {
        let d = teams.drop_first();
        lemma_team_name_idx(d, name);
        assert(team_name_idx(teams, name) == 1 + team_name_idx(d, name));
        assert forall|j: int|
            0 <= j < team_name_idx(teams, name) implies (#[trigger] teams[j]).name@ != name by {
            if j > 0 {
                assert(teams[j] == d[j - 1]);
                assert(d[j - 1].name@ != name);
            }
        }
        if team_name_idx(teams, name) < teams.len() {
            assert(teams[team_name_idx(teams, name)] == d[team_name_idx(d, name)]);
        }
        if teams_have_name(teams, name) {
            let w = choose|w: int| 0 <= w < teams.len() && (#[trigger] teams[w]).name@ == name;
            assert(teams[w] == d[w - 1]);
            assert(teams_have_name(d, name));
        }
        if teams_have_name(d, name) {
            let w = choose|w: int| 0 <= w < d.len() && (#[trigger] d[w]).name@ == name;
            assert(teams[w + 1] == d[w]);
            assert(teams_have_name(teams, name));
        }
    } else if teams.len() > 0 {
        assert(teams_have_name(teams, name));
    } else {
        if teams_have_name(teams, name) {
            let w = choose|w: int| 0 <= w < teams.len() && (#[trigger] teams[w]).name@ == name;
        }
    }
}

/// Removing one named owner: the first user row by login, else the
/// first team row by group name; the last user row is protected.
pub open spec fn remove_one_owner(rows: OwnerRows, name: Seq<char>) -> RemoveOutcome {
    if users_have_login(rows.users, name) {
        if rows.users.len() == 1 {
            RemoveOutcome::LastOwner
        } else {
            RemoveOutcome::Removed(
                OwnerRows {
                    users: rows.users.remove(user_login_idx(rows.users, name)),
                    teams: rows.teams,
                },
            )
        }
    } else if teams_have_name(rows.teams, name) {
        RemoveOutcome::Removed(
            OwnerRows {
                users: rows.users,
                teams: rows.teams.remove(team_name_idx(rows.teams, name)),
            },
        )
    } else {
        RemoveOutcome::Unknown(name)
    }
}

/// Removing named owners one request at a time, stopping at the first
/// failure.
pub open spec fn remove_owner_batch(rows: OwnerRows, names: Seq<Seq<char>>) -> RemoveOutcome
    decreases names.len(),
{
    if names.len() == 0 {
        RemoveOutcome::Removed(rows)
    } else {
        match remove_one_owner(rows, names[0]) {
            RemoveOutcome::Removed(rest) => remove_owner_batch(rest, names.drop_first()),
            RemoveOutcome::LastOwner => RemoveOutcome::LastOwner,
            RemoveOutcome::Unknown(n) => RemoveOutcome::Unknown(n),
        }
    }
}

} // verus!





