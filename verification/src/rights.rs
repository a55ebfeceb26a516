//! The rights-computation algorithm: given an actor and a package's
//! owner set, decide whether the actor may mutate the package's
//! metadata.
//!
//! Team membership is the business of an external collaborator; its
//! answers arrive as the list of team identities in which the actor
//! holds publish-level membership, so the decision itself is a pure
//! function.
use crate::owners::users_have_id;
use crate::owners::OwnerSet;
use vstd::prelude::*;

verus! {

/// An actor's right level over a package: `NoAccess` bars any
/// metadata mutation, `Publish` permits owner edits, yank and
/// build-info recording.
#[derive(Clone, Copy, PartialEq, Eq, Structural, Debug)]
pub enum Rights {
    NoAccess,
    Publish,
}

impl Rights {
    /// Whether this level grants at least publish access.
    pub fn can_publish(&self) -> (r: bool)
        ensures
            r == (self is Publish),
    {
        match self {
            Rights::NoAccess => false,
            Rights::Publish => true,
        }
    }
}

/// The grant list names team `id`.
pub open spec fn grants_have(grants: Seq<i32>, id: i32) -> bool {
    exists|g: int| 0 <= g < grants.len() && #[trigger] grants[g] == id
}

/// Some team owner is one the actor may publish through.
pub open spec fn team_grant(teams: Seq<crate::owners::Team>, grants: Seq<i32>) -> bool {
    exists|i: int| 0 <= i < teams.len() && grants_have(grants, (#[trigger] teams[i]).id)
}

/// The actor holds Publish-level rights over this owner set: a directly
/// listed individual owner, or a member with publish rights of some
/// team owner.
pub open spec fn has_publish(actor: i32, owners: OwnerSet, grants: Seq<i32>) -> bool {
    users_have_id(owners.users@, actor) || team_grant(owners.teams@, grants)
}

/// Compute the actor's right level over an owner set. `grants` lists
/// the team identities in which the external membership lookup found
/// publish-level membership for this actor.
pub fn rights(actor: i32, owners: &OwnerSet, grants: &Vec<i32>) -> (r: Rights)
    ensures
        r is Publish <==> has_publish(actor, *owners, grants@),
{
    if owners.is_user_owner(actor) {
        return Rights::Publish;
    }
    let mut i: usize = 0;
    while i < owners.teams.len()
        invariant
            0 <= i <= owners.teams@.len(),
            forall|j: int| 0 <= j < i ==> !grants_have(grants@, (#[trigger] owners.teams@[j]).id),
        decreases owners.teams@.len() - i,
    {
        let tid = owners.teams[i].id;
        let mut g: usize = 0;
        let mut member = false;
        while g < grants.len()
            invariant
                0 <= g <= grants@.len(),
                tid == owners.teams@[i as int].id,
                i < owners.teams@.len(),
                member ==> grants_have(grants@, tid),
                !member ==> forall|k: int| 0 <= k < g ==> #[trigger] grants@[k] != tid,
            decreases grants@.len() - g,
        {
            if grants[g] == tid {
                member = true;
                g = grants.len();
            } else {
                g = g + 1;
            }
        }
        if member {
            return Rights::Publish;
        }
        i = i + 1;
    }
    Rights::NoAccess
}

/// Removal keeps the survivors' rights: any individual owner still
/// listed after an owner-list edit resolves to Publish, whatever the
/// team-membership lookup answers.
pub proof fn lemma_remaining_owner_rights(actor: i32, owners: OwnerSet, grants: Seq<i32>)
    requires
        users_have_id(owners.users@, actor),
    ensures
        has_publish(actor, owners, grants),
{
}

} // verus!

