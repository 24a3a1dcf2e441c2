//! Which role may do what, and to whom.

use vstd::prelude::*;

use crate::proto::msg::{ErrCode, Resp, Role};

verus! {

/// A role's name.
pub open spec fn role_name(role: Role) -> Seq<char> {
    match role {
        Role::User => "User"@,
        Role::Manager => "Manager"@,
        Role::Admin => "Admin"@,
    }
}

/// A role's name.
pub fn name_of(role: Role) -> (name: &'static str)
    ensures
        name@ == role_name(role),
{
    match role {
        Role::User => "User",
        Role::Manager => "Manager",
        Role::Admin => "Admin",
    }
}

/// What is said to one who would act on a rank not below their own.
pub open spec fn is_off_limits(denied: Resp, actor: Role, target: Role) -> bool {
    denied matches Resp::Failed { code, msg } && code == ErrCode::Denied && msg@ == role_name(actor)
        + " cannot act on "@ + role_name(target)
}

/// A role may only act on strictly lower ranks.
pub fn require_rank_above(actor: Role, target: Role) -> (allowed: Result<(), Resp>)
    ensures
        match allowed {
            Ok(_) => actor.ranked() > target.ranked(),
            Err(denied) => actor.ranked() <= target.ranked() && is_off_limits(
                denied,
                actor,
                target,
            ),
        },
{
    if actor.rank() > target.rank() {
        return Ok(());
    }
    let mut msg = name_of(actor).to_string();
    msg.append(" cannot act on ");
    msg.append(name_of(target));
    Err(Resp::Failed { code: ErrCode::Denied, msg })
}

/// What is said to one whose rank a capability is above.
pub open spec fn is_denial(denied: Resp, actor: Role, needed: Role) -> bool {
    denied matches Resp::Failed { code, msg } && code == ErrCode::Denied && msg@ == role_name(
        needed,
    ) + " is required, "@ + role_name(actor) + " is not enough"@
}

/// A capability needs its own rank or a higher one.
pub fn require_role(actor: Role, needed: Role) -> (allowed: Result<(), Resp>)
    ensures
        match allowed {
            Ok(_) => actor.ranked() >= needed.ranked(),
            Err(denied) => actor.ranked() < needed.ranked() && is_denial(denied, actor, needed),
        },
{
    if actor.rank() >= needed.rank() {
        return Ok(());
    }
    let mut msg = name_of(needed).to_string();
    msg.append(" is required, ");
    msg.append(name_of(actor));
    msg.append(" is not enough");
    Err(Resp::Failed { code: ErrCode::Denied, msg })
}

/// Nobody may act on their own rank, so that no admin can remove another, and of
/// two roles at most one may act on the other.
pub proof fn nobody_acts_on_an_equal(one: Role, other: Role)
    ensures
        !(one.ranked() > one.ranked()),
        !(one.ranked() > other.ranked() && other.ranked() > one.ranked()),
        one != other ==> one.ranked() > other.ranked() || other.ranked() > one.ranked(),
{
}

/// Of what takes a rank, each role may do what its own and the lower ones may: a user what
/// takes a user, a manager that and what takes a manager, an admin all of it.
pub proof fn a_rank_allows_what_lower_ones_do(actor: Role, needed: Role)
    ensures
        actor == Role::Admin ==> actor.ranked() >= needed.ranked(),
        actor == Role::Manager ==> (actor.ranked() >= needed.ranked() <==> needed != Role::Admin),
        actor == Role::User ==> (actor.ranked() >= needed.ranked() <==> needed == Role::User),
{
}

/// Whoever is refused is told which rank it takes and which they have, and whoever would
/// act on somebody not below them, which rank is out of their reach.
pub proof fn a_refusal_names_both_ranks(denied: Resp, actor: Role, other: Role)
    ensures
        is_denial(denied, actor, other) ==> (denied matches Resp::Failed { code, msg } && code
            == ErrCode::Denied && msg@ == (match other {
            Role::User => "User"@,
            Role::Manager => "Manager"@,
            Role::Admin => "Admin"@,
        }) + " is required, "@ + (match actor {
            Role::User => "User"@,
            Role::Manager => "Manager"@,
            Role::Admin => "Admin"@,
        }) + " is not enough"@),
        is_off_limits(denied, actor, other) ==> (denied matches Resp::Failed { code, msg } && code
            == ErrCode::Denied && msg@ == (match actor {
            Role::User => "User"@,
            Role::Manager => "Manager"@,
            Role::Admin => "Admin"@,
        }) + " cannot act on "@ + (match other {
            Role::User => "User"@,
            Role::Manager => "Manager"@,
            Role::Admin => "Admin"@,
        })),
{
}

} // verus!
