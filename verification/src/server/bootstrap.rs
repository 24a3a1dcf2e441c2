//! The way in to a server that nobody is enrolled on.

use vstd::prelude::*;

use crate::proto::msg::Role;
use crate::server::database::{self, Records};
use crate::server::invite::DEFAULT_TTL;
use crate::server::state::{State, World};

verus! {

/// No unused code could be drawn.
#[derive(Debug)]
pub struct NoCode;

/// An Admin invite is minted whenever the allowlist is empty, since otherwise
/// there is no way in, and every outstanding invite is invalidated. The result is
/// `None` once anyone is enrolled.
pub fn ensure_invite(state: &mut State, now: u64) -> (code: Result<Option<String>, NoCode>)
    requires
        old(state).wf(),
        now + DEFAULT_TTL <= u64::MAX,
    ensures
        final(state).wf(),
        ({
            let revoked = Records {
                invites: database::redeemed(old(state)@.records.invites),
                ..old(state)@.records
            };
            if old(state)@.records.users.len() > 0 {
                final(state)@ == old(state)@ && code == Ok::<Option<String>, NoCode>(None)
            } else {
                &&& final(state)@ == (World { records: final(state)@.records, ..old(state)@ })
                &&& match code {
                    Ok(Some(code)) => database::is_creation(
                        revoked,
                        final(state)@.records,
                        Role::Admin,
                        (now + DEFAULT_TTL) as u64,
                        Some(code@),
                    ),
                    Ok(None) => false,
                    Err(_) => database::is_creation(
                        revoked,
                        final(state)@.records,
                        Role::Admin,
                        (now + DEFAULT_TTL) as u64,
                        None,
                    ),
                }
            }
        }),
{
    if state.database().user_count() > 0 {
        return Ok(None);
    }
    match state.replace_invites(Role::Admin, DEFAULT_TTL, now) {
        Some(minted) => Ok(Some(minted.code)),
        None => Err(NoCode),
    }
}

} // verus!
