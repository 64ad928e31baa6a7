//! Invitations: who may be invited to register, who may reset a password, and
//! for how long an invitation is good.

use crate::email::Invitation;
use crate::rejection::Rejection;
use vstd::prelude::*;

verus! {

/// How long an invitation is good for, in seconds.
pub const INVITATION_SECONDS: i64 = 3600;

/// A request for an invitation: to register, or to reset a forgotten password.
#[derive(Debug)]
pub struct ReqBody {
    pub email: String,
    pub forgot_pw: bool,
    /// The name of the addressee's time zone.
    pub tz: String,
}

/// The end of an hour that begins at `now`, as far as time goes.
pub open spec fn expiry(now: i64) -> i64 {
    if now <= i64::MAX - INVITATION_SECONDS {
        (now + INVITATION_SECONDS) as i64
    } else {
        i64::MAX
    }
}

impl ReqBody {
    /// The invitation, given whether the address is registered, a fresh key
    /// and the present time. Only who is not registered is invited to
    /// register, and only who is registered may reset a password. The
    /// invitation is good for an hour.
    pub fn accept(&self, user_exists: bool, key: String, now: i64) -> (r: Result<
        Invitation,
        Rejection,
    >)
        ensures
            match r {
                Ok(invitation) => {
                    &&& user_exists == self.forgot_pw
                    &&& invitation.id == key
                    &&& invitation.email == self.email
                    &&& invitation.expires_at == expiry(now)
                    &&& invitation.forgot_pw == self.forgot_pw
                    &&& invitation.tz == self.tz
                },
                Err(Rejection::UserExists) => user_exists && !self.forgot_pw,
                Err(Rejection::NoSuchUser) => !user_exists && self.forgot_pw,
                Err(_) => false,
            },
    {
        if user_exists && !self.forgot_pw {
            return Err(Rejection::UserExists);
        }
        if !user_exists && self.forgot_pw {
            return Err(Rejection::NoSuchUser);
        }
        let expires_at = if now <= i64::MAX - INVITATION_SECONDS {
            now + INVITATION_SECONDS
        } else {
            i64::MAX
        };
        Ok(
            Invitation {
                id: key,
                email: self.email.clone(),
                expires_at,
                forgot_pw: self.forgot_pw,
                tz: self.tz.clone(),
            },
        )
    }
}

} // verus!
