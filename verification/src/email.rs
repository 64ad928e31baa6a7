//! The message that carries an invitation key to its addressee.

use crate::clock::{local_text, localize};
use vstd::prelude::*;
use vstd::string::StringExecFns;

verus! {

/// An invitation to register, or to reset a password, as the store holds it.
#[derive(Debug)]
pub struct Invitation {
    /// The key, as text.
    pub id: String,
    pub email: String,
    /// When the key expires, in seconds since the epoch.
    pub expires_at: i64,
    pub forgot_pw: bool,
    /// The name of the addressee's time zone.
    pub tz: String,
}

/// A message ready to be handed to a mail service.
#[derive(Debug)]
pub struct Email {
    pub sender: String,
    pub from: String,
    pub to: String,
    pub subject: String,
    pub body: String,
}

/// How the expiry is written.
pub open spec fn expiry_pattern() -> Seq<char> {
    "%Y/%m/%d %a %H:%M"@
}

/// The subject line for an application called `app`.
pub open spec fn subject_text(forgot_pw: bool, app: Seq<char>) -> Seq<char> {
    if forgot_pw {
        "Reset Password of"@ + " "@ + app
    } else {
        "Invitation to"@ + " "@ + app
    }
}

/// The body: the key, and when it expires in the addressee's zone.
pub open spec fn body_text(
    forgot_pw: bool,
    key: Seq<char>,
    expires: Seq<char>,
    tz: Seq<char>,
) -> Seq<char> {
    "Your "@ + (if forgot_pw {
        "reset"@
    } else {
        "register"@
    }) + " key is: <br>\n            <span style=\"font-size: x-large; font-weight: bold;\">"@ + key
        + "</span> <br>\n            The key expires on: <br>\n            <span style=\"font-weight: bold;\">"@
        + expires + " in "@ + tz + "</span> <br>\n            "@
}

impl Email {
    /// The message for an invitation, given the expiry as the addressee's
    /// clocks show it.
    pub fn compose(invitation: &Invitation, app: &str, from: &str, expires: &str) -> (r: Email)
        ensures
            r.sender@ == app@,
            r.from@ == from@,
            r.to@ == invitation.email@,
            r.subject@ == subject_text(invitation.forgot_pw, app@),
            r.body@ == body_text(invitation.forgot_pw, invitation.id@, expires@, invitation.tz@),
    {
        let mut subject = if invitation.forgot_pw {
            String::from_str("Reset Password of")
        } else {
            String::from_str("Invitation to")
        };
        subject.append(" ");
        subject.append(app);
        let mut body = String::from_str("Your ");
        if invitation.forgot_pw {
            body.append("reset");
        } else {
            body.append("register");
        }
        body.append(
            " key is: <br>\n            <span style=\"font-size: x-large; font-weight: bold;\">",
        );
        body.append(invitation.id.as_str());
        body.append(
            "</span> <br>\n            The key expires on: <br>\n            <span style=\"font-weight: bold;\">",
        );
        body.append(expires);
        body.append(" in ");
        body.append(invitation.tz.as_str());
        body.append("</span> <br>\n            ");
        Email {
            sender: String::from_str(app),
            from: String::from_str(from),
            to: invitation.email.clone(),
            subject,
            body,
        }
    }

    /// The message for an invitation; none where the invitation's zone is
    /// unknown or its expiry cannot be written.
    pub fn invite(invitation: &Invitation, app: &str, from: &str) -> (r: Option<Email>)
        ensures
            match r {
                Some(mail) => {
                    &&& local_text(invitation.tz@, invitation.expires_at, expiry_pattern())
                        matches Some(expires)
                    &&& mail.sender@ == app@
                    &&& mail.from@ == from@
                    &&& mail.to@ == invitation.email@
                    &&& mail.subject@ == subject_text(invitation.forgot_pw, app@)
                    &&& mail.body@ == body_text(
                        invitation.forgot_pw,
                        invitation.id@,
                        expires,
                        invitation.tz@,
                    )
                },
                None => local_text(invitation.tz@, invitation.expires_at, expiry_pattern()) is None,
            },
    {
        match localize(invitation.tz.as_str(), invitation.expires_at, "%Y/%m/%d %a %H:%M") {
            Some(expires) => Some(Email::compose(invitation, app, from, expires.as_str())),
            None => None,
        }
    }
}

} // verus!
