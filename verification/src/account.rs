//! The rules on what a user may change about their account.

use crate::rejection::Rejection;
use vstd::prelude::*;
use vstd::utf8::encode_utf8;

verus! {

/// The scale at which a user looks at time.
#[derive(Clone, Copy, Debug, PartialEq, Eq, Structural)]
pub enum Timescale {
    Year,
    Quarter,
    Month,
    Week,
    Day,
    Hours,
    Hour,
    Minutes,
    Minute,
    Second,
}

impl Timescale {
    /// The scale's short name.
    pub open spec fn short_name(self) -> Seq<char> {
        match self {
            Timescale::Year => "Y"@,
            Timescale::Quarter => "Q"@,
            Timescale::Month => "M"@,
            Timescale::Week => "W"@,
            Timescale::Day => "D"@,
            Timescale::Hours => "6h"@,
            Timescale::Hour => "h"@,
            Timescale::Minutes => "15m"@,
            Timescale::Minute => "m"@,
            Timescale::Second => "s"@,
        }
    }

    /// The scale's short name, as the store holds it.
    pub fn as_str(&self) -> (r: &'static str)
        ensures
            r@ == self.short_name(),
    {
        match self {
            Timescale::Year => "Y",
            Timescale::Quarter => "Q",
            Timescale::Month => "M",
            Timescale::Week => "W",
            Timescale::Day => "D",
            Timescale::Hours => "6h",
            Timescale::Hour => "h",
            Timescale::Minutes => "15m",
            Timescale::Minute => "m",
            Timescale::Second => "s",
        }
    }
}

/// A change of password: the current one, the new one, and the new one again.
#[derive(Debug)]
pub struct PasswordSet {
    pub old: String,
    pub new: String,
    pub confirmation: String,
}

/// The least number of bytes of a password.
pub const MIN_PASSWORD_LEN: usize = 8;

impl PasswordSet {
    /// Whether the change may go ahead, given whether `old` proved to be the
    /// current password. The current password is looked at first, then the
    /// length of the new one, then the confirmation.
    pub fn verify(&self, old_matches: bool) -> (r: Result<(), Rejection>)
        ensures
            r == if !old_matches {
                Err::<(), Rejection>(Rejection::WrongPassword)
            } else if encode_utf8(self.new@).len() < MIN_PASSWORD_LEN {
                Err(Rejection::ShortPassword { least: MIN_PASSWORD_LEN })
            } else if self.new@ != self.confirmation@ {
                Err(Rejection::Mismatch)
            } else {
                Ok(())
            },
    {
        if !old_matches {
            return Err(Rejection::WrongPassword);
        }
        if self.new.as_str().as_bytes().len() < MIN_PASSWORD_LEN {
            return Err(Rejection::ShortPassword { least: MIN_PASSWORD_LEN });
        }
        if self.new != self.confirmation {
            return Err(Rejection::Mismatch);
        }
        Ok(())
    }
}

/// A change of who may see or edit what the actor owns: the user by name, and
/// the grant, where none takes every grant away.
#[derive(Debug)]
pub struct ReqPermission {
    pub user: String,
    pub permission: Option<bool>,
}

/// A span of the day that a user works in, as they ask for it.
#[derive(Clone, Copy, Debug, PartialEq, Eq, Structural)]
pub struct ReqAllocation {
    pub open_h: i32,
    pub open_m: i32,
    pub hours: i32,
}

/// A span of the day that a user works in: from `open_h:open_m` for `hours` hours.
#[derive(Clone, Copy, Debug, PartialEq, Eq, Structural)]
pub struct Allocation {
    pub owner: i32,
    pub open_h: u32,
    pub open_m: u32,
    pub hours: i32,
}

impl ReqAllocation {
    /// The opening time is a time of day.
    pub open spec fn opens_in_the_day(self) -> bool {
        0 <= self.open_h < 24 && 0 <= self.open_m < 60
    }

    /// The allocation for `owner`, where the opening time is a time of day and
    /// the hours are between one and twenty-four; the time is looked at first.
    pub fn verify(&self, owner: i32) -> (r: Result<Allocation, Rejection>)
        ensures
            r == if !self.opens_in_the_day() {
                Err::<Allocation, Rejection>(Rejection::InvalidTime)
            } else if !(1 <= self.hours <= 24) {
                Err(Rejection::InvalidHours)
            } else {
                Ok(
                    Allocation {
                        owner,
                        open_h: self.open_h as u32,
                        open_m: self.open_m as u32,
                        hours: self.hours,
                    },
                )
            },
    {
        if self.open_h < 0 || self.open_h >= 24 || self.open_m < 0 || self.open_m >= 60 {
            return Err(Rejection::InvalidTime);
        }
        if self.hours < 1 || self.hours > 24 {
            return Err(Rejection::InvalidHours);
        }
        Ok(
            Allocation {
                owner,
                open_h: self.open_h as u32,
                open_m: self.open_m as u32,
                hours: self.hours,
            },
        )
    }
}

} // verus!
