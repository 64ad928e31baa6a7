use taskgraph::account::{Allocation, PasswordSet, ReqAllocation, Timescale, MIN_PASSWORD_LEN};
use taskgraph::graph::{Arrow, Arrows};
use taskgraph::invite::{ReqBody, INVITATION_SECONDS};
use taskgraph::rejection::Rejection;
use taskgraph::search::{Boolean, Condition, ResTask};

#[test]
fn timescales_have_short_names() {
    let names: Vec<&str> = [
        Timescale::Year,
        Timescale::Quarter,
        Timescale::Month,
        Timescale::Week,
        Timescale::Day,
        Timescale::Hours,
        Timescale::Hour,
        Timescale::Minutes,
        Timescale::Minute,
        Timescale::Second,
    ]
    .iter()
    .map(|scale| scale.as_str())
    .collect();
    assert_eq!(names, vec!["Y", "Q", "M", "W", "D", "6h", "h", "15m", "m", "s"]);
}

fn passwords(new: &str, confirmation: &str) -> PasswordSet {
    PasswordSet {
        old: "old".to_string(),
        new: new.to_string(),
        confirmation: confirmation.to_string(),
    }
}

#[test]
fn a_password_change_is_checked_in_order() {
    assert_eq!(MIN_PASSWORD_LEN, 8);
    assert_eq!(passwords("short", "other").verify(false), Err(Rejection::WrongPassword));
    assert_eq!(
        passwords("short", "other").verify(true),
        Err(Rejection::ShortPassword { least: 8 })
    );
    assert_eq!(
        passwords("1234567", "1234567").verify(true),
        Err(Rejection::ShortPassword { least: 8 })
    );
    assert_eq!(passwords("12345678", "12345679").verify(true), Err(Rejection::Mismatch));
    assert_eq!(passwords("12345678", "12345678").verify(true), Ok(()));
}

#[test]
fn a_password_is_measured_in_bytes() {
    // four letters of two bytes each
    assert_eq!(passwords("äöüß", "äöüß").verify(true), Ok(()));
    assert_eq!(
        passwords("äöü", "äöü").verify(true),
        Err(Rejection::ShortPassword { least: 8 })
    );
}

#[test]
fn an_allocation_needs_a_time_of_day_and_hours() {
    let ask = |open_h, open_m, hours| ReqAllocation { open_h, open_m, hours }.verify(5);
    assert_eq!(ask(9, 0, 6), Ok(Allocation { owner: 5, open_h: 9, open_m: 0, hours: 6 }));
    assert_eq!(ask(0, 0, 1), Ok(Allocation { owner: 5, open_h: 0, open_m: 0, hours: 1 }));
    assert_eq!(ask(23, 59, 24), Ok(Allocation { owner: 5, open_h: 23, open_m: 59, hours: 24 }));
    assert_eq!(ask(24, 0, 6), Err(Rejection::InvalidTime));
    assert_eq!(ask(9, 60, 6), Err(Rejection::InvalidTime));
    assert_eq!(ask(-1, 0, 6), Err(Rejection::InvalidTime));
    assert_eq!(ask(9, -1, 6), Err(Rejection::InvalidTime));
    assert_eq!(ask(9, 0, 0), Err(Rejection::InvalidHours));
    assert_eq!(ask(9, 0, 25), Err(Rejection::InvalidHours));
    assert_eq!(ask(24, 0, 0), Err(Rejection::InvalidTime));
}

fn asking(forgot_pw: bool) -> ReqBody {
    ReqBody { email: "ann@example.org".to_string(), forgot_pw, tz: "Asia/Tokyo".to_string() }
}

#[test]
fn who_is_not_registered_is_invited_for_an_hour() {
    let invitation = asking(false).accept(false, "key".to_string(), 1_000).unwrap();
    assert_eq!(invitation.id, "key");
    assert_eq!(invitation.email, "ann@example.org");
    assert_eq!(invitation.expires_at, 4_600);
    assert!(!invitation.forgot_pw);
    assert_eq!(invitation.tz, "Asia/Tokyo");
    assert_eq!(INVITATION_SECONDS, 3_600);
}

#[test]
fn who_is_registered_may_reset_a_password() {
    let invitation = asking(true).accept(true, "key".to_string(), -3_600).unwrap();
    assert!(invitation.forgot_pw);
    assert_eq!(invitation.expires_at, 0);
}

#[test]
fn invitations_go_to_the_right_people_only() {
    assert_eq!(asking(false).accept(true, "key".to_string(), 0).err(), Some(Rejection::UserExists));
    assert_eq!(asking(true).accept(false, "key".to_string(), 0).err(), Some(Rejection::NoSuchUser));
}

#[test]
fn an_invitation_at_the_end_of_time_expires_then() {
    let invitation = asking(false).accept(false, "key".to_string(), i64::MAX - 10).unwrap();
    assert_eq!(invitation.expires_at, i64::MAX);
    let invitation = asking(false).accept(false, "key".to_string(), i64::MAX - 3_600).unwrap();
    assert_eq!(invitation.expires_at, i64::MAX);
}

fn found(id: i32, is_archived: bool, is_starred: bool) -> ResTask {
    ResTask {
        id,
        title: String::new(),
        assign: String::new(),
        is_archived,
        is_starred,
        startable: None,
        deadline: None,
        weight: None,
        link: None,
    }
}

fn flags(boolean: Boolean) -> Condition {
    Condition {
        boolean,
        context: (None, None),
        weight: (None, None),
        startable: (None, None),
        deadline: (None, None),
        created_at: (None, None),
        updated_at: (None, None),
        title: None,
        assign: None,
        link: None,
    }
}

#[test]
fn flags_are_decided_on_the_rows_and_the_graph() {
    // 1 -> 2 -> 3, and 4 alone
    let g = Arrows {
        arrows: vec![Arrow { source: 1, target: 2 }, Arrow { source: 2, target: 3 }],
    };
    let rows = || vec![found(1, false, true), found(2, true, true), found(3, false, false), found(4, true, false)];
    let ids = |boolean: Boolean| -> Vec<i32> {
        flags(boolean).filter_boolean(rows(), &g).iter().map(|t| t.id).collect()
    };
    let none = Boolean { is_archived: None, is_starred: None, is_leaf: None, is_root: None };
    assert_eq!(ids(none), vec![1, 2, 3, 4]);
    assert_eq!(ids(Boolean { is_archived: Some(true), ..none }), vec![2, 4]);
    assert_eq!(ids(Boolean { is_starred: Some(false), ..none }), vec![3, 4]);
    assert_eq!(ids(Boolean { is_leaf: Some(true), ..none }), vec![3, 4]);
    assert_eq!(ids(Boolean { is_leaf: Some(false), ..none }), vec![1, 2]);
    assert_eq!(ids(Boolean { is_root: Some(true), ..none }), vec![1, 4]);
    assert_eq!(ids(Boolean { is_root: Some(false), ..none }), vec![2, 3]);
    assert_eq!(
        ids(Boolean { is_archived: Some(true), is_leaf: Some(true), is_root: Some(true), ..none }),
        vec![4]
    );
}
