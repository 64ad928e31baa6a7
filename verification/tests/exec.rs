use taskgraph::delete;
use taskgraph::exec::{exec, ReqBody, ResBody};
use taskgraph::graph::{Arrow, Arrows};
use taskgraph::outline::AuthedUser;
use taskgraph::rejection::Rejection;
use taskgraph::star::star;
use taskgraph::store::{Permission, Snapshot, TaskRecord, UserRecord};

fn arrows(pairs: &[(i32, i32)]) -> Arrows {
    Arrows { arrows: pairs.iter().map(|&(source, target)| Arrow { source, target }).collect() }
}

fn row(id: i32, assign: i32, is_archived: bool) -> TaskRecord {
    TaskRecord { id, assign, is_archived, is_starred: false }
}

fn store(tasks: Vec<TaskRecord>) -> Snapshot {
    Snapshot {
        tasks,
        users: vec![
            UserRecord { id: 1, name: "me".to_string() },
            UserRecord { id: 2, name: "ann".to_string() },
            UserRecord { id: 3, name: "bob".to_string() },
        ],
        permissions: vec![
            Permission { subject: 1, object: 1, edit: true },
            Permission { subject: 1, object: 2, edit: true },
            Permission { subject: 1, object: 3, edit: false },
        ],
    }
}

fn me() -> AuthedUser {
    AuthedUser { id: 1, tz: "UTC".to_string() }
}

fn sorted(mut ids: Vec<i32>) -> Vec<i32> {
    ids.sort();
    ids
}

#[test]
fn completing_a_task_completes_its_chain() {
    // X = 1, Y = 2, Z = 3; X -> Y -> Z
    let s = store(vec![row(1, 1, false), row(2, 1, false), row(3, 2, false), row(4, 1, false)]);
    let plan =
        exec(&ReqBody { tasks: vec![1], revert: false }, &me(), &s, &arrows(&[(1, 2), (2, 3), (4, 1)]))
            .unwrap();
    assert_eq!(sorted(plan.targets), vec![1, 2, 3]);
    assert_eq!(plan.res, ResBody { count: 3, chain: 2 });
}

#[test]
fn reverting_a_task_reverts_what_leads_to_it() {
    let s = store(vec![row(1, 1, true), row(2, 1, true), row(3, 2, true), row(4, 1, true)]);
    let plan =
        exec(&ReqBody { tasks: vec![2], revert: true }, &me(), &s, &arrows(&[(1, 2), (2, 3), (4, 1)]))
            .unwrap();
    assert_eq!(sorted(plan.targets), vec![1, 2, 4]);
    assert_eq!(plan.res, ResBody { count: 3, chain: 2 });
}

#[test]
fn only_movable_tasks_of_the_closure_are_targets() {
    // 2 is archived already, 3 belongs to bob, 5 is unknown to the store
    let s = store(vec![row(1, 1, false), row(2, 1, true), row(3, 3, false), row(4, 2, false)]);
    let plan = exec(
        &ReqBody { tasks: vec![1], revert: false },
        &me(),
        &s,
        &arrows(&[(1, 2), (2, 3), (3, 4), (4, 5)]),
    )
    .unwrap();
    assert_eq!(sorted(plan.targets), vec![1, 4]);
    assert_eq!(plan.res, ResBody { count: 2, chain: 1 });
}

#[test]
fn closures_that_overlap_count_once() {
    let s = store(vec![row(1, 1, false), row(2, 1, false), row(3, 1, false)]);
    let plan = exec(
        &ReqBody { tasks: vec![1, 2, 1], revert: false },
        &me(),
        &s,
        &arrows(&[(1, 3), (2, 3)]),
    )
    .unwrap();
    assert_eq!(sorted(plan.targets), vec![1, 2, 3]);
    assert_eq!(plan.res, ResBody { count: 3, chain: 1 });
}

#[test]
fn a_task_without_arrows_moves_alone() {
    let s = store(vec![row(1, 1, false)]);
    let plan = exec(&ReqBody { tasks: vec![1], revert: false }, &me(), &s, &arrows(&[])).unwrap();
    assert_eq!(plan.targets, vec![1]);
    assert_eq!(plan.res, ResBody { count: 1, chain: 0 });
}

#[test]
fn nothing_asked_nothing_moved() {
    let s = store(vec![row(1, 1, false)]);
    let plan = exec(&ReqBody { tasks: vec![], revert: false }, &me(), &s, &arrows(&[(1, 2)])).unwrap();
    assert!(plan.targets.is_empty());
    assert_eq!(plan.res, ResBody { count: 0, chain: 0 });
}

#[test]
fn an_unknown_task_cannot_be_moved() {
    let s = store(vec![row(1, 1, false)]);
    let r = exec(&ReqBody { tasks: vec![1, 9], revert: false }, &me(), &s, &arrows(&[]));
    assert_eq!(r.err(), Some(Rejection::NotFound { id: 9 }));
}

#[test]
fn a_task_that_the_actor_may_not_edit_cannot_be_moved() {
    let s = store(vec![row(1, 1, false), row(2, 3, false)]);
    let r = exec(&ReqBody { tasks: vec![1, 2], revert: false }, &me(), &s, &arrows(&[]));
    assert_eq!(r.err(), Some(Rejection::NotEditable { id: 2 }));
}

#[test]
fn a_task_in_the_wrong_state_cannot_be_moved() {
    let s = store(vec![row(1, 1, false), row(2, 1, true)]);
    let r = exec(&ReqBody { tasks: vec![1, 2], revert: false }, &me(), &s, &arrows(&[]));
    assert_eq!(r.err(), Some(Rejection::WrongState { id: 2 }));
    let r = exec(&ReqBody { tasks: vec![1, 2], revert: true }, &me(), &s, &arrows(&[]));
    assert_eq!(r.err(), Some(Rejection::WrongState { id: 1 }));
}

#[test]
fn verify_lists_each_task_once() {
    let s = store(vec![row(1, 1, false), row(2, 1, false)]);
    let entries = ReqBody { tasks: vec![2, 1, 2, 2, 1], revert: false }.verify(&me(), &s).unwrap();
    assert_eq!(entries, vec![2, 1]);
}

#[test]
fn deleting_somebody_elses_task_is_rejected_before_a_token_is_issued() {
    let s = store(vec![row(1, 1, false), row(2, 2, false), row(3, 3, false)]);
    let req = delete::ReqBody { tasks: vec![1, 3, 2], token: None };
    assert_eq!(req.accept(&me(), &s).err(), Some(Rejection::NotYours { id: 3 }));
    assert_eq!(delete::delete(&req, &me(), &s).err(), Some(Rejection::NotYours { id: 3 }));
}

#[test]
fn deleting_ones_own_tasks_calls_for_confirmation() {
    let s = store(vec![row(1, 1, false), row(2, 1, true)]);
    let req = delete::ReqBody { tasks: vec![1, 2, 77], token: None };
    assert!(req.accept(&me(), &s).is_ok());
    assert!(matches!(delete::delete(&req, &me(), &s), Ok(delete::Phase::Confirm)));
}

#[test]
fn a_request_with_a_token_is_to_be_carried_out() {
    let s = store(vec![row(1, 1, false)]);
    let req = delete::ReqBody { tasks: vec![1], token: Some("abc".to_string()) };
    match delete::delete(&req, &me(), &s) {
        Ok(delete::Phase::Execute { token, tasks }) => {
            assert_eq!(token, "abc");
            assert_eq!(tasks, vec![1]);
        }
        other => panic!("{:?}", other),
    }
}

#[test]
fn a_token_does_not_delete_somebody_elses_task() {
    let s = store(vec![row(1, 1, false), row(2, 2, false), row(3, 3, false)]);
    let req = delete::ReqBody { tasks: vec![1, 2], token: Some("abc".to_string()) };
    assert_eq!(delete::delete(&req, &me(), &s).err(), Some(Rejection::NotYours { id: 2 }));
    let req = delete::ReqBody { tasks: vec![3], token: Some("abc".to_string()) };
    assert_eq!(delete::delete(&req, &me(), &s).err(), Some(Rejection::NotYours { id: 3 }));
}

#[test]
fn only_known_tasks_of_the_actor_are_to_be_deleted() {
    let s = store(vec![row(1, 1, false), row(4, 1, true), row(2, 2, false)]);
    let req = delete::ReqBody { tasks: vec![4, 77, 1, 4], token: Some("abc".to_string()) };
    match delete::delete(&req, &me(), &s) {
        Ok(delete::Phase::Execute { token, mut tasks }) => {
            assert_eq!(token, "abc");
            tasks.sort();
            tasks.dedup();
            assert_eq!(tasks, vec![1, 4]);
        }
        other => panic!("{:?}", other),
    }
    let req = delete::ReqBody { tasks: vec![77], token: Some("abc".to_string()) };
    match delete::delete(&req, &me(), &s) {
        Ok(delete::Phase::Execute { tasks, .. }) => assert!(tasks.is_empty()),
        other => panic!("{:?}", other),
    }
}

#[test]
fn a_star_is_flipped() {
    let mut s = store(vec![row(1, 1, false), row(2, 2, false), row(3, 3, false)]);
    s.tasks[1].is_starred = true;
    assert_eq!(star(1, &me(), &s), Ok(true));
    assert_eq!(star(2, &me(), &s), Ok(false));
    assert_eq!(star(3, &me(), &s), Err(Rejection::NotEditable { id: 3 }));
    assert_eq!(star(4, &me(), &s), Err(Rejection::NotFound { id: 4 }));
}
