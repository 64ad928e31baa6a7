use taskgraph::accept::Upserter;
use taskgraph::graph::{Arrow, Arrows};
use taskgraph::outline::{Acceptor, Attribute, AuthedUser, Instants, ReqTask, ReqTasks, TmpTask};
use taskgraph::rejection::Rejection;
use taskgraph::store::{Permission, Snapshot, TaskRecord, UserRecord};

fn line(indent: i32, title: &str, id: Option<i32>) -> ReqTask {
    ReqTask {
        indent,
        attribute: Attribute {
            is_starred: false,
            id,
            weight: None,
            joint_head: None,
            joint_tails: Vec::new(),
            assign: None,
            startable: None,
            deadline: None,
            title: title.to_string(),
        },
        link: None,
    }
}

fn jointed(title: &str, head: &str, tails: &[&str]) -> ReqTask {
    let mut l = line(0, title, None);
    l.attribute.joint_head = Some(head.to_string());
    l.attribute.joint_tails = tails.iter().map(|t| t.to_string()).collect();
    l
}

fn task(id: Option<i32>) -> TmpTask {
    TmpTask {
        id,
        title: "t".to_string(),
        assign: None,
        is_starred: false,
        startable: None,
        deadline: None,
        weight: None,
        link: None,
    }
}

fn arrows(pairs: &[(i32, i32)]) -> Arrows {
    Arrows { arrows: pairs.iter().map(|&(source, target)| Arrow { source, target }).collect() }
}

fn batch(lines: Vec<ReqTask>) -> Acceptor {
    let n = lines.len();
    ReqTasks { tasks: lines }
        .assemble(&vec![Instants { startable: None, deadline: None }; n])
        .unwrap()
}

fn actor() -> AuthedUser {
    AuthedUser { id: 1, tz: "UTC".to_string() }
}

fn row(id: i32, assign: i32) -> TaskRecord {
    TaskRecord { id, assign, is_archived: false, is_starred: false }
}

/// Actor 1 may edit what belongs to 1 and 2, and only view what belongs to 3.
fn store(tasks: Vec<TaskRecord>) -> Snapshot {
    Snapshot {
        tasks,
        users: vec![
            UserRecord { id: 1, name: "me".to_string() },
            UserRecord { id: 2, name: "ann".to_string() },
            UserRecord { id: 3, name: "bob".to_string() },
        ],
        permissions: vec![
            Permission { subject: 1, object: 1, edit: true },
            Permission { subject: 1, object: 2, edit: true },
            Permission { subject: 1, object: 3, edit: false },
            Permission { subject: 3, object: 3, edit: true },
        ],
    }
}

fn passed(r: Result<Upserter, Rejection>) -> Upserter {
    match r {
        Ok(u) => u,
        Err(e) => panic!("rejected: {:?}", e),
    }
}

#[test]
fn a_plain_batch_passes() {
    let b = batch(vec![line(0, "Buy milk", None), line(2, "Go to store", None)]);
    let u = passed(b.accept(&actor(), &store(Vec::new())));
    assert_eq!(u.tasks().len(), 2);
    assert_eq!(u.tasks()[0].title, "Buy milk");
    assert_eq!(u.tasks()[0].assign, 1);
    assert_eq!(u.tasks()[1].assign, 1);
    assert_eq!(u.arrows().arrows, vec![Arrow { source: 1, target: 0 }]);
}

#[test]
fn a_cycle_of_three_is_rejected() {
    // A -> B -> C -> A by joints
    let b = batch(vec![
        jointed("A", "a", &["c"]),
        jointed("B", "b", &["a"]),
        jointed("C", "c", &["b"]),
    ]);
    let mut wires: Vec<(i32, i32)> =
        b.arrows().arrows.iter().map(|a| (a.source, a.target)).collect();
    wires.sort();
    assert_eq!(wires, vec![(0, 1), (1, 2), (2, 0)]);
    assert_eq!(b.accept(&actor(), &store(Vec::new())).err(), Some(Rejection::Loop));
}

#[test]
fn a_self_reference_is_rejected_as_a_loop() {
    let b = batch(vec![jointed("me", "m", &["m"])]);
    assert_eq!(b.accept(&actor(), &store(Vec::new())).err(), Some(Rejection::Loop));
}

#[test]
fn the_loop_is_reported_before_anything_else() {
    let mut tasks = vec![task(Some(5)), task(Some(5))];
    tasks[0].startable = Some(10);
    tasks[0].deadline = Some(5);
    let b = Acceptor::new(tasks, arrows(&[(0, 1), (1, 0)])).unwrap();
    assert_eq!(b.accept(&actor(), &store(Vec::new())).err(), Some(Rejection::Loop));
}

#[test]
fn a_deadline_before_startable_is_rejected() {
    let mut tasks = vec![task(None), task(None), task(None)];
    tasks[0].startable = Some(5);
    tasks[0].deadline = Some(5);
    tasks[1].startable = Some(6);
    tasks[1].deadline = Some(5);
    tasks[2].startable = Some(9);
    tasks[2].deadline = Some(1);
    let b = Acceptor::new(tasks, arrows(&[])).unwrap();
    assert_eq!(
        b.accept(&actor(), &store(Vec::new())).err(),
        Some(Rejection::DeadlineBeforeStartable { line: 1 })
    );
}

#[test]
fn a_lone_moment_is_never_inverted() {
    let mut tasks = vec![task(None), task(None)];
    tasks[0].startable = Some(i64::MAX);
    tasks[1].deadline = Some(i64::MIN);
    let b = Acceptor::new(tasks, arrows(&[])).unwrap();
    assert!(b.accept(&actor(), &store(Vec::new())).is_ok());
}

#[test]
fn the_least_duplicate_is_reported() {
    let tasks =
        vec![task(Some(9)), task(Some(4)), task(None), task(Some(9)), task(Some(4)), task(Some(2))];
    let b = Acceptor::new(tasks, arrows(&[])).unwrap();
    let s = store(vec![row(9, 1), row(4, 1), row(2, 1)]);
    assert_eq!(b.accept(&actor(), &s).err(), Some(Rejection::Duplicate { id: 4 }));
}

#[test]
fn the_lowest_identifier_may_be_referenced_once() {
    let b = Acceptor::new(vec![task(Some(i32::MIN))], arrows(&[])).unwrap();
    assert!(b.accept(&actor(), &store(vec![row(i32::MIN, 1)])).is_ok());
    let b =
        Acceptor::new(vec![task(Some(i32::MIN)), task(Some(i32::MIN))], arrows(&[])).unwrap();
    assert_eq!(
        b.accept(&actor(), &store(vec![row(i32::MIN, 1)])).err(),
        Some(Rejection::Duplicate { id: i32::MIN })
    );
}

#[test]
fn a_chain_through_two_existing_tasks_is_rejected() {
    // #20 <- new <- #10: the new line is nested under #20, and #10 under the new line
    let b = batch(vec![line(0, "old", Some(20)), line(1, "new", None), line(2, "older", Some(10))]);
    let s = store(vec![row(10, 1), row(20, 1)]);
    assert_eq!(b.accept(&actor(), &s).err(), Some(Rejection::Rewiring { first: 10, second: 20 }));
}

#[test]
fn a_chain_through_two_existing_tasks_is_rejected_the_other_way_round() {
    let b = batch(vec![line(0, "older", Some(10)), line(1, "new", None), line(2, "old", Some(20))]);
    let s = store(vec![row(10, 1), row(20, 1)]);
    assert_eq!(b.accept(&actor(), &s).err(), Some(Rejection::Rewiring { first: 20, second: 10 }));
}

#[test]
fn two_existing_tasks_next_to_each_other_are_rejected() {
    let b = Acceptor::new(vec![task(Some(1)), task(Some(2))], arrows(&[(0, 1)])).unwrap();
    let s = store(vec![row(1, 1), row(2, 1)]);
    assert_eq!(b.accept(&actor(), &s).err(), Some(Rejection::Rewiring { first: 1, second: 2 }));
}

#[test]
fn a_new_subtree_under_one_existing_task_passes() {
    let b = batch(vec![
        line(0, "old", Some(20)),
        line(1, "new", None),
        line(2, "newer", None),
        line(1, "new too", None),
    ]);
    assert!(b.accept(&actor(), &store(vec![row(20, 1)])).is_ok());
}

#[test]
fn existing_tasks_on_separate_chains_pass() {
    let b = batch(vec![
        line(0, "old", Some(20)),
        line(1, "new", None),
        line(0, "older", Some(10)),
        line(1, "new too", None),
    ]);
    assert!(b.accept(&actor(), &store(vec![row(10, 1), row(20, 2)])).is_ok());
}

#[test]
fn an_unknown_task_is_rejected() {
    let b = batch(vec![line(0, "known", Some(20)), line(0, "unknown", Some(21))]);
    assert_eq!(
        b.accept(&actor(), &store(vec![row(20, 1)])).err(),
        Some(Rejection::NotEditable { id: 21 })
    );
}

#[test]
fn a_task_of_somebody_the_actor_may_only_view_is_rejected() {
    let b = batch(vec![line(0, "mine", Some(20)), line(0, "bob's", Some(30))]);
    assert_eq!(
        b.accept(&actor(), &store(vec![row(20, 1), row(30, 3)])).err(),
        Some(Rejection::NotEditable { id: 30 })
    );
}

#[test]
fn a_task_of_somebody_the_actor_may_edit_passes() {
    let b = batch(vec![line(0, "ann's", Some(30))]);
    assert!(b.accept(&actor(), &store(vec![row(30, 2)])).is_ok());
}

#[test]
fn a_named_assignee_is_resolved() {
    let mut l = line(0, "for ann", None);
    l.attribute.assign = Some("ann".to_string());
    let b = batch(vec![line(0, "for me", None), l]);
    let u = passed(b.accept(&actor(), &store(Vec::new())));
    assert_eq!(u.tasks()[0].assign, 1);
    assert_eq!(u.tasks()[1].assign, 2);
}

#[test]
fn an_unknown_assignee_is_rejected() {
    let mut l = line(0, "for zed", None);
    l.attribute.assign = Some("zed".to_string());
    let b = batch(vec![line(0, "for me", None), l]);
    assert_eq!(
        b.accept(&actor(), &store(Vec::new())).err(),
        Some(Rejection::UnknownAssignee { line: 1 })
    );
}

#[test]
fn an_assignee_the_actor_may_only_view_is_rejected() {
    let mut l = line(0, "for bob", None);
    l.attribute.assign = Some("bob".to_string());
    let b = batch(vec![l]);
    assert_eq!(
        b.accept(&actor(), &store(Vec::new())).err(),
        Some(Rejection::UnknownAssignee { line: 0 })
    );
}

#[test]
fn tasks_are_checked_before_assignees() {
    let mut l = line(0, "for zed", None);
    l.attribute.assign = Some("zed".to_string());
    let b = batch(vec![l, line(0, "unknown", Some(99))]);
    assert_eq!(
        b.accept(&actor(), &store(Vec::new())).err(),
        Some(Rejection::NotEditable { id: 99 })
    );
}

#[test]
fn the_validated_task_keeps_what_the_line_said() {
    let mut t = task(Some(20));
    t.title = "title".to_string();
    t.is_starred = true;
    t.startable = Some(1);
    t.deadline = Some(2);
    t.weight = Some(7);
    t.link = Some("link".to_string());
    t.assign = Some("ann".to_string());
    let b = Acceptor::new(vec![t], arrows(&[])).unwrap();
    let u = passed(b.accept(&actor(), &store(vec![row(20, 1)])));
    let t = &u.tasks()[0];
    assert_eq!(t.id, Some(20));
    assert_eq!(t.title, "title");
    assert!(t.is_starred);
    assert_eq!(t.startable, Some(1));
    assert_eq!(t.deadline, Some(2));
    assert_eq!(t.weight, Some(7));
    assert_eq!(t.link.as_deref(), Some("link"));
    assert_eq!(t.assign, 2);
}
