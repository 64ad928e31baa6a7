use taskgraph::clock::LocalMoment;
use taskgraph::graph::{Arrow, Arrows};
use taskgraph::outline::{Acceptor, Attribute, AuthedUser, ReqTask, ReqTasks, TmpTask};
use taskgraph::rejection::{Field, Rejection};
use taskgraph::store::{Permission, Snapshot, TaskRecord, UserRecord};
use taskgraph::text::text;

fn line(indent: i32, title: &str, id: Option<i32>) -> ReqTask {
    ReqTask {
        indent,
        attribute: Attribute {
            is_starred: false,
            id,
            weight: None,
            joint_head: None,
            joint_tails: Vec::new(),
            assign: None,
            startable: None,
            deadline: None,
            title: title.to_string(),
        },
        link: None,
    }
}

fn jointed(title: &str, head: &str, tails: &[&str]) -> ReqTask {
    let mut l = line(0, title, None);
    l.attribute.joint_head = Some(head.to_string());
    l.attribute.joint_tails = tails.iter().map(|t| t.to_string()).collect();
    l
}

fn me() -> AuthedUser {
    AuthedUser { id: 1, tz: "Asia/Tokyo".to_string() }
}

fn store(ids: &[i32]) -> Snapshot {
    Snapshot {
        tasks: ids
            .iter()
            .map(|&id| TaskRecord { id, assign: 1, is_archived: false, is_starred: false })
            .collect(),
        users: vec![UserRecord { id: 1, name: "me".to_string() }],
        permissions: vec![Permission { subject: 1, object: 1, edit: true }],
    }
}

fn task(id: Option<i32>) -> TmpTask {
    TmpTask {
        id,
        title: "t".to_string(),
        assign: None,
        is_starred: false,
        startable: None,
        deadline: None,
        weight: None,
        link: None,
    }
}

fn arrows(pairs: &[(i32, i32)]) -> Arrows {
    Arrows { arrows: pairs.iter().map(|&(source, target)| Arrow { source, target }).collect() }
}

#[test]
fn an_outline_of_two_lines_is_ingested() {
    let outline = ReqTasks { tasks: vec![line(0, "Buy milk", None), line(2, "Go to store", None)] };
    let passed = text(&outline, &me(), &store(&[])).unwrap();
    assert_eq!(passed.tasks().len(), 2);
    assert_eq!(passed.tasks()[0].title, "Buy milk");
    assert_eq!(passed.tasks()[1].title, "Go to store");
    assert_eq!(passed.arrows().arrows, vec![Arrow { source: 1, target: 0 }]);
    let done = passed.upsert(&vec![7, 8]).unwrap();
    assert_eq!((done.created, done.updated), (2, 0));
    assert_eq!(done.arrows, vec![Arrow { source: 8, target: 7 }]);
}

#[test]
fn an_outline_with_a_cycle_of_three_is_not_ingested() {
    // 0 -> 1 -> 2 -> 0: heads a, b, c with tails c, a, b
    let outline = ReqTasks {
        tasks: vec![
            jointed("A", "a", &["c"]),
            jointed("B", "b", &["a"]),
            jointed("C", "c", &["b"]),
        ],
    };
    let mut wires: Vec<(i32, i32)> =
        outline.arrows().arrows.iter().map(|a| (a.source, a.target)).collect();
    wires.sort();
    assert_eq!(wires, vec![(0, 1), (1, 2), (2, 0)]);
    assert_eq!(text(&outline, &me(), &store(&[])).err(), Some(Rejection::Loop));
}

#[test]
fn a_cycle_is_reported_before_what_the_store_would_object_to() {
    let mut a = jointed("A", "a", &["b"]);
    a.attribute.id = Some(99);
    a.attribute.assign = Some("nobody".to_string());
    let b = jointed("B", "b", &["a"]);
    let outline = ReqTasks { tasks: vec![a, b] };
    assert_eq!(text(&outline, &me(), &store(&[])).err(), Some(Rejection::Loop));
}

#[test]
fn an_unreadable_moment_is_reported_before_a_cycle() {
    let mut a = jointed("A", "a", &["a"]);
    a.attribute.startable =
        Some(LocalMoment { year: 2021, month: 13, day: 1, hour: 0, minute: 0 });
    let outline = ReqTasks { tasks: vec![a] };
    assert_eq!(
        text(&outline, &me(), &store(&[])).err(),
        Some(Rejection::Unresolved { line: 0, field: Field::Startable })
    );
}

#[test]
fn ingestion_reads_moments_in_the_requesters_zone() {
    let mut l = line(0, "new year", Some(5));
    l.attribute.startable = Some(LocalMoment { year: 2021, month: 1, day: 1, hour: 9, minute: 0 });
    let outline = ReqTasks { tasks: vec![l] };
    let passed = text(&outline, &me(), &store(&[5])).unwrap();
    assert_eq!(passed.tasks()[0].startable, Some(1_609_459_200));
    assert_eq!(passed.tasks()[0].id, Some(5));
    assert_eq!(passed.tasks()[0].assign, 1);
}

#[test]
fn ingestion_rejects_what_validation_rejects() {
    let outline =
        ReqTasks { tasks: vec![line(0, "old", Some(20)), line(1, "new", None), line(2, "older", Some(10))] };
    assert_eq!(
        text(&outline, &me(), &store(&[10, 20])).err(),
        Some(Rejection::Rewiring { first: 10, second: 20 })
    );
    let outline = ReqTasks { tasks: vec![line(0, "unknown", Some(20))] };
    assert_eq!(text(&outline, &me(), &store(&[])).err(), Some(Rejection::NotEditable { id: 20 }));
}

#[test]
fn a_path_through_two_existing_tasks_names_the_first_two() {
    let batch = Acceptor::new(
        vec![task(Some(30)), task(None), task(Some(10)), task(Some(20)), task(None)],
        arrows(&[]),
    )
    .unwrap();
    assert_eq!(
        batch.tid_single_by(&vec![4, 3, 1, 2, 0]).err(),
        Some(Rejection::Rewiring { first: 20, second: 10 })
    );
    assert_eq!(
        batch.tid_single_by(&vec![0, 2]).err(),
        Some(Rejection::Rewiring { first: 30, second: 10 })
    );
    assert_eq!(
        batch.tid_single_by(&vec![2, 2]).err(),
        Some(Rejection::Rewiring { first: 10, second: 10 })
    );
}

#[test]
fn a_path_through_at_most_one_existing_task_passes() {
    let batch =
        Acceptor::new(vec![task(Some(30)), task(None), task(Some(10)), task(None)], arrows(&[]))
            .unwrap();
    assert_eq!(batch.tid_single_by(&vec![1, 0, 3]), Ok(()));
    assert_eq!(batch.tid_single_by(&vec![3, 1]), Ok(()));
    assert_eq!(batch.tid_single_by(&vec![2]), Ok(()));
    assert_eq!(batch.tid_single_by(&Vec::new()), Ok(()));
}

#[test]
fn the_first_three_checks_one_by_one() {
    let mut tasks = vec![task(Some(8)), task(Some(3)), task(Some(8)), task(Some(3))];
    tasks[1].startable = Some(2);
    tasks[1].deadline = Some(1);
    let batch = Acceptor::new(tasks, arrows(&[(0, 1), (1, 0)])).unwrap();
    assert_eq!(batch.no_loop(), Err(Rejection::Loop));
    assert_eq!(batch.valid_sd(), Err(Rejection::DeadlineBeforeStartable { line: 1 }));
    assert_eq!(batch.tid_unique(), Err(Rejection::Duplicate { id: 3 }));
    let batch = Acceptor::new(vec![task(Some(8)), task(None)], arrows(&[(0, 1)])).unwrap();
    assert_eq!(batch.no_loop(), Ok(()));
    assert_eq!(batch.valid_sd(), Ok(()));
    assert_eq!(batch.tid_unique(), Ok(()));
}
