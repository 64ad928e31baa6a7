use taskgraph::accept::Upserter;
use taskgraph::graph::{Arrow, Arrows};
use taskgraph::outline::{Acceptor, Attribute, AuthedUser, Instants, ReqTask, ReqTasks, TmpTask};
use taskgraph::store::{Permission, Snapshot, TaskRecord, UserRecord};

fn line(indent: i32, title: &str, id: Option<i32>) -> ReqTask {
    ReqTask {
        indent,
        attribute: Attribute {
            is_starred: false,
            id,
            weight: None,
            joint_head: None,
            joint_tails: Vec::new(),
            assign: None,
            startable: None,
            deadline: None,
            title: title.to_string(),
        },
        link: None,
    }
}

fn store(ids: &[i32]) -> Snapshot {
    Snapshot {
        tasks: ids
            .iter()
            .map(|&id| TaskRecord { id, assign: 1, is_archived: false, is_starred: false })
            .collect(),
        users: vec![UserRecord { id: 1, name: "me".to_string() }],
        permissions: vec![Permission { subject: 1, object: 1, edit: true }],
    }
}

fn validated(lines: Vec<ReqTask>, known: &[i32]) -> Upserter {
    let n = lines.len();
    let batch = ReqTasks { tasks: lines }
        .assemble(&vec![Instants { startable: None, deadline: None }; n])
        .unwrap();
    batch.accept(&AuthedUser { id: 1, tz: "UTC".to_string() }, &store(known)).unwrap()
}

fn pairs(arrows: &[Arrow]) -> Vec<(i32, i32)> {
    arrows.iter().map(|a| (a.source, a.target)).collect()
}

#[test]
fn two_new_lines_give_two_tasks_and_one_arrow() {
    let batch = validated(vec![line(0, "Buy milk", None), line(2, "Go to store", None)], &[]);
    let done = batch.upsert(&vec![101, 102]).unwrap();
    assert_eq!(done.created, 2);
    assert_eq!(done.updated, 0);
    assert_eq!(done.permanents, vec![101, 102]);
    assert_eq!(pairs(&done.arrows), vec![(102, 101)]);
}

#[test]
fn creation_only_batch_without_arrows() {
    let lines = || (0..5).map(|k| line(0, &format!("task {}", k), None)).collect::<Vec<_>>();
    let first = validated(lines(), &[]).upsert(&vec![11, 12, 13, 14, 15]).unwrap();
    assert_eq!(first.created, 5);
    assert_eq!(first.updated, 0);
    assert_eq!(first.permanents, vec![11, 12, 13, 14, 15]);
    assert!(first.arrows.is_empty());
    // the same outline once more creates five tasks once more
    let second = validated(lines(), &[]).upsert(&vec![16, 17, 18, 19, 20]).unwrap();
    assert_eq!(second.created, 5);
    assert_eq!(second.permanents, vec![16, 17, 18, 19, 20]);
    assert!(second.arrows.is_empty());
}

#[test]
fn updates_keep_their_identifier() {
    let batch = validated(
        vec![line(0, "new", None), line(1, "old", Some(7)), line(2, "newer", None)],
        &[7],
    );
    let done = batch.upsert(&vec![50, 51]).unwrap();
    assert_eq!(done.created, 2);
    assert_eq!(done.updated, 1);
    assert_eq!(done.permanents, vec![50, 7, 51]);
    assert_eq!(pairs(&done.arrows), vec![(51, 7), (7, 50)]);
}

#[test]
fn as_many_arrows_are_stored_as_were_compiled() {
    let mut lines = vec![line(0, "root", None)];
    for k in 1..6 {
        let mut l = line(k, "nested", None);
        l.attribute.joint_head = Some("j".to_string());
        lines.push(l);
    }
    lines[0].attribute.joint_tails = vec!["j".to_string()];
    let outline = ReqTasks { tasks: lines };
    let compiled = outline.arrows().arrows.len();
    assert_eq!(compiled, 10);
    let n = outline.tasks.len();
    let batch = outline.assemble(&vec![Instants { startable: None, deadline: None }; n]).unwrap();
    let batch = batch.accept(&AuthedUser { id: 1, tz: "UTC".to_string() }, &store(&[])).unwrap();
    let done = batch.upsert(&vec![1, 2, 3, 4, 5, 6]).unwrap();
    assert_eq!(done.arrows.len(), compiled);
}

#[test]
fn too_few_or_too_many_identifiers_settle_nothing() {
    let lines = || vec![line(0, "a", None), line(0, "b", Some(3)), line(0, "c", None)];
    assert!(validated(lines(), &[3]).upsert(&vec![1]).is_none());
    assert!(validated(lines(), &[3]).upsert(&vec![1, 2, 4]).is_none());
    assert!(validated(lines(), &[3]).upsert(&vec![]).is_none());
    assert!(validated(lines(), &[3]).upsert(&vec![1, 2]).is_some());
}

#[test]
fn an_empty_batch_settles_to_nothing() {
    let done = validated(Vec::new(), &[]).upsert(&Vec::new()).unwrap();
    assert_eq!((done.created, done.updated), (0, 0));
    assert!(done.permanents.is_empty() && done.arrows.is_empty());
}

#[test]
fn no_temporary_index_is_stored() {
    let batch = Acceptor::new(
        (0..3)
            .map(|_| TmpTask {
                id: None,
                title: "t".to_string(),
                assign: None,
                is_starred: false,
                startable: None,
                deadline: None,
                weight: None,
                link: None,
            })
            .collect(),
        Arrows {
            arrows: vec![Arrow { source: 0, target: 1 }, Arrow { source: 1, target: 2 }],
        },
    )
    .unwrap();
    let batch = batch.accept(&AuthedUser { id: 1, tz: "UTC".to_string() }, &store(&[])).unwrap();
    let done = batch.upsert(&vec![1000, 2000, 3000]).unwrap();
    assert_eq!(pairs(&done.arrows), vec![(1000, 2000), (2000, 3000)]);
}

fn arrows_of(pairs: &[(i32, i32)]) -> Arrows {
    Arrows { arrows: pairs.iter().map(|&(source, target)| Arrow { source, target }).collect() }
}

#[test]
fn a_commit_adds_no_cycle_to_the_store() {
    // the store holds 1 -> 2 -> 3
    let mut stored = vec![(1, 2), (2, 3)];
    assert!(!arrows_of(&stored).has_cycle());
    // two new tasks under #1, and a new task that #3 is wired to by a joint
    let mut waits = line(0, "waits for three", None);
    waits.attribute.joint_tails = vec!["three".to_string()];
    let mut three = line(0, "three", Some(3));
    three.attribute.joint_head = Some("three".to_string());
    let batch = validated(
        vec![line(0, "one", Some(1)), line(1, "new", None), line(2, "newer", None), waits, three],
        &[1, 3],
    );
    let done = batch.upsert(&vec![10, 11, 12]).unwrap();
    assert_eq!(pairs(&done.arrows), vec![(3, 12), (11, 10), (10, 1)]);
    stored.extend(pairs(&done.arrows));
    assert!(!arrows_of(&stored).has_cycle());
}

#[test]
fn a_batch_that_would_close_a_cycle_in_the_store_does_not_pass() {
    // with 1 -> 2 -> 3 in the store, #3 -> new -> #1 would close a cycle
    let lines = vec![line(0, "one", Some(1)), line(1, "new", None), line(2, "three", Some(3))];
    let n = lines.len();
    let batch = ReqTasks { tasks: lines }
        .assemble(&vec![Instants { startable: None, deadline: None }; n])
        .unwrap();
    assert_eq!(pairs(&batch.arrows().arrows), vec![(2, 1), (1, 0)]);
    let r = batch.accept(&AuthedUser { id: 1, tz: "UTC".to_string() }, &store(&[1, 3]));
    assert_eq!(r.err(), Some(taskgraph::rejection::Rejection::Rewiring { first: 3, second: 1 }));
}
