use taskgraph::clock::LocalMoment;
use taskgraph::graph::Arrow;
use taskgraph::outline::{Acceptor, Attribute, AuthedUser, Instants, ReqTask, ReqTasks, TmpTask};
use taskgraph::rejection::{Field, Rejection};

fn line(indent: i32, title: &str) -> ReqTask {
    ReqTask {
        indent,
        attribute: Attribute {
            is_starred: false,
            id: None,
            weight: None,
            joint_head: None,
            joint_tails: Vec::new(),
            assign: None,
            startable: None,
            deadline: None,
            title: title.to_string(),
        },
        link: None,
    }
}

fn jointed(title: &str, head: Option<&str>, tails: &[&str]) -> ReqTask {
    let mut l = line(0, title);
    l.attribute.joint_head = head.map(|h| h.to_string());
    l.attribute.joint_tails = tails.iter().map(|t| t.to_string()).collect();
    l
}

fn pairs(arrows: &[Arrow]) -> Vec<(i32, i32)> {
    arrows.iter().map(|a| (a.source, a.target)).collect()
}

fn moment(year: i32, month: u32, day: u32, hour: u32, minute: u32) -> LocalMoment {
    LocalMoment { year, month, day, hour, minute }
}

fn nothing() -> Instants {
    Instants { startable: None, deadline: None }
}

fn user(tz: &str) -> AuthedUser {
    AuthedUser { id: 1, tz: tz.to_string() }
}

#[test]
fn indented_line_depends_on_its_parent() {
    let outline = ReqTasks { tasks: vec![line(0, "Buy milk"), line(2, "Go to store")] };
    assert_eq!(pairs(&outline.arrows().arrows), vec![(1, 0)]);
    let batch = outline.read(&user("UTC")).unwrap();
    assert_eq!(batch.tasks().len(), 2);
    assert_eq!(batch.tasks()[0].title, "Buy milk");
    assert_eq!(batch.tasks()[1].title, "Go to store");
    assert_eq!(pairs(&batch.arrows().arrows), vec![(1, 0)]);
}

#[test]
fn flat_lines_have_no_arrows() {
    let outline = ReqTasks { tasks: vec![line(0, "a"), line(0, "b"), line(0, "c")] };
    assert!(outline.arrows().arrows.is_empty());
}

#[test]
fn empty_outline_compiles_to_nothing() {
    let outline = ReqTasks { tasks: Vec::new() };
    let batch = outline.assemble(&Vec::new()).unwrap();
    assert!(batch.tasks().is_empty());
    assert!(batch.arrows().arrows.is_empty());
}

#[test]
fn nearest_shallower_line_is_the_parent() {
    // 0
    //   1
    //     2
    //   3
    //       4
    let outline = ReqTasks {
        tasks: vec![line(0, "0"), line(1, "1"), line(2, "2"), line(1, "3"), line(3, "4")],
    };
    assert_eq!(pairs(&outline.arrows().arrows), vec![(4, 3), (3, 0), (2, 1), (1, 0)]);
}

#[test]
fn equal_indent_is_no_parent() {
    let outline = ReqTasks { tasks: vec![line(1, "0"), line(1, "1"), line(0, "2")] };
    assert!(outline.arrows().arrows.is_empty());
}

#[test]
fn joints_wire_lines_that_are_not_nested() {
    let outline = ReqTasks {
        tasks: vec![
            jointed("head", Some("x"), &[]),
            jointed("other", None, &["y"]),
            jointed("tail one", None, &["x"]),
            jointed("tail two", None, &["z", "x"]),
        ],
    };
    assert_eq!(pairs(&outline.arrows().arrows), vec![(0, 3), (0, 2)]);
}

#[test]
fn a_line_gets_arrows_from_both_rules() {
    let mut child = line(1, "child");
    child.attribute.joint_head = Some("c".to_string());
    let mut parent = line(0, "parent");
    parent.attribute.joint_tails = vec!["c".to_string()];
    let outline = ReqTasks { tasks: vec![parent, child] };
    assert_eq!(pairs(&outline.arrows().arrows), vec![(1, 0), (1, 0)]);
}

#[test]
fn a_line_that_names_itself_gets_a_self_arrow() {
    let outline = ReqTasks { tasks: vec![jointed("me", Some("m"), &["m"])] };
    assert_eq!(pairs(&outline.arrows().arrows), vec![(0, 0)]);
}

#[test]
fn assemble_carries_the_line_over() {
    let mut l = line(0, "title");
    l.attribute.is_starred = true;
    l.attribute.id = Some(7);
    l.attribute.weight = Some(1.5f32.to_bits());
    l.attribute.assign = Some("ann".to_string());
    l.attribute.startable = Some(moment(2021, 1, 1, 9, 0));
    l.attribute.deadline = Some(moment(2021, 1, 2, 9, 0));
    l.link = Some("https://example.org".to_string());
    let outline = ReqTasks { tasks: vec![l] };
    let batch =
        outline.assemble(&vec![Instants { startable: Some(100), deadline: Some(200) }]).unwrap();
    let t: &TmpTask = &batch.tasks()[0];
    assert_eq!(t.id, Some(7));
    assert_eq!(t.title, "title");
    assert_eq!(t.assign.as_deref(), Some("ann"));
    assert!(t.is_starred);
    assert_eq!(t.startable, Some(100));
    assert_eq!(t.deadline, Some(200));
    assert_eq!(t.weight.map(f32::from_bits), Some(1.5));
    assert_eq!(t.link.as_deref(), Some("https://example.org"));
}

#[test]
fn assemble_ignores_instants_of_absent_moments() {
    let outline = ReqTasks { tasks: vec![line(0, "plain")] };
    let batch =
        outline.assemble(&vec![Instants { startable: Some(1), deadline: Some(2) }]).unwrap();
    assert_eq!(batch.tasks()[0].startable, None);
    assert_eq!(batch.tasks()[0].deadline, None);
}

#[test]
fn assemble_reports_the_first_unresolved_moment() {
    let mut first = line(0, "first");
    first.attribute.deadline = Some(moment(2021, 1, 1, 0, 0));
    let mut second = line(0, "second");
    second.attribute.startable = Some(moment(2021, 1, 1, 0, 0));
    let outline = ReqTasks { tasks: vec![line(0, "zeroth"), first, second] };
    let r = outline.assemble(&vec![nothing(), nothing(), nothing()]);
    assert_eq!(r.err(), Some(Rejection::Unresolved { line: 1, field: Field::Deadline }));
}

#[test]
fn assemble_reports_startable_before_deadline() {
    let mut l = line(0, "both");
    l.attribute.startable = Some(moment(2021, 1, 1, 0, 0));
    l.attribute.deadline = Some(moment(2021, 1, 1, 0, 0));
    let outline = ReqTasks { tasks: vec![l] };
    let r = outline.assemble(&vec![nothing()]);
    assert_eq!(r.err(), Some(Rejection::Unresolved { line: 0, field: Field::Startable }));
}

#[test]
fn read_resolves_moments_in_the_requesters_zone() {
    let mut l = line(0, "new year");
    l.attribute.startable = Some(moment(2021, 1, 1, 9, 0));
    l.attribute.deadline = Some(moment(2021, 7, 1, 9, 30));
    let outline = ReqTasks { tasks: vec![l] };
    let batch = outline.read(&user("Asia/Tokyo")).unwrap();
    assert_eq!(batch.tasks()[0].startable, Some(1_609_459_200));
    assert_eq!(batch.tasks()[0].deadline, Some(1_625_099_400));
    let batch = outline.read(&user("UTC")).unwrap();
    assert_eq!(batch.tasks()[0].startable, Some(1_609_491_600));
}

#[test]
fn read_follows_daylight_saving() {
    let mut l = line(0, "summer and winter");
    l.attribute.startable = Some(moment(2021, 1, 15, 12, 0));
    l.attribute.deadline = Some(moment(2021, 7, 15, 12, 0));
    let outline = ReqTasks { tasks: vec![l] };
    let batch = outline.read(&user("America/New_York")).unwrap();
    assert_eq!(batch.tasks()[0].startable, Some(1_610_730_000));
    assert_eq!(batch.tasks()[0].deadline, Some(1_626_364_800));
}

#[test]
fn read_rejects_an_unknown_zone() {
    let mut l = line(0, "where");
    l.attribute.startable = Some(moment(2021, 1, 1, 9, 0));
    let outline = ReqTasks { tasks: vec![l] };
    let r = outline.read(&user("Atlantis/Capital"));
    assert_eq!(r.err(), Some(Rejection::Unresolved { line: 0, field: Field::Startable }));
}

#[test]
fn read_rejects_a_date_that_is_none() {
    let mut l = line(0, "thirtieth of february");
    l.attribute.deadline = Some(moment(2021, 2, 30, 9, 0));
    let outline = ReqTasks { tasks: vec![line(0, "fine"), l] };
    let r = outline.read(&user("UTC"));
    assert_eq!(r.err(), Some(Rejection::Unresolved { line: 1, field: Field::Deadline }));
}

#[test]
fn read_rejects_a_time_that_the_clocks_skip() {
    let mut l = line(0, "spring forward");
    l.attribute.startable = Some(moment(2021, 3, 14, 2, 30));
    let outline = ReqTasks { tasks: vec![l] };
    let r = outline.read(&user("America/New_York"));
    assert_eq!(r.err(), Some(Rejection::Unresolved { line: 0, field: Field::Startable }));
}

#[test]
fn read_without_moments_needs_no_zone() {
    let outline = ReqTasks { tasks: vec![line(0, "a"), line(1, "b")] };
    assert!(outline.read(&user("Atlantis/Capital")).is_ok());
}

#[test]
fn a_batch_needs_its_arrows_within_its_lines() {
    let task = |title: &str| TmpTask {
        id: None,
        title: title.to_string(),
        assign: None,
        is_starred: false,
        startable: None,
        deadline: None,
        weight: None,
        link: None,
    };
    let arrows = |pairs: &[(i32, i32)]| taskgraph::graph::Arrows {
        arrows: pairs.iter().map(|&(source, target)| Arrow { source, target }).collect(),
    };
    assert!(Acceptor::new(vec![task("a"), task("b")], arrows(&[(0, 1), (1, 0)])).is_some());
    assert!(Acceptor::new(vec![task("a"), task("b")], arrows(&[(0, 2)])).is_none());
    assert!(Acceptor::new(vec![task("a"), task("b")], arrows(&[(-1, 0)])).is_none());
    assert!(Acceptor::new(Vec::new(), arrows(&[])).is_some());
}

#[test]
fn a_line_without_instants_has_none() {
    let mut l = line(0, "late");
    l.attribute.deadline = Some(moment(2021, 1, 1, 0, 0));
    let outline = ReqTasks { tasks: vec![line(0, "plain"), l] };
    let r = outline.assemble(&vec![nothing()]);
    assert_eq!(r.err(), Some(Rejection::Unresolved { line: 1, field: Field::Deadline }));
    let outline = ReqTasks { tasks: vec![line(0, "plain"), line(1, "plain too")] };
    assert!(outline.assemble(&Vec::new()).is_ok());
}
