//! Search conditions, as far as they are decided on rows that were already
//! fetched: the context of a task in the graph, and patterns over text.

use crate::clock::LocalMoment;
use crate::graph::{no_incoming, no_outgoing, reaches, Arrow, Arrows, Direction};
use crate::rejection::{Column, Rejection};
use crate::sequences::lemma_take_contains;
use std::collections::HashSet;
use vstd::prelude::*;

verus! {

broadcast use vstd::std_specs::hash::group_hash_axioms;

/// The flags a search may ask for; a flag that is not set is not asked for.
#[derive(Clone, Copy, Debug, PartialEq, Eq, Structural)]
pub struct Boolean {
    pub is_archived: Option<bool>,
    pub is_starred: Option<bool>,
    /// No arrow leaves the task.
    pub is_leaf: Option<bool>,
    /// No arrow enters the task.
    pub is_root: Option<bool>,
}

/// What a search asks of a text column.
#[derive(Debug)]
pub enum Expression {
    /// Every word occurs in the text.
    Words(Vec<String>),
    /// The pattern matches somewhere in the text.
    Regex(String),
}

/// A search condition. Each range has an optional lower and an optional upper end.
#[derive(Debug)]
pub struct Condition {
    pub boolean: Boolean,
    /// Only what leads to the first task, and only what the second leads to.
    pub context: (Option<i32>, Option<i32>),
    /// Weights as the bits of single-precision numbers.
    pub weight: (Option<u32>, Option<u32>),
    pub startable: (Option<LocalMoment>, Option<LocalMoment>),
    pub deadline: (Option<LocalMoment>, Option<LocalMoment>),
    pub created_at: (Option<LocalMoment>, Option<LocalMoment>),
    pub updated_at: (Option<LocalMoment>, Option<LocalMoment>),
    pub title: Option<Expression>,
    pub assign: Option<Expression>,
    pub link: Option<Expression>,
}

/// A task as a search shows it.
#[derive(Debug)]
pub struct ResTask {
    pub id: i32,
    pub title: String,
    /// The assignee's name.
    pub assign: String,
    pub is_archived: bool,
    pub is_starred: bool,
    pub startable: Option<i64>,
    pub deadline: Option<i64>,
    pub weight: Option<u32>,
    pub link: Option<String>,
}

/// Whether the text can be compiled as a regular expression.
pub uninterp spec fn regex_compiles(pattern: Seq<char>) -> bool;

/// Whether the regular expression matches anywhere in the text.
pub uninterp spec fn regex_accepts(pattern: Seq<char>, text: Seq<char>) -> bool;

/// Calls `regex::Regex::new` on the pattern and, where that succeeds,
/// `Regex::is_match` on the text. The contract only names the two outcomes:
/// whether the pattern compiles, and whether it matches.
#[verifier::external_body]
pub(crate) fn regex_search(pattern: &str, text: &str) -> (r: Option<bool>)
    ensures
        r == if regex_compiles(pattern@) {
            Some(regex_accepts(pattern@, text@))
        } else {
            None::<bool>
        },
{
    match regex::Regex::new(pattern) {
        Ok(compiled) => Some(compiled.is_match(text)),
        Err(_) => None,
    }
}

/// What a condition asks of the text in one of the columns.
pub open spec fn asked(con: Condition, column: Column) -> Option<Expression> {
    match column {
        Column::Title => con.title,
        Column::Assign => con.assign,
        Column::Link => con.link,
    }
}

/// The text of a task in one of the columns; a missing link reads as empty.
pub open spec fn text_in(task: ResTask, column: Column) -> Seq<char> {
    match column {
        Column::Title => task.title@,
        Column::Assign => task.assign@,
        Column::Link => match task.link {
            Some(link) => link@,
            None => Seq::empty(),
        },
    }
}

/// The pattern that the condition gives for the column, if it gives one.
pub open spec fn pattern_for(con: Condition, column: Column) -> Option<Seq<char>> {
    match asked(con, column) {
        Some(Expression::Regex(pattern)) => Some(pattern@),
        _ => None,
    }
}

/// The column's pattern, if there is one, can be compiled.
pub open spec fn pattern_sound(con: Condition, column: Column) -> bool {
    match pattern_for(con, column) {
        Some(pattern) => regex_compiles(pattern),
        None => true,
    }
}

/// The task meets the column's pattern, if there is one.
pub open spec fn meets_pattern(con: Condition, column: Column, task: ResTask) -> bool {
    match pattern_for(con, column) {
        Some(pattern) => regex_accepts(pattern, text_in(task, column)),
        None => true,
    }
}

/// The task meets the patterns of all three columns.
pub open spec fn meets_patterns(con: Condition, task: ResTask) -> bool {
    &&& meets_pattern(con, Column::Title, task)
    &&& meets_pattern(con, Column::Assign, task)
    &&& meets_pattern(con, Column::Link, task)
}

/// The task lies in the context that the condition asks for: it leads to the
/// first task of the context, and the second leads to it.
pub open spec fn in_context(context: (Option<i32>, Option<i32>), arrows: Seq<Arrow>, id: i32) -> bool {
    &&& context.0 matches Some(toward) ==> reaches(arrows, Direction::TowardSources, toward, id)
    &&& context.1 matches Some(from) ==> reaches(arrows, Direction::TowardTargets, from, id)
}

/// The task meets the flags that the condition asks for. A task is a leaf
/// where no arrow leaves it, and a root where no arrow enters it.
pub open spec fn meets_flags(asked: Boolean, arrows: Seq<Arrow>, task: ResTask) -> bool {
    &&& asked.is_archived matches Some(b) ==> task.is_archived == b
    &&& asked.is_starred matches Some(b) ==> task.is_starred == b
    &&& asked.is_leaf matches Some(b) ==> no_outgoing(arrows, task.id) == b
    &&& asked.is_root matches Some(b) ==> no_incoming(arrows, task.id) == b
}

/// Flag `k` is there and set.
pub open spec fn set_at(keep: Seq<bool>, k: int) -> bool {
    0 <= k < keep.len() && keep[k]
}

/// The tasks whose flag is set, in their order.
pub open spec fn flagged(tasks: Seq<ResTask>, keep: Seq<bool>) -> Seq<ResTask>
    decreases tasks.len(),
{
    if tasks.len() == 0 {
        Seq::empty()
    } else if set_at(keep, tasks.len() - 1) {
        flagged(tasks.drop_last(), keep).push(tasks.last())
    } else {
        flagged(tasks.drop_last(), keep)
    }
}

/// The tasks that meet a requirement, in their order.
pub open spec fn meeting(tasks: Seq<ResTask>, wanted: spec_fn(ResTask) -> bool) -> Seq<ResTask> {
    flagged(tasks, Seq::new(tasks.len(), |k: int| wanted(tasks[k])))
}

/// Flags beyond the tasks do not count, and equal flags give equal results.
pub proof fn lemma_flagged_agrees(tasks: Seq<ResTask>, keep: Seq<bool>, other: Seq<bool>)
    requires
        forall|k: int| 0 <= k < tasks.len() ==> set_at(keep, k) == set_at(other, k),
    ensures
        flagged(tasks, keep) == flagged(tasks, other),
    decreases tasks.len(),
{
    if tasks.len() > 0 {
        lemma_flagged_agrees(tasks.drop_last(), keep, other);
    }
}

/// Keeps the tasks whose flag is set; a task without a flag goes.
pub fn retain_flagged(tasks: Vec<ResTask>, keep: &Vec<bool>) -> (r: Vec<ResTask>)
    ensures
        r@ == flagged(tasks@, keep@),
{
    let ghost all = tasks@;
    let n = tasks.len();
    let mut out: Vec<ResTask> = Vec::new();
    let mut k: usize = 0;
    for task in it: tasks
        invariant
            it.seq() == all,
            all.len() == n,
            k == it.index(),
            out@ == flagged(all.take(k as int), keep@),
    {
        proof {
            assert(all.take(k as int + 1).drop_last() =~= all.take(k as int));
            assert(all.take(k as int + 1).last() == task);
        }
        if k < keep.len() && keep[k] {
            out.push(task);
        }
        k += 1;
    }
    proof {
        assert(all.take(all.len() as int) =~= all);
    }
    out
}

fn as_set(list: &Vec<i32>) -> (r: HashSet<i32>)
    ensures
        forall|x: i32| r@.contains(x) <==> list@.contains(x),
{
    let mut set: HashSet<i32> = HashSet::new();
    let mut k: usize = 0;
    while k < list.len()
        invariant
            k <= list.len(),
            forall|x: i32| set@.contains(x) <==> list@.take(k as int).contains(x),
        decreases list.len() - k,
    {
        set.insert(list[k]);
        proof {
            assert forall|x: i32| set@.contains(x) <==> list@.take(k as int + 1).contains(x) by {
                lemma_take_contains(list@, k as int, x);
            }
        }
        k += 1;
    }
    proof {
        assert(list@.take(list@.len() as int) =~= list@);
    }
    set
}

/// The nodes that an arrow leaves, and the nodes that an arrow enters.
fn ends(arrows: &Arrows) -> (r: (HashSet<i32>, HashSet<i32>))
    ensures
        forall|x: i32| r.0@.contains(x) <==> !no_outgoing(arrows@, x),
        forall|x: i32| r.1@.contains(x) <==> !no_incoming(arrows@, x),
{
    let mut left: HashSet<i32> = HashSet::new();
    let mut entered: HashSet<i32> = HashSet::new();
    let mut k: usize = 0;
    while k < arrows.arrows.len()
        invariant
            k <= arrows@.len(),
            forall|x: i32|
                left@.contains(x) <==> exists|m: int| 0 <= m < k && (#[trigger] arrows@[m]).source == x,
            forall|x: i32|
                entered@.contains(x) <==> exists|m: int|
                    0 <= m < k && (#[trigger] arrows@[m]).target == x,
        decreases arrows@.len() - k,
    {
        let ghost left_before = left@;
        let ghost entered_before = entered@;
        left.insert(arrows.arrows[k].source);
        entered.insert(arrows.arrows[k].target);
        proof {
            assert forall|x: i32|
                left@.contains(x) <==> exists|m: int|
                    0 <= m < k + 1 && (#[trigger] arrows@[m]).source == x by {
                if left_before.contains(x) {
                    let m = choose|m: int| 0 <= m < k && (#[trigger] arrows@[m]).source == x;
                    assert(arrows@[m].source == x);
                }
                if arrows@[k as int].source == x {
                }
                if exists|m: int| 0 <= m < k + 1 && (#[trigger] arrows@[m]).source == x {
                    let m = choose|m: int| 0 <= m < k + 1 && (#[trigger] arrows@[m]).source == x;
                    if m < k {
                        assert(left_before.contains(x));
                    }
                }
            }
            assert forall|x: i32|
                entered@.contains(x) <==> exists|m: int|
                    0 <= m < k + 1 && (#[trigger] arrows@[m]).target == x by {
                if entered_before.contains(x) {
                    let m = choose|m: int| 0 <= m < k && (#[trigger] arrows@[m]).target == x;
                    assert(arrows@[m].target == x);
                }
                if arrows@[k as int].target == x {
                }
                if exists|m: int| 0 <= m < k + 1 && (#[trigger] arrows@[m]).target == x {
                    let m = choose|m: int| 0 <= m < k + 1 && (#[trigger] arrows@[m]).target == x;
                    if m < k {
                        assert(entered_before.contains(x));
                    }
                }
            }
        }
        k += 1;
    }
    proof {
        assert forall|x: i32| left@.contains(x) <==> !no_outgoing(arrows@, x) by {
            if left@.contains(x) {
                let m = choose|m: int| 0 <= m < k && (#[trigger] arrows@[m]).source == x;
                assert(arrows@[m].source == x);
            }
        }
        assert forall|x: i32| entered@.contains(x) <==> !no_incoming(arrows@, x) by {
            if entered@.contains(x) {
                let m = choose|m: int| 0 <= m < k && (#[trigger] arrows@[m]).target == x;
                assert(arrows@[m].target == x);
            }
        }
    }
    (left, entered)
}

fn pattern_of(asked: &Option<Expression>) -> (r: Option<&String>)
    ensures
        match r {
            Some(pattern) => *asked == Some(Expression::Regex(*pattern)),
            None => !(*asked matches Some(Expression::Regex(_))),
        },
{
    match asked {
        Some(Expression::Regex(pattern)) => Some(pattern),
        _ => None,
    }
}

fn meets(pattern: Option<&String>, text: &str) -> (r: bool)
    requires
        pattern matches Some(p) ==> regex_compiles(p@),
    ensures
        r == match pattern {
            Some(p) => regex_accepts(p@, text@),
            None => true,
        },
{
    match pattern {
        Some(p) => match regex_search(p.as_str(), text) {
            Some(found) => found,
            None => false,
        },
        None => true,
    }
}

impl Condition {
    /// Keeps the tasks that meet the flags asked for.
    pub fn filter_boolean(&self, tasks: Vec<ResTask>, arrows: &Arrows) -> (r: Vec<ResTask>)
        ensures
            r@ == meeting(tasks@, |task: ResTask| meets_flags(self.boolean, arrows@, task)),
    {
        let (left, entered) = ends(arrows);
        let mut keep: Vec<bool> = Vec::new();
        let mut k: usize = 0;
        while k < tasks.len()
            invariant
                k <= tasks.len(),
                keep@.len() == k,
                forall|x: i32| left@.contains(x) <==> !no_outgoing(arrows@, x),
                forall|x: i32| entered@.contains(x) <==> !no_incoming(arrows@, x),
                forall|j: int|
                    0 <= j < k ==> #[trigger] keep@[j] == meets_flags(self.boolean, arrows@, tasks@[j]),
            decreases tasks.len() - k,
        {
            let task = &tasks[k];
            let archived = match self.boolean.is_archived {
                Some(b) => task.is_archived == b,
                None => true,
            };
            let starred = match self.boolean.is_starred {
                Some(b) => task.is_starred == b,
                None => true,
            };
            let leaf = match self.boolean.is_leaf {
                Some(b) => !left.contains(&task.id) == b,
                None => true,
            };
            let root = match self.boolean.is_root {
                Some(b) => !entered.contains(&task.id) == b,
                None => true,
            };
            keep.push(archived && starred && leaf && root);
            k += 1;
        }
        proof {
            lemma_flagged_agrees(
                tasks@,
                keep@,
                Seq::new(
                    tasks@.len(),
                    |k: int| (|task: ResTask| meets_flags(self.boolean, arrows@, task))(tasks@[k]),
                ),
            );
        }
        retain_flagged(tasks, &keep)
    }

    /// Keeps the tasks that lie in the context asked for.
    pub fn filter_context(&self, tasks: Vec<ResTask>, arrows: &Arrows) -> (r: Vec<ResTask>)
        ensures
            r@ == meeting(tasks@, |task: ResTask| in_context(self.context, arrows@, task.id)),
    {
        let toward = match self.context.0 {
            Some(id) => Some(as_set(&arrows.reachable(id, Direction::TowardSources))),
            None => None,
        };
        let from = match self.context.1 {
            Some(id) => Some(as_set(&arrows.reachable(id, Direction::TowardTargets))),
            None => None,
        };
        let mut keep: Vec<bool> = Vec::new();
        let mut k: usize = 0;
        while k < tasks.len()
            invariant
                k <= tasks.len(),
                keep@.len() == k,
                match (self.context.0, toward) {
                    (Some(id), Some(set)) => forall|x: i32|
                        set@.contains(x) <==> reaches(arrows@, Direction::TowardSources, id, x),
                    (None, None) => true,
                    _ => false,
                },
                match (self.context.1, from) {
                    (Some(id), Some(set)) => forall|x: i32|
                        set@.contains(x) <==> reaches(arrows@, Direction::TowardTargets, id, x),
                    (None, None) => true,
                    _ => false,
                },
                forall|j: int|
                    0 <= j < k ==> #[trigger] keep@[j] == in_context(
                        self.context,
                        arrows@,
                        tasks@[j].id,
                    ),
            decreases tasks.len() - k,
        {
            let id = tasks[k].id;
            let leads = match &toward {
                Some(set) => set.contains(&id),
                None => true,
            };
            let led = match &from {
                Some(set) => set.contains(&id),
                None => true,
            };
            keep.push(leads && led);
            k += 1;
        }
        proof {
            lemma_flagged_agrees(
                tasks@,
                keep@,
                Seq::new(
                    tasks@.len(),
                    |k: int| (|task: ResTask| in_context(self.context, arrows@, task.id))(tasks@[k]),
                ),
            );
        }
        retain_flagged(tasks, &keep)
    }

    /// Keeps the tasks whose title, assignee and link meet the patterns asked
    /// for; a column without a pattern is not looked at. A pattern that cannot
    /// be compiled is reported, the title's before the assignee's before the
    /// link's, whatever the tasks are.
    pub fn filter_regex(&self, tasks: Vec<ResTask>) -> (r: Result<Vec<ResTask>, Rejection>)
        ensures
            match r {
                Ok(kept) => {
                    &&& pattern_sound(*self, Column::Title)
                    &&& pattern_sound(*self, Column::Assign)
                    &&& pattern_sound(*self, Column::Link)
                    &&& kept@ == meeting(tasks@, |task: ResTask| meets_patterns(*self, task))
                },
                Err(Rejection::Pattern { column: Column::Title }) => !pattern_sound(
                    *self,
                    Column::Title,
                ),
                Err(Rejection::Pattern { column: Column::Assign }) => pattern_sound(
                    *self,
                    Column::Title,
                ) && !pattern_sound(*self, Column::Assign),
                Err(Rejection::Pattern { column: Column::Link }) => pattern_sound(
                    *self,
                    Column::Title,
                ) && pattern_sound(*self, Column::Assign) && !pattern_sound(*self, Column::Link),
                Err(_) => false,
            },
    {
        let title = pattern_of(&self.title);
        match title {
            Some(pattern) => {
                if regex_search(pattern.as_str(), "").is_none() {
                    return Err(Rejection::Pattern { column: Column::Title });
                }
            },
            None => {},
        }
        let assign = pattern_of(&self.assign);
        match assign {
            Some(pattern) => {
                if regex_search(pattern.as_str(), "").is_none() {
                    return Err(Rejection::Pattern { column: Column::Assign });
                }
            },
            None => {},
        }
        let link = pattern_of(&self.link);
        match link {
            Some(pattern) => {
                if regex_search(pattern.as_str(), "").is_none() {
                    return Err(Rejection::Pattern { column: Column::Link });
                }
            },
            None => {},
        }
        let mut keep: Vec<bool> = Vec::new();
        let mut k: usize = 0;
        while k < tasks.len()
            invariant
                k <= tasks.len(),
                keep@.len() == k,
                title matches Some(p) ==> regex_compiles(p@),
                assign matches Some(p) ==> regex_compiles(p@),
                link matches Some(p) ==> regex_compiles(p@),
                pattern_for(*self, Column::Title) == match title {
                    Some(p) => Some(p@),
                    None => None,
                },
                pattern_for(*self, Column::Assign) == match assign {
                    Some(p) => Some(p@),
                    None => None,
                },
                pattern_for(*self, Column::Link) == match link {
                    Some(p) => Some(p@),
                    None => None,
                },
                forall|j: int| 0 <= j < k ==> #[trigger] keep@[j] == meets_patterns(*self, tasks@[j]),
            decreases tasks.len() - k,
        {
            let task = &tasks[k];
            // a column is looked at only where the columns before it are met
            let kept = if !meets(title, task.title.as_str()) {
                false
            } else if !meets(assign, task.assign.as_str()) {
                false
            } else {
                match &task.link {
                    Some(text) => meets(link, text.as_str()),
                    None => {
                        proof {
                            reveal_strlit("");
                            assert(""@ =~= Seq::<char>::empty());
                        }
                        meets(link, "")
                    },
                }
            };
            keep.push(kept);
            k += 1;
        }
        proof {
            lemma_flagged_agrees(
                tasks@,
                keep@,
                Seq::new(
                    tasks@.len(),
                    |k: int| (|task: ResTask| meets_patterns(*self, task))(tasks@[k]),
                ),
            );
        }
        Ok(retain_flagged(tasks, &keep))
    }
}

} // verus!
