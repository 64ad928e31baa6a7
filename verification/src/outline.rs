//! The outline compiler: from the lines of an outline to temporary tasks and
//! the temporary arrows between them. Lines are addressed by their position.

use crate::clock::{globalize, LocalMoment};
use crate::graph::{Arrow, Arrows};
use crate::rejection::{Field, Rejection};
use vstd::prelude::*;

verus! {

/// What a line says about its task.
#[derive(Debug)]
pub struct Attribute {
    pub is_starred: bool,
    /// The existing task that the line updates; none where it creates one.
    pub id: Option<i32>,
    /// The weight as the bits of a single-precision number, carried through.
    pub weight: Option<u32>,
    /// The label under which other lines may refer to this one.
    pub joint_head: Option<String>,
    /// The labels of the lines that this one refers to.
    pub joint_tails: Vec<String>,
    pub assign: Option<String>,
    pub startable: Option<LocalMoment>,
    pub deadline: Option<LocalMoment>,
    pub title: String,
}

/// One line of an outline.
#[derive(Debug)]
pub struct ReqTask {
    pub indent: i32,
    pub attribute: Attribute,
    pub link: Option<String>,
}

/// An outline: its lines from top to bottom.
#[derive(Debug)]
pub struct ReqTasks {
    pub tasks: Vec<ReqTask>,
}

/// Who asks: the actor's identifier and the name of the zone they live in.
#[derive(Debug)]
pub struct AuthedUser {
    pub id: i32,
    pub tz: String,
}

/// The instants that a line's moments name, where they name one.
#[derive(Clone, Copy, Debug, PartialEq, Eq, Structural)]
pub struct Instants {
    pub startable: Option<i64>,
    pub deadline: Option<i64>,
}

/// A task of a batch before validation. Moments are seconds since the epoch.
#[derive(Debug)]
pub struct TmpTask {
    pub id: Option<i32>,
    pub title: String,
    pub assign: Option<String>,
    pub is_starred: bool,
    pub startable: Option<i64>,
    pub deadline: Option<i64>,
    pub weight: Option<u32>,
    pub link: Option<String>,
}

/// The arrow from line `src` to line `tgt`.
pub open spec fn arrow_between(src: int, tgt: int) -> Arrow {
    Arrow { source: src as i32, target: tgt as i32 }
}

/// The nearest line at a position below `below` that is indented less than line `i`.
pub open spec fn nearest_shallower(lines: Seq<ReqTask>, i: int, below: int) -> Option<int>
    decreases below,
{
    if below <= 0 {
        None
    } else if lines[below - 1].indent < lines[i].indent {
        Some(below - 1)
    } else {
        nearest_shallower(lines, i, below - 1)
    }
}

/// Line `j` is the nearest line above line `i` that is indented less.
pub open spec fn is_indent_parent(lines: Seq<ReqTask>, i: int, j: int) -> bool {
    &&& 0 <= j < i < lines.len()
    &&& lines[j].indent < lines[i].indent
    &&& forall|k: int| j < k < i ==> (#[trigger] lines[k]).indent >= lines[i].indent
}

/// One of the labels is `head`.
pub open spec fn names(tails: Seq<String>, head: Seq<char>) -> bool {
    exists|t: int| 0 <= t < tails.len() && (#[trigger] tails[t])@ == head
}

/// Line `k` refers to the label that line `i` declares.
pub open spec fn joined(lines: Seq<ReqTask>, i: int, k: int) -> bool {
    match lines[i].attribute.joint_head {
        Some(head) => names(lines[k].attribute.joint_tails@, head@),
        None => false,
    }
}

/// The arrows of line `src` by joints to the lines at positions below `upto`,
/// from the last of them to the first.
pub open spec fn joint_arrows(lines: Seq<ReqTask>, src: int, upto: int) -> Seq<Arrow>
    decreases upto,
{
    if upto <= 0 {
        Seq::empty()
    } else if joined(lines, src, upto - 1) {
        seq![arrow_between(src, upto - 1)] + joint_arrows(lines, src, upto - 1)
    } else {
        joint_arrows(lines, src, upto - 1)
    }
}

/// The arrow of line `src` by indentation, if it has one.
pub open spec fn indent_arrow(lines: Seq<ReqTask>, src: int) -> Seq<Arrow> {
    match nearest_shallower(lines, src, src) {
        Some(tgt) => seq![arrow_between(src, tgt)],
        None => Seq::empty(),
    }
}

/// The arrows of the lines at positions below `upto`, from the last of them to
/// the first; for each line its arrow by indentation, then its arrows by joints.
pub open spec fn compiled_arrows(lines: Seq<ReqTask>, upto: int) -> Seq<Arrow>
    decreases upto,
{
    if upto <= 0 {
        Seq::empty()
    } else {
        indent_arrow(lines, upto - 1) + joint_arrows(lines, upto - 1, lines.len() as int)
            + compiled_arrows(lines, upto - 1)
    }
}

/// The moment of the line that names no instant, if there is one.
pub open spec fn unresolved(line: ReqTask, at: Instants) -> Option<Field> {
    if line.attribute.startable is Some && at.startable is None {
        Some(Field::Startable)
    } else if line.attribute.deadline is Some && at.deadline is None {
        Some(Field::Deadline)
    } else {
        None
    }
}

/// The temporary task that a line describes, given the instants of its moments.
pub open spec fn tmp_task(line: ReqTask, at: Instants) -> TmpTask {
    TmpTask {
        id: line.attribute.id,
        title: line.attribute.title,
        assign: line.attribute.assign,
        is_starred: line.attribute.is_starred,
        startable: if line.attribute.startable is Some {
            at.startable
        } else {
            None
        },
        deadline: if line.attribute.deadline is Some {
            at.deadline
        } else {
            None
        },
        weight: line.attribute.weight,
        link: line.link,
    }
}

/// The instants that the zone database gives for a line's moments.
pub open spec fn instants_in(line: ReqTask, tz: Seq<char>) -> Instants {
    Instants {
        startable: match line.attribute.startable {
            Some(moment) => moment.instant(tz),
            None => None,
        },
        deadline: match line.attribute.deadline {
            Some(moment) => moment.instant(tz),
            None => None,
        },
    }
}

/// An arrow of the outline: from a line to the nearest line above it that is
/// indented less, or from a line to a line that refers to its label.
pub open spec fn wired(lines: Seq<ReqTask>, a: Arrow) -> bool {
    &&& 0 <= a.source < lines.len()
    &&& 0 <= a.target < lines.len()
    &&& is_indent_parent(lines, a.source as int, a.target as int) || joined(
        lines,
        a.source as int,
        a.target as int,
    )
}

/// `nearest_shallower` finds the indentation parent.
pub proof fn lemma_nearest_shallower(lines: Seq<ReqTask>, i: int, below: int)
    requires
        0 <= below <= i < lines.len(),
    ensures
        match nearest_shallower(lines, i, below) {
            Some(j) => 0 <= j < below && lines[j].indent < lines[i].indent && forall|k: int|
                j < k < below ==> (#[trigger] lines[k]).indent >= lines[i].indent,
            None => forall|k: int| 0 <= k < below ==> (#[trigger] lines[k]).indent >= lines[i].indent,
        },
    decreases below,
{
    if below > 0 && !(lines[below - 1].indent < lines[i].indent) {
        lemma_nearest_shallower(lines, i, below - 1);
    }
}

/// The arrows by joints of one line are those to the lines that refer to it.
pub proof fn lemma_joint_arrows(lines: Seq<ReqTask>, src: int, upto: int, a: Arrow)
    requires
        0 <= src < lines.len() <= i32::MAX,
        0 <= upto <= lines.len(),
    ensures
        joint_arrows(lines, src, upto).contains(a) <==> a.source == src && 0 <= a.target < upto
            && joined(lines, src, a.target as int),
    decreases upto,
{
    if upto > 0 {
        lemma_joint_arrows(lines, src, upto - 1, a);
        let rest = joint_arrows(lines, src, upto - 1);
        if joined(lines, src, upto - 1) {
            let first = seq![arrow_between(src, upto - 1)];
            let all = first + rest;
            if all.contains(a) {
                let i = choose|i: int| 0 <= i < all.len() && all[i] == a;
                if i > 0 {
                    assert(rest[i - 1] == a);
                }
            }
            if rest.contains(a) {
                let i = choose|i: int| 0 <= i < rest.len() && rest[i] == a;
                assert(all[i + 1] == a);
            }
            assert(all[0] == arrow_between(src, upto - 1));
        }
    }
}

/// The compiled arrows are exactly the arrows that the two rules give: from a
/// line to its indentation parent, and from a line to each line that refers to
/// its label.
pub proof fn lemma_compiled_arrows(lines: Seq<ReqTask>, upto: int, a: Arrow)
    requires
        lines.len() <= i32::MAX,
        0 <= upto <= lines.len(),
    ensures
        compiled_arrows(lines, upto).contains(a) <==> a.source < upto && wired(lines, a),
    decreases upto,
{
    if upto > 0 {
        let src = upto - 1;
        lemma_compiled_arrows(lines, src, a);
        lemma_joint_arrows(lines, src, lines.len() as int, a);
        lemma_nearest_shallower(lines, src, src);
        let by_indent = indent_arrow(lines, src);
        let by_joint = joint_arrows(lines, src, lines.len() as int);
        let rest = compiled_arrows(lines, src);
        let all = by_indent + by_joint + rest;
        if all.contains(a) {
            let i = choose|i: int| 0 <= i < all.len() && all[i] == a;
            if i < by_indent.len() {
                assert(by_indent[i] == a);
            } else if i < by_indent.len() + by_joint.len() {
                assert(by_joint[i - by_indent.len()] == a);
            } else {
                assert(rest[i - by_indent.len() - by_joint.len()] == a);
            }
        }
        if by_indent.contains(a) {
            let i = choose|i: int| 0 <= i < by_indent.len() && by_indent[i] == a;
            assert(all[i] == a);
        }
        if by_joint.contains(a) {
            let i = choose|i: int| 0 <= i < by_joint.len() && by_joint[i] == a;
            assert(all[by_indent.len() + i] == a);
        }
        if rest.contains(a) {
            let i = choose|i: int| 0 <= i < rest.len() && rest[i] == a;
            assert(all[by_indent.len() + by_joint.len() + i] == a);
        }
        if a.source == src && is_indent_parent(lines, src, a.target as int) {
            assert(by_indent[0] == a);
        }
    }
}

fn tails_name(tails: &Vec<String>, head: &String) -> (r: bool)
    ensures
        r == names(tails@, head@),
{
    let mut t: usize = 0;
    while t < tails.len()
        invariant
            t <= tails.len(),
            forall|k: int| 0 <= k < t ==> (#[trigger] tails@[k])@ != head@,
        decreases tails.len() - t,
    {
        if tails[t] == *head {
            return true;
        }
        t += 1;
    }
    false
}

pub(crate) fn copy_text(text: &Option<String>) -> (r: Option<String>)
    ensures
        r == *text,
{
    match text {
        Some(s) => Some(s.clone()),
        None => None,
    }
}

impl ReqTasks {
    /// The temporary arrows of the outline: one from each line to the nearest
    /// line above it that is indented less, and one from each line that
    /// declares a label to each line that refers to it. They come line by
    /// line from the last line to the first.
    pub fn arrows(&self) -> (r: Arrows)
        requires
            self.tasks.len() <= i32::MAX,
        ensures
            r@ == compiled_arrows(self.tasks@, self.tasks.len() as int),
            forall|a: Arrow| r@.contains(a) <==> wired(self.tasks@, a),
    {
        let ghost lines = self.tasks@;
        let n = self.tasks.len();
        let mut out: Vec<Arrow> = Vec::new();
        let mut src: usize = n;
        while src > 0
            invariant
                src <= n,
                n == self.tasks.len(),
                n <= i32::MAX,
                lines == self.tasks@,
                out@ + compiled_arrows(lines, src as int) == compiled_arrows(lines, n as int),
            decreases src,
        {
            let ghost above = out@;
            src -= 1;
            let mut j: usize = src;
            let mut parent: Option<usize> = None;
            while j > 0 && parent.is_none()
                invariant
                    j <= src < n,
                    n == self.tasks.len(),
                    lines == self.tasks@,
                    match parent {
                        Some(p) => nearest_shallower(lines, src as int, src as int) == Some(p as int)
                            && p < src,
                        None => nearest_shallower(lines, src as int, src as int)
                            == nearest_shallower(lines, src as int, j as int),
                    },
                decreases j + if parent.is_none() { 1int } else { 0int },
            {
                j -= 1;
                if self.tasks[j].indent < self.tasks[src].indent {
                    parent = Some(j);
                }
            }
            match parent {
                Some(p) => {
                    out.push(Arrow { source: src as i32, target: p as i32 });
                },
                None => {},
            }
            assert(out@ =~= above + indent_arrow(lines, src as int));
            let ghost indented = out@;
            let mut tgt: usize = n;
            while tgt > 0
                invariant
                    tgt <= n,
                    src < n,
                    n == self.tasks.len(),
                    n <= i32::MAX,
                    lines == self.tasks@,
                    out@ + joint_arrows(lines, src as int, tgt as int) == indented + joint_arrows(
                        lines,
                        src as int,
                        n as int,
                    ),
                decreases tgt,
            {
                let ghost sofar = out@;
                tgt -= 1;
                let refers = match &self.tasks[src].attribute.joint_head {
                    Some(head) => tails_name(&self.tasks[tgt].attribute.joint_tails, head),
                    None => false,
                };
                if refers {
                    out.push(Arrow { source: src as i32, target: tgt as i32 });
                }
                assert(out@ + joint_arrows(lines, src as int, tgt as int) =~= sofar + joint_arrows(
                    lines,
                    src as int,
                    tgt as int + 1,
                ));
            }
            assert(out@ + compiled_arrows(lines, src as int) =~= above + compiled_arrows(
                lines,
                src as int + 1,
            ));
        }
        assert(out@ =~= out@ + compiled_arrows(lines, 0));
        assert forall|a: Arrow| out@.contains(a) <==> wired(lines, a) by {
            lemma_compiled_arrows(lines, n as int, a);
        }
        Arrows { arrows: out }
    }
}

/// Every arrow joins two positions of the batch.
pub open spec fn in_range(count: nat, arrows: Seq<Arrow>) -> bool {
    forall|k: int|
        0 <= k < arrows.len() ==> 0 <= (#[trigger] arrows[k]).source < count && 0
            <= arrows[k].target < count
}

/// A compiled batch: temporary tasks, and temporary arrows between their
/// positions. It is what validation takes.
#[derive(Debug)]
pub struct Acceptor {
    pub(crate) tasks: Vec<TmpTask>,
    pub(crate) arrows: Arrows,
}

impl Acceptor {
    #[verifier::type_invariant]
    pub(crate) open spec fn wired_within(&self) -> bool {
        in_range(self.tasks@.len(), self.arrows@)
    }

    /// The tasks of the batch, in the order of its lines.
    pub open(crate) spec fn lines(&self) -> Seq<TmpTask> {
        self.tasks@
    }

    /// The arrows of the batch, over positions.
    pub open(crate) spec fn wires(&self) -> Seq<Arrow> {
        self.arrows@
    }

    /// A batch of the given tasks and arrows, where every arrow joins two of
    /// the tasks' positions.
    pub fn new(tasks: Vec<TmpTask>, arrows: Arrows) -> (r: Option<Acceptor>)
        ensures
            r is Some <==> in_range(tasks@.len(), arrows@),
            r matches Some(batch) ==> batch.lines() == tasks@ && batch.wires() == arrows@,
    {
        let mut k: usize = 0;
        while k < arrows.arrows.len()
            invariant
                k <= arrows@.len(),
                forall|m: int|
                    0 <= m < k ==> 0 <= (#[trigger] arrows@[m]).source < tasks@.len() && 0
                        <= arrows@[m].target < tasks@.len(),
            decreases arrows@.len() - k,
        {
            let a = arrows.arrows[k];
            if a.source < 0 || a.target < 0 || a.source as usize >= tasks.len() || a.target as usize
                >= tasks.len() {
                return None;
            }
            k += 1;
        }
        Some(Acceptor { tasks, arrows })
    }

    /// The tasks of the batch.
    pub fn tasks(&self) -> (r: &Vec<TmpTask>)
        ensures
            r@ == self.lines(),
    {
        &self.tasks
    }

    /// The arrows of the batch.
    pub fn arrows(&self) -> (r: &Arrows)
        ensures
            r@ == self.wires(),
    {
        &self.arrows
    }
}

/// The instants given for line `k`; none where none are given.
pub open spec fn given(at: Seq<Instants>, k: int) -> Instants {
    if 0 <= k < at.len() {
        at[k]
    } else {
        Instants { startable: None, deadline: None }
    }
}

/// What compiling the lines gives, where `at` holds the instants of each line's
/// moments: the batch, or the first moment that names no instant.
pub open spec fn assembles(
    lines: Seq<ReqTask>,
    at: Seq<Instants>,
    r: Result<Acceptor, Rejection>,
) -> bool {
    match r {
        Ok(batch) => {
            &&& forall|k: int|
                0 <= k < lines.len() ==> unresolved(#[trigger] lines[k], given(at, k)) is None
            &&& batch.lines().len() == lines.len()
            &&& forall|k: int|
                0 <= k < lines.len() ==> #[trigger] batch.lines()[k] == tmp_task(
                    lines[k],
                    given(at, k),
                )
            &&& batch.wires() == compiled_arrows(lines, lines.len() as int)
        },
        Err(Rejection::Unresolved { line, field }) => {
            &&& line < lines.len()
            &&& unresolved(lines[line as int], given(at, line as int)) == Some(field)
            &&& forall|k: int| 0 <= k < line ==> unresolved(#[trigger] lines[k], given(at, k)) is None
        },
        Err(_) => false,
    }
}

impl ReqTasks {
    /// Compiles the outline, given for each line the instants that its moments
    /// name; a line for which nothing is given has none. Either every moment
    /// of every line names an instant and the batch holds one task per line
    /// and the arrows of `arrows`, or the first moment that names none is
    /// reported.
    pub fn assemble(&self, instants: &Vec<Instants>) -> (r: Result<Acceptor, Rejection>)
        requires
            self.tasks.len() <= i32::MAX,
        ensures
            assembles(self.tasks@, instants@, r),
    {
        let ghost lines = self.tasks@;
        let n = self.tasks.len();
        let mut tasks: Vec<TmpTask> = Vec::new();
        let mut i: usize = 0;
        while i < n
            invariant
                i <= n,
                n == self.tasks.len(),
                lines == self.tasks@,
                tasks@.len() == i,
                forall|k: int|
                    0 <= k < i ==> unresolved(#[trigger] lines[k], given(instants@, k)) is None,
                forall|k: int|
                    0 <= k < i ==> #[trigger] tasks@[k] == tmp_task(lines[k], given(instants@, k)),
            decreases n - i,
        {
            let line = &self.tasks[i];
            let at = if i < instants.len() {
                instants[i]
            } else {
                Instants { startable: None, deadline: None }
            };
            let startable = match line.attribute.startable {
                Some(_) => match at.startable {
                    Some(instant) => Some(instant),
                    None => {
                        return Err(Rejection::Unresolved { line: i, field: Field::Startable });
                    },
                },
                None => None,
            };
            let deadline = match line.attribute.deadline {
                Some(_) => match at.deadline {
                    Some(instant) => Some(instant),
                    None => {
                        return Err(Rejection::Unresolved { line: i, field: Field::Deadline });
                    },
                },
                None => None,
            };
            tasks.push(
                TmpTask {
                    id: line.attribute.id,
                    title: line.attribute.title.clone(),
                    assign: copy_text(&line.attribute.assign),
                    is_starred: line.attribute.is_starred,
                    startable,
                    deadline,
                    weight: line.attribute.weight,
                    link: copy_text(&line.link),
                },
            );
            i += 1;
        }
        let arrows = self.arrows();
        proof {
            assert forall|k: int| 0 <= k < arrows@.len() implies 0 <= (#[trigger] arrows@[k]).source
                < n && 0 <= arrows@[k].target < n by {
                assert(arrows@.contains(arrows@[k]));
                lemma_compiled_arrows(lines, n as int, arrows@[k]);
            }
        }
        Ok(Acceptor { tasks, arrows })
    }

    /// Compiles the outline for a requester: each moment is read in the
    /// requester's zone, and the rest is `assemble`.
    pub fn read(&self, user: &AuthedUser) -> (r: Result<Acceptor, Rejection>)
        requires
            self.tasks.len() <= i32::MAX,
        ensures
            assembles(
                self.tasks@,
                Seq::new(self.tasks@.len(), |k: int| instants_in(self.tasks@[k], user.tz@)),
                r,
            ),
    {
        let n = self.tasks.len();
        let mut instants: Vec<Instants> = Vec::new();
        let mut i: usize = 0;
        while i < n
            invariant
                i <= n,
                n == self.tasks.len(),
                instants@.len() == i,
                forall|k: int|
                    0 <= k < i ==> #[trigger] instants@[k] == instants_in(self.tasks@[k], user.tz@),
            decreases n - i,
        {
            let line = &self.tasks[i];
            let startable = match &line.attribute.startable {
                Some(moment) => globalize(user.tz.as_str(), moment),
                None => None,
            };
            let deadline = match &line.attribute.deadline {
                Some(moment) => globalize(user.tz.as_str(), moment),
                None => None,
            };
            instants.push(Instants { startable, deadline });
            i += 1;
        }
        assert(instants@ =~= Seq::new(
            self.tasks@.len(),
            |k: int| instants_in(self.tasks@[k], user.tz@),
        ));
        self.assemble(&instants)
    }
}

} // verus!
